//! Liberty text: the brace-delimited groups of cells, pins, timing tables
//! and leakage entries.  Positions are character positions.
use vstd::prelude::*;

use crate::aiger_text::{trim_chars, trimmed};
use crate::text::{chars_of, push_str, string_of};

verus! {

/// Whether `pat` occurs in `s` at position `i`.
pub open spec fn occurs_at(s: Seq<char>, pat: Seq<char>, i: int) -> bool {
    0 <= i && i + pat.len() <= s.len() && s.subrange(i, i + pat.len()) == pat
}

/// The first position at or after `from` where `pat` occurs (`str::find`
/// on the rest of the text).
pub open spec fn find_from(s: Seq<char>, pat: Seq<char>, from: nat) -> Option<nat>
    decreases s.len() + 1 - from,
{
    if from + pat.len() > s.len() {
        None
    } else if occurs_at(s, pat, from as int) {
        Some(from)
    } else {
        find_from(s, pat, from + 1)
    }
}

/// The position of the `}` that brings the brace depth back to zero,
/// scanning from `i` at depth `depth`.
pub open spec fn close_from(s: Seq<char>, i: nat, depth: int) -> Option<nat>
    decreases s.len() - i,
{
    if i >= s.len() {
        None
    } else if s[i as int] == '{' {
        close_from(s, i + 1, depth + 1)
    } else if s[i as int] == '}' {
        if depth - 1 == 0 {
            Some(i)
        } else {
            close_from(s, i + 1, depth - 1)
        }
    } else {
        close_from(s, i + 1, depth)
    }
}

proof fn lemma_find_from(s: Seq<char>, pat: Seq<char>, from: nat)
    ensures
        find_from(s, pat, from) matches Some(i) ==> from <= i && occurs_at(s, pat, i as int),
    decreases s.len() + 1 - from,
{
    if from + pat.len() <= s.len() && !occurs_at(s, pat, from as int) {
        lemma_find_from(s, pat, from + 1);
    }
}

proof fn lemma_close_from(s: Seq<char>, i: nat, depth: int)
    ensures
        close_from(s, i, depth) matches Some(c) ==> i <= c < s.len() && s[c as int] == '}',
    decreases s.len() - i,
{
    if i < s.len() {
        if s[i as int] == '{' {
            lemma_close_from(s, i + 1, depth + 1);
        } else if s[i as int] == '}' {
            if depth - 1 != 0 {
                lemma_close_from(s, i + 1, depth - 1);
            }
        } else {
            lemma_close_from(s, i + 1, depth);
        }
    }
}

/// A close inside a prefix-equal region is a close of the region itself.
proof fn lemma_close_in_prefix(s: Seq<char>, t: Seq<char>, st: nat, j: nat, depth: int)
    requires
        st + t.len() <= s.len(),
        s.subrange(st as int, (st + t.len()) as int) == t,
        j <= t.len(),
    ensures
        match close_from(s, st + j, depth) {
            Some(c) => c < st + t.len() ==> close_from(t, j, depth) == Some((c - st) as nat),
            None => true,
        },
    decreases t.len() - j,
{
    lemma_close_from(s, st + j, depth);
    if j < t.len() {
        assert(s[(st + j) as int] == t[j as int]);
        if t[j as int] == '{' {
            lemma_close_in_prefix(s, t, st, j + 1, depth + 1);
        } else if t[j as int] == '}' {
            if depth - 1 != 0 {
                lemma_close_in_prefix(s, t, st, j + 1, depth - 1);
            }
        } else {
            lemma_close_in_prefix(s, t, st, j + 1, depth);
        }
    }
}

/// Finds `pat` at or after `from`.
pub fn find_chars(s: &Vec<char>, pat: &Vec<char>, from: usize) -> (r: Option<usize>)
    requires
        from <= s@.len(),
    ensures
        match r {
            None => find_from(s@, pat@, from as nat) is None,
            Some(i) => find_from(s@, pat@, from as nat) == Some(i as nat),
        },
{
    if pat.len() > s.len() {
        return None;
    }
    let mut i = from;
    while i <= s.len() - pat.len()
        invariant
            from <= i <= s@.len(),
            pat@.len() <= s@.len(),
            find_from(s@, pat@, from as nat) == find_from(s@, pat@, i as nat),
        decreases s.len() - i,
    {
        let mut k: usize = 0;
        while k < pat.len() && s[i + k] == pat[k]
            invariant
                0 <= k <= pat.len(),
                i + pat.len() <= s.len(),
                forall|j: int| 0 <= j < k ==> s@[i + j] == pat@[j],
            decreases pat.len() - k,
        {
            k = k + 1;
        }
        if k == pat.len() {
            assert(s@.subrange(i as int, i + pat@.len()) =~= pat@);
            return Some(i);
        }
        assert(s@.subrange(i as int, i + pat@.len())[k as int] != pat@[k as int]);
        i = i + 1;
    }
    None
}

/// Finds the closing brace of a group scanned from `from` at depth 0.
fn find_close(s: &Vec<char>, from: usize) -> (r: Option<usize>)
    requires
        s@.len() <= i32::MAX,
    ensures
        match r {
            None => close_from(s@, from as nat, 0) is None,
            Some(i) => close_from(s@, from as nat, 0) == Some(i as nat),
        },
{
    let mut i = from;
    let mut depth: i64 = 0;
    while i < s.len()
        invariant
            from <= i,
            s@.len() <= i32::MAX,
            -(i as int) + (from as int) <= depth <= (i as int) - (from as int),
            close_from(s@, from as nat, 0) == close_from(s@, i as nat, depth as int),
        decreases s.len() - i,
    {
        if s[i] == '{' {
            depth = depth + 1;
        } else if s[i] == '}' {
            if depth - 1 == 0 {
                return Some(i);
            }
            depth = depth - 1;
        }
        i = i + 1;
    }
    None
}

/// `"cell (" + name + ") {"`.
pub open spec fn cell_marker(name: Seq<char>) -> Seq<char> {
    "cell ("@ + name + ") {"@
}

/// `"pin (" + name + ") {"`.
pub open spec fn pin_marker(name: Seq<char>) -> Seq<char> {
    "pin ("@ + name + ") {"@
}

/// The inside of the first group that starts with `marker`: from after the
/// marker to the brace that closes the group.
pub open spec fn group_body(s: Seq<char>, marker: Seq<char>) -> Option<Seq<char>> {
    match find_from(s, marker, 0) {
        None => None,
        Some(st) => match close_from(s, st, 0) {
            None => None,
            Some(c) => Some(s.subrange((st + marker.len()) as int, c as int)),
        },
    }
}

fn group_body_exec(s: &Vec<char>, marker: &Vec<char>) -> (r: Option<String>)
    requires
        s@.len() <= i32::MAX,
        find_from(s@, marker@, 0) is Some ==> close_from(marker@, 0, 0) is None,
    ensures
        match group_body(s@, marker@) {
            None => r is None,
            Some(b) => r matches Some(x) && x@ == b,
        },
{
    let st = match find_chars(s, marker, 0) {
        Some(st) => st,
        None => {
            return None;
        },
    };
    proof {
        lemma_find_from(s@, marker@, 0);
    }
    let c = match find_close(s, st) {
        Some(c) => c,
        None => {
            return None;
        },
    };
    proof {
        lemma_close_in_prefix(s@, marker@, st as nat, 0, 0);
        lemma_close_from(s@, st as nat, 0);
    }
    let mut out: Vec<char> = Vec::new();
    let mut k = st + marker.len();
    while k < c
        invariant
            st + marker@.len() <= k <= c,
            c < s@.len(),
            out@ == s@.subrange(st + marker@.len(), k as int),
        decreases c - k,
    {
        out.push(s[k]);
        assert(s@.subrange(st + marker@.len(), k + 1) =~= s@.subrange(st + marker@.len(), k as int).push(s@[k as int]));
        k = k + 1;
    }
    Some(string_of(out.as_slice()))
}

fn marker_of(prefix: &str, name: &str, suffix: &str) -> (r: Vec<char>)
    ensures
        r@ == prefix@ + name@ + suffix@,
{
    let mut v: Vec<char> = Vec::new();
    push_str(&mut v, prefix);
    push_str(&mut v, name);
    push_str(&mut v, suffix);
    v
}

/// The body of cell `cell_name`: the text between `cell (<name>) {` and
/// its closing brace.
pub fn extract_cell_content(lib_content: &str, cell_name: &str) -> (r: Option<String>)
    requires
        lib_content@.len() <= i32::MAX,
        find_from(lib_content@, cell_marker(cell_name@), 0) is Some ==> close_from(
            cell_marker(cell_name@),
            0,
            0,
        ) is None,
    ensures
        match group_body(lib_content@, cell_marker(cell_name@)) {
            None => r is None,
            Some(b) => r matches Some(x) && x@ == b,
        },
{
    let s = chars_of(lib_content);
    let marker = marker_of("cell (", cell_name, ") {");
    group_body_exec(&s, &marker)
}

/// The body of pin `output_pin` of a cell (empty when there is none).
pub fn extract_pin_y_content(cell_content: &str, output_pin: &str) -> (r: String)
    requires
        cell_content@.len() <= i32::MAX,
        find_from(cell_content@, pin_marker(output_pin@), 0) is Some ==> close_from(
            pin_marker(output_pin@),
            0,
            0,
        ) is None,
    ensures
        match group_body(cell_content@, pin_marker(output_pin@)) {
            None => r@.len() == 0,
            Some(b) => r@ == b,
        },
{
    let s = chars_of(cell_content);
    let marker = marker_of("pin (", output_pin, ") {");
    match group_body_exec(&s, &marker) {
        Some(b) => b,
        None => String::new(),
    }
}

/// The bodies (inside the braces) of the groups that start with `marker`,
/// from position `offset` on: each group opens at the first `{` after its
/// marker and the scan goes on after its closing brace; it stops at a marker
/// without a `{` or a group without its closing brace.
pub open spec fn blocks_from(s: Seq<char>, marker: Seq<char>, offset: nat) -> Seq<Seq<char>>
    decreases s.len() + 1 - offset,
{
    match find_from(s, marker, offset) {
        None => Seq::empty(),
        Some(st) => match find_from(s, seq!['{'], st) {
            None => Seq::empty(),
            Some(open) => match close_from(s, open, 0) {
                None => Seq::empty(),
                Some(c) => if offset < c + 1 && open < c && c < s.len() {
                    seq![s.subrange((open + 1) as int, c as int)] + blocks_from(s, marker, c + 1)
                } else {
                    Seq::empty()
                },
            },
        },
    }
}

proof fn lemma_open_closes_after(s: Seq<char>, open: nat)
    requires
        open < s.len(),
        s[open as int] == '{',
    ensures
        close_from(s, open, 0) matches Some(c) ==> open < c,
{
    lemma_close_from(s, open + 1, 1);
}

fn copy_range(s: &Vec<char>, a: usize, b: usize) -> (r: String)
    requires
        a <= b <= s@.len(),
    ensures
        r@ == s@.subrange(a as int, b as int),
{
    let mut out: Vec<char> = Vec::new();
    let mut k = a;
    while k < b
        invariant
            a <= k <= b,
            b <= s@.len(),
            out@ == s@.subrange(a as int, k as int),
        decreases b - k,
    {
        out.push(s[k]);
        assert(s@.subrange(a as int, k + 1) =~= s@.subrange(a as int, k as int).push(s@[k as int]));
        k = k + 1;
    }
    string_of(out.as_slice())
}

/// The bodies of the groups of `content` that start with `marker`.
pub fn extract_blocks(content: &str, marker: &str) -> (r: Vec<String>)
    requires
        content@.len() <= i32::MAX,
    ensures
        r@.map_values(|b: String| b@) == blocks_from(content@, marker@, 0),
{
    let s = chars_of(content);
    let pat = chars_of(marker);
    let mut open_brace: Vec<char> = Vec::new();
    open_brace.push('{');
    let mut out: Vec<String> = Vec::new();
    let mut offset: usize = 0;
    while offset <= s.len()
        invariant
            s@ == content@,
            pat@ == marker@,
            open_brace@ == seq!['{'],
            s@.len() <= i32::MAX,
            blocks_from(s@, pat@, 0) == out@.map_values(|b: String| b@) + blocks_from(s@, pat@, offset as nat),
        decreases s.len() + 1 - offset,
    {
        let ghost before = out@.map_values(|b: String| b@);
        let st = match find_chars(&s, &pat, offset) {
            Some(st) => st,
            None => {
                assert(blocks_from(s@, pat@, offset as nat) =~= Seq::<Seq<char>>::empty());
                assert(before + Seq::<Seq<char>>::empty() =~= before);
                return out;
            },
        };
        proof {
            lemma_find_from(s@, pat@, offset as nat);
        }
        let open = match find_chars(&s, &open_brace, st) {
            Some(o) => o,
            None => {
                assert(before + Seq::<Seq<char>>::empty() =~= before);
                return out;
            },
        };
        proof {
            lemma_find_from(s@, open_brace@, st as nat);
            assert(s@.subrange(open as int, open + 1)[0] == '{');
            lemma_open_closes_after(s@, open as nat);
            lemma_close_from(s@, open as nat, 0);
        }
        let c = match find_close(&s, open) {
            Some(c) => c,
            None => {
                assert(before + Seq::<Seq<char>>::empty() =~= before);
                return out;
            },
        };
        let body = copy_range(&s, open + 1, c);
        out.push(body);
        proof {
            let after = out@.map_values(|b: String| b@);
            assert(after =~= before.push(s@.subrange(open + 1, c as int)));
            assert(blocks_from(s@, pat@, offset as nat) == seq![s@.subrange(open + 1, c as int)]
                + blocks_from(s@, pat@, (c + 1) as nat));
            assert(before + blocks_from(s@, pat@, offset as nat) =~= after + blocks_from(
                s@,
                pat@,
                (c + 1) as nat,
            ));
        }
        offset = c + 1;
    }
    assert(blocks_from(s@, pat@, offset as nat) =~= Seq::<Seq<char>>::empty());
    assert(out@.map_values(|b: String| b@) + Seq::<Seq<char>>::empty() =~= out@.map_values(|b: String| b@));
    out
}

/// The table group of a lookup table: the body of the first `<keyword> (`
/// group of a timing block.
pub open spec fn lut_table(block: Seq<char>, keyword: Seq<char>) -> Option<Seq<char>> {
    let bs = blocks_from(block, keyword + " ("@, 0);
    if bs.len() == 0 {
        None
    } else {
        Some(bs[0])
    }
}

/// The body of the `<keyword> (` table group of a timing block, from which
/// the lookup table's indices and values are read.
pub fn lut_table_block(block: &str, keyword: &str) -> (r: Option<String>)
    requires
        block@.len() <= i32::MAX,
    ensures
        match lut_table(block@, keyword@) {
            None => r is None,
            Some(t) => r matches Some(x) && x@ == t,
        },
{
    let mut marker: Vec<char> = Vec::new();
    push_str(&mut marker, keyword);
    push_str(&mut marker, " (");
    let marker_text = string_of(marker.as_slice());
    let mut blocks = extract_blocks(block, marker_text.as_str());
    if blocks.len() == 0 {
        return None;
    }
    assert(blocks@.map_values(|b: String| b@)[0] == blocks@[0]@);
    Some(blocks.remove(0))
}

/// The position of the `}` that closes the group scanned from `i`, where
/// text between double quotes (with backslash escapes) is skipped.
pub open spec fn close_quoted(s: Seq<char>, i: nat, depth: int, quoted: bool, escaped: bool) -> Option<nat>
    decreases s.len() - i,
{
    if i >= s.len() {
        None
    } else {
        let c = s[i as int];
        if quoted {
            if escaped {
                close_quoted(s, i + 1, depth, true, false)
            } else if c == '\\' {
                close_quoted(s, i + 1, depth, true, true)
            } else if c == '"' {
                close_quoted(s, i + 1, depth, false, false)
            } else {
                close_quoted(s, i + 1, depth, true, false)
            }
        } else if c == '"' {
            close_quoted(s, i + 1, depth, true, false)
        } else if c == '{' {
            close_quoted(s, i + 1, depth + 1, false, false)
        } else if c == '}' {
            if depth - 1 == 0 {
                Some(i)
            } else {
                close_quoted(s, i + 1, depth - 1, false, false)
            }
        } else {
            close_quoted(s, i + 1, depth, false, false)
        }
    }
}

proof fn lemma_close_quoted(s: Seq<char>, i: nat, depth: int, quoted: bool, escaped: bool)
    ensures
        close_quoted(s, i, depth, quoted, escaped) matches Some(c) ==> i <= c < s.len(),
    decreases s.len() - i,
{
    if i < s.len() {
        let c = s[i as int];
        if quoted {
            if escaped {
                lemma_close_quoted(s, i + 1, depth, true, false);
            } else if c == '\\' {
                lemma_close_quoted(s, i + 1, depth, true, true);
            } else if c == '"' {
                lemma_close_quoted(s, i + 1, depth, false, false);
            } else {
                lemma_close_quoted(s, i + 1, depth, true, false);
            }
        } else if c == '"' {
            lemma_close_quoted(s, i + 1, depth, true, false);
        } else if c == '{' {
            lemma_close_quoted(s, i + 1, depth + 1, false, false);
        } else if c == '}' {
            if depth - 1 != 0 {
                lemma_close_quoted(s, i + 1, depth - 1, false, false);
            }
        } else {
            lemma_close_quoted(s, i + 1, depth, false, false);
        }
    }
}

fn find_close_quoted(s: &Vec<char>, from: usize) -> (r: Option<usize>)
    requires
        s@.len() <= isize::MAX,
    ensures
        match r {
            None => close_quoted(s@, from as nat, 0, false, false) is None,
            Some(i) => close_quoted(s@, from as nat, 0, false, false) == Some(i as nat),
        },
{
    let mut i = from;
    let mut depth: isize = 0;
    let mut quoted = false;
    let mut escaped = false;
    while i < s.len()
        invariant
            from <= i,
            s@.len() <= isize::MAX,
            -(i as int) + (from as int) <= depth <= (i as int) - (from as int),
            !quoted ==> !escaped,
            close_quoted(s@, from as nat, 0, false, false) == close_quoted(s@, i as nat, depth as int, quoted, escaped),
        decreases s.len() - i,
    {
        let c = s[i];
        if quoted {
            if escaped {
                escaped = false;
            } else if c == '\\' {
                escaped = true;
            } else if c == '"' {
                quoted = false;
            }
        } else if c == '"' {
            quoted = true;
        } else if c == '{' {
            depth = depth + 1;
        } else if c == '}' {
            if depth - 1 == 0 {
                return Some(i);
            }
            depth = depth - 1;
        }
        i = i + 1;
    }
    None
}

/// Whether a leakage group is the VSS rail's: the text after its first
/// `related_pg_pin :` up to the next `;` (or the end) trims to `VSS`.
pub open spec fn is_vss_group(block: Seq<char>) -> bool {
    match find_from(block, "related_pg_pin :"@, 0) {
        None => false,
        Some(p) => {
            let from = p + "related_pg_pin :"@.len();
            let end = match find_from(block, seq![';'], from as nat) {
                None => block.len() as int,
                Some(e) => e as int,
            };
            trimmed(block.subrange(from as int, end)) == "VSS"@
        },
    }
}

/// The text of a group's first `value :` field, up to the next `;`, trimmed.
pub open spec fn value_field(block: Seq<char>) -> Option<Seq<char>> {
    match find_from(block, "value :"@, 0) {
        None => None,
        Some(p) => match find_from(block, seq![';'], (p + "value :"@.len()) as nat) {
            None => None,
            Some(e) => Some(trimmed(block.subrange((p + "value :"@.len()) as int, e as int))),
        },
    }
}

/// The value fields of the `leakage_power ()` groups from `offset` on that
/// are not the VSS rail's, after those already gathered in `acc`, or `None`
/// when a group lacks its braces.
pub open spec fn leakage_values_from(s: Seq<char>, offset: nat, acc: Seq<Seq<char>>) -> Option<Seq<Seq<char>>>
    decreases s.len() + 1 - offset,
{
    match find_from(s, "leakage_power ()"@, offset) {
        None => Some(acc),
        Some(st) => match find_from(s, seq!['{'], st) {
            None => None,
            Some(open) => match close_quoted(s, open, 0, false, false) {
                None => None,
                Some(c) => if offset < c + 1 && c < s.len() {
                    let block = s.subrange(open as int, (c + 1) as int);
                    if !is_vss_group(block) && value_field(block) is Some {
                        leakage_values_from(s, c + 1, acc.push(value_field(block)->0))
                    } else {
                        leakage_values_from(s, c + 1, acc)
                    }
                } else {
                    None
                },
            },
        },
    }
}

fn vss_group(block: &Vec<char>) -> (r: bool)
    ensures
        r == is_vss_group(block@),
{
    let pat = chars_of("related_pg_pin :");
    let p = match find_chars(block, &pat, 0) {
        Some(p) => p,
        None => {
            return false;
        },
    };
    proof {
        lemma_find_from(block@, pat@, 0);
    }
    assert(p + pat@.len() <= block@.len());
    assert(block@.len() == block.len());
    let from = p + pat.len();
    let mut semi: Vec<char> = Vec::new();
    semi.push(';');
    let end = match find_chars(block, &semi, from) {
        Some(e) => e,
        None => block.len(),
    };
    proof {
        lemma_find_from(block@, semi@, from as nat);
    }
    let mut piece: Vec<char> = Vec::new();
    let mut k = from;
    while k < end
        invariant
            from <= k <= end,
            end <= block@.len(),
            piece@ == block@.subrange(from as int, k as int),
        decreases end - k,
    {
        piece.push(block[k]);
        assert(block@.subrange(from as int, k + 1) =~= block@.subrange(from as int, k as int).push(block@[k as int]));
        k = k + 1;
    }
    assert(semi@ =~= seq![';']);
    let t = trim_chars(&piece);
    crate::text::chars_equal(t.as_slice(), chars_of("VSS").as_slice())
}

fn value_of(block: &Vec<char>) -> (r: Option<String>)
    ensures
        match value_field(block@) {
            None => r is None,
            Some(v) => r matches Some(x) && x@ == v,
        },
{
    let pat = chars_of("value :");
    let p = match find_chars(block, &pat, 0) {
        Some(p) => p,
        None => {
            return None;
        },
    };
    proof {
        lemma_find_from(block@, pat@, 0);
    }
    assert(p + pat@.len() <= block@.len());
    assert(block@.len() == block.len());
    let from = p + pat.len();
    let mut semi: Vec<char> = Vec::new();
    semi.push(';');
    assert(semi@ =~= seq![';']);
    let e = match find_chars(block, &semi, from) {
        Some(e) => e,
        None => {
            return None;
        },
    };
    proof {
        lemma_find_from(block@, semi@, from as nat);
    }
    let mut piece: Vec<char> = Vec::new();
    let mut k = from;
    while k < e
        invariant
            from <= k <= e,
            e <= block@.len(),
            piece@ == block@.subrange(from as int, k as int),
        decreases e - k,
    {
        piece.push(block[k]);
        assert(block@.subrange(from as int, k + 1) =~= block@.subrange(from as int, k as int).push(block@[k as int]));
        k = k + 1;
    }
    let t = trim_chars(&piece);
    Some(string_of(t.as_slice()))
}

/// The `value` fields of a cell's conditional leakage groups that belong to
/// the VDD rail (VSS entries are rail-accounting zeros and are left out);
/// `None` when a `leakage_power ()` group lacks its braces.  The scalar
/// leakage is their mean.
pub fn conditional_vdd_leakage_values(cell_content: &str) -> (r: Option<Vec<String>>)
    requires
        cell_content@.len() <= isize::MAX,
    ensures
        match leakage_values_from(cell_content@, 0, Seq::empty()) {
            None => r is None,
            Some(vs) => r matches Some(x) && x@.map_values(|v: String| v@) == vs,
        },
{
    let s = chars_of(cell_content);
    let marker = chars_of("leakage_power ()");
    let mut open_brace: Vec<char> = Vec::new();
    open_brace.push('{');
    assert(open_brace@ =~= seq!['{']);
    let mut values: Vec<String> = Vec::new();
    let mut offset: usize = 0;
    assert(values@.map_values(|v: String| v@) =~= Seq::<Seq<char>>::empty());
    while offset <= s.len()
        invariant
            s@ == cell_content@,
            marker@ == "leakage_power ()"@,
            open_brace@ == seq!['{'],
            s@.len() <= isize::MAX,
            leakage_values_from(s@, 0, Seq::empty()) == leakage_values_from(
                s@,
                offset as nat,
                values@.map_values(|v: String| v@),
            ),
        decreases s.len() + 1 - offset,
    {
        let ghost acc = values@.map_values(|v: String| v@);
        let st = match find_chars(&s, &marker, offset) {
            Some(st) => st,
            None => {
                return Some(values);
            },
        };
        proof {
            lemma_find_from(s@, marker@, offset as nat);
        }
        let open = match find_chars(&s, &open_brace, st) {
            Some(o) => o,
            None => {
                return None;
            },
        };
        proof {
            lemma_find_from(s@, open_brace@, st as nat);
        }
        let c = match find_close_quoted(&s, open) {
            Some(c) => c,
            None => {
                return None;
            },
        };
        proof {
            lemma_close_quoted(s@, open as nat, 0, false, false);
        }
        let mut block: Vec<char> = Vec::new();
        let mut k = open;
        while k <= c
            invariant
                open <= k <= c + 1,
                c < s.len(),
                block@ == s@.subrange(open as int, k as int),
            decreases c + 1 - k,
        {
            block.push(s[k]);
            assert(s@.subrange(open as int, k + 1) =~= s@.subrange(open as int, k as int).push(s@[k as int]));
            k = k + 1;
        }
        if !vss_group(&block) {
            match value_of(&block) {
                Some(v) => {
                    let ghost vv = v@;
                    values.push(v);
                    assert(values@.map_values(|x: String| x@) =~= acc.push(vv));
                },
                None => {},
            }
        }
        offset = c + 1;
    }
    Some(values)
}

} // verus!
