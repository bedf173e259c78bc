//! An ASCII AIGER (`aag M I L O A`) text as Boolean expressions in the
//! e-graph's s-expression syntax, one line per output: inputs are `a0`,
//! `a1`, ..., latches `l0`, `l1`, ..., an AND gate `(and x y)` and an
//! inverted literal `(not x)`.
use vstd::prelude::*;

use crate::text::{
    chars_of, decimal, joined, join_texts, parse_usize, parsed_usize, push_decimal, push_str, string_of,
    texts_view,
};

verus! {

/// Unicode whitespace, as `char::is_whitespace` decides it.
pub open spec fn is_white(c: char) -> bool {
    ('\t' <= c && c <= '\r') || c == ' ' || c == '\u{85}' || c == '\u{a0}' || c == '\u{1680}' || (
    '\u{2000}' <= c && c <= '\u{200a}') || c == '\u{2028}' || c == '\u{2029}' || c == '\u{202f}'
        || c == '\u{205f}' || c == '\u{3000}'
}

fn is_white_exec(c: char) -> (r: bool)
    ensures
        r == is_white(c),
{
    ('\t' <= c && c <= '\r') || c == ' ' || c == '\u{85}' || c == '\u{a0}' || c == '\u{1680}' || (
    '\u{2000}' <= c && c <= '\u{200a}') || c == '\u{2028}' || c == '\u{2029}' || c == '\u{202f}'
        || c == '\u{205f}' || c == '\u{3000}'
}

/// The first position at or after `k` that holds no whitespace (the length
/// when there is none).
pub open spec fn first_solid(s: Seq<char>, k: nat) -> nat
    decreases s.len() - k,
{
    if k < s.len() && is_white(s[k as int]) {
        first_solid(s, k + 1)
    } else {
        k
    }
}

/// The end of the last non-whitespace character at or before `k` (0 when
/// there is none).
pub open spec fn solid_end(s: Seq<char>, k: nat) -> nat
    decreases k,
{
    if k > 0 && k <= s.len() && is_white(s[k - 1]) {
        solid_end(s, (k - 1) as nat)
    } else {
        k
    }
}

/// The text without leading and trailing whitespace (`str::trim`).
pub open spec fn trimmed(s: Seq<char>) -> Seq<char> {
    let a = first_solid(s, 0);
    let b = solid_end(s, s.len());
    if a < b {
        s.subrange(a as int, b as int)
    } else {
        Seq::empty()
    }
}

/// The pieces of a text between line feeds, last piece included.
pub open spec fn pieces(s: Seq<char>) -> Seq<Seq<char>>
    decreases s.len(),
{
    if s.len() == 0 {
        seq![Seq::empty()]
    } else {
        let rest = pieces(s.drop_last());
        if s.last() == '\n' {
            rest.push(Seq::empty())
        } else {
            rest.update(rest.len() - 1, rest.last().push(s.last()))
        }
    }
}

/// The trimmed pieces that are not empty, in order.
pub open spec fn solid_lines(ps: Seq<Seq<char>>) -> Seq<Seq<char>>
    decreases ps.len(),
{
    if ps.len() == 0 {
        Seq::empty()
    } else if trimmed(ps.last()).len() > 0 {
        solid_lines(ps.drop_last()).push(trimmed(ps.last()))
    } else {
        solid_lines(ps.drop_last())
    }
}

/// The non-empty trimmed lines of a text (`lines`, `trim`, and dropping
/// empty lines).
pub open spec fn content_lines(s: Seq<char>) -> Seq<Seq<char>> {
    solid_lines(pieces(s))
}

/// The maximal runs of non-whitespace characters (`split_whitespace`).
pub open spec fn words(s: Seq<char>) -> Seq<Seq<char>>
    decreases s.len(),
{
    if s.len() == 0 {
        Seq::empty()
    } else {
        let rest = words(s.drop_last());
        if is_white(s.last()) {
            rest
        } else if s.len() >= 2 && !is_white(s[s.len() - 2]) {
            rest.update(rest.len() - 1, rest.last().push(s.last()))
        } else {
            rest.push(seq![s.last()])
        }
    }
}

proof fn lemma_first_solid(s: Seq<char>, k: nat)
    requires
        k <= s.len(),
    ensures
        k <= first_solid(s, k) <= s.len(),
        forall|i: int| k <= i < first_solid(s, k) ==> is_white(#[trigger] s[i]),
        first_solid(s, k) < s.len() ==> !is_white(s[first_solid(s, k) as int]),
    decreases s.len() - k,
{
    if k < s.len() && is_white(s[k as int]) {
        lemma_first_solid(s, k + 1);
    }
}

proof fn lemma_solid_end(s: Seq<char>, k: nat)
    requires
        k <= s.len(),
    ensures
        solid_end(s, k) <= k,
        forall|i: int| solid_end(s, k) <= i < k ==> is_white(#[trigger] s[i]),
        solid_end(s, k) > 0 ==> !is_white(s[solid_end(s, k) - 1]),
    decreases k,
{
    if k > 0 && is_white(s[k - 1]) {
        lemma_solid_end(s, (k - 1) as nat);
    }
}

/// The trimmed text.
pub fn trim_chars(s: &Vec<char>) -> (r: Vec<char>)
    ensures
        r@ == trimmed(s@),
{
    let mut a: usize = 0;
    while a < s.len() && is_white_exec(s[a])
        invariant
            0 <= a <= s@.len(),
            first_solid(s@, 0) == first_solid(s@, a as nat),
        decreases s.len() - a,
    {
        a = a + 1;
    }
    let mut b: usize = s.len();
    while b > 0 && is_white_exec(s[b - 1])
        invariant
            0 <= b <= s@.len(),
            solid_end(s@, s@.len()) == solid_end(s@, b as nat),
        decreases b,
    {
        b = b - 1;
    }
    let mut out: Vec<char> = Vec::new();
    if a < b {
        let mut k: usize = a;
        while k < b
            invariant
                a <= k <= b,
                b <= s@.len(),
                out@ == s@.subrange(a as int, k as int),
            decreases b - k,
        {
            out.push(s[k]);
            assert(s@.subrange(a as int, k + 1) =~= s@.subrange(a as int, k as int).push(s@[k as int]));
            k = k + 1;
        }
    }
    out
}

/// The non-empty trimmed lines of a text.
fn split_lines(content: &Vec<char>) -> (r: Vec<Vec<char>>)
    ensures
        texts_view(r@) == content_lines(content@),
{
    let mut out: Vec<Vec<char>> = Vec::new();
    let mut cur: Vec<char> = Vec::new();
    let ghost mut done: Seq<Seq<char>> = Seq::empty();
    let mut i: usize = 0;
    assert(content@.take(0) =~= Seq::<char>::empty());
    assert(pieces(Seq::<char>::empty()) =~= done.push(cur@));
    while i < content.len()
        invariant
            0 <= i <= content@.len(),
            pieces(content@.take(i as int)) == done.push(cur@),
            texts_view(out@) == solid_lines(done),
        decreases content.len() - i,
    {
        let c = content[i];
        assert(content@.take(i + 1).drop_last() =~= content@.take(i as int));
        assert(content@.take(i + 1).last() == c);
        if c == '\n' {
            let t = trim_chars(&cur);
            proof {
                assert(done.push(cur@).drop_last() =~= done);
                assert(done.push(cur@).last() == cur@);
            }
            if t.len() > 0 {
                let ghost before = texts_view(out@);
                out.push(t);
                assert(texts_view(out@) =~= before.push(trimmed(cur@)));
            }
            proof {
                done = done.push(cur@);
            }
            cur = Vec::new();
            assert(pieces(content@.take(i + 1)) =~= done.push(cur@));
        } else {
            let ghost before = cur@;
            cur.push(c);
            assert(pieces(content@.take(i + 1)) =~= done.push(cur@));
        }
        i = i + 1;
    }
    assert(content@.take(i as int) =~= content@);
    let t = trim_chars(&cur);
    proof {
        assert(done.push(cur@).drop_last() =~= done);
        assert(done.push(cur@).last() == cur@);
    }
    if t.len() > 0 {
        let ghost before = texts_view(out@);
        out.push(t);
        assert(texts_view(out@) =~= before.push(trimmed(cur@)));
    }
    out
}

/// The words of a text.
fn split_words(s: &Vec<char>) -> (r: Vec<Vec<char>>)
    ensures
        texts_view(r@) == words(s@),
{
    let mut out: Vec<Vec<char>> = Vec::new();
    let mut i: usize = 0;
    assert(s@.take(0) =~= Seq::<char>::empty());
    while i < s.len()
        invariant
            0 <= i <= s@.len(),
            texts_view(out@) == words(s@.take(i as int)),
            i > 0 && !is_white(s@[i - 1]) ==> out@.len() > 0,
        decreases s.len() - i,
    {
        let c = s[i];
        let ghost t = s@.take(i + 1);
        assert(t.drop_last() =~= s@.take(i as int));
        assert(t.last() == c);
        let ghost before = texts_view(out@);
        if is_white_exec(c) {
        } else if i >= 1 && !is_white_exec(s[i - 1]) {
            assert(t[t.len() - 2] == s@[i - 1]);
            let last = out.len() - 1;
            let mut w = copy_word(&out[last]);
            w.push(c);
            out.set(last, w);
            assert(texts_view(out@) =~= before.update(before.len() - 1, before.last().push(c)));
        } else {
            if i >= 1 {
                assert(t[t.len() - 2] == s@[i - 1]);
            }
            let mut w: Vec<char> = Vec::new();
            w.push(c);
            out.push(w);
            assert(texts_view(out@) =~= before.push(seq![c]));
        }
        i = i + 1;
    }
    assert(s@.take(i as int) =~= s@);
    out
}

fn copy_word(v: &Vec<char>) -> (r: Vec<char>)
    ensures
        r@ == v@,
{
    crate::text::copy_chars(v)
}

/// The expression bound last to index `k`.
pub open spec fn bound(m: Seq<(usize, Seq<char>)>, k: usize) -> Option<Seq<char>>
    decreases m.len(),
{
    if m.len() == 0 {
        None
    } else if m.last().0 == k {
        Some(m.last().1)
    } else {
        bound(m.drop_last(), k)
    }
}

/// The expression of literal `idx`: the constants for 0 and 1, the bound
/// expression of its variable, negated for an odd literal.
pub open spec fn literal_expr(m: Seq<(usize, Seq<char>)>, idx: usize) -> Result<Seq<char>, Seq<char>> {
    if idx == 0 {
        Ok("false"@)
    } else if idx == 1 {
        Ok("true"@)
    } else {
        let base = (if idx % 2 == 1 {
            idx - 1
        } else {
            idx as int
        }) as usize;
        match bound(m, base) {
            None => Err("未定义索引: "@ + decimal(base as nat)),
            Some(e) => if idx % 2 == 1 {
                Ok("(not "@ + e + ")"@)
            } else {
                Ok(e)
            },
        }
    }
}

/// The bindings after the first `k` input lines (lines 1 to `k`).
pub open spec fn read_inputs(ls: Seq<Seq<char>>, k: nat) -> Result<Seq<(usize, Seq<char>)>, Seq<char>>
    decreases k,
{
    if k == 0 {
        Ok(seq![(0usize, "false"@), (1usize, "true"@)])
    } else {
        match read_inputs(ls, (k - 1) as nat) {
            Err(e) => Err(e),
            Ok(m) => if k >= ls.len() {
                Err("缺少输入行"@ + decimal((k - 1) as nat))
            } else {
                match parsed_usize(ls[k as int]) {
                    None => Err("输入行不是数字: '"@ + ls[k as int] + "'"@),
                    Some(x) => Ok(m.push((x, seq!['a'] + decimal((k - 1) as nat)))),
                }
            },
        }
    }
}

/// The bindings after the first `k` latch lines, starting at line `start`.
pub open spec fn read_latches(ls: Seq<Seq<char>>, start: nat, k: nat, m0: Seq<(usize, Seq<char>)>) -> Result<Seq<(usize, Seq<char>)>, Seq<char>>
    decreases k,
{
    if k == 0 {
        Ok(m0)
    } else {
        match read_latches(ls, start, (k - 1) as nat, m0) {
            Err(e) => Err(e),
            Ok(m) => {
                let p = start + k - 1;
                if p >= ls.len() {
                    Err("缺少锁存器行"@)
                } else {
                    let w = words(ls[p]);
                    if w.len() != 2 {
                        Err("锁存器行需包含2个数字,实际: '"@ + ls[p] + "'"@)
                    } else {
                        match parsed_usize(w[0]) {
                            None => Err("无效锁存器索引"@),
                            Some(x) => match parsed_usize(w[1]) {
                                None => Err("无效下一状态索引"@),
                                Some(_) => Ok(m.push((x, seq!['l'] + decimal((k - 1) as nat)))),
                            },
                        }
                    }
                }
            },
        }
    }
}

/// The first `k` output literals, from line `start`.
pub open spec fn read_outputs(ls: Seq<Seq<char>>, start: nat, k: nat) -> Result<Seq<usize>, Seq<char>>
    decreases k,
{
    if k == 0 {
        Ok(Seq::empty())
    } else {
        match read_outputs(ls, start, (k - 1) as nat) {
            Err(e) => Err(e),
            Ok(o) => {
                let p = start + k - 1;
                if p >= ls.len() {
                    Err("缺少输出行"@)
                } else {
                    match parsed_usize(ls[p]) {
                        None => Err("输出行不是数字: '"@ + ls[p] + "'"@),
                        Some(x) => Ok(o.push(x)),
                    }
                }
            },
        }
    }
}

/// The bindings after the first `k` AND lines, from line `start`.
pub open spec fn read_ands(ls: Seq<Seq<char>>, start: nat, k: nat, m0: Seq<(usize, Seq<char>)>) -> Result<Seq<(usize, Seq<char>)>, Seq<char>>
    decreases k,
{
    if k == 0 {
        Ok(m0)
    } else {
        match read_ands(ls, start, (k - 1) as nat, m0) {
            Err(e) => Err(e),
            Ok(m) => {
                let p = start + k - 1;
                if p >= ls.len() {
                    Err("缺少AND门定义行"@)
                } else {
                    let w = words(ls[p]);
                    if w.len() != 3 {
                        Err("AND行需包含3个数字，实际: '"@ + ls[p] + "'"@)
                    } else {
                        match (parsed_usize(w[0]), parsed_usize(w[1]), parsed_usize(w[2])) {
                            (None, _, _) => Err("无效输出索引"@),
                            (Some(_), None, _) => Err("无效输入1索引"@),
                            (Some(_), Some(_), None) => Err("无效输入2索引"@),
                            (Some(o), Some(i1), Some(i2)) => match literal_expr(m, i1) {
                                Err(e) => Err(e),
                                Ok(e1) => match literal_expr(m, i2) {
                                    Err(e) => Err(e),
                                    Ok(e2) => Ok(m.push((o, "(and "@ + e1 + seq![' '] + e2 + ")"@))),
                                },
                            },
                        }
                    }
                }
            },
        }
    }
}

/// The expressions of the first `k` outputs.
pub open spec fn output_exprs(m: Seq<(usize, Seq<char>)>, outs: Seq<usize>, k: nat) -> Result<Seq<Seq<char>>, Seq<char>>
    decreases k,
{
    if k == 0 {
        Ok(Seq::empty())
    } else {
        match output_exprs(m, outs, (k - 1) as nat) {
            Err(e) => Err(e),
            Ok(es) => match literal_expr(m, outs[k - 1]) {
                Err(e) => Err(e),
                Ok(x) => Ok(es.push(x)),
            },
        }
    }
}

/// The header fields `M I L O A` of a header's words, or the error of the
/// first that is no number.
pub open spec fn header_fields(h: Seq<Seq<char>>) -> Result<(usize, usize, usize, usize), Seq<char>> {
    if parsed_usize(h[1]) is None {
        Err("无效M值"@)
    } else if parsed_usize(h[2]) is None {
        Err("无效I值(输入数量)"@)
    } else if parsed_usize(h[3]) is None {
        Err("无效L值(锁存器)"@)
    } else if parsed_usize(h[4]) is None {
        Err("无效O值(输出数量)"@)
    } else if parsed_usize(h[5]) is None {
        Err("无效A值(AND门数量)"@)
    } else {
        Ok((parsed_usize(h[2])->0, parsed_usize(h[3])->0, parsed_usize(h[4])->0, parsed_usize(h[5])->0))
    }
}

/// The expressions of an AIGER text joined by line feeds, or the error
/// of the first thing wrong with it.
pub open spec fn aiger_expressions(content: Seq<char>) -> Result<Seq<char>, Seq<char>> {
    let ls = content_lines(content);
    if ls.len() == 0 {
        Err("空文件"@)
    } else if words(ls[0]).len() < 6 || words(ls[0])[0] != "aag"@ {
        Err("无效头部，应为'aag M I L O A'"@)
    } else {
        match header_fields(words(ls[0])) {
            Err(e) => Err(e),
            Ok((ni, nl, no, na)) => match read_inputs(ls, ni as nat) {
                Err(e) => Err(e),
                Ok(m1) => match read_latches(ls, (1 + ni) as nat, nl as nat, m1) {
                    Err(e) => Err(e),
                    Ok(m2) => match read_outputs(ls, (1 + ni + nl) as nat, no as nat) {
                        Err(e) => Err(e),
                        Ok(outs) => match read_ands(ls, (1 + ni + nl + no) as nat, na as nat, m2) {
                            Err(e) => Err(e),
                            Ok(m3) => match output_exprs(m3, outs, outs.len()) {
                                Err(e) => Err(e),
                                Ok(es) => if es.len() == 0 {
                                    Err("无效输出"@)
                                } else {
                                    Ok(joined(es, '\n'))
                                },
                            },
                        },
                    },
                },
            },
        }
    }
}

/// The text's first line is a well-formed header with these counts.
pub open spec fn parsed_header(ls: Seq<Seq<char>>, ni: usize, nl: usize, no: usize, na: usize) -> bool {
    &&& ls.len() > 0
    &&& !(words(ls[0]).len() < 6 || words(ls[0])[0] != "aag"@)
    &&& header_fields(words(ls[0])) == Ok::<(usize, usize, usize, usize), Seq<char>>((ni, nl, no, na))
}

proof fn lemma_inputs_stable(ls: Seq<Seq<char>>, k: nat, n: nat)
    requires
        k <= n,
        read_inputs(ls, k) is Err,
    ensures
        read_inputs(ls, n) == read_inputs(ls, k),
    decreases n,
{
    if k < n {
        lemma_inputs_stable(ls, k, (n - 1) as nat);
    }
}

proof fn lemma_latches_stable(ls: Seq<Seq<char>>, start: nat, m0: Seq<(usize, Seq<char>)>, k: nat, n: nat)
    requires
        k <= n,
        read_latches(ls, start, k, m0) is Err,
    ensures
        read_latches(ls, start, n, m0) == read_latches(ls, start, k, m0),
    decreases n,
{
    if k < n {
        lemma_latches_stable(ls, start, m0, k, (n - 1) as nat);
    }
}

proof fn lemma_outputs_stable(ls: Seq<Seq<char>>, start: nat, k: nat, n: nat)
    requires
        k <= n,
        read_outputs(ls, start, k) is Err,
    ensures
        read_outputs(ls, start, n) == read_outputs(ls, start, k),
    decreases n,
{
    if k < n {
        lemma_outputs_stable(ls, start, k, (n - 1) as nat);
    }
}

proof fn lemma_ands_stable(ls: Seq<Seq<char>>, start: nat, m0: Seq<(usize, Seq<char>)>, k: nat, n: nat)
    requires
        k <= n,
        read_ands(ls, start, k, m0) is Err,
    ensures
        read_ands(ls, start, n, m0) == read_ands(ls, start, k, m0),
    decreases n,
{
    if k < n {
        lemma_ands_stable(ls, start, m0, k, (n - 1) as nat);
    }
}

proof fn lemma_exprs_stable(m: Seq<(usize, Seq<char>)>, outs: Seq<usize>, k: nat, n: nat)
    requires
        k <= n,
        output_exprs(m, outs, k) is Err,
    ensures
        output_exprs(m, outs, n) == output_exprs(m, outs, k),
    decreases n,
{
    if k < n {
        lemma_exprs_stable(m, outs, k, (n - 1) as nat);
    }
}

/// The bindings' mathematical value.
pub open spec fn bindings(m: Seq<(usize, String)>) -> Seq<(usize, Seq<char>)> {
    m.map_values(|e: (usize, String)| (e.0, e.1@))
}

fn lookup_binding(m: &Vec<(usize, String)>, k: usize) -> (r: Option<String>)
    ensures
        match bound(bindings(m@), k) {
            None => r is None,
            Some(e) => r matches Some(x) && x@ == e,
        },
{
    let ghost b = bindings(m@);
    let mut i: usize = m.len();
    assert(b.take(i as int) =~= b);
    while i > 0
        invariant
            0 <= i <= m@.len(),
            b == bindings(m@),
            bound(b, k) == bound(b.take(i as int), k),
        decreases i,
    {
        assert(b.take(i as int).drop_last() =~= b.take(i - 1));
        if m[i - 1].0 == k {
            return Some(crate::text::copy_string(&m[i - 1].1));
        }
        i = i - 1;
    }
    None
}

/// `prefix + body + suffix`.
fn framed(prefix: &str, body: &str, suffix: &str) -> (r: String)
    ensures
        r@ == prefix@ + body@ + suffix@,
{
    let mut v: Vec<char> = Vec::new();
    push_str(&mut v, prefix);
    push_str(&mut v, body);
    push_str(&mut v, suffix);
    string_of(v.as_slice())
}

/// The expression of literal `idx` under the bindings `idx_to_expr`.
pub fn build_expr(idx: usize, idx_to_expr: &Vec<(usize, String)>) -> (r: Result<String, String>)
    ensures
        match literal_expr(bindings(idx_to_expr@), idx) {
            Ok(e) => r matches Ok(x) && x@ == e,
            Err(e) => r matches Err(x) && x@ == e,
        },
{
    if idx == 0 {
        return Ok("false".to_string());
    }
    if idx == 1 {
        return Ok("true".to_string());
    }
    let negated = idx % 2 == 1;
    let base = if negated {
        idx - 1
    } else {
        idx
    };
    match lookup_binding(idx_to_expr, base) {
        None => {
            let mut v: Vec<char> = Vec::new();
            push_str(&mut v, "未定义索引: ");
            push_decimal(&mut v, base);
            Err(string_of(v.as_slice()))
        },
        Some(e) => if negated {
            Ok(framed("(not ", e.as_str(), ")"))
        } else {
            Ok(e)
        },
    }
}

fn line_string(line: &Vec<char>) -> (r: String)
    ensures
        r@ == line@,
{
    string_of(line.as_slice())
}

/// The expressions of an AIGER text, one line per output; the error of the
/// first thing wrong with it otherwise.
pub fn aiger_text_to_expr(content: &str) -> (r: Result<String, String>)
    ensures
        match aiger_expressions(content@) {
            Ok(e) => r matches Ok(x) && x@ == e,
            Err(e) => r matches Err(x) && x@ == e,
        },
{
    let chars = chars_of(content);
    let lines = split_lines(&chars);
    let ghost ls = content_lines(content@);
    if lines.len() == 0 {
        return Err("空文件".to_string());
    }
    let header = split_words(&lines[0]);
    assert(texts_view(lines@)[0] == lines@[0]@);
    if header.len() < 6 || !crate::text::chars_equal(header[0].as_slice(), chars_of("aag").as_slice()) {
        return Err("无效头部，应为'aag M I L O A'".to_string());
    }
    let ghost h = words(ls[0]);
    assert(texts_view(header@)[1] == header@[1]@);
    assert(texts_view(header@)[2] == header@[2]@);
    assert(texts_view(header@)[3] == header@[3]@);
    assert(texts_view(header@)[4] == header@[4]@);
    assert(texts_view(header@)[5] == header@[5]@);
    if parse_usize(line_string(&header[1]).as_str()).is_none() {
        return Err("无效M值".to_string());
    }
    let num_inputs = match parse_usize(line_string(&header[2]).as_str()) {
        Some(v) => v,
        None => {
            return Err("无效I值(输入数量)".to_string());
        },
    };
    let num_latches = match parse_usize(line_string(&header[3]).as_str()) {
        Some(v) => v,
        None => {
            return Err("无效L值(锁存器)".to_string());
        },
    };
    let num_outputs = match parse_usize(line_string(&header[4]).as_str()) {
        Some(v) => v,
        None => {
            return Err("无效O值(输出数量)".to_string());
        },
    };
    let num_ands = match parse_usize(line_string(&header[5]).as_str()) {
        Some(v) => v,
        None => {
            return Err("无效A值(AND门数量)".to_string());
        },
    };
    assert(header_fields(h) == Ok::<(usize, usize, usize, usize), Seq<char>>((num_inputs, num_latches, num_outputs, num_ands)));
    let mut map: Vec<(usize, String)> = Vec::new();
    map.push((0, "false".to_string()));
    map.push((1, "true".to_string()));
    assert(bindings(map@) =~= seq![(0usize, "false"@), (1usize, "true"@)]);
    let mut pos: usize = 1;
    let mut k: usize = 0;
    while k < num_inputs
        invariant
            0 <= k <= num_inputs,
            pos == 1 + k,
            pos <= lines@.len(),
            ls == content_lines(content@),
            texts_view(lines@) == ls,
            read_inputs(ls, k as nat) == Ok::<Seq<(usize, Seq<char>)>, Seq<char>>(bindings(map@)),
            parsed_header(ls, num_inputs, num_latches, num_outputs, num_ands),
        decreases num_inputs - k,
    {
        if pos >= lines.len() {
            proof {
                lemma_inputs_stable(ls, (k + 1) as nat, num_inputs as nat);
            }
            let mut v: Vec<char> = Vec::new();
            push_str(&mut v, "缺少输入行");
            push_decimal(&mut v, k);
            return Err(string_of(v.as_slice()));
        }
        assert(texts_view(lines@)[pos as int] == lines@[pos as int]@);
        let text = line_string(&lines[pos]);
        match parse_usize(text.as_str()) {
            None => {
                proof {
                    lemma_inputs_stable(ls, (k + 1) as nat, num_inputs as nat);
                }
                return Err(framed("输入行不是数字: '", text.as_str(), "'"));
            },
            Some(idx) => {
                let mut name: Vec<char> = Vec::new();
                name.push('a');
                push_decimal(&mut name, k);
                let ghost before = bindings(map@);
                map.push((idx, string_of(name.as_slice())));
                assert(bindings(map@) =~= before.push((idx, seq!['a'] + decimal(k as nat))));
            },
        }
        pos = pos + 1;
        k = k + 1;
    }
    let ghost m1 = bindings(map@);
    let ghost start_l = pos as nat;
    let mut k: usize = 0;
    while k < num_latches
        invariant
            0 <= k <= num_latches,
            pos == start_l + k,
            pos <= lines@.len(),
            start_l == 1 + num_inputs,
            ls == content_lines(content@),
            texts_view(lines@) == ls,
            read_inputs(ls, num_inputs as nat) == Ok::<Seq<(usize, Seq<char>)>, Seq<char>>(m1),
            read_latches(ls, start_l, k as nat, m1) == Ok::<Seq<(usize, Seq<char>)>, Seq<char>>(bindings(map@)),
            parsed_header(ls, num_inputs, num_latches, num_outputs, num_ands),
        decreases num_latches - k,
    {
        if pos >= lines.len() {
            proof {
                lemma_latches_stable(ls, start_l, m1, (k + 1) as nat, num_latches as nat);
            }
            return Err("缺少锁存器行".to_string());
        }
        assert(texts_view(lines@)[pos as int] == lines@[pos as int]@);
        let parts = split_words(&lines[pos]);
        if parts.len() != 2 {
            proof {
                lemma_latches_stable(ls, start_l, m1, (k + 1) as nat, num_latches as nat);
            }
            let text = line_string(&lines[pos]);
            return Err(framed("锁存器行需包含2个数字,实际: '", text.as_str(), "'"));
        }
        assert(texts_view(parts@)[0] == parts@[0]@);
        assert(texts_view(parts@)[1] == parts@[1]@);
        let latch = match parse_usize(line_string(&parts[0]).as_str()) {
            Some(v) => v,
            None => {
                proof {
                    lemma_latches_stable(ls, start_l, m1, (k + 1) as nat, num_latches as nat);
                }
                return Err("无效锁存器索引".to_string());
            },
        };
        if parse_usize(line_string(&parts[1]).as_str()).is_none() {
            proof {
                lemma_latches_stable(ls, start_l, m1, (k + 1) as nat, num_latches as nat);
            }
            return Err("无效下一状态索引".to_string());
        }
        let mut name: Vec<char> = Vec::new();
        name.push('l');
        push_decimal(&mut name, k);
        let ghost before = bindings(map@);
        map.push((latch, string_of(name.as_slice())));
        assert(bindings(map@) =~= before.push((latch, seq!['l'] + decimal(k as nat))));
        pos = pos + 1;
        k = k + 1;
    }
    let ghost m2 = bindings(map@);
    let ghost start_o = pos as nat;
    let mut outputs: Vec<usize> = Vec::new();
    let mut k: usize = 0;
    while k < num_outputs
        invariant
            0 <= k <= num_outputs,
            pos == start_o + k,
            pos <= lines@.len(),
            start_o == 1 + num_inputs + num_latches,
            ls == content_lines(content@),
            texts_view(lines@) == ls,
            bindings(map@) == m2,
            read_outputs(ls, start_o, k as nat) == Ok::<Seq<usize>, Seq<char>>(outputs@),
            parsed_header(ls, num_inputs, num_latches, num_outputs, num_ands),
            read_inputs(ls, num_inputs as nat) == Ok::<Seq<(usize, Seq<char>)>, Seq<char>>(m1),
            read_latches(ls, (1 + num_inputs) as nat, num_latches as nat, m1) == Ok::<Seq<(usize, Seq<char>)>, Seq<char>>(m2),
        decreases num_outputs - k,
    {
        if pos >= lines.len() {
            proof {
                lemma_outputs_stable(ls, start_o, (k + 1) as nat, num_outputs as nat);
            }
            return Err("缺少输出行".to_string());
        }
        assert(texts_view(lines@)[pos as int] == lines@[pos as int]@);
        let text = line_string(&lines[pos]);
        match parse_usize(text.as_str()) {
            None => {
                proof {
                    lemma_outputs_stable(ls, start_o, (k + 1) as nat, num_outputs as nat);
                }
                return Err(framed("输出行不是数字: '", text.as_str(), "'"));
            },
            Some(idx) => {
                outputs.push(idx);
            },
        }
        pos = pos + 1;
        k = k + 1;
    }
    let ghost start_a = pos as nat;
    let mut k: usize = 0;
    while k < num_ands
        invariant
            0 <= k <= num_ands,
            pos == start_a + k,
            pos <= lines@.len(),
            start_a == 1 + num_inputs + num_latches + num_outputs,
            ls == content_lines(content@),
            texts_view(lines@) == ls,
            read_ands(ls, start_a, k as nat, m2) == Ok::<Seq<(usize, Seq<char>)>, Seq<char>>(bindings(map@)),
            parsed_header(ls, num_inputs, num_latches, num_outputs, num_ands),
            read_inputs(ls, num_inputs as nat) == Ok::<Seq<(usize, Seq<char>)>, Seq<char>>(m1),
            read_latches(ls, (1 + num_inputs) as nat, num_latches as nat, m1) == Ok::<Seq<(usize, Seq<char>)>, Seq<char>>(m2),
            read_outputs(ls, (1 + num_inputs + num_latches) as nat, num_outputs as nat) == Ok::<Seq<usize>, Seq<char>>(outputs@),
        decreases num_ands - k,
    {
        if pos >= lines.len() {
            proof {
                lemma_ands_stable(ls, start_a, m2, (k + 1) as nat, num_ands as nat);
            }
            return Err("缺少AND门定义行".to_string());
        }
        assert(texts_view(lines@)[pos as int] == lines@[pos as int]@);
        let parts = split_words(&lines[pos]);
        if parts.len() != 3 {
            proof {
                lemma_ands_stable(ls, start_a, m2, (k + 1) as nat, num_ands as nat);
            }
            let text = line_string(&lines[pos]);
            return Err(framed("AND行需包含3个数字，实际: '", text.as_str(), "'"));
        }
        assert(texts_view(parts@)[0] == parts@[0]@);
        assert(texts_view(parts@)[1] == parts@[1]@);
        assert(texts_view(parts@)[2] == parts@[2]@);
        let out = match parse_usize(line_string(&parts[0]).as_str()) {
            Some(v) => v,
            None => {
                proof {
                    lemma_ands_stable(ls, start_a, m2, (k + 1) as nat, num_ands as nat);
                }
                return Err("无效输出索引".to_string());
            },
        };
        let in1 = match parse_usize(line_string(&parts[1]).as_str()) {
            Some(v) => v,
            None => {
                proof {
                    lemma_ands_stable(ls, start_a, m2, (k + 1) as nat, num_ands as nat);
                }
                return Err("无效输入1索引".to_string());
            },
        };
        let in2 = match parse_usize(line_string(&parts[2]).as_str()) {
            Some(v) => v,
            None => {
                proof {
                    lemma_ands_stable(ls, start_a, m2, (k + 1) as nat, num_ands as nat);
                }
                return Err("无效输入2索引".to_string());
            },
        };
        let e1 = match build_expr(in1, &map) {
            Ok(e) => e,
            Err(e) => {
                proof {
                    lemma_ands_stable(ls, start_a, m2, (k + 1) as nat, num_ands as nat);
                }
                return Err(e);
            },
        };
        let e2 = match build_expr(in2, &map) {
            Ok(e) => e,
            Err(e) => {
                proof {
                    lemma_ands_stable(ls, start_a, m2, (k + 1) as nat, num_ands as nat);
                }
                return Err(e);
            },
        };
        let mut v: Vec<char> = Vec::new();
        push_str(&mut v, "(and ");
        push_str(&mut v, e1.as_str());
        v.push(' ');
        push_str(&mut v, e2.as_str());
        push_str(&mut v, ")");
        assert(v@ =~= "(and "@ + e1@ + seq![' '] + e2@ + ")"@);
        let ghost before = bindings(map@);
        map.push((out, string_of(v.as_slice())));
        assert(bindings(map@) =~= before.push((out, "(and "@ + e1@ + seq![' '] + e2@ + ")"@)));
        pos = pos + 1;
        k = k + 1;
    }
    let ghost m3 = bindings(map@);
    let mut exprs: Vec<Vec<char>> = Vec::new();
    assert(texts_view(exprs@) =~= Seq::<Seq<char>>::empty());
    let mut k: usize = 0;
    while k < outputs.len()
        invariant
            0 <= k <= outputs@.len(),
            bindings(map@) == m3,
            output_exprs(m3, outputs@, k as nat) == Ok::<Seq<Seq<char>>, Seq<char>>(texts_view(exprs@)),
            ls == content_lines(content@),
            parsed_header(ls, num_inputs, num_latches, num_outputs, num_ands),
            read_inputs(ls, num_inputs as nat) == Ok::<Seq<(usize, Seq<char>)>, Seq<char>>(m1),
            read_latches(ls, (1 + num_inputs) as nat, num_latches as nat, m1) == Ok::<Seq<(usize, Seq<char>)>, Seq<char>>(m2),
            read_outputs(ls, (1 + num_inputs + num_latches) as nat, num_outputs as nat) == Ok::<Seq<usize>, Seq<char>>(outputs@),
            read_ands(ls, (1 + num_inputs + num_latches + num_outputs) as nat, num_ands as nat, m2) == Ok::<Seq<(usize, Seq<char>)>, Seq<char>>(m3),
        decreases outputs.len() - k,
    {
        match build_expr(outputs[k], &map) {
            Ok(e) => {
                let ghost before = texts_view(exprs@);
                exprs.push(chars_of(e.as_str()));
                assert(texts_view(exprs@) =~= before.push(e@));
            },
            Err(e) => {
                proof {
                    lemma_exprs_stable(m3, outputs@, (k + 1) as nat, outputs@.len());
                }
                return Err(e);
            },
        }
        k = k + 1;
    }
    if exprs.len() == 0 {
        return Err("无效输出".to_string());
    }
    let joined_chars = join_texts(&exprs, '\n');
    Ok(string_of(joined_chars.as_slice()))
}

} // verus!
