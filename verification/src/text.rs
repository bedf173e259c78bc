//! Character-level helpers shared by the text parsers and the identifier
//! collections.
use vstd::prelude::*;

verus! {

broadcast use vstd::string::group_string_axioms;

/// The characters of a string slice, in order.
pub fn chars_of(s: &str) -> (r: Vec<char>)
    ensures
        r@ == s@,
{
    let mut r: Vec<char> = Vec::new();
    for c in it: s.chars()
        invariant
            it.seq() == s@,
            r@ == s@.take(it.index() as int),
    {
        r.push(c);
    }
    r
}

/// Builds a `String` holding exactly the given characters
/// (`FromIterator<char>` for `String`).
#[verifier::external_body]
pub(crate) fn string_of(chars: &[char]) -> (s: String)
    ensures
        s@ == chars@,
{
    chars.iter().collect()
}

/// Whether `v` holds a string equal to `x`.
pub fn contains_string(v: &[String], x: &String) -> (r: bool)
    ensures
        r == v.deep_view().contains(x@),
{
    let mut i: usize = 0;
    while i < v.len()
        invariant
            0 <= i <= v.len(),
            forall|j: int| 0 <= j < i ==> v.deep_view()[j] != x@,
        decreases v.len() - i,
    {
        if v[i] == *x {
            assert(v.deep_view()[i as int] == x@);
            return true;
        }
        i = i + 1;
    }
    false
}

/// The decimal digit character for `d < 10`.
pub open spec fn digit_char(d: nat) -> char {
    if d == 0 { '0' } else if d == 1 { '1' } else if d == 2 { '2' } else if d == 3 { '3' }
    else if d == 4 { '4' } else if d == 5 { '5' } else if d == 6 { '6' } else if d == 7 { '7' }
    else if d == 8 { '8' } else { '9' }
}

/// The decimal representation of `n`, without leading zeros.
pub open spec fn decimal(n: nat) -> Seq<char>
    decreases n,
{
    if n < 10 {
        seq![digit_char(n)]
    } else {
        decimal(n / 10).push(digit_char(n % 10))
    }
}

fn digit_of(d: usize) -> (c: char)
    requires
        d < 10,
    ensures
        c == digit_char(d as nat),
{
    if d == 0 { '0' } else if d == 1 { '1' } else if d == 2 { '2' } else if d == 3 { '3' }
    else if d == 4 { '4' } else if d == 5 { '5' } else if d == 6 { '6' } else if d == 7 { '7' }
    else if d == 8 { '8' } else { '9' }
}

/// Appends the decimal representation of `n`.
pub fn push_decimal(out: &mut Vec<char>, n: usize)
    ensures
        final(out)@ == old(out)@ + decimal(n as nat),
    decreases n,
{
    if n < 10 {
        out.push(digit_of(n));
        assert(decimal(n as nat) =~= seq![digit_char(n as nat)]);
    } else {
        push_decimal(out, n / 10);
        out.push(digit_of(n % 10));
    }
}

/// Appends the characters of `s`.
pub fn push_str(out: &mut Vec<char>, s: &str)
    ensures
        final(out)@ == old(out)@ + s@,
{
    let cs = chars_of(s);
    let ghost start = out@;
    let mut i: usize = 0;
    while i < cs.len()
        invariant
            0 <= i <= cs.len(),
            cs@ == s@,
            out@ == start + cs@.take(i as int),
            start == old(out)@,
        decreases cs.len() - i,
    {
        out.push(cs[i]);
        assert(cs@.take(i + 1) =~= cs@.take(i as int).push(cs@[i as int]));
        i = i + 1;
    }
    assert(cs@.take(i as int) =~= cs@);
}

/// The decimal text of `n`.
pub fn decimal_string(n: usize) -> (r: String)
    ensures
        r@ == decimal(n as nat),
{
    let mut v: Vec<char> = Vec::new();
    push_decimal(&mut v, n);
    assert(v@ =~= decimal(n as nat));
    string_of(&v)
}

/// The texts of a list of strings.
pub open spec fn strings_view(v: Seq<String>) -> Seq<Seq<char>> {
    v.map_values(|s: String| s@)
}

/// A copy of a list of strings.
pub fn copy_strings(v: &Vec<String>) -> (r: Vec<String>)
    ensures
        strings_view(r@) == strings_view(v@),
{
    let mut r: Vec<String> = Vec::new();
    let mut i: usize = 0;
    while i < v.len()
        invariant
            0 <= i <= v@.len(),
            strings_view(r@) == strings_view(v@.take(i as int)),
        decreases v.len() - i,
    {
        r.push(copy_string(&v[i]));
        assert(strings_view(v@.take(i + 1)) =~= strings_view(v@.take(i as int)).push(v@[i as int]@));
        assert(strings_view(r@) =~= strings_view(v@.take(i + 1)));
        i = i + 1;
    }
    assert(v@.take(i as int) =~= v@);
    r
}

/// Whether two string slices hold the same characters.
pub fn str_equals(a: &str, b: &str) -> (r: bool)
    ensures
        r == (a@ == b@),
{
    let x = chars_of(a);
    let y = chars_of(b);
    chars_equal(&x, &y)
}

/// Whether two character sequences are equal.
pub fn chars_equal(x: &[char], y: &[char]) -> (r: bool)
    ensures
        r == (x@ == y@),
{
    if x.len() != y.len() {
        return false;
    }
    let mut i: usize = 0;
    while i < x.len()
        invariant
            0 <= i <= x.len(),
            x@.len() == y@.len(),
            forall|j: int| 0 <= j < i ==> x@[j] == y@[j],
        decreases x.len() - i,
    {
        if x[i] != y[i] {
            return false;
        }
        i = i + 1;
    }
    assert(x@ =~= y@);
    true
}

/// Whether two characters are equal once ASCII letters are lowered.
pub open spec fn ascii_ci_char(a: char, b: char) -> bool {
    ||| a == b
    ||| ('A' <= a <= 'Z' && b as u32 == a as u32 + 32)
    ||| ('A' <= b <= 'Z' && a as u32 == b as u32 + 32)
}

/// Whether two texts are equal ignoring ASCII case
/// (`str::eq_ignore_ascii_case`).
pub open spec fn ascii_ci_equal(a: Seq<char>, b: Seq<char>) -> bool {
    &&& a.len() == b.len()
    &&& forall|i: int| 0 <= i < a.len() ==> ascii_ci_char(#[trigger] a[i], b[i])
}

/// Whether two string slices are equal ignoring ASCII case.
pub fn eq_ignore_ascii_case_text(a: &str, b: &str) -> (r: bool)
    ensures
        r == ascii_ci_equal(a@, b@),
{
    let x = chars_of(a);
    let y = chars_of(b);
    if x.len() != y.len() {
        return false;
    }
    let mut i: usize = 0;
    while i < x.len()
        invariant
            0 <= i <= x@.len(),
            x@ == a@,
            y@ == b@,
            x@.len() == y@.len(),
            forall|j: int| 0 <= j < i ==> ascii_ci_char(#[trigger] x@[j], y@[j]),
        decreases x.len() - i,
    {
        let c = x[i];
        let d = y[i];
        let same = c == d || ('A' <= c && c <= 'Z' && (d as u32) == (c as u32) + 32) || (
        'A' <= d && d <= 'Z' && (c as u32) == (d as u32) + 32);
        if !same {
            assert(!ascii_ci_char(x@[i as int], y@[i as int]));
            return false;
        }
        assert(ascii_ci_char(x@[i as int], y@[i as int]));
        i = i + 1;
    }
    true
}

/// Whether a switch read from the environment is on: it is set, and it is
/// neither `0` nor `false` in any ASCII case.
pub open spec fn flag_on(value: Option<Seq<char>>) -> bool {
    match value {
        Some(s) => s != "0"@ && !ascii_ci_equal(s, "false"@),
        None => false,
    }
}

/// The view of an optional string slice.
pub open spec fn opt_text(value: Option<&str>) -> Option<Seq<char>> {
    match value {
        Some(s) => Some(s@),
        None => None,
    }
}

/// Whether a switch with the given value is on.
pub fn flag_enabled(value: Option<&str>) -> (r: bool)
    ensures
        r == flag_on(opt_text(value)),
{
    match value {
        Some(s) => !str_equals(s, "0") && !eq_ignore_ascii_case_text(s, "false"),
        None => false,
    }
}

/// Whether two strings hold the same characters.
pub fn same_string(a: &String, b: &String) -> (r: bool)
    ensures
        r == (a@ == b@),
{
    *a == *b
}

/// A clone of `x`, whose characters are those of `x`.
pub fn copy_string(x: &String) -> (r: String)
    ensures
        r@ == x@,
{
    x.clone()
}

/// Whether `c` is an ASCII decimal digit.
pub open spec fn is_digit(c: char) -> bool {
    '0' <= c && c <= '9'
}

/// The value of an ASCII digit.
pub open spec fn digit_value(c: char) -> nat {
    (c as u32 - '0' as u32) as nat
}

/// The value of a run of decimal digits, most significant first.
pub open spec fn digits_value(s: Seq<char>) -> nat
    decreases s.len(),
{
    if s.len() == 0 {
        0
    } else {
        digits_value(s.drop_last()) * 10 + digit_value(s.last())
    }
}

/// The digits of an unsigned decimal literal: an optional leading `+` is
/// dropped.
pub open spec fn unsigned_digits(s: Seq<char>) -> Seq<char> {
    if s.len() > 0 && s[0] == '+' {
        s.drop_first()
    } else {
        s
    }
}

/// What `str::parse::<u64>` gives: a non-empty run of ASCII digits after an
/// optional `+`, whose value fits in a `u64`.
pub open spec fn parsed_u64(s: Seq<char>) -> Option<u64> {
    let d = unsigned_digits(s);
    if d.len() > 0 && (forall|i: int| 0 <= i < d.len() ==> is_digit(#[trigger] d[i]))
        && digits_value(d) <= u64::MAX {
        Some(digits_value(d) as u64)
    } else {
        None
    }
}

/// What `str::parse::<usize>` gives: a non-empty run of ASCII digits after
/// an optional `+`, whose value fits in a `usize`.
pub open spec fn parsed_usize(s: Seq<char>) -> Option<usize> {
    let d = unsigned_digits(s);
    if d.len() > 0 && (forall|i: int| 0 <= i < d.len() ==> is_digit(#[trigger] d[i]))
        && digits_value(d) <= usize::MAX {
        Some(digits_value(d) as usize)
    } else {
        None
    }
}

proof fn lemma_digits_value_grows(s: Seq<char>, k: int)
    requires
        0 <= k <= s.len(),
    ensures
        digits_value(s.take(k)) <= digits_value(s),
    decreases s.len() - k,
{
    if k < s.len() {
        lemma_digits_value_grows(s, k + 1);
        assert(s.take(k + 1).drop_last() =~= s.take(k));
    } else {
        assert(s.take(k) =~= s);
    }
}

/// Parses an unsigned decimal literal as `str::parse::<u64>` does.
pub fn parse_u64(text: &str) -> (r: Option<u64>)
    ensures
        r == parsed_u64(text@),
{
    let cs = chars_of(text);
    let ghost d = unsigned_digits(text@);
    let mut i: usize = 0;
    if cs.len() > 0 && cs[0] == '+' {
        i = 1;
    }
    let start = i;
    assert(d =~= cs@.subrange(start as int, cs@.len() as int));
    if start == cs.len() {
        return None;
    }
    let mut value: u64 = 0;
    while i < cs.len()
        invariant
            start <= i <= cs@.len(),
            cs@ == text@,
            d == unsigned_digits(text@),
            d == cs@.subrange(start as int, cs@.len() as int),
            d.len() > 0,
            value == digits_value(d.take(i - start)),
            forall|j: int| 0 <= j < i - start ==> is_digit(#[trigger] d[j]),
        decreases cs@.len() - i,
    {
        let c = cs[i];
        if !('0' <= c && c <= '9') {
            assert(d[i - start] == c);
            assert(!is_digit(d[i - start]));
            return None;
        }
        let digit = (c as u32 - '0' as u32) as u64;
        assert(d.take(i - start + 1).drop_last() =~= d.take(i - start));
        assert(d.take(i - start + 1).last() == c);
        assert(digits_value(d.take(i - start + 1)) == value * 10 + digit);
        match value.checked_mul(10) {
            Some(m) => match m.checked_add(digit) {
                Some(v) => {
                    value = v;
                },
                None => {
                    proof {
                        lemma_digits_value_grows(d, i - start + 1);
                    }
                    return None;
                },
            },
            None => {
                proof {
                    lemma_digits_value_grows(d, i - start + 1);
                }
                return None;
            },
        }
        i = i + 1;
    }
    assert(d.take(i - start) =~= d);
    Some(value)
}

/// Parses an unsigned decimal literal as `str::parse::<usize>` does.
pub fn parse_usize(text: &str) -> (r: Option<usize>)
    ensures
        r == parsed_usize(text@),
{
    match parse_u64(text) {
        Some(v) => if v as u128 <= usize::MAX as u128 {
            Some(v as usize)
        } else {
            None
        },
        None => None,
    }
}

/// Why `str::parse` refuses an unsigned integer.
#[derive(Debug, Clone, Copy, PartialEq, Eq, Structural)]
pub enum IntFault {
    /// The text is empty.
    Empty,
    /// A character is no digit (or a sign stands alone).
    InvalidDigit,
    /// The value exceeds the type.
    PosOverflow,
}

/// The message of a refused integer, as `ParseIntError` displays it.
pub open spec fn int_fault_text(f: IntFault) -> Seq<char> {
    match f {
        IntFault::Empty => "cannot parse integer from empty string"@,
        IntFault::InvalidDigit => "invalid digit found in string"@,
        IntFault::PosOverflow => "number too large to fit in target type"@,
    }
}

impl IntFault {
    /// The message of the fault.
    pub fn message(&self) -> (r: String)
        ensures
            r@ == int_fault_text(*self),
    {
        match self {
            IntFault::Empty => "cannot parse integer from empty string".to_string(),
            IntFault::InvalidDigit => "invalid digit found in string".to_string(),
            IntFault::PosOverflow => "number too large to fit in target type".to_string(),
        }
    }
}

/// Reads digits `d[k..]` onto the value `acc` as `str::parse` does, left to
/// right: at each digit an invalid character is reported before an
/// overflow past `max`.
pub open spec fn scan_digits(d: Seq<char>, k: nat, acc: nat, max: nat) -> Result<nat, IntFault>
    decreases d.len() - k,
{
    if k >= d.len() {
        Ok(acc)
    } else if !is_digit(d[k as int]) {
        Err(IntFault::InvalidDigit)
    } else if acc * 10 + digit_value(d[k as int]) > max {
        Err(IntFault::PosOverflow)
    } else {
        scan_digits(d, k + 1, acc * 10 + digit_value(d[k as int]), max)
    }
}

/// What `str::parse` gives for an unsigned integer type whose largest
/// value is `max`.
pub open spec fn int_parse(s: Seq<char>, max: nat) -> Result<nat, IntFault> {
    if s.len() == 0 {
        Err(IntFault::Empty)
    } else if unsigned_digits(s).len() == 0 {
        Err(IntFault::InvalidDigit)
    } else {
        scan_digits(unsigned_digits(s), 0, 0, max)
    }
}

proof fn lemma_scan_bounded(d: Seq<char>, k: nat, acc: nat, max: nat)
    requires
        acc <= max,
    ensures
        scan_digits(d, k, acc, max) matches Ok(v) ==> v <= max,
    decreases d.len() - k,
{
    if k < d.len() && is_digit(d[k as int]) && acc * 10 + digit_value(d[k as int]) <= max {
        lemma_scan_bounded(d, k + 1, acc * 10 + digit_value(d[k as int]), max);
    }
}

/// Parses an unsigned decimal `usize` as `str::parse` does, telling why a
/// text is refused.
pub fn parse_usize_checked(text: &str) -> (r: Result<usize, IntFault>)
    ensures
        match int_parse(text@, usize::MAX as nat) {
            Ok(v) => r == Ok::<usize, IntFault>(v as usize),
            Err(f) => r == Err::<usize, IntFault>(f),
        },
{
    let cs = chars_of(text);
    if cs.len() == 0 {
        return Err(IntFault::Empty);
    }
    let ghost d = unsigned_digits(text@);
    let mut i: usize = 0;
    if cs[0] == '+' {
        i = 1;
    }
    let start = i;
    assert(d =~= cs@.subrange(start as int, cs@.len() as int));
    if start == cs.len() {
        return Err(IntFault::InvalidDigit);
    }
    let mut value: usize = 0;
    while i < cs.len()
        invariant
            start <= i <= cs@.len(),
            cs@ == text@,
            text@.len() > 0,
            d == unsigned_digits(text@),
            d.len() > 0,
            d == cs@.subrange(start as int, cs@.len() as int),
            scan_digits(d, (i - start) as nat, value as nat, usize::MAX as nat) == scan_digits(
                d,
                0,
                0,
                usize::MAX as nat,
            ),
        decreases cs@.len() - i,
    {
        let c = cs[i];
        assert(d[i - start] == c);
        if !('0' <= c && c <= '9') {
            return Err(IntFault::InvalidDigit);
        }
        let digit = (c as u32 - '0' as u32) as usize;
        match value.checked_mul(10) {
            Some(m) => match m.checked_add(digit) {
                Some(v) => {
                    value = v;
                },
                None => {
                    return Err(IntFault::PosOverflow);
                },
            },
            None => {
                return Err(IntFault::PosOverflow);
            },
        }
        i = i + 1;
    }
    proof {
        lemma_scan_bounded(d, (i - start) as nat, value as nat, usize::MAX as nat);
    }
    Ok(value)
}

/// The rest of `s` after the prefix `p`, if `s` starts with it
/// (`str::strip_prefix`).
pub open spec fn after_prefix(s: Seq<char>, p: Seq<char>) -> Option<Seq<char>> {
    if p.len() <= s.len() && s.take(p.len() as int) == p {
        Some(s.skip(p.len() as int))
    } else {
        None
    }
}

/// Strips the prefix `p` from `s`.
pub fn strip_prefix_text(s: &str, p: &str) -> (r: Option<String>)
    ensures
        match after_prefix(s@, p@) {
            Some(t) => r matches Some(u) && u@ == t,
            None => r is None,
        },
{
    let cs = chars_of(s);
    let ps = chars_of(p);
    if ps.len() > cs.len() {
        return None;
    }
    let mut i: usize = 0;
    while i < ps.len()
        invariant
            0 <= i <= ps@.len() <= cs@.len(),
            cs@ == s@,
            ps@ == p@,
            forall|j: int| 0 <= j < i ==> cs@[j] == ps@[j],
        decreases ps.len() - i,
    {
        if cs[i] != ps[i] {
            assert(s@.take(p@.len() as int)[i as int] != p@[i as int]);
            return None;
        }
        i = i + 1;
    }
    assert(s@.take(p@.len() as int) =~= p@);
    let mut rest: Vec<char> = Vec::new();
    let mut k: usize = ps.len();
    while k < cs.len()
        invariant
            ps@.len() <= k <= cs@.len(),
            rest@ == cs@.subrange(ps@.len() as int, k as int),
        decreases cs.len() - k,
    {
        rest.push(cs[k]);
        k = k + 1;
        assert(rest@ =~= cs@.subrange(ps@.len() as int, k as int));
    }
    assert(rest@ =~= s@.skip(p@.len() as int));
    Some(string_of(rest.as_slice()))
}

/// The pieces of a text between occurrences of `sep`, last piece included
/// (`str::split` on one character).
pub open spec fn split_on(s: Seq<char>, sep: char) -> Seq<Seq<char>>
    decreases s.len(),
{
    if s.len() == 0 {
        seq![Seq::empty()]
    } else {
        let rest = split_on(s.drop_last(), sep);
        if s.last() == sep {
            rest.push(Seq::empty())
        } else {
            rest.update(rest.len() - 1, rest.last().push(s.last()))
        }
    }
}

/// Splits a text at each occurrence of `sep`.
pub fn split_chars(s: &Vec<char>, sep: char) -> (r: Vec<Vec<char>>)
    ensures
        texts_view(r@) == split_on(s@, sep),
{
    let mut out: Vec<Vec<char>> = Vec::new();
    out.push(Vec::new());
    let mut i: usize = 0;
    assert(s@.take(0) =~= Seq::<char>::empty());
    assert(texts_view(out@) =~= seq![Seq::<char>::empty()]);
    while i < s.len()
        invariant
            0 <= i <= s@.len(),
            texts_view(out@) == split_on(s@.take(i as int), sep),
            out@.len() > 0,
        decreases s.len() - i,
    {
        let c = s[i];
        let ghost t = s@.take(i + 1);
        assert(t.drop_last() =~= s@.take(i as int));
        assert(t.last() == c);
        if c == sep {
            out.push(Vec::new());
            assert(texts_view(out@) =~= split_on(t, sep));
        } else {
            let last = out.len() - 1;
            let mut w = copy_chars(&out[last]);
            w.push(c);
            let ghost before = texts_view(out@);
            out.set(last, w);
            assert(texts_view(out@) =~= before.update(before.len() - 1, before.last().push(c)));
        }
        i = i + 1;
    }
    assert(s@.take(i as int) =~= s@);
    out
}

/// Lexicographic order on character sequences: the order of `str`'s `Ord`,
/// since UTF-8 keeps the order of code points.
pub open spec fn chars_le(a: Seq<char>, b: Seq<char>) -> bool
    decreases a.len(),
{
    if a.len() == 0 {
        true
    } else if b.len() == 0 {
        false
    } else if a[0] != b[0] {
        a[0] < b[0]
    } else {
        chars_le(a.drop_first(), b.drop_first())
    }
}

pub proof fn lemma_chars_le_total(a: Seq<char>, b: Seq<char>)
    ensures
        chars_le(a, b) || chars_le(b, a),
    decreases a.len(),
{
    if a.len() > 0 && b.len() > 0 && a[0] == b[0] {
        lemma_chars_le_total(a.drop_first(), b.drop_first());
    }
}

pub proof fn lemma_chars_le_trans(a: Seq<char>, b: Seq<char>, c: Seq<char>)
    requires
        chars_le(a, b),
        chars_le(b, c),
    ensures
        chars_le(a, c),
    decreases a.len(),
{
    if a.len() > 0 && b.len() > 0 && c.len() > 0 && a[0] == b[0] && b[0] == c[0] {
        lemma_chars_le_trans(a.drop_first(), b.drop_first(), c.drop_first());
    }
}

pub proof fn lemma_chars_le_antisym(a: Seq<char>, b: Seq<char>)
    requires
        chars_le(a, b),
        chars_le(b, a),
    ensures
        a == b,
    decreases a.len(),
{
    if a.len() > 0 && b.len() > 0 {
        lemma_chars_le_antisym(a.drop_first(), b.drop_first());
        assert(a =~= seq![a[0]] + a.drop_first());
        assert(b =~= seq![b[0]] + b.drop_first());
    }
}

pub proof fn lemma_chars_le_refl(a: Seq<char>)
    ensures
        chars_le(a, a),
    decreases a.len(),
{
    if a.len() > 0 {
        lemma_chars_le_refl(a.drop_first());
    }
}

/// Two lexicographically sorted lists with the same entries are equal.
pub proof fn lemma_sorted_texts_unique(a: Seq<Seq<char>>, b: Seq<Seq<char>>)
    requires
        texts_sorted(a),
        texts_sorted(b),
        a.to_multiset() == b.to_multiset(),
    ensures
        a == b,
    decreases a.len(),
{
    vstd::seq_lib::to_multiset_len(a);
    vstd::seq_lib::to_multiset_len(b);
    if a.len() == 0 {
        assert(b.len() == 0);
        assert(a =~= b);
    } else {
        let la = a.last();
        let lb = b.last();
        assert(a.drop_last().push(la) =~= a);
        assert(b.drop_last().push(lb) =~= b);
        vstd::seq_lib::to_multiset_build(a.drop_last(), la);
        vstd::seq_lib::to_multiset_build(b.drop_last(), lb);
        vstd::seq_lib::to_multiset_contains(b, la);
        vstd::seq_lib::to_multiset_contains(a, lb);
        assert(a.to_multiset().count(la) > 0);
        assert(b.contains(la));
        assert(a.contains(lb));
        let j = choose|j: int| 0 <= j < b.len() && b[j] == la;
        let k = choose|k: int| 0 <= k < a.len() && a[k] == lb;
        if j < b.len() - 1 {
            assert(chars_le(b[j], b[b.len() - 1]));
        } else {
            lemma_chars_le_refl(la);
        }
        if k < a.len() - 1 {
            assert(chars_le(a[k], a[a.len() - 1]));
        } else {
            lemma_chars_le_refl(lb);
        }
        lemma_chars_le_antisym(la, lb);
        assert(a.drop_last().to_multiset() =~= a.to_multiset().remove(la));
        assert(b.drop_last().to_multiset() =~= b.to_multiset().remove(lb));
        assert(texts_sorted(a.drop_last())) by {
            assert forall|x: int, y: int| 0 <= x < y < a.drop_last().len() implies chars_le(
                #[trigger] a.drop_last()[x],
                #[trigger] a.drop_last()[y],
            ) by {
                assert(a.drop_last()[x] == a[x] && a.drop_last()[y] == a[y]);
            }
        }
        assert(texts_sorted(b.drop_last())) by {
            assert forall|x: int, y: int| 0 <= x < y < b.drop_last().len() implies chars_le(
                #[trigger] b.drop_last()[x],
                #[trigger] b.drop_last()[y],
            ) by {
                assert(b.drop_last()[x] == b[x] && b.drop_last()[y] == b[y]);
            }
        }
        lemma_sorted_texts_unique(a.drop_last(), b.drop_last());
    }
}

/// Whether `a` comes no later than `b` in lexicographic order.
pub fn chars_less_eq(a: &[char], b: &[char]) -> (r: bool)
    ensures
        r == chars_le(a@, b@),
{
    let mut i: usize = 0;
    assert(a@.skip(0) =~= a@);
    assert(b@.skip(0) =~= b@);
    while i < a.len() && i < b.len() && a[i] == b[i]
        invariant
            0 <= i <= a@.len(),
            i <= b@.len(),
            chars_le(a@, b@) == chars_le(a@.skip(i as int), b@.skip(i as int)),
        decreases a.len() - i,
    {
        proof {
            assert(a@.skip(i as int).drop_first() =~= a@.skip(i + 1));
            assert(b@.skip(i as int).drop_first() =~= b@.skip(i + 1));
        }
        i = i + 1;
    }
    if i == a.len() {
        true
    } else if i == b.len() {
        false
    } else {
        a[i] < b[i]
    }
}

/// Every pair of entries is in lexicographic order.
pub open spec fn texts_sorted(s: Seq<Seq<char>>) -> bool {
    forall|i: int, j: int| 0 <= i < j < s.len() ==> chars_le(#[trigger] s[i], #[trigger] s[j])
}

/// The views of a list of character vectors.
pub open spec fn texts_view(v: Seq<Vec<char>>) -> Seq<Seq<char>> {
    v.map_values(|t: Vec<char>| t@)
}

/// Sorts texts into lexicographic order, keeping every entry.
pub fn sort_texts(v: Vec<Vec<char>>) -> (r: Vec<Vec<char>>)
    ensures
        texts_sorted(texts_view(r@)),
        texts_view(r@).to_multiset() == texts_view(v@).to_multiset(),
{
    let ghost input = texts_view(v@);
    let mut out: Vec<Vec<char>> = Vec::new();
    let mut k: usize = 0;
    assert(input.take(0) =~= Seq::<Seq<char>>::empty());
    assert(texts_view(out@) =~= Seq::<Seq<char>>::empty());
    while k < v.len()
        invariant
            0 <= k <= v@.len(),
            input == texts_view(v@),
            texts_sorted(texts_view(out@)),
            texts_view(out@).to_multiset() == input.take(k as int).to_multiset(),
        decreases v.len() - k,
    {
        let x = copy_chars(&v[k]);
        let ghost xv = x@;
        let ghost before = texts_view(out@);
        let mut p: usize = 0;
        while p < out.len() && chars_less_eq(out[p].as_slice(), x.as_slice())
            invariant
                0 <= p <= out@.len(),
                before == texts_view(out@),
                forall|i: int| 0 <= i < p ==> chars_le(#[trigger] before[i], xv),
                xv == x@,
            decreases out.len() - p,
        {
            p = p + 1;
        }
        proof {
            if p < out.len() {
                lemma_chars_le_total(before[p as int], xv);
            }
        }
        out.insert(p, x);
        proof {
            let after = texts_view(out@);
            assert(after =~= before.insert(p as int, xv));
            assert forall|i: int, j: int| 0 <= i < j < after.len() implies chars_le(
                #[trigger] after[i],
                #[trigger] after[j],
            ) by {
                if j < p {
                    assert(after[i] == before[i] && after[j] == before[j]);
                } else if j == p {
                    assert(after[i] == before[i]);
                } else if i == p {
                    assert(after[j] == before[j - 1]);
                    if j - 1 > p {
                        lemma_chars_le_trans(xv, before[p as int], before[j - 1]);
                    }
                } else if i < p {
                    assert(after[i] == before[i] && after[j] == before[j - 1]);
                } else {
                    assert(after[i] == before[i - 1] && after[j] == before[j - 1]);
                }
            }
            vstd::seq_lib::to_multiset_insert(before, p as int, xv);
            assert(input.take(k + 1) =~= input.take(k as int).push(xv));
            vstd::seq_lib::to_multiset_build(input.take(k as int), xv);
        }
        k = k + 1;
    }
    assert(input.take(k as int) =~= input);
    out
}

/// The texts joined by `sep`.
pub open spec fn joined(parts: Seq<Seq<char>>, sep: char) -> Seq<char>
    decreases parts.len(),
{
    if parts.len() == 0 {
        Seq::empty()
    } else if parts.len() == 1 {
        parts[0]
    } else {
        joined(parts.drop_last(), sep).push(sep) + parts.last()
    }
}

/// Joins texts with a separator.
pub fn join_texts(parts: &Vec<Vec<char>>, sep: char) -> (r: Vec<char>)
    ensures
        r@ == joined(texts_view(parts@), sep),
{
    let mut out: Vec<char> = Vec::new();
    let mut i: usize = 0;
    while i < parts.len()
        invariant
            0 <= i <= parts@.len(),
            out@ == joined(texts_view(parts@).take(i as int), sep),
        decreases parts.len() - i,
    {
        let ghost before = out@;
        if i > 0 {
            out.push(sep);
        }
        let part = &parts[i];
        let mut k: usize = 0;
        while k < part.len()
            invariant
                0 <= k <= part@.len(),
                out@ == (if i > 0 {
                    before.push(sep)
                } else {
                    before
                }) + part@.take(k as int),
            decreases part.len() - k,
        {
            out.push(part[k]);
            assert(part@.take(k + 1) =~= part@.take(k as int).push(part@[k as int]));
            k = k + 1;
        }
        proof {
            assert(part@.take(k as int) =~= part@);
            let t = texts_view(parts@).take(i + 1);
            assert(t.drop_last() =~= texts_view(parts@).take(i as int));
            if i == 0 {
                assert(joined(t, sep) == t[0]);
            }
        }
        i = i + 1;
    }
    assert(texts_view(parts@).take(i as int) =~= texts_view(parts@));
    out
}

/// A copy of a character vector.
pub fn copy_chars(v: &Vec<char>) -> (r: Vec<char>)
    ensures
        r@ == v@,
{
    let mut r: Vec<char> = Vec::new();
    let mut i: usize = 0;
    while i < v.len()
        invariant
            0 <= i <= v@.len(),
            r@ == v@.take(i as int),
        decreases v.len() - i,
    {
        r.push(v[i]);
        assert(v@.take(i + 1) =~= v@.take(i as int).push(v@[i as int]));
        i = i + 1;
    }
    assert(v@.take(i as int) =~= v@);
    r
}

} // verus!
