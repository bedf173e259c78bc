//! A mapped gate-level Verilog netlist as the sizing tool reads it: its
//! ports, its `assign` aliases, its standard-cell instances with their pin
//! connections, and the digest of its topology (the text with every cell
//! name replaced by `<CELL>`).  The text is scanned with regular
//! expressions; what is done with their captures is verified here.
use vstd::prelude::*;

use crate::aiger_text::{trim_chars, trimmed};
use crate::materialize::{sha256_hex, sha256_hex_of};
use crate::text::{chars_of, push_str, split_chars, split_on, string_of, texts_view};

verus! {

/// The index of the first line feed of `t` at or after `k` (its length
/// when there is none).
pub open spec fn line_end_from(t: Seq<char>, k: int) -> int
    decreases t.len() - k,
{
    if k >= t.len() {
        t.len() as int
    } else if t[k] == '\n' {
        k
    } else {
        line_end_from(t, k + 1)
    }
}

pub proof fn lemma_line_end_from(t: Seq<char>, k: int)
    requires
        0 <= k <= t.len(),
    ensures
        k <= line_end_from(t, k) <= t.len(),
    decreases t.len() - k,
{
    if k < t.len() && t[k] != '\n' {
        lemma_line_end_from(t, k + 1);
    }
}

/// The text without `//` comments: from each `//` (scanning from the
/// left) up to, not including, the end of its line.
pub open spec fn comment_free(t: Seq<char>) -> Seq<char>
    decreases t.len(),
{
    if t.len() == 0 {
        t
    } else if t.len() >= 2 && t[0] == '/' && t[1] == '/' {
        proof {
            lemma_line_end_from(t, 2);
        }
        comment_free(t.skip(line_end_from(t, 2)))
    } else {
        seq![t[0]] + comment_free(t.drop_first())
    }
}

/// Removes `//` comments: `regex::Regex::replace_all` of `//[^\n]*` by
/// nothing, which replaces the leftmost matches one after another.
/// Trusted: the result is `comment_free` of the text.
#[verifier::external_body]
fn strip_comments(text: &str) -> (r: String)
    ensures
        r@ == comment_free(text@),
{
    regex::Regex::new(r"//[^\n]*").unwrap().replace_all(text, "").into_owned()
}

/// The declaration bodies (between the keyword and `;`) of the ports of
/// kind `kind`.
pub uninterp spec fn port_chunks(text: Seq<char>, kind: Seq<char>) -> Seq<Seq<char>>;

/// The first capture of every match of `(?s)\b<kind>\b\s+([^;]+);`
/// (`regex::Regex::captures_iter`), in order.  Trusted: the result is
/// `port_chunks` of the text and the kind.
#[verifier::external_body]
fn port_captures(text: &str, kind: &str) -> (r: Vec<String>)
    requires
        kind@ == "input"@ || kind@ == "output"@,
    ensures
        strs(r@) == port_chunks(text@, kind@),
{
    let re = regex::Regex::new(&format!(r"(?s)\b{}\b\s+([^;]+);", kind)).unwrap();
    re.captures_iter(text).map(|c| c[1].to_owned()).collect()
}

/// A port declaration without its `wire`, `reg`, `logic` and `signed`
/// qualifiers.
pub uninterp spec fn unqualified(chunk: Seq<char>) -> Seq<char>;

/// `regex::Regex::replace_all` of `\b(?:wire|reg|logic|signed)\b` by
/// nothing.  Trusted: the result is `unqualified` of the text.
#[verifier::external_body]
fn strip_qualifiers(chunk: &str) -> (r: String)
    ensures
        r@ == unqualified(chunk@),
{
    regex::Regex::new(r"\b(?:wire|reg|logic|signed)\b").unwrap().replace_all(chunk, "").into_owned()
}

/// The (target, source) of every `assign target = source;`.
pub uninterp spec fn assign_pairs(text: Seq<char>) -> Seq<(Seq<char>, Seq<char>)>;

/// The two captures of every match of
/// `\bassign\s+(\w+)\s*=\s*([^;\s]+)\s*;`, in order.  Trusted: the result is
/// `assign_pairs` of the text.
#[verifier::external_body]
fn assign_captures(text: &str) -> (r: Vec<(String, String)>)
    ensures
        pairs_view(r@) == assign_pairs(text@),
{
    let re = regex::Regex::new(r"\bassign\s+(\w+)\s*=\s*([^;\s]+)\s*;").unwrap();
    re.captures_iter(text).map(|c| (c[1].to_owned(), c[2].to_owned())).collect()
}

/// The (cell, instance name, connection text) of every cell instance.
pub uninterp spec fn instance_triples(text: Seq<char>) -> Seq<(Seq<char>, Seq<char>, Seq<char>)>;

/// The three captures of every match of
/// `(?ms)^\s*(\w+_ASAP7_(?:6t_L|75t_R))\s+(\w+)\s*\((.*?)\)\s*;`, in order.
/// Trusted: the result is `instance_triples` of the text.
#[verifier::external_body]
fn instance_captures(text: &str) -> (r: Vec<(String, String, String)>)
    ensures
        triples_view(r@) == instance_triples(text@),
{
    let re = regex::Regex::new(r"(?ms)^\s*(\w+_ASAP7_(?:6t_L|75t_R))\s+(\w+)\s*\((.*?)\)\s*;").unwrap();
    re.captures_iter(text).map(|c| (c[1].to_owned(), c[2].to_owned(), c[3].to_owned())).collect()
}

/// The (pin, signal) of every `.pin(signal)` of a connection text, the
/// signal as captured (not trimmed).
pub uninterp spec fn connection_pairs(body: Seq<char>) -> Seq<(Seq<char>, Seq<char>)>;

/// The two captures of every match of `\.(\w+)\s*\(\s*([^()]+?)\s*\)`, in
/// order.  Trusted: the result is `connection_pairs` of the text.
#[verifier::external_body]
fn connection_captures(body: &str) -> (r: Vec<(String, String)>)
    ensures
        pairs_view(r@) == connection_pairs(body@),
{
    let re = regex::Regex::new(r"\.(\w+)\s*\(\s*([^()]+?)\s*\)").unwrap();
    re.captures_iter(body).map(|c| (c[1].to_owned(), c[2].to_owned())).collect()
}

/// The text with each instance's cell name replaced by `<CELL>`.
pub uninterp spec fn topology_form(text: Seq<char>) -> Seq<char>;

/// `regex::Regex::replace_all` of `(?m)^(\s*)\w+_ASAP7_(?:6t_L|75t_R)(\s+\w+\s*\()`
/// by `${1}<CELL>${2}`.  Trusted: the result is `topology_form` of the text.
#[verifier::external_body]
fn topology_text(text: &str) -> (r: String)
    ensures
        r@ == topology_form(text@),
{
    let re = regex::Regex::new(r"(?m)^(\s*)\w+_ASAP7_(?:6t_L|75t_R)(\s+\w+\s*\()").unwrap();
    re.replace_all(text, "${1}<CELL>${2}").into_owned()
}

pub open spec fn strs(v: Seq<String>) -> Seq<Seq<char>> {
    v.map_values(|s: String| s@)
}

pub open spec fn pairs_view(v: Seq<(String, String)>) -> Seq<(Seq<char>, Seq<char>)> {
    v.map_values(|p: (String, String)| (p.0@, p.1@))
}

pub open spec fn triples_view(v: Seq<(String, String, String)>) -> Seq<(Seq<char>, Seq<char>, Seq<char>)> {
    v.map_values(|t: (String, String, String)| (t.0@, t.1@, t.2@))
}

/// `s` with every line feed turned into a space.
pub open spec fn one_line(s: Seq<char>) -> Seq<char> {
    s.map_values(|c: char| if c == '\n' {
        ' '
    } else {
        c
    })
}

/// The trimmed, non-empty pieces of `parts[k..]`.
pub open spec fn solid_pieces(parts: Seq<Seq<char>>, k: nat) -> Seq<Seq<char>>
    decreases parts.len() - k,
{
    if k >= parts.len() {
        Seq::empty()
    } else {
        let t = trimmed(parts[k as int]);
        let rest = solid_pieces(parts, k + 1);
        if t.len() == 0 {
            rest
        } else {
            seq![t] + rest
        }
    }
}

/// The names of one port declaration: its comma-separated, trimmed,
/// non-empty pieces once the qualifiers are gone.
pub open spec fn chunk_names(chunk: Seq<char>) -> Seq<Seq<char>> {
    solid_pieces(split_on(one_line(unqualified(chunk)), ','), 0)
}

/// The port names of the declarations `chunks[k..]`, in order.
pub open spec fn port_names(chunks: Seq<Seq<char>>, k: nat) -> Seq<Seq<char>>
    decreases chunks.len() - k,
{
    if k >= chunks.len() {
        Seq::empty()
    } else {
        chunk_names(chunks[k as int]) + port_names(chunks, k + 1)
    }
}

/// The names of `names[..k]`, each once, at its first appearance.
pub open spec fn distinct_names(names: Seq<Seq<char>>, k: nat) -> Seq<Seq<char>>
    decreases k,
{
    if k == 0 {
        Seq::empty()
    } else {
        let rest = distinct_names(names, (k - 1) as nat);
        if rest.contains(names[k - 1]) {
            rest
        } else {
            rest.push(names[k - 1])
        }
    }
}

/// One instance: name, cell and its (pin, signal) connections.
#[derive(Debug)]
pub struct MappedInstance {
    pub name: String,
    pub cell: String,
    pub conns: Vec<(String, String)>,
}

/// A parsed mapped netlist.  The primary inputs are listed once each, in
/// order of first declaration.
#[derive(Debug)]
pub struct MappedNetlist {
    pub inputs: Vec<String>,
    pub outputs: Vec<String>,
    pub assigns: Vec<(String, String)>,
    pub instances: Vec<MappedInstance>,
    pub topology_sha256: String,
}

pub struct InstanceView {
    pub name: Seq<char>,
    pub cell: Seq<char>,
    pub conns: Seq<(Seq<char>, Seq<char>)>,
}

pub struct MappedView {
    pub inputs: Seq<Seq<char>>,
    pub outputs: Seq<Seq<char>>,
    pub assigns: Seq<(Seq<char>, Seq<char>)>,
    pub instances: Seq<InstanceView>,
    pub topology_sha256: Seq<char>,
}

pub open spec fn instance_view(i: MappedInstance) -> InstanceView {
    InstanceView { name: i.name@, cell: i.cell@, conns: pairs_view(i.conns@) }
}

impl View for MappedNetlist {
    type V = MappedView;

    open spec fn view(&self) -> MappedView {
        MappedView {
            inputs: strs(self.inputs@),
            outputs: strs(self.outputs@),
            assigns: pairs_view(self.assigns@),
            instances: self.instances@.map_values(|i: MappedInstance| instance_view(i)),
            topology_sha256: self.topology_sha256@,
        }
    }
}

/// The connections of an instance: each captured signal trimmed.
pub open spec fn trimmed_conns(ps: Seq<(Seq<char>, Seq<char>)>) -> Seq<(Seq<char>, Seq<char>)> {
    ps.map_values(|p: (Seq<char>, Seq<char>)| (p.0, trimmed(p.1)))
}

/// The instance of a captured (cell, name, connection text).
pub open spec fn captured_instance(t: (Seq<char>, Seq<char>, Seq<char>)) -> InstanceView {
    InstanceView { name: t.1, cell: t.0, conns: trimmed_conns(connection_pairs(t.2)) }
}

/// What the sizing tool reads from the netlist file `path` holding
/// `source`: the ports, aliases and instances of the comment-free text and
/// the digest of the topology of the original text; an error when the text
/// has no mapped instance.
pub open spec fn mapped_netlist(path: Seq<char>, source: Seq<char>) -> Result<MappedView, Seq<char>> {
    let text = comment_free(source);
    let triples = instance_triples(text);
    if triples.len() == 0 {
        Err("no mapped instances in "@ + path)
    } else {
        let ins = port_names(port_chunks(text, "input"@), 0);
        Ok(
            MappedView {
                inputs: distinct_names(ins, ins.len()),
                outputs: port_names(port_chunks(text, "output"@), 0),
                assigns: assign_pairs(text),
                instances: triples.map_values(|t: (Seq<char>, Seq<char>, Seq<char>)| captured_instance(t)),
                topology_sha256: sha256_hex(topology_form(source)),
            },
        )
    }
}

/// A copy of a text list's members as strings.
fn to_strings(v: &Vec<Vec<char>>) -> (r: Vec<String>)
    ensures
        strs(r@) == texts_view(v@),
{
    let mut r: Vec<String> = Vec::new();
    let mut k: usize = 0;
    while k < v.len()
        invariant
            0 <= k <= v@.len(),
            strs(r@) == texts_view(v@.take(k as int)),
        decreases v.len() - k,
    {
        r.push(string_of(v[k].as_slice()));
        assert(texts_view(v@.take(k + 1)) =~= texts_view(v@.take(k as int)).push(v@[k as int]@));
        assert(strs(r@) =~= texts_view(v@.take(k + 1)));
        k = k + 1;
    }
    assert(v@.take(k as int) =~= v@);
    r
}

/// The names of one port declaration (see `chunk_names`).
fn names_of_chunk(chunk: &str, out: &mut Vec<String>)
    ensures
        strs(final(out)@) == strs(old(out)@) + chunk_names(chunk@),
{
    let plain = strip_qualifiers(chunk);
    let cs = chars_of(plain.as_str());
    let mut line: Vec<char> = Vec::new();
    let mut k: usize = 0;
    while k < cs.len()
        invariant
            0 <= k <= cs@.len(),
            cs@ == unqualified(chunk@),
            line@ == one_line(cs@).take(k as int),
        decreases cs.len() - k,
    {
        line.push(if cs[k] == '\n' {
            ' '
        } else {
            cs[k]
        });
        assert(line@ =~= one_line(cs@).take(k + 1));
        k = k + 1;
    }
    assert(line@ =~= one_line(cs@));
    let parts = split_chars(&line, ',');
    let ghost ps = texts_view(parts@);
    let ghost start = strs(out@);
    let mut j: usize = parts.len();
    let mut tail: Vec<String> = Vec::new();
    while j > 0
        invariant
            0 <= j <= parts@.len(),
            ps == texts_view(parts@),
            ps == split_on(one_line(unqualified(chunk@)), ','),
            strs(tail@) == solid_pieces(ps, j as nat),
        decreases j,
    {
        j = j - 1;
        let t = trim_chars(&parts[j]);
        if t.len() > 0 {
            let ghost before = strs(tail@);
            tail.insert(0, string_of(t.as_slice()));
            assert(strs(tail@) =~= seq![trimmed(ps[j as int])] + before);
        }
    }
    let mut i: usize = 0;
    while i < tail.len()
        invariant
            0 <= i <= tail@.len(),
            strs(out@) == start + strs(tail@.take(i as int)),
        decreases tail.len() - i,
    {
        let ghost before = out@;
        out.push(crate::text::copy_string(&tail[i]));
        assert(strs(tail@.take(i + 1)) =~= strs(tail@.take(i as int)).push(tail@[i as int]@));
        assert(strs(out@) =~= strs(before).push(tail@[i as int]@));
        assert(strs(out@) =~= start + strs(tail@.take(i + 1)));
        i = i + 1;
    }
    assert(tail@.take(i as int) =~= tail@);
}

/// The port names of the given kind (see `port_names`).
fn port_list(text: &str, kind: &str) -> (r: Vec<String>)
    requires
        kind@ == "input"@ || kind@ == "output"@,
    ensures
        strs(r@) == port_names(port_chunks(text@, kind@), 0),
{
    let chunks = port_captures(text, kind);
    let ghost cs = strs(chunks@);
    let mut out: Vec<String> = Vec::new();
    let mut k: usize = 0;
    while k < chunks.len()
        invariant
            0 <= k <= chunks@.len(),
            cs == strs(chunks@),
            cs == port_chunks(text@, kind@),
            strs(out@) + port_names(cs, k as nat) == port_names(cs, 0),
        decreases chunks.len() - k,
    {
        let ghost before = strs(out@);
        names_of_chunk(chunks[k].as_str(), &mut out);
        assert(before + port_names(cs, k as nat) =~= strs(out@) + port_names(cs, (k + 1) as nat));
        k = k + 1;
    }
    assert(strs(out@) =~= port_names(cs, 0));
    out
}

/// The names, each once, at its first appearance (see `distinct_names`).
fn distinct(names: &Vec<String>) -> (r: Vec<String>)
    ensures
        strs(r@) == distinct_names(strs(names@), names@.len()),
{
    let ghost ns = strs(names@);
    let mut r: Vec<String> = Vec::new();
    let mut k: usize = 0;
    while k < names.len()
        invariant
            0 <= k <= names@.len(),
            ns == strs(names@),
            strs(r@) == distinct_names(ns, k as nat),
        decreases names.len() - k,
    {
        let mut seen = false;
        let mut j: usize = 0;
        while j < r.len()
            invariant
                0 <= j <= r@.len(),
                k < names@.len(),
                seen == exists|q: int| 0 <= q < j && (#[trigger] r@[q])@ == names@[k as int]@,
            decreases r.len() - j,
        {
            if crate::text::same_string(&r[j], &names[k]) {
                seen = true;
            }
            j = j + 1;
        }
        proof {
            let rv = strs(r@);
            if seen {
                let q = choose|q: int| 0 <= q < r@.len() && (#[trigger] r@[q])@ == names@[k as int]@;
                assert(rv[q] == ns[k as int]);
            } else {
                assert(!rv.contains(ns[k as int])) by {
                    if rv.contains(ns[k as int]) {
                        let q = choose|q: int| 0 <= q < rv.len() && rv[q] == ns[k as int];
                        assert(r@[q]@ == names@[k as int]@);
                    }
                }
            }
        }
        if !seen {
            let ghost before = strs(r@);
            r.push(crate::text::copy_string(&names[k]));
            assert(strs(r@) =~= before.push(ns[k as int]));
        }
        k = k + 1;
    }
    r
}

/// The instance of a captured (cell, name, connection text).
fn instance_of(t: &(String, String, String)) -> (r: MappedInstance)
    ensures
        instance_view(r) == captured_instance((t.0@, t.1@, t.2@)),
{
    let raw = connection_captures(t.2.as_str());
    let ghost rv = pairs_view(raw@);
    let mut conns: Vec<(String, String)> = Vec::new();
    let mut k: usize = 0;
    while k < raw.len()
        invariant
            0 <= k <= raw@.len(),
            rv == pairs_view(raw@),
            conns@.len() == k,
            pairs_view(conns@) == trimmed_conns(rv).take(k as int),
        decreases raw.len() - k,
    {
        let sig = trim_chars(&chars_of(raw[k].1.as_str()));
        let ghost before = conns@;
        let entry = (crate::text::copy_string(&raw[k].0), string_of(sig.as_slice()));
        assert(rv[k as int] == (raw@[k as int].0@, raw@[k as int].1@));
        assert((entry.0@, entry.1@) == trimmed_conns(rv)[k as int]);
        conns.push(entry);
        assert(pairs_view(conns@) =~= pairs_view(before).push((entry.0@, entry.1@)));
        assert(trimmed_conns(rv).take(k + 1) =~= trimmed_conns(rv).take(k as int).push(trimmed_conns(rv)[k as int]));
        k = k + 1;
    }
    assert(trimmed_conns(rv).take(k as int) =~= trimmed_conns(rv));
    MappedInstance { name: crate::text::copy_string(&t.1), cell: crate::text::copy_string(&t.0), conns }
}

/// Reads a mapped netlist from the text of the file `path` (see
/// `mapped_netlist`).
pub fn parse_mapped_netlist(path: &str, source: &str) -> (r: Result<MappedNetlist, String>)
    ensures
        match mapped_netlist(path@, source@) {
            Ok(v) => r matches Ok(m) && m@ == v,
            Err(e) => r matches Err(x) && x@ == e,
        },
{
    let text = strip_comments(source);
    let triples = instance_captures(text.as_str());
    if triples.len() == 0 {
        let mut v: Vec<char> = Vec::new();
        push_str(&mut v, "no mapped instances in ");
        push_str(&mut v, path);
        return Err(string_of(v.as_slice()));
    }
    let ins = port_list(text.as_str(), "input");
    let inputs = distinct(&ins);
    let outputs = port_list(text.as_str(), "output");
    let assigns = assign_captures(text.as_str());
    let ghost tv = triples_view(triples@);
    let mut instances: Vec<MappedInstance> = Vec::new();
    let mut k: usize = 0;
    while k < triples.len()
        invariant
            0 <= k <= triples@.len(),
            tv == triples_view(triples@),
            instances@.len() == k,
            forall|q: int| 0 <= q < k ==> instance_view(#[trigger] instances@[q]) == captured_instance(tv[q]),
        decreases triples.len() - k,
    {
        let inst = instance_of(&triples[k]);
        assert(tv[k as int] == (triples@[k as int].0@, triples@[k as int].1@, triples@[k as int].2@));
        instances.push(inst);
        k = k + 1;
    }
    let topo = topology_text(source);
    let sha = sha256_hex_of(topo.as_str());
    let m = MappedNetlist { inputs, outputs, assigns, instances, topology_sha256: sha };
    assert(m@.instances =~= tv.map_values(|t: (Seq<char>, Seq<char>, Seq<char>)| captured_instance(t)));
    Ok(m)
}

} // verus!
