//! The header and initial-position blocks of a JSON Kifu Format document,
//! and their JSON text.
use vstd::prelude::*;
use vstd::string::*;

use crate::text::push_char;

verus! {

/// The text of each field name and value.
pub open spec fn pairs(e: Seq<(String, String)>) -> Seq<(Seq<char>, Seq<char>)> {
    e.map_values(|p: (String, String)| (p.0@, p.1@))
}

pub open spec fn quoted(s: Seq<char>) -> Seq<char> {
    seq!['"'] + s + seq!['"']
}

/// `"key": "value"`
pub open spec fn attrib_text(p: (Seq<char>, Seq<char>)) -> Seq<char> {
    quoted(p.0) + seq![':', ' '] + quoted(p.1)
}

/// What stands between two attributes of a block.
pub open spec fn attrib_sep() -> Seq<char> {
    seq![',', '\n', '\t', '\t', '\t']
}

/// The attributes, one to a line.
pub open spec fn attribs_text(f: Seq<(Seq<char>, Seq<char>)>) -> Seq<char>
    decreases f.len(),
{
    if f.len() == 0 {
        Seq::empty()
    } else if f.len() == 1 {
        attrib_text(f[0])
    } else {
        attribs_text(f.drop_last()) + attrib_sep() + attrib_text(f.last())
    }
}

/// A JSON object of string attributes.
pub open spec fn hash_text(f: Seq<(Seq<char>, Seq<char>)>) -> Seq<char> {
    seq!['{', '\n', '\t', '\t', '\t'] + attribs_text(f) + seq![' ', '}']
}

/// A named block: `"name": { ... }`, indented, on lines of its own.
pub open spec fn block_text(name: Seq<char>, f: Seq<(Seq<char>, Seq<char>)>) -> Seq<char> {
    seq!['\t'] + quoted(name) + seq![':', '\n', '\t', '\t'] + hash_text(f) + seq!['\n']
}

/// The name of the even-game starting position.
pub open spec fn hirate() -> Seq<char> {
    seq!['H', 'I', 'R', 'A', 'T', 'E']
}

fn push_all(out: &mut String, cs: &[char])
    ensures
        final(out)@ == old(out)@ + cs@,
{
    let mut i: usize = 0;
    let ghost start = out@;
    while i < cs.len()
        invariant
            i <= cs@.len(),
            out@ == start + cs@.take(i as int),
        decreases cs@.len() - i,
    {
        push_char(out, cs[i]);
        i = i + 1;
        assert(out@ =~= start + cs@.take(i as int));
    }
    assert(cs@.take(cs@.len() as int) =~= cs@);
}

/// `s` between double quotes.
pub fn quot(s: &str) -> (r: String)
    ensures
        r@ == quoted(s@),
{
    let mut r = String::new();
    push_char(&mut r, '"');
    r.append(s);
    push_char(&mut r, '"');
    assert(r@ =~= quoted(s@));
    r
}

fn push_attrib(out: &mut String, k: &String, v: &String)
    ensures
        final(out)@ == old(out)@ + attrib_text((k@, v@)),
{
    let ghost start = out@;
    let qk = quot(k.as_str());
    out.append(qk.as_str());
    push_all(out, &[':', ' ']);
    let qv = quot(v.as_str());
    out.append(qv.as_str());
    assert(out@ =~= start + attrib_text((k@, v@)));
}

/// The JSON object of the attributes `attribs`, in their order.
pub fn json_hash(attribs: &Vec<(String, String)>) -> (r: String)
    ensures
        r@ == hash_text(pairs(attribs@)),
{
    let mut r = String::new();
    push_all(&mut r, &['{', '\n', '\t', '\t', '\t']);
    let ghost head = r@;
    let mut i: usize = 0;
    while i < attribs.len()
        invariant
            i <= attribs@.len(),
            r@ == head + attribs_text(pairs(attribs@.take(i as int))),
        decreases attribs@.len() - i,
    {
        assert(pairs(attribs@.take(i + 1)).drop_last() =~= pairs(attribs@.take(i as int)));
        assert(pairs(attribs@.take(i + 1)).last() == (attribs@[i as int].0@, attribs@[i as int].1@));
        if i > 0 {
            push_all(&mut r, &[',', '\n', '\t', '\t', '\t']);
        }
        push_attrib(&mut r, &attribs[i].0, &attribs[i].1);
        i = i + 1;
        assert(r@ =~= head + attribs_text(pairs(attribs@.take(i as int))));
    }
    assert(attribs@.take(attribs@.len() as int) =~= attribs@);
    push_all(&mut r, &[' ', '}']);
    assert(r@ =~= hash_text(pairs(attribs@)));
    r
}

/// The block named `name` holding the attributes `attribs`.
pub fn json_block(name: &str, attribs: &Vec<(String, String)>) -> (r: String)
    ensures
        r@ == block_text(name@, pairs(attribs@)),
{
    let mut r = String::new();
    push_char(&mut r, '\t');
    let q = quot(name);
    r.append(q.as_str());
    push_all(&mut r, &[':', '\n', '\t', '\t']);
    let h = json_hash(attribs);
    r.append(h.as_str());
    push_char(&mut r, '\n');
    assert(r@ =~= block_text(name@, pairs(attribs@)));
    r
}

/// The header block: JKF field names and their values.
pub struct Header {
    pub fields: Vec<(String, String)>,
}

impl Header {
    pub fn new(fields: Vec<(String, String)>) -> (r: Header)
        ensures
            r.fields@ == fields@,
    {
        Header { fields }
    }

    pub fn as_json(&self) -> (r: String)
        ensures
            r@ == block_text("header"@, pairs(self.fields@)),
    {
        json_block("header", &self.fields)
    }
}

/// Relies on `serde_variant::to_variant_name`, which gives the serde name of
/// a unit enum variant, and on shogi-kifu-converter's `Preset::PresetHirate`,
/// whose serde name is `HIRATE`.
#[verifier::external_body]
fn hirate_name() -> (r: String)
    ensures
        r@ == hirate(),
{
    serde_variant::to_variant_name(&shogi_kifu_converter::jkf::Preset::PresetHirate).unwrap().to_string()
}

/// The initial-position block: the name of a preset position.
pub struct Initial {
    pub preset: String,
}

impl Default for Initial {
    fn default() -> (r: Initial)
        ensures
            r.preset@ == hirate(),
    {
        Initial { preset: hirate_name() }
    }
}

impl Initial {
    pub fn as_json(&self) -> (r: String)
        ensures
            r@ == block_text("initial"@, seq![("preset"@, self.preset@)]),
    {
        let attribs = vec![(String::from_str("preset"), self.preset.clone())];
        assert(pairs(attribs@) =~= seq![("preset"@, self.preset@)]);
        json_block("initial", &attribs)
    }
}

} // verus!
