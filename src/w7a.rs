//! The w7a game record: its header, the game comment before the first move,
//! and moves, scanned from the lines of a file.
use vstd::prelude::*;
use vstd::string::*;

use crate::text::{
    all_digits, before, chars_of, digit_value, digits_value, find_from, index_of, is_alpha,
    is_digit, keep_alpha, lemma_index_of, lemma_index_of_bound, letters_in, split_tokens,
    string_of, tokens, views,
};
use crate::ErrStr;

verus! {

/// A stage of the scan: it takes the lines it is given, keeps what it
/// recognises, and hands back the lines left for the next stage.
pub trait Scanner: Sized {
    /// What the stage makes of `lines`.
    spec fn scanned(lines: Seq<Seq<char>>, r: ErrStr<(Self, Vec<String>)>) -> bool;

    fn ingest(lines: &[String]) -> (r: ErrStr<(Self, Vec<String>)>)
        ensures
            Self::scanned(views(lines@), r),
    ;
}

// ----- the header --------------------------------------------------------

/// A header candidate starts with a bracket.
pub open spec fn starts_header(l: Seq<char>) -> bool {
    l.len() > 0 && l[0] == '['
}

/// The field of a header line: the alphabetic characters before its first quote, and the
/// text between its first two quotes. A line without two quotes, or without
/// an alphabetic character before the first, has none.
pub open spec fn header_entry(l: Seq<char>) -> Option<(Seq<char>, Seq<char>)> {
    let q1 = index_of(l, '"');
    let rest = l.skip(q1 + 1 as int);
    let q2 = index_of(rest, '"');
    let key = keep_alpha(l.take(q1 as int));
    if q1 < l.len() && q2 < rest.len() && key.len() > 0 {
        Some((key, rest.take(q2 as int)))
    } else {
        None
    }
}

/// The fields of the header lines among `ls`; a later line wins over an
/// earlier one with the same field name.
pub open spec fn header_map(ls: Seq<Seq<char>>) -> Map<Seq<char>, Seq<char>>
    decreases ls.len(),
{
    if ls.len() == 0 {
        Map::empty()
    } else {
        let m = header_map(ls.drop_last());
        let l = ls.last();
        if starts_header(l) && header_entry(l) is Some {
            m.insert(header_entry(l)->Some_0.0, header_entry(l)->Some_0.1)
        } else {
            m
        }
    }
}

/// The lines of `ls` that are not header candidates, in order.
pub open spec fn body_lines(ls: Seq<Seq<char>>) -> Seq<Seq<char>>
    decreases ls.len(),
{
    if ls.len() == 0 {
        ls
    } else if starts_header(ls.last()) {
        body_lines(ls.drop_last())
    } else {
        body_lines(ls.drop_last()).push(ls.last())
    }
}

/// The value that the last entry named `k` holds.
pub open spec fn lookup(e: Seq<(String, String)>, k: Seq<char>) -> Option<Seq<char>>
    decreases e.len(),
{
    if e.len() == 0 {
        None
    } else if e.last().0@ == k {
        Some(e.last().1@)
    } else {
        lookup(e.drop_last(), k)
    }
}

pub open spec fn unique_keys(e: Seq<(String, String)>) -> bool {
    forall|i: int, j: int| 0 <= i < j < e.len() ==> e[i].0@ != e[j].0@
}

proof fn lemma_lookup_at(e: Seq<(String, String)>, j: int)
    requires
        unique_keys(e),
        0 <= j < e.len(),
    ensures
        lookup(e, e[j].0@) == Some(e[j].1@),
    decreases e.len(),
{
    if j < e.len() - 1 {
        assert(e.drop_last()[j] == e[j]);
        lemma_lookup_at(e.drop_last(), j);
    }
}

proof fn lemma_lookup_absent(e: Seq<(String, String)>, k: Seq<char>)
    requires
        forall|i: int| 0 <= i < e.len() ==> e[i].0@ != k,
    ensures
        lookup(e, k) is None,
    decreases e.len(),
{
    if e.len() > 0 {
        lemma_lookup_absent(e.drop_last(), k);
    }
}

proof fn lemma_lookup_update(e: Seq<(String, String)>, j: int, x: (String, String), k: Seq<char>)
    requires
        0 <= j < e.len(),
        e[j].0@ != k,
        x.0@ != k,
    ensures
        lookup(e.update(j, x), k) == lookup(e, k),
    decreases e.len(),
{
    if j < e.len() - 1 {
        assert(e.update(j, x).drop_last() =~= e.drop_last().update(j, x));
        lemma_lookup_update(e.drop_last(), j, x, k);
    } else {
        assert(e.update(j, x).drop_last() =~= e.drop_last());
    }
}

/// The header of a game record: field names and their raw values, each name
/// once.
pub struct Header {
    pub header: Vec<(String, String)>,
}

impl View for Header {
    type V = Map<Seq<char>, Seq<char>>;

    open spec fn view(&self) -> Map<Seq<char>, Seq<char>> {
        Map::new(|k: Seq<char>| lookup(self.header@, k) is Some, |k: Seq<char>| lookup(self.header@, k)->Some_0)
    }
}

impl Header {
    pub open spec fn wf(&self) -> bool {
        unique_keys(self.header@)
    }

    /// Whether no field name occurs twice.
    pub fn is_wf(&self) -> (r: bool)
        ensures
            r == self.wf(),
    {
        let n = self.header.len();
        let mut i: usize = 0;
        while i < n
            invariant
                n == self.header@.len(),
                i <= n,
                forall|a: int, b: int| 0 <= a < b < n && a < i ==> self.header@[a].0@ != self.header@[b].0@,
            decreases n - i,
        {
            let mut j: usize = i + 1;
            while j < n
                invariant
                    n == self.header@.len(),
                    i < j <= n,
                    forall|a: int, b: int| 0 <= a < b < n && a < i ==> self.header@[a].0@ != self.header@[b].0@,
                    forall|b: int| i < b < j ==> self.header@[i as int].0@ != self.header@[b].0@,
                decreases n - j,
            {
                if self.header[i].0 == self.header[j].0 {
                    return false;
                }
                j = j + 1;
            }
            i = i + 1;
        }
        true
    }

    /// The raw value of the field `key`.
    pub fn get(&self, key: &str) -> (r: Option<&String>)
        requires
            self.wf(),
        ensures
            r is Some <==> self@.contains_key(key@),
            r is Some ==> r->Some_0@ == self@[key@],
    {
        let ks = String::from_str(key);
        let mut i: usize = 0;
        while i < self.header.len()
            invariant
                i <= self.header@.len(),
                self.wf(),
                ks@ == key@,
                forall|t: int| 0 <= t < i ==> self.header@[t].0@ != key@,
            decreases self.header@.len() - i,
        {
            if self.header[i].0 == ks {
                proof {
                    lemma_lookup_at(self.header@, i as int);
                }
                return Some(&self.header[i].1);
            }
            i = i + 1;
        }
        proof {
            lemma_lookup_absent(self.header@, key@);
        }
        None
    }

    /// Sets the field `k` to `v`, in place of any earlier value.
    fn put(&mut self, k: String, v: String)
        requires
            old(self).wf(),
        ensures
            final(self).wf(),
            final(self)@ == old(self)@.insert(k@, v@),
    {
        let mut i: usize = 0;
        while i < self.header.len()
            invariant
                i <= self.header@.len(),
                old(self).wf(),
                self.header@ == old(self).header@,
                forall|t: int| 0 <= t < i ==> self.header@[t].0@ != k@,
            decreases self.header@.len() - i,
        {
            if self.header[i].0 == k {
                let ghost e = self.header@;
                let ghost kv = k@;
                let ghost vv = v@;
                self.header.set(i, (k, v));
                proof {
                    let e2 = self.header@;
                    assert(e2 =~= e.update(i as int, e2[i as int]));
                    assert(e2[i as int].0@ == e[i as int].0@);
                    assert(unique_keys(e2));
                    lemma_lookup_at(e2, i as int);
                    assert forall|q: Seq<char>| q != kv implies lookup(e2, q) == lookup(e, q) by {
                        lemma_lookup_update(e, i as int, e2[i as int], q);
                    }
                    assert(self@ =~= old(self)@.insert(kv, vv));
                }
                return;
            }
            i = i + 1;
        }
        let ghost e = self.header@;
        let ghost kv = k@;
        let ghost vv = v@;
        self.header.push((k, v));
        proof {
            assert(self.header@.drop_last() =~= e);
            assert(unique_keys(self.header@));
            assert(self@ =~= old(self)@.insert(kv, vv));
        }
    }
}

/// The field name and value of a header line, or a failure where it has
/// none.
pub fn scan_header_line(line: &String) -> (r: ErrStr<(String, String)>)
    ensures
        match r {
            Ok((k, v)) => header_entry(line@) == Some((k@, v@)),
            Err(_) => header_entry(line@) is None,
        },
{
    let v = chars_of(line.as_str());
    let ghost l = line@;
    let q1 = find_from(&v, '"', 0);
    assert(v@.skip(0) =~= l);
    if q1 == v.len() {
        return Err(String::from_str("No quotes in header line"));
    }
    let q2 = find_from(&v, '"', q1 + 1);
    if q2 == v.len() {
        return Err(String::from_str("No closing quote in header line"));
    }
    let key = letters_in(&v, 0, q1);
    assert(v@.subrange(0, q1 as int) =~= l.take(q1 as int));
    if key.unicode_len() == 0 {
        return Err(String::from_str("No field name in header line"));
    }
    let value = string_of(&v, q1 + 1, q2);
    assert(value@ =~= l.skip(q1 + 1 as int).take(q2 - q1 - 1));
    Ok((key, value))
}

/// Whether a line is a header candidate.
fn is_header_line(line: &String) -> (r: bool)
    ensures
        r == starts_header(line@),
{
    let n = line.as_str().unicode_len();
    n > 0 && line.as_str().get_char(0) == '['
}

proof fn lemma_views_step(ls: Seq<String>, i: int)
    requires
        0 <= i < ls.len(),
    ensures
        views(ls.take(i + 1)).drop_last() == views(ls.take(i)),
        views(ls.take(i + 1)).last() == ls[i]@,
{
    assert(views(ls.take(i + 1)).drop_last() =~= views(ls.take(i)));
}

/// Splits `lines` into the header fields and the lines that are not header
/// candidates. Header lines without a field are dropped.
pub fn ingest_header(lines: &[String]) -> (r: ErrStr<(Header, Vec<String>)>)
    ensures
        r is Ok,
        r->Ok_0.0.wf(),
        r->Ok_0.0@ == header_map(views(lines@)),
        views(r->Ok_0.1@) == body_lines(views(lines@)),
{
    let mut hdr = Header { header: Vec::new() };
    let mut rest: Vec<String> = Vec::new();
    let mut i: usize = 0;
    assert(hdr@ =~= Map::<Seq<char>, Seq<char>>::empty());
    while i < lines.len()
        invariant
            i <= lines@.len(),
            hdr.wf(),
            hdr@ == header_map(views(lines@.take(i as int))),
            views(rest@) == body_lines(views(lines@.take(i as int))),
        decreases lines@.len() - i,
    {
        let line = &lines[i];
        proof {
            lemma_views_step(lines@, i as int);
        }
        if is_header_line(line) {
            match scan_header_line(line) {
                Ok((k, v)) => {
                    hdr.put(k, v);
                },
                Err(_) => {},
            }
        } else {
            rest.push(line.clone());
            assert(views(rest@) =~= views(rest@.drop_last()).push(line@));
        }
        i = i + 1;
    }
    assert(lines@.take(lines@.len() as int) =~= lines@);
    Ok((hdr, rest))
}

impl Scanner for Header {
    open spec fn scanned(lines: Seq<Seq<char>>, r: ErrStr<(Header, Vec<String>)>) -> bool {
        &&& r is Ok
        &&& r->Ok_0.0.wf()
        &&& r->Ok_0.0@ == header_map(lines)
        &&& views(r->Ok_0.1@) == body_lines(lines)
    }

    fn ingest(lines: &[String]) -> (r: ErrStr<(Header, Vec<String>)>) {
        ingest_header(lines)
    }
}

proof fn lemma_keep_alpha_word(key: Seq<char>)
    requires
        forall|i: int| 0 <= i < key.len() ==> is_alpha(#[trigger] key[i]),
    ensures
        keep_alpha(seq!['['] + key) == key,
    decreases key.len(),
{
    if key.len() == 0 {
        let w = seq!['['];
        assert(w.drop_last() =~= Seq::<char>::empty());
        assert(w.last() == '[' && !is_alpha('['));
        assert(keep_alpha(w) == keep_alpha(w.drop_last()));
        assert(keep_alpha(w.drop_last()).len() == 0);
        assert(keep_alpha(seq!['['] + key) =~= key) by {
            assert(seq!['['] + key =~= seq!['[']);
        }
    } else {
        assert((seq!['['] + key).drop_last() =~= seq!['['] + key.drop_last());
        lemma_keep_alpha_word(key.drop_last());
        assert(key.drop_last().push(key.last()) =~= key);
    }
}

proof fn lemma_keep_alpha_none(s: Seq<char>)
    requires
        forall|i: int| 0 <= i < s.len() ==> !is_alpha(#[trigger] s[i]),
    ensures
        keep_alpha(s).len() == 0,
    decreases s.len(),
{
    if s.len() > 0 {
        lemma_keep_alpha_none(s.drop_last());
    }
}

/// A header line `[Key "Value"]`, whose key is made of alphabetic characters and whose value
/// holds no quote, adds exactly the field `Key` with the value `Value`.
pub proof fn lemma_header_line_field(ls: Seq<Seq<char>>, key: Seq<char>, value: Seq<char>)
    requires
        key.len() > 0,
        forall|i: int| 0 <= i < key.len() ==> is_alpha(#[trigger] key[i]),
        forall|i: int| 0 <= i < value.len() ==> #[trigger] value[i] != '"',
    ensures
        ({
            let l = seq!['['] + key + seq![' ', '"'] + value + seq!['"', ']'];
            &&& header_entry(l) == Some((key, value))
            &&& header_map(ls.push(l)) == header_map(ls).insert(key, value)
            &&& body_lines(ls.push(l)) == body_lines(ls)
        }),
{
    let l = seq!['['] + key + seq![' ', '"'] + value + seq!['"', ']'];
    let q1 = key.len() + 2;
    assert forall|j: int| 0 <= j < q1 implies l[j] != '"' by {
        if 1 <= j < key.len() + 1 {
            assert(l[j] == key[j - 1]);
        }
    }
    assert(l[q1 as int] == '"');
    lemma_index_of(l, '"', q1 as int);
    let rest = l.skip(q1 + 1 as int);
    assert(rest =~= value + seq!['"', ']']);
    assert forall|j: int| 0 <= j < value.len() implies rest[j] != '"' by {
        assert(rest[j] == value[j]);
    }
    lemma_index_of(rest, '"', value.len() as int);
    assert(l.take(q1 as int) =~= seq!['['] + key + seq![' ']);
    assert((seq!['['] + key + seq![' ']).drop_last() =~= seq!['['] + key);
    lemma_keep_alpha_word(key);
    assert(rest.take(value.len() as int) =~= value);
    assert(ls.push(l).drop_last() =~= ls);
}

/// A header candidate without a closing quote, or without an alphabetic character before
/// its first quote, is dropped: the fields and the other lines stay as they
/// were.
pub proof fn lemma_header_line_dropped(ls: Seq<Seq<char>>, l: Seq<char>)
    requires
        starts_header(l),
        (forall|i: int, j: int| 0 <= i < j < l.len() ==> !(l[i] == '"' && l[j] == '"')) || (forall|
            i: int,
        |
            0 <= i < l.len() && (forall|j: int| 0 <= j < i ==> l[j] != '"') ==> !is_alpha(
                #[trigger] l[i],
            )),
    ensures
        header_entry(l) is None,
        header_map(ls.push(l)) == header_map(ls),
        body_lines(ls.push(l)) == body_lines(ls),
{
    let q1 = index_of(l, '"');
    lemma_index_of_bound(l, '"');
    let rest = l.skip(q1 + 1 as int);
    lemma_index_of_bound(rest, '"');
    let q2 = index_of(rest, '"');
    if q1 < l.len() && q2 < rest.len() && keep_alpha(l.take(q1 as int)).len() > 0 {
        assert(l[q1 + 1 + q2 as int] == rest[q2 as int]);
        assert(l[q1 as int] == '"');
        assert forall|i: int| 0 <= i < l.take(q1 as int).len() implies !is_alpha(
            #[trigger] l.take(q1 as int)[i],
        ) by {
            if !(forall|i: int, j: int| 0 <= i < j < l.len() ==> !(l[i] == '"' && l[j] == '"')) {
                assert(l.take(q1 as int)[i] == l[i]);
            }
        }
        lemma_keep_alpha_none(l.take(q1 as int));
    }
    assert(ls.push(l).drop_last() =~= ls);
}

/// The header line `[Key "Value"]`.
pub open spec fn header_text(f: (Seq<char>, Seq<char>)) -> Seq<char> {
    seq!['['] + f.0 + seq![' ', '"'] + f.1 + seq!['"', ']']
}

/// The header lines of the fields `h`, in order.
pub open spec fn header_lines(h: Seq<(Seq<char>, Seq<char>)>) -> Seq<Seq<char>> {
    h.map_values(|f: (Seq<char>, Seq<char>)| header_text(f))
}

/// A field that a header line can carry: a non-empty name of alphabetic
/// characters and a value without a quote.
pub open spec fn field_ok(f: (Seq<char>, Seq<char>)) -> bool {
    &&& f.0.len() > 0
    &&& forall|i: int| 0 <= i < f.0.len() ==> is_alpha(#[trigger] f.0[i])
    &&& forall|i: int| 0 <= i < f.1.len() ==> #[trigger] f.1[i] != '"'
}

proof fn lemma_header_block(h: Seq<(Seq<char>, Seq<char>)>)
    requires
        forall|i: int| 0 <= i < h.len() ==> field_ok(#[trigger] h[i]),
    ensures
        header_map(header_lines(h)).dom().finite(),
        forall|k: Seq<char>|
            #[trigger] header_map(header_lines(h)).dom().contains(k)
                <==> exists|i: int| 0 <= i < h.len() && (#[trigger] h[i]).0 == k,
        (forall|i: int, j: int| 0 <= i < j < h.len() ==> h[i].0 != h[j].0) ==> header_map(
            header_lines(h),
        ).dom().len() == h.len(),
        body_lines(header_lines(h)).len() == 0,
    decreases h.len(),
{
    let hl = header_lines(h);
    if h.len() == 0 {
        assert(header_map(hl).dom() =~= Set::<Seq<char>>::empty());
    } else {
        let g = h.drop_last();
        let gl = header_lines(g);
        assert forall|i: int| 0 <= i < g.len() implies field_ok(#[trigger] g[i]) by {
            assert(g[i] == h[i]);
        }
        lemma_header_block(g);
        assert(hl =~= gl.push(header_text(h.last())));
        assert(field_ok(h[h.len() - 1]));
        lemma_header_line_field(gl, h.last().0, h.last().1);
        assert(header_text(h.last()) == seq!['['] + h.last().0 + seq![' ', '"'] + h.last().1
            + seq!['"', ']']);
        assert(header_map(hl) == header_map(gl).insert(h.last().0, h.last().1));
        assert(hl.last()[0] == '[');
        assert(hl.drop_last() =~= gl);
        assert forall|k: Seq<char>| #[trigger] header_map(hl).dom().contains(k) <==> exists|
            i: int,
        | 0 <= i < h.len() && (#[trigger] h[i]).0 == k by {
            if exists|i: int| 0 <= i < h.len() && (#[trigger] h[i]).0 == k {
                let i = choose|i: int| 0 <= i < h.len() && (#[trigger] h[i]).0 == k;
                if i < h.len() - 1 {
                    assert(g[i] == h[i]);
                }
            }
            if header_map(gl).dom().contains(k) {
                let i = choose|i: int| 0 <= i < g.len() && (#[trigger] g[i]).0 == k;
                assert(h[i] == g[i]);
            }
        }
        if forall|i: int, j: int| 0 <= i < j < h.len() ==> h[i].0 != h[j].0 {
            assert forall|i: int, j: int| 0 <= i < j < g.len() implies g[i].0 != g[j].0 by {
                assert(g[i] == h[i] && g[j] == h[j]);
            }
            if header_map(gl).dom().contains(h.last().0) {
                let i = choose|i: int| 0 <= i < g.len() && (#[trigger] g[i]).0 == h.last().0;
                assert(h[i] == g[i]);
            }
        }
    }
}

proof fn lemma_body_after_header(ls: Seq<Seq<char>>, b: Seq<Seq<char>>)
    requires
        forall|i: int| 0 <= i < b.len() ==> !starts_header(#[trigger] b[i]),
    ensures
        header_map(ls + b) == header_map(ls),
        body_lines(ls + b) == body_lines(ls) + b,
    decreases b.len(),
{
    if b.len() == 0 {
        assert(ls + b =~= ls);
        assert(body_lines(ls) + b =~= body_lines(ls));
    } else {
        let c = b.drop_last();
        assert forall|i: int| 0 <= i < c.len() implies !starts_header(#[trigger] c[i]) by {
            assert(c[i] == b[i]);
        }
        lemma_body_after_header(ls, c);
        assert((ls + b).drop_last() =~= ls + c);
        assert((ls + b).last() == b.last());
        assert(!starts_header(b[b.len() - 1]));
        assert(body_lines(ls) + b =~= (body_lines(ls) + c).push(b.last()));
    }
}

/// Well-formed header lines with distinct field names, followed by lines
/// that are not header candidates: the header has exactly one entry for each
/// header line, and the lines after the header are handed on as they are.
pub proof fn lemma_header_then_body(h: Seq<(Seq<char>, Seq<char>)>, b: Seq<Seq<char>>)
    requires
        forall|i: int| 0 <= i < h.len() ==> field_ok(#[trigger] h[i]),
        forall|i: int, j: int| 0 <= i < j < h.len() ==> h[i].0 != h[j].0,
        forall|i: int| 0 <= i < b.len() ==> !starts_header(#[trigger] b[i]),
    ensures
        ({
            let ls = header_lines(h) + b;
            &&& header_map(ls).dom().len() == h.len()
            &&& forall|i: int| 0 <= i < h.len() ==> header_map(ls).contains_key(#[trigger] h[i].0)
            &&& body_lines(ls) == b
        }),
{
    let hl = header_lines(h);
    lemma_header_block(h);
    lemma_body_after_header(hl, b);
    assert(Seq::<Seq<char>>::empty() + b =~= b);
    assert forall|i: int| 0 <= i < h.len() implies header_map(hl + b).contains_key(#[trigger] h[i].0) by {
        assert(header_map(hl).dom().contains(h[i].0));
    }
}

// ----- the game comment --------------------------------------------------

/// A move line: not empty, and the text before its first period is all
/// digits.
pub open spec fn is_move_line(l: Seq<char>) -> bool {
    l.len() > 0 && all_digits(before(l, '.'))
}

/// The position of the first move line in `ls`, or the length of `ls`.
pub open spec fn first_move(ls: Seq<Seq<char>>) -> nat
    decreases ls.len(),
{
    if ls.len() == 0 {
        0
    } else if is_move_line(ls[0]) {
        0
    } else {
        1 + first_move(ls.drop_first())
    }
}

/// The lines of `ls` joined by single spaces.
pub open spec fn join(ls: Seq<Seq<char>>) -> Seq<char>
    decreases ls.len(),
{
    if ls.len() == 0 {
        Seq::empty()
    } else if ls.len() == 1 {
        ls[0]
    } else {
        join(ls.drop_last()) + seq![' '] + ls.last()
    }
}

pub open spec fn all_blank(ls: Seq<Seq<char>>) -> bool {
    forall|i: int| 0 <= i < ls.len() ==> (#[trigger] ls[i]).len() == 0
}

/// The comment that the lines `ls` make: none where all of them are empty.
pub open spec fn comment_of(ls: Seq<Seq<char>>) -> Option<Seq<char>> {
    if all_blank(ls) {
        None
    } else {
        Some(join(ls))
    }
}

/// The text of an optional comment.
pub open spec fn comment_view(c: Option<String>) -> Option<Seq<char>> {
    match c {
        Some(s) => Some(s@),
        None => None,
    }
}

/// What gathering the comment at the head of `ls` gives: the comment of the
/// lines before the first move line, and the lines from that move line on.
pub open spec fn gathered(ls: Seq<Seq<char>>, r: (Option<String>, Vec<String>)) -> bool {
    &&& comment_view(r.0) == comment_of(ls.take(first_move(ls) as int))
    &&& views(r.1@) == ls.skip(first_move(ls) as int)
}

proof fn lemma_first_move(ls: Seq<Seq<char>>, i: int)
    requires
        0 <= i <= ls.len(),
        forall|j: int| 0 <= j < i ==> !is_move_line(#[trigger] ls[j]),
        i == ls.len() || is_move_line(ls[i]),
    ensures
        first_move(ls) == i,
    decreases i,
{
    if i > 0 {
        assert forall|j: int| 0 <= j < i - 1 implies !is_move_line(#[trigger] ls.drop_first()[j]) by {
            assert(ls.drop_first()[j] == ls[j + 1]);
        }
        lemma_first_move(ls.drop_first(), i - 1);
    }
}

/// Whether `line` is a move line.
pub fn is_move(line: &str) -> (r: bool)
    ensures
        r == is_move_line(line@),
{
    let v = chars_of(line);
    if v.len() == 0 {
        return false;
    }
    let mut i: usize = 0;
    while i < v.len() && v[i] != '.'
        invariant
            i <= v@.len(),
            v@ == line@,
            forall|j: int| 0 <= j < i ==> v@[j] != '.' && crate::text::is_digit(v@[j]),
        decreases v@.len() - i,
    {
        if !('0' <= v[i] && v[i] <= '9') {
            proof {
                lemma_index_of_bound(v@, '.');
                if index_of(v@, '.') <= i {
                    lemma_index_of(v@, '.', index_of(v@, '.') as int);
                }
                assert(before(v@, '.')[i as int] == v@[i as int]);
            }
            return false;
        }
        i = i + 1;
    }
    proof {
        lemma_index_of(v@, '.', i as int);
        assert forall|j: int| 0 <= j < before(v@, '.').len() implies crate::text::is_digit(
            #[trigger] before(v@, '.')[j],
        ) by {
            assert(before(v@, '.')[j] == v@[j]);
        }
    }
    true
}

proof fn lemma_first_move_bound(ls: Seq<Seq<char>>)
    ensures
        first_move(ls) <= ls.len(),
    decreases ls.len(),
{
    if ls.len() > 0 && !is_move_line(ls[0]) {
        lemma_first_move_bound(ls.drop_first());
    }
}

proof fn lemma_first_move_found(ls: Seq<Seq<char>>)
    ensures
        first_move(ls) < ls.len() ==> is_move_line(ls[first_move(ls) as int]),
    decreases ls.len(),
{
    if ls.len() > 0 && !is_move_line(ls[0]) {
        lemma_first_move_found(ls.drop_first());
        if first_move(ls) < ls.len() {
            assert(ls[first_move(ls) as int] == ls.drop_first()[first_move(ls.drop_first()) as int]);
        }
    }
}

proof fn lemma_join_len(ls: Seq<Seq<char>>, i: int)
    requires
        0 <= i < ls.len(),
    ensures
        join(ls).len() >= ls[i].len(),
    decreases ls.len(),
{
    if ls.len() > 1 && i < ls.len() - 1 {
        assert(ls.drop_last()[i] == ls[i]);
        lemma_join_len(ls.drop_last(), i);
    }
}

/// Commentary lines `c` followed by lines `m` that start with a move line (or
/// are none): the comment gathered is `c` joined by spaces, not empty where
/// a line of `c` is not, and what is handed on is `m`.
pub proof fn lemma_comment_then_moves(c: Seq<Seq<char>>, m: Seq<Seq<char>>)
    requires
        forall|i: int| 0 <= i < c.len() ==> !is_move_line(#[trigger] c[i]),
        m.len() > 0 ==> is_move_line(m[0]),
    ensures
        first_move(c + m) == c.len(),
        (c + m).take(c.len() as int) == c,
        (c + m).skip(c.len() as int) == m,
        (exists|i: int| 0 <= i < c.len() && (#[trigger] c[i]).len() > 0) ==> comment_of(c) == Some(
            join(c),
        ) && join(c).len() > 0,
{
    let l = c + m;
    assert forall|j: int| 0 <= j < c.len() implies !is_move_line(#[trigger] l[j]) by {
        assert(l[j] == c[j]);
    }
    if m.len() > 0 {
        assert(l[c.len() as int] == m[0]);
    }
    lemma_first_move(l, c.len() as int);
    assert(l.take(c.len() as int) =~= c);
    assert(l.skip(c.len() as int) =~= m);
    if exists|i: int| 0 <= i < c.len() && (#[trigger] c[i]).len() > 0 {
        let i = choose|i: int| 0 <= i < c.len() && (#[trigger] c[i]).len() > 0;
        lemma_join_len(c, i);
    }
}

/// Gathers into one comment the lines from `start` on that come before the
/// next move line, and gives the position of that move line (or the length).
fn gather_from(lines: &[String], start: usize) -> (r: (Option<String>, usize))
    requires
        start <= lines@.len(),
    ensures
        r.1 == start + first_move(views(lines@).skip(start as int)),
        r.1 <= lines@.len(),
        r.1 < lines@.len() ==> is_move_line(lines@[r.1 as int]@),
        comment_view(r.0) == comment_of(
            views(lines@).skip(start as int).take(first_move(views(lines@).skip(start as int)) as int),
        ),
{
    let ghost sub = views(lines@).skip(start as int);
    let mut text = String::new();
    let mut blank = true;
    let mut i: usize = start;
    while i < lines.len() && !is_move(lines[i].as_str())
        invariant
            start <= i <= lines@.len(),
            sub == views(lines@).skip(start as int),
            forall|j: int| 0 <= j < i - start ==> !is_move_line(#[trigger] sub[j]),
            text@ == join(sub.take(i - start)),
            blank == all_blank(sub.take(i - start)),
        decreases lines@.len() - i,
    {
        let line = &lines[i];
        let ghost k = i - start;
        assert(sub.take(k + 1).drop_last() =~= sub.take(k));
        assert(sub[k] == line@);
        if i > start {
            text.append(" ");
            proof {
                reveal_strlit(" ");
            }
        } else {
            assert(sub.take(1).len() == 1);
        }
        text.append(line.as_str());
        if line.as_str().unicode_len() > 0 {
            blank = false;
        }
        proof {
            assert(sub.take(k + 1)[k] == line@);
            if !blank {
                assert(!(sub.take(k + 1)[k].len() == 0) || !all_blank(sub.take(k)));
            } else {
                assert forall|j: int| 0 <= j < k + 1 implies (#[trigger] sub.take(k + 1)[j]).len()
                    == 0 by {
                    if j < k {
                        assert(sub.take(k + 1)[j] == sub.take(k)[j]);
                    }
                }
            }
            if k > 0 {
                assert(text@ =~= join(sub.take(k + 1)));
            }
        }
        i = i + 1;
    }
    proof {
        if i < lines@.len() {
            assert(sub[i - start] == lines@[i as int]@);
        }
        lemma_first_move(sub, i - start);
    }
    let comment = if blank {
        None
    } else {
        Some(text)
    };
    (comment, i)
}

/// Gathers the lines before the first move line into one comment, and hands
/// back the lines from that move line on.
pub fn collect_comment(lines: &[String]) -> (r: ErrStr<(Option<String>, Vec<String>)>)
    ensures
        r is Ok,
        gathered(views(lines@), r->Ok_0),
{
    let ghost ls = views(lines@);
    let (comment, i) = gather_from(lines, 0);
    assert(ls.skip(0) =~= ls);
    let mut rest: Vec<String> = Vec::new();
    let mut j: usize = i;
    while j < lines.len()
        invariant
            i <= j <= lines@.len(),
            ls == views(lines@),
            views(rest@) == ls.subrange(i as int, j as int),
        decreases lines@.len() - j,
    {
        let ghost before_push = rest@;
        rest.push(lines[j].clone());
        assert(views(rest@) =~= views(before_push).push(lines@[j as int]@));
        assert(ls[j as int] == lines@[j as int]@);
        j = j + 1;
        assert(views(rest@) =~= ls.subrange(i as int, j as int));
    }
    assert(ls.subrange(i as int, lines@.len() as int) =~= ls.skip(i as int));
    Ok((comment, rest))
}

/// The comment between the header and the first move, if there is one.
pub struct GameComment {
    pub comment: Option<String>,
}

impl Scanner for GameComment {
    open spec fn scanned(lines: Seq<Seq<char>>, r: ErrStr<(GameComment, Vec<String>)>) -> bool {
        &&& r is Ok
        &&& gathered(lines, (r->Ok_0.0.comment, r->Ok_0.1))
    }

    fn ingest(lines: &[String]) -> (r: ErrStr<(GameComment, Vec<String>)>) {
        match collect_comment(lines) {
            Ok((comment, rest)) => Ok((GameComment { comment }, rest)),
            Err(e) => Err(e),
        }
    }
}

// ----- moves -------------------------------------------------------------

/// The side that makes a move.
#[derive(Debug, Clone, Copy, PartialEq, Eq, Structural)]
pub enum Color {
    BLACK,
    WHITE,
}

/// The pieces that a move can name.
#[derive(Debug, Clone, Copy, PartialEq, Eq, Structural)]
pub enum Piece {
    PAWN,
}

/// A square: its file (1 to 9) and its rank (`a` to `i`).
#[derive(Debug, Clone, Copy, PartialEq, Eq, Structural)]
pub struct Position {
    pub x: usize,
    pub y: char,
}

/// One move of the game, e.g. `1.P7g-7f     00:00:00  00:00:00`. The total
/// time is the mover's cumulative thinking time, in seconds.
pub struct Move {
    pub n: usize,
    pub piece: Piece,
    pub from: Option<Position>,
    pub to: Position,
    pub promote: bool,
    pub capture: bool,
    pub drop: bool,
    pub total_time: u32,
    pub comment: Option<String>,
}

/// Black makes the odd-numbered moves, White the even-numbered ones.
pub open spec fn color_of(n: nat) -> Color {
    if n % 2 == 1 {
        Color::BLACK
    } else {
        Color::WHITE
    }
}

pub fn color(m: &Move) -> (r: Color)
    ensures
        r == color_of(m.n as nat),
{
    if m.n % 2 == 1 {
        Color::BLACK
    } else {
        Color::WHITE
    }
}

/// The cumulative time before move `b`: that of the mover's previous move
/// `a`, or zero where there is none.
pub open spec fn start_of(a: Option<&Move>) -> int {
    match a {
        Some(m) => m.total_time as int,
        None => 0,
    }
}

/// The time spent on move `b`, in seconds, given the same side's previous
/// move `a`.
pub fn dur(a: Option<&Move>, b: &Move) -> (r: i64)
    ensures
        r == b.total_time - start_of(a),
{
    let start: i64 = match a {
        Some(m) => m.total_time as i64,
        None => 0,
    };
    b.total_time as i64 - start
}

/// The piece that a letter names, in either case.
pub fn parse_piece(c: char) -> (r: ErrStr<Piece>)
    ensures
        r is Ok <==> (c == 'P' || c == 'p'),
        r is Ok ==> r->Ok_0 == Piece::PAWN,
{
    if c == 'P' || c == 'p' {
        Ok(Piece::PAWN)
    } else {
        let mut e = String::from_str("No piece exists for char ");
        crate::text::push_char(&mut e, c);
        Err(e)
    }
}

/// The square that a file digit (`1` to `9`) and a rank letter (`a` to `i`)
/// name.
pub open spec fn position_of(f: char, r: char) -> Option<Position> {
    if '1' <= f && f <= '9' && 'a' <= r && r <= 'i' {
        Some(Position { x: (f as int - '0' as int) as usize, y: r })
    } else {
        None
    }
}

/// What follows the destination: nothing, or `+` for a promotion.
pub open spec fn promotion_of(fl: Seq<char>) -> Option<bool> {
    if fl.len() == 0 {
        Some(false)
    } else if fl == seq!['+'] {
        Some(true)
    } else {
        None
    }
}

/// The notation after the piece letter, as (origin, destination, promote,
/// capture, drop): either `*` and a destination (a drop from hand), or an
/// origin, `-` (a move) or `x` (a capture), and a destination; then an
/// optional `+`.
pub open spec fn notation_of(t: Seq<char>) -> Option<(Option<Position>, Position, bool, bool, bool)> {
    if t.len() >= 3 && t[0] == '*' {
        match (position_of(t[1], t[2]), promotion_of(t.skip(3))) {
            (Some(to), Some(p)) => Some((None, to, p, false, true)),
            _ => None,
        }
    } else if t.len() >= 5 && (t[2] == '-' || t[2] == 'x') {
        match (position_of(t[0], t[1]), position_of(t[3], t[4]), promotion_of(t.skip(5))) {
            (Some(from), Some(to), Some(p)) => Some((Some(from), to, p, t[2] == 'x', false)),
            _ => None,
        }
    } else {
        None
    }
}

/// The seconds of a clock reading `hh:mm:ss`.
pub open spec fn clock_of(c: Seq<char>) -> Option<nat> {
    if c.len() == 8 && c[2] == ':' && c[5] == ':' && is_digit(c[0]) && is_digit(c[1]) && is_digit(
        c[3],
    ) && is_digit(c[4]) && is_digit(c[6]) && is_digit(c[7]) {
        Some(
            (digit_value(c[0]) * 10 + digit_value(c[1])) * 3600 + (digit_value(c[3]) * 10
                + digit_value(c[4])) * 60 + digit_value(c[6]) * 10 + digit_value(c[7]),
        )
    } else {
        None
    }
}

/// The move of a move line `<number>.<piece><notation> <move time> <total
/// time>`, without a comment. The line has exactly three whitespace-separated
/// fields: the number and notation, then two clock readings, of which the
/// second is the mover's total time.
pub open spec fn move_of(l: Seq<char>) -> Option<Move> {
    let p = tokens(l);
    let head = p[0];
    let d = index_of(head, '.');
    let num = head.take(d as int);
    let tok = head.skip(d + 1 as int);
    if p.len() == 3 && d < head.len() && num.len() > 0 && all_digits(num) && digits_value(num)
        <= u32::MAX && tok.len() > 0 && (tok[0] == 'P' || tok[0] == 'p') {
        match (notation_of(tok.skip(1)), clock_of(p[1]), clock_of(p[2])) {
            (Some((from, to, promote, capture, drop)), Some(_), Some(t)) => Some(
                Move {
                    n: digits_value(num) as usize,
                    piece: Piece::PAWN,
                    from,
                    to,
                    promote,
                    capture,
                    drop,
                    total_time: t as u32,
                    comment: None,
                },
            ),
            _ => None,
        }
    } else {
        None
    }
}

fn fail<T>(what: &str, line: &String) -> (r: ErrStr<T>)
    ensures
        r is Err,
{
    let mut e = String::from_str(what);
    e.append(line.as_str());
    Err(e)
}

fn parse_position(v: &Vec<char>, a: usize) -> (r: Option<Position>)
    requires
        a + 2 <= v.len(),
    ensures
        r == position_of(v@[a as int], v@[a + 1]),
{
    let f = v[a];
    let rk = v[a + 1];
    if '1' <= f && f <= '9' && 'a' <= rk && rk <= 'i' {
        Some(Position { x: ((f as u32) - ('0' as u32)) as usize, y: rk })
    } else {
        None
    }
}

fn parse_promotion(v: &Vec<char>, a: usize, b: usize) -> (r: Option<bool>)
    requires
        a <= b <= v@.len(),
    ensures
        r == promotion_of(v@.subrange(a as int, b as int)),
{
    if a == b {
        Some(false)
    } else if b == a + 1 && v[a] == '+' {
        assert(v@.subrange(a as int, b as int) =~= seq!['+']);
        Some(true)
    } else {
        proof {
            if b == a + 1 {
                assert(v@.subrange(a as int, b as int)[0] == v@[a as int]);
            }
        }
        None
    }
}

fn parse_notation(v: &Vec<char>, a: usize, b: usize) -> (r: Option<
    (Option<Position>, Position, bool, bool, bool),
>)
    requires
        a <= b <= v@.len(),
    ensures
        r == notation_of(v@.subrange(a as int, b as int)),
{
    let ghost t = v@.subrange(a as int, b as int);
    if b - a >= 3 && v[a] == '*' {
        assert(t[0] == v@[a as int] && t[1] == v@[a + 1] && t[2] == v@[a + 2]);
        assert(t.skip(3) =~= v@.subrange(a + 3, b as int));
        match (parse_position(v, a + 1), parse_promotion(v, a + 3, b)) {
            (Some(to), Some(p)) => Some((None, to, p, false, true)),
            _ => None,
        }
    } else if b - a >= 5 && (v[a + 2] == '-' || v[a + 2] == 'x') {
        assert(t[0] == v@[a as int] && t[1] == v@[a + 1] && t[2] == v@[a + 2]);
        assert(t[3] == v@[a + 3] && t[4] == v@[a + 4]);
        assert(t.skip(5) =~= v@.subrange(a + 5, b as int));
        match (parse_position(v, a), parse_position(v, a + 3), parse_promotion(v, a + 5, b)) {
            (Some(from), Some(to), Some(p)) => Some((Some(from), to, p, v[a + 2] == 'x', false)),
            _ => None,
        }
    } else {
        proof {
            if b - a >= 3 {
                assert(t[0] == v@[a as int]);
            }
            if b - a >= 5 {
                assert(t[2] == v@[a + 2]);
            }
        }
        None
    }
}

fn digit_at(v: &Vec<char>, i: usize) -> (r: Option<u32>)
    requires
        i < v@.len(),
    ensures
        r is Some <==> is_digit(v@[i as int]),
        r is Some ==> r->Some_0 == digit_value(v@[i as int]) && r->Some_0 <= 9,
{
    let c = v[i];
    if '0' <= c && c <= '9' {
        Some((c as u32) - ('0' as u32))
    } else {
        None
    }
}

fn parse_clock(v: &Vec<char>, a: usize) -> (r: Option<u32>)
    requires
        a <= v@.len(),
    ensures
        match r {
            Some(t) => clock_of(v@.skip(a as int)) == Some(t as nat),
            None => clock_of(v@.skip(a as int)) is None,
        },
{
    let ghost c = v@.skip(a as int);
    if v.len() - a != 8 || v[a + 2] != ':' || v[a + 5] != ':' {
        proof {
            if v@.len() - a == 8 {
                assert(c[2] == v@[a + 2] && c[5] == v@[a + 5]);
            }
        }
        return None;
    }
    assert(c[0] == v@[a as int] && c[1] == v@[a + 1] && c[2] == v@[a + 2] && c[3] == v@[a + 3]);
    assert(c[4] == v@[a + 4] && c[5] == v@[a + 5] && c[6] == v@[a + 6] && c[7] == v@[a + 7]);
    match (
        digit_at(v, a),
        digit_at(v, a + 1),
        digit_at(v, a + 3),
        digit_at(v, a + 4),
        digit_at(v, a + 6),
        digit_at(v, a + 7),
    ) {
        (Some(h1), Some(h0), Some(m1), Some(m0), Some(s1), Some(s0)) => Some(
            (h1 * 10 + h0) * 3600 + (m1 * 10 + m0) * 60 + s1 * 10 + s0,
        ),
        _ => None,
    }
}

/// The move of a move line, without its comment.
pub fn parse_move(line: &String) -> (r: ErrStr<Move>)
    ensures
        match r {
            Ok(m) => move_of(line@) == Some(m),
            Err(_) => move_of(line@) is None,
        },
{
    let toks = split_tokens(line.as_str());
    let ghost p = tokens(line@);
    if toks.len() != 3 {
        return fail("A move needs its notation and two times: ", line);
    }
    assert(toks@[0]@ == p[0] && toks@[1]@ == p[1] && toks@[2]@ == p[2]);
    let v = chars_of(toks[0].as_str());
    let ghost l = p[0];
    let d = find_from(&v, '.', 0);
    assert(v@.skip(0) =~= l);
    if d == v.len() || d == 0 || !crate::text::digits_only(&v, 0, d) {
        assert(v@.subrange(0, d as int) =~= l.take(d as int));
        return fail("No move number in ", line);
    }
    assert(v@.subrange(0, d as int) =~= l.take(d as int));
    let num = string_of(&v, 0, d);
    let n = match crate::text::parse_u32(num.as_str()) {
        Some(n) => n,
        None => {
            return fail("Move number out of range in ", line);
        },
    };
    let ghost tok = l.skip(d + 1 as int);
    if d + 1 == v.len() {
        return fail("No piece in move ", line);
    }
    assert(tok[0] == v@[d + 1]);
    match parse_piece(v[d + 1]) {
        Ok(_) => {},
        Err(err) => {
            return Err(err);
        },
    }
    assert(tok.skip(1) =~= v@.subrange(d + 2, v@.len() as int));
    let (from, to, promote, capture, drop) = match parse_notation(&v, d + 2, v.len()) {
        Some(x) => x,
        None => {
            return fail("Malformed move notation in ", line);
        },
    };
    let mv = chars_of(toks[1].as_str());
    assert(mv@.skip(0) =~= p[1]);
    match parse_clock(&mv, 0) {
        Some(_) => {},
        None => {
            return fail("Malformed move time in ", line);
        },
    }
    let tv = chars_of(toks[2].as_str());
    assert(tv@.skip(0) =~= p[2]);
    let total_time = match parse_clock(&tv, 0) {
        Some(t) => t,
        None => {
            return fail("Malformed total time in ", line);
        },
    };
    Ok(
        Move {
            n: n as usize,
            piece: Piece::PAWN,
            from,
            to,
            promote,
            capture,
            drop,
            total_time,
            comment: None,
        },
    )
}

/// A move without its comment, and the text of its comment.
pub open spec fn entry_of(m: Move) -> (Move, Option<Seq<char>>) {
    (
        Move {
            n: m.n,
            piece: m.piece,
            from: m.from,
            to: m.to,
            promote: m.promote,
            capture: m.capture,
            drop: m.drop,
            total_time: m.total_time,
            comment: None,
        },
        comment_view(m.comment),
    )
}

pub open spec fn entries(ms: Seq<Move>) -> Seq<(Move, Option<Seq<char>>)> {
    ms.map_values(|m: Move| entry_of(m))
}

/// The moves at the head of `ls`, numbered on from `next`: each move line
/// with the comment of the lines up to the next move line. `prev` is the
/// total time of the mover's previous move and `last` that of the move just
/// before; a mover's total time never goes down. None where a move line
/// cannot be read, breaks the numbering, or lowers its mover's total time.
pub open spec fn move_entries(ls: Seq<Seq<char>>, next: nat, prev: nat, last: nat) -> Option<
    Seq<(Move, Option<Seq<char>>)>,
>
    decreases ls.len(),
    via move_entries_decreases
{
    if ls.len() == 0 || !is_move_line(ls[0]) {
        Some(Seq::empty())
    } else {
        let after = ls.skip(1);
        let k = first_move(after);
        match move_of(ls[0]) {
            Some(m) => if m.n == next && m.total_time >= prev {
                match move_entries(after.skip(k as int), next + 1, last, m.total_time as nat) {
                    Some(rest) => Some(seq![(m, comment_of(after.take(k as int)))] + rest),
                    None => None,
                }
            } else {
                None
            },
            None => None,
        }
    }
}

#[via_fn]
proof fn move_entries_decreases(ls: Seq<Seq<char>>, next: nat, prev: nat, last: nat) {
    if ls.len() > 0 {
        lemma_first_move_bound(ls.skip(1));
    }
}

/// The moves read from a record are numbered on by one from where the count
/// starts: the `i`-th move read from `next` on is move `next + i`.
pub proof fn lemma_move_numbers(ls: Seq<Seq<char>>, next: nat, prev: nat, last: nat)
    requires
        move_entries(ls, next, prev, last) is Some,
    ensures
        forall|i: int|
            0 <= i < move_entries(ls, next, prev, last)->Some_0.len() ==> (#[trigger] move_entries(
                ls,
                next,
                prev,
                last,
            )->Some_0[i]).0.n == next + i,
    decreases ls.len(),
{
    if ls.len() > 0 && is_move_line(ls[0]) {
        let after = ls.skip(1);
        let k = first_move(after);
        lemma_first_move_bound(after);
        let t = move_of(ls[0])->Some_0.total_time as nat;
        lemma_move_numbers(after.skip(k as int), next + 1, last, t);
        let es = move_entries(ls, next, prev, last)->Some_0;
        let rest = move_entries(after.skip(k as int), next + 1, last, t)->Some_0;
        assert forall|i: int| 0 <= i < es.len() implies (#[trigger] es[i]).0.n == next + i by {
            if i > 0 {
                assert(es[i] == rest[i - 1]);
            }
        }
    }
}

/// Scanning a whole record leaves no line over: after the header and the
/// game comment, every line is a move line or the comment of one.
pub proof fn lemma_record_leaves_nothing(lines: Seq<Seq<char>>)
    ensures
        moves_rest(move_lines(lines)).len() == 0,
{
    let b = body_lines(lines);
    lemma_first_move_bound(b);
    lemma_first_move_found(b);
    if first_move(b) < b.len() {
        assert(move_lines(lines)[0] == b[first_move(b) as int]);
    }
}

/// The moves of a record's move lines, numbered from 1.
pub open spec fn record_moves(ls: Seq<Seq<char>>) -> Option<Seq<(Move, Option<Seq<char>>)>> {
    move_entries(ls, 1, 0, 0)
}

/// What the move scan leaves: nothing, unless the lines do not start with a
/// move line.
pub open spec fn moves_rest(ls: Seq<Seq<char>>) -> Seq<Seq<char>> {
    if ls.len() > 0 && !is_move_line(ls[0]) {
        ls
    } else {
        Seq::empty()
    }
}

/// The moves of a game, in order.
pub struct Moves {
    pub moves: Vec<Move>,
}

/// Reads the moves at the head of `lines`, numbered from 1, each with the
/// comment that follows it; fails where a mover's total time goes down.
pub fn ingest_moves(lines: &[String]) -> (r: ErrStr<(Moves, Vec<String>)>)
    ensures
        match r {
            Ok((ms, rest)) => {
                &&& record_moves(views(lines@)) == Some(entries(ms.moves@))
                &&& views(rest@) == moves_rest(views(lines@))
            },
            Err(_) => record_moves(views(lines@)) is None,
        },
{
    let ghost ls = views(lines@);
    let mut out: Vec<Move> = Vec::new();
    let mut i: usize = 0;
    let mut next: u64 = 1;
    let mut prev: u32 = 0;
    let mut last: u32 = 0;
    assert(ls.skip(0) =~= ls);
    proof {
        if record_moves(ls) is Some {
            assert(entries(out@) + record_moves(ls)->Some_0 =~= record_moves(ls)->Some_0);
        }
    }
    while i < lines.len() && is_move(lines[i].as_str())
        invariant
            i <= lines@.len(),
            ls == views(lines@),
            next == out@.len() + 1,
            i == 0 || i == lines@.len() || is_move_line(ls[i as int]),
            i == 0 ==> out@.len() == 0,
            i > 0 ==> ls.len() > 0 && is_move_line(ls[0]),
            record_moves(ls) is Some <==> move_entries(
                ls.skip(i as int),
                next as nat,
                prev as nat,
                last as nat,
            ) is Some,
            record_moves(ls) is Some ==> record_moves(ls)->Some_0 == entries(out@) + move_entries(
                ls.skip(i as int),
                next as nat,
                prev as nat,
                last as nat,
            )->Some_0,
        decreases lines@.len() - i,
    {
        let ghost cur = ls.skip(i as int);
        assert(cur[0] == lines@[i as int]@);
        let mut m = match parse_move(&lines[i]) {
            Ok(m) => m,
            Err(e) => {
                return Err(e);
            },
        };
        if m.n as u64 != next {
            return Err(String::from_str("Move numbers must run on by one"));
        }
        if m.total_time < prev {
            return Err(String::from_str("A total time went down for its mover"));
        }
        let t = m.total_time;
        let (comment, j) = gather_from(lines, i + 1);
        proof {
            assert(cur.skip(1) =~= ls.skip(i + 1));
            lemma_first_move_bound(cur.skip(1));
            assert(cur.skip(1).skip(j - i - 1) =~= ls.skip(j as int));
        }
        m.comment = comment;
        let ghost before_push = out@;
        out.push(m);
        proof {
            assert(entries(out@) =~= entries(before_push).push(entry_of(m)));
            let tail = move_entries(ls.skip(j as int), (next + 1) as nat, last as nat, t as nat);
            if tail is Some {
                assert(entries(out@) + tail->Some_0 =~= entries(before_push) + (seq![entry_of(m)]
                    + tail->Some_0));
            }
        }
        i = j;
        next = next + 1;
        prev = last;
        last = t;
    }
    let mut rest: Vec<String> = Vec::new();
    if i == 0 {
        let mut j: usize = 0;
        while j < lines.len()
            invariant
                j <= lines@.len(),
                ls == views(lines@),
                views(rest@) == ls.take(j as int),
            decreases lines@.len() - j,
        {
            let ghost before_push = rest@;
            rest.push(lines[j].clone());
            assert(views(rest@) =~= views(before_push).push(lines@[j as int]@));
            j = j + 1;
            assert(views(rest@) =~= ls.take(j as int));
        }
        assert(ls.take(lines@.len() as int) =~= ls);
    }
    proof {
        if i < lines@.len() {
            assert(ls.skip(i as int)[0] == ls[i as int]);
        } else {
            assert(ls.skip(i as int).len() == 0);
        }
        assert(entries(out@) + Seq::empty() =~= entries(out@));
        if i > 0 && i == lines@.len() {
            assert(views(rest@) =~= Seq::<Seq<char>>::empty());
        }
    }
    Ok((Moves { moves: out }, rest))
}

impl Scanner for Moves {
    open spec fn scanned(lines: Seq<Seq<char>>, r: ErrStr<(Moves, Vec<String>)>) -> bool {
        match r {
            Ok((ms, rest)) => {
                &&& record_moves(lines) == Some(entries(ms.moves@))
                &&& views(rest@) == moves_rest(lines)
            },
            Err(_) => record_moves(lines) is None,
        }
    }

    fn ingest(lines: &[String]) -> (r: ErrStr<(Moves, Vec<String>)>) {
        ingest_moves(lines)
    }
}

// ----- the whole record ------------------------------------------------

/// A game record: its header, its game comment, and its moves.
pub struct W7A {
    pub header: Header,
    pub game_comment: GameComment,
    pub moves: Moves,
}

/// The lines of a game record after its header and its game comment.
pub open spec fn move_lines(lines: Seq<Seq<char>>) -> Seq<Seq<char>> {
    body_lines(lines).skip(first_move(body_lines(lines)) as int)
}

impl Scanner for W7A {
    open spec fn scanned(lines: Seq<Seq<char>>, r: ErrStr<(W7A, Vec<String>)>) -> bool {
        match r {
            Ok((w, rest)) => {
                &&& w.header.wf()
                &&& w.header@ == header_map(lines)
                &&& comment_view(w.game_comment.comment) == comment_of(
                    body_lines(lines).take(first_move(body_lines(lines)) as int),
                )
                &&& record_moves(move_lines(lines)) == Some(entries(w.moves.moves@))
                &&& views(rest@) == moves_rest(move_lines(lines))
            },
            Err(_) => record_moves(move_lines(lines)) is None,
        }
    }

    fn ingest(lines: &[String]) -> (r: ErrStr<(W7A, Vec<String>)>) {
        let (header, rest) = match Header::ingest(lines) {
            Ok(p) => p,
            Err(e) => {
                return Err(e);
            },
        };
        let (game_comment, tail) = match GameComment::ingest(rest.as_slice()) {
            Ok(p) => p,
            Err(e) => {
                return Err(e);
            },
        };
        let (moves, left) = match Moves::ingest(tail.as_slice()) {
            Ok(p) => p,
            Err(e) => {
                return Err(e);
            },
        };
        Ok((W7A { header, game_comment, moves }, left))
    }
}

} // verus!
