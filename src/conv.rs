//! The conversion of w7a values into JKF values: month names, compound
//! dates, and the table that maps header fields.
use vstd::prelude::*;
use vstd::string::*;

use crate::text::{
    all_digits, chars_of, digits_in, digits_only, digits_value, keep_digits, lemma_keep_digits,
    parse_u32, push_decimal, split_tokens, tokens, two_digit,
};
use crate::jkf::{block_text, hirate, pairs, Header as JHeader, Initial};
use crate::text::views;
use crate::w7a::{header_map, move_lines, record_moves, Header, Scanner, W7A};
use crate::ErrStr;

verus! {

/// A value already in the form that JKF wants, kept apart from raw text.
#[derive(Debug)]
pub struct JsonString {
    pub string: String,
}

impl View for JsonString {
    type V = Seq<char>;

    open spec fn view(&self) -> Seq<char> {
        self.string@
    }
}

impl PartialEq for JsonString {
    fn eq(&self, o: &JsonString) -> (r: bool) {
        self.string == o.string
    }
}

impl vstd::std_specs::cmp::PartialEqSpecImpl for JsonString {
    open spec fn obeys_eq_spec() -> bool {
        true
    }

    open spec fn eq_spec(&self, o: &JsonString) -> bool {
        self.string@ == o.string@
    }
}

impl JsonString {
    pub fn as_json(&self) -> (r: String)
        ensures
            r@ == self@,
    {
        self.string.clone()
    }
}

pub fn mk_jstr(s: &str) -> (r: JsonString)
    ensures
        r@ == s@,
{
    JsonString { string: String::from_str(s) }
}

/// Whether `c` is the lowercase ASCII letter `lower` in either case.
pub open spec fn same_letter(c: char, lower: char) -> bool {
    c == lower || (c as u32) + 32 == (lower as u32)
}

/// Whether `s` spells the lowercase word `w`, ignoring ASCII case.
pub open spec fn spells(s: Seq<char>, w: Seq<char>) -> bool {
    s.len() == w.len() && forall|i: int| 0 <= i < s.len() ==> same_letter(#[trigger] s[i], w[i])
}

/// Whether `s` names a month by its three-letter abbreviation or in full.
pub open spec fn names_month(s: Seq<char>, short: Seq<char>, rest: Seq<char>) -> bool {
    spells(s, short) || spells(s, short + rest)
}

/// The number (1 to 12) of the English month that `s` names, in any ASCII case,
/// either abbreviated to three letters or in full.
pub open spec fn month_number_of(s: Seq<char>) -> Option<u32> {
    if names_month(s, seq!['j', 'a', 'n'], seq!['u', 'a', 'r', 'y']) {
        Some(1)
    } else if names_month(s, seq!['f', 'e', 'b'], seq!['r', 'u', 'a', 'r', 'y']) {
        Some(2)
    } else if names_month(s, seq!['m', 'a', 'r'], seq!['c', 'h']) {
        Some(3)
    } else if names_month(s, seq!['a', 'p', 'r'], seq!['i', 'l']) {
        Some(4)
    } else if names_month(s, seq!['m', 'a', 'y'], seq![]) {
        Some(5)
    } else if names_month(s, seq!['j', 'u', 'n'], seq!['e']) {
        Some(6)
    } else if names_month(s, seq!['j', 'u', 'l'], seq!['y']) {
        Some(7)
    } else if names_month(s, seq!['a', 'u', 'g'], seq!['u', 's', 't']) {
        Some(8)
    } else if names_month(s, seq!['s', 'e', 'p'], seq!['t', 'e', 'm', 'b', 'e', 'r']) {
        Some(9)
    } else if names_month(s, seq!['o', 'c', 't'], seq!['o', 'b', 'e', 'r']) {
        Some(10)
    } else if names_month(s, seq!['n', 'o', 'v'], seq!['e', 'm', 'b', 'e', 'r']) {
        Some(11)
    } else if names_month(s, seq!['d', 'e', 'c'], seq!['e', 'm', 'b', 'e', 'r']) {
        Some(12)
    } else {
        None
    }
}

/// Relies on chrono's `FromStr` for `Month` (case-insensitive; only the
/// three-letter and the full English name are accepted) and on
/// `Month::number_from_month` (January is 1).
#[verifier::external_body]
fn parse_month(m: &str) -> (r: Option<u32>)
    ensures
        r == month_number_of(m@),
{
    m.parse::<chrono::Month>().ok().map(|mo| mo.number_from_month())
}

/// The two-digit numeral of a month name.
pub open spec fn month_text(m: Seq<char>) -> Option<Seq<char>> {
    match month_number_of(m) {
        Some(n) => Some(two_digit(n as nat)),
        None => None,
    }
}

/// The time of day that every converted date carries.
pub open spec fn start_time() -> Seq<char> {
    seq![' ', '0', '0', ':', '0', '0', ':', '0', '1']
}

/// `<year>/<month>/<day> 00:00:01` from `<month> <day...> ... <year>`, read
/// from the whitespace-separated tokens of `s`: the month is the first token,
/// the day the digits of the second, and the year the last token, which must
/// be all digits. Tokens between the day and the year are passed over.
pub open spec fn date_text(s: Seq<char>) -> Option<Seq<char>> {
    let p = tokens(s);
    if p.len() == 0 {
        None
    } else {
        let day = keep_digits(p[1]);
        let year = p.last();
        match month_text(p[0]) {
            Some(month) => if p.len() >= 2 && day.len() > 0 && digits_value(day) <= u32::MAX
                && all_digits(year) {
                Some(
                    year + seq!['/'] + month + seq!['/'] + two_digit(digits_value(day))
                        + start_time(),
                )
            } else {
                None
            },
            None => None,
        }
    }
}

/// The first day mentioned wins: two dates whose first two tokens and last
/// token agree convert alike, whatever stands between the day and the year.
pub proof fn lemma_date_ignores_middle(s: Seq<char>, t: Seq<char>)
    requires
        tokens(s).len() >= 2,
        tokens(t).len() >= 2,
        tokens(s)[0] == tokens(t)[0],
        tokens(s)[1] == tokens(t)[1],
        tokens(s).last() == tokens(t).last(),
    ensures
        date_text(s) == date_text(t),
{
}

/// `r` is the text `o` when there is one, and a failure when there is none.
pub open spec fn yields(r: ErrStr<JsonString>, o: Option<Seq<char>>) -> bool {
    match r {
        Ok(j) => o == Some(j@),
        Err(_) => o is None,
    }
}

fn message(what: &str, detail: &str) -> (r: String) {
    let mut e = String::from_str(what);
    e.append(detail);
    e
}

pub fn two_digits(n: u32) -> (r: JsonString)
    ensures
        r@ == two_digit(n as nat),
{
    let mut s = String::new();
    if n < 10 {
        s.append("0");
        proof {
            reveal_strlit("0");
        }
    }
    push_decimal(&mut s, n);
    proof {
        assert(s@ =~= two_digit(n as nat));
    }
    JsonString { string: s }
}

pub fn convert_month(m: &str) -> (r: ErrStr<JsonString>)
    ensures
        yields(r, month_text(m@)),
{
    match parse_month(m) {
        Some(n) => Ok(two_digits(n)),
        None => Err(message("Can't parse month ", m)),
    }
}

pub fn convert_date(dt: &str) -> (r: ErrStr<JsonString>)
    ensures
        yields(r, date_text(dt@)),
{
    let toks = split_tokens(dt);
    let ghost p = tokens(dt@);
    if toks.len() == 0 {
        return Err(String::from_str("No month in an empty date"));
    }
    assert(toks@[0]@ == p[0]);
    let m1 = match convert_month(toks[0].as_str()) {
        Ok(m) => m,
        Err(e) => {
            return Err(e);
        },
    };
    if toks.len() < 2 {
        return Err(message("Could not fetch day from ", dt));
    }
    assert(toks@[1]@ == p[1]);
    let dv = chars_of(toks[1].as_str());
    let day_nums = digits_in(&dv, 0, dv.len());
    assert(dv@.subrange(0, dv@.len() as int) =~= p[1]);
    proof {
        lemma_keep_digits(p[1]);
    }
    let d1 = match parse_u32(day_nums.as_str()) {
        Some(d) => d,
        None => {
            return Err(message("Cannot parse day from ", day_nums.as_str()));
        },
    };
    let year = &toks[toks.len() - 1];
    assert(year@ == p.last());
    let yv = chars_of(year.as_str());
    if !digits_only(&yv, 0, yv.len()) {
        assert(yv@.subrange(0, yv@.len() as int) =~= p.last());
        return Err(message("Cannot parse the year ", year.as_str()));
    }
    assert(yv@.subrange(0, yv@.len() as int) =~= p.last());
    let mut out = year.clone();
    out.append("/");
    out.append(m1.string.as_str());
    out.append("/");
    let d2 = two_digits(d1);
    out.append(d2.string.as_str());
    out.append(" 00:00:01");
    proof {
        reveal_strlit("/");
        reveal_strlit(" 00:00:01");
        assert(out@ =~= p.last() + seq!['/'] + m1@ + seq!['/'] + two_digit(
            digits_value(keep_digits(p[1])),
        ) + start_time());
    }
    Ok(JsonString { string: out })
}

// ----- the conversion of a header ---------------------------------------

/// A conversion from a w7a value to a JKF value.
pub trait Convert<W, J> {
    /// What converting `domain` gives.
    spec fn converts(&self, domain: &W, r: ErrStr<J>) -> bool;

    fn convert(&self, domain: &W) -> (r: ErrStr<J>)
        ensures
            self.converts(domain, r),
    ;
}

/// The conversions of the parts of a date.
pub enum DateConverter {
    MONTH,
    DATE,
}

impl Convert<String, JsonString> for DateConverter {
    open spec fn converts(&self, s: &String, r: ErrStr<JsonString>) -> bool {
        match self {
            DateConverter::MONTH => yields(r, month_text(s@)),
            DateConverter::DATE => yields(r, date_text(s@)),
        }
    }

    fn convert(&self, s: &String) -> (r: ErrStr<JsonString>) {
        match self {
            DateConverter::MONTH => convert_month(s.as_str()),
            DateConverter::DATE => convert_date(s.as_str()),
        }
    }
}

/// How the value of a header field is carried over.
#[derive(Debug, Clone, Copy, PartialEq, Eq, Structural)]
pub enum Xform {
    /// As it stands.
    Identity,
    /// As a date.
    Date,
}

pub open spec fn xform_text(x: Xform, v: Seq<char>) -> Option<Seq<char>> {
    match x {
        Xform::Identity => Some(v),
        Xform::Date => date_text(v),
    }
}

/// One entry of the header table: a w7a field, the JKF field it becomes, and
/// how its value is carried over.
pub struct FieldRule {
    pub w7a: String,
    pub jkf: String,
    pub xform: Xform,
}

pub open spec fn rule_views(rs: Seq<FieldRule>) -> Seq<(Seq<char>, Seq<char>, Xform)> {
    rs.map_values(|r: FieldRule| (r.w7a@, r.jkf@, r.xform))
}

/// The JKF fields that the table `rs` makes of the w7a header `h`, in the
/// order of the table; fields that `h` lacks are passed over. None where a
/// value cannot be carried over.
pub open spec fn converted_fields(
    rs: Seq<(Seq<char>, Seq<char>, Xform)>,
    h: Map<Seq<char>, Seq<char>>,
) -> Option<Seq<(Seq<char>, Seq<char>)>>
    decreases rs.len(),
{
    if rs.len() == 0 {
        Some(Seq::empty())
    } else {
        match converted_fields(rs.drop_last(), h) {
            None => None,
            Some(out) => {
                let (w, j, x) = rs.last();
                if h.contains_key(w) {
                    match xform_text(x, h[w]) {
                        Some(v) => Some(out.push((j, v))),
                        None => None,
                    }
                } else {
                    Some(out)
                }
            },
        }
    }
}

proof fn lemma_converted_none(
    rs: Seq<(Seq<char>, Seq<char>, Xform)>,
    h: Map<Seq<char>, Seq<char>>,
    i: int,
)
    requires
        0 <= i <= rs.len(),
        converted_fields(rs.take(i), h) is None,
    ensures
        converted_fields(rs, h) is None,
    decreases rs.len() - i,
{
    if i == rs.len() {
        assert(rs.take(i) =~= rs);
    } else {
        assert(rs.take(i + 1).drop_last() =~= rs.take(i));
        lemma_converted_none(rs, h, i + 1);
    }
}

/// The header table used by default: the players and the event as they
/// stand, and the date converted.
pub open spec fn default_rules() -> Seq<(Seq<char>, Seq<char>, Xform)> {
    seq![
        ("Black"@, "先手"@, Xform::Identity),
        ("White"@, "後手"@, Xform::Identity),
        ("Event"@, "棋戦"@, Xform::Identity),
        ("Date"@, "開始日時"@, Xform::Date),
    ]
}

/// Converts a w7a header into the header and initial blocks of JKF.
pub struct Converter {
    pub header: Vec<FieldRule>,
}

fn rule(w7a: &str, jkf: &str, xform: Xform) -> (r: FieldRule)
    ensures
        r.w7a@ == w7a@,
        r.jkf@ == jkf@,
        r.xform == xform,
{
    FieldRule { w7a: String::from_str(w7a), jkf: String::from_str(jkf), xform }
}

impl Default for Converter {
    fn default() -> (r: Converter)
        ensures
            rule_views(r.header@) == default_rules(),
    {
        let header = vec![
            rule("Black", "先手", Xform::Identity),
            rule("White", "後手", Xform::Identity),
            rule("Event", "棋戦", Xform::Identity),
            rule("Date", "開始日時", Xform::Date),
        ];
        assert(rule_views(header@) =~= default_rules());
        Converter { header }
    }
}

/// The header and initial blocks of a JKF document.
pub struct Prelude {
    pub header: JHeader,
    pub initial: Initial,
}

impl Prelude {
    pub fn as_json(&self) -> (r: String)
        ensures
            r@ == block_text("header"@, pairs(self.header.fields@)) + seq![',', '\n'] + block_text(
                "initial"@,
                seq![("preset"@, self.initial.preset@)],
            ),
    {
        let mut r = self.header.as_json();
        r.append(",\n");
        let i = self.initial.as_json();
        r.append(i.as_str());
        proof {
            reveal_strlit(",\n");
        }
        r
    }
}

impl Convert<Header, Prelude> for Converter {
    open spec fn converts(&self, domain: &Header, r: ErrStr<Prelude>) -> bool {
        if domain.wf() {
            match r {
                Ok(p) => {
                    &&& converted_fields(rule_views(self.header@), domain@) == Some(
                        pairs(p.header.fields@),
                    )
                    &&& p.initial.preset@ == hirate()
                },
                Err(_) => converted_fields(rule_views(self.header@), domain@) is None,
            }
        } else {
            r is Err
        }
    }

    fn convert(&self, domain: &Header) -> (r: ErrStr<Prelude>) {
        if !domain.is_wf() {
            return Err(String::from_str("The header names a field twice"));
        }
        let ghost rs = rule_views(self.header@);
        let mut fields: Vec<(String, String)> = Vec::new();
        let mut i: usize = 0;
        while i < self.header.len()
            invariant
                i <= self.header@.len(),
                domain.wf(),
                rs == rule_views(self.header@),
                converted_fields(rs.take(i as int), domain@) == Some(pairs(fields@)),
            decreases self.header@.len() - i,
        {
            let rl = &self.header[i];
            assert(rs.take(i + 1).drop_last() =~= rs.take(i as int));
            assert(rs.take(i + 1).last() == (rl.w7a@, rl.jkf@, rl.xform));
            match domain.get(rl.w7a.as_str()) {
                Some(raw) => {
                    let v = match rl.xform {
                        Xform::Identity => mk_jstr(raw.as_str()),
                        Xform::Date => match convert_date(raw.as_str()) {
                            Ok(d) => d,
                            Err(e) => {
                                proof {
                                    lemma_converted_none(rs, domain@, i + 1);
                                }
                                return Err(e);
                            },
                        },
                    };
                    let ghost before_push = fields@;
                    fields.push((rl.jkf.clone(), v.as_json()));
                    assert(pairs(fields@) =~= pairs(before_push).push((rl.jkf@, v@)));
                },
                None => {},
            }
            i = i + 1;
        }
        assert(rs.take(self.header@.len() as int) =~= rs);
        Ok(Prelude { header: JHeader::new(fields), initial: Initial::default() })
    }
}

/// The JKF text of a whole record: its header and initial blocks in braces.
pub open spec fn document_text(fields: Seq<(Seq<char>, Seq<char>)>) -> Seq<char> {
    seq!['{', '\n'] + block_text("header"@, fields) + seq![',', '\n'] + block_text(
        "initial"@,
        seq![("preset"@, hirate())],
    ) + seq!['}', '\n']
}

/// Converts the lines of a w7a record into JKF text. The record must scan
/// (its moves included) and its header must convert.
pub fn convert(lines: &[String]) -> (r: ErrStr<String>)
    ensures
        ({
            let ls = views(lines@);
            let fields = converted_fields(default_rules(), header_map(ls));
            match r {
                Ok(t) => {
                    &&& record_moves(move_lines(ls)) is Some
                    &&& fields is Some
                    &&& t@ == document_text(fields->Some_0)
                },
                Err(_) => record_moves(move_lines(ls)) is None || fields is None,
            }
        }),
{
    let (record, _rest) = match W7A::ingest(lines) {
        Ok(p) => p,
        Err(e) => {
            return Err(e);
        },
    };
    let conv = Converter::default();
    let prelude = match conv.convert(&record.header) {
        Ok(p) => p,
        Err(e) => {
            return Err(e);
        },
    };
    let mut out = String::from_str("{\n");
    let body = prelude.as_json();
    out.append(body.as_str());
    out.append("}\n");
    proof {
        reveal_strlit("{\n");
        reveal_strlit("}\n");
        assert(out@ =~= document_text(pairs(prelude.header.fields@)));
    }
    Ok(out)
}

} // verus!
