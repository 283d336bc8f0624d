//! Rendering the extracted records as one JSON array.
//!
//! The schema is fixed: an array of objects, one per outage, each field
//! present (absent values render as `null`), date-times rendered as
//! ISO-8601 text with their UTC offset.

use vstd::prelude::*;
use crate::dates::{ZonedTime, zt_wf};
use crate::extract::{
    Outage, OutageView, ExtractError, ExtractErrorV, outage_wf, spec_extract, blocks_of,
    extract_outages, lemma_extract_wf,
};
use crate::text::{chars_of, string_from_chars, push_all};

verus! {

pub open spec fn digit_char(n: int) -> char {
    if n == 0 {
        '0'
    } else if n == 1 {
        '1'
    } else if n == 2 {
        '2'
    } else if n == 3 {
        '3'
    } else if n == 4 {
        '4'
    } else if n == 5 {
        '5'
    } else if n == 6 {
        '6'
    } else if n == 7 {
        '7'
    } else if n == 8 {
        '8'
    } else {
        '9'
    }
}

pub open spec fn hex_char(n: int) -> char {
    if n < 10 {
        digit_char(n)
    } else if n == 10 {
        'a'
    } else if n == 11 {
        'b'
    } else if n == 12 {
        'c'
    } else if n == 13 {
        'd'
    } else if n == 14 {
        'e'
    } else {
        'f'
    }
}

pub open spec fn two_digits(n: int) -> Seq<char> {
    seq![digit_char(n / 10), digit_char(n % 10)]
}

pub open spec fn four_digits(n: int) -> Seq<char> {
    seq![
        digit_char(n / 1000),
        digit_char((n / 100) % 10),
        digit_char((n / 10) % 10),
        digit_char(n % 10),
    ]
}

/// A UTC offset in minutes east as `+hh:mm` / `-hh:mm`.
pub open spec fn offset_text(m: int) -> Seq<char> {
    let a = if m < 0 {
        -m
    } else {
        m
    };
    seq![
        if m < 0 {
            '-'
        } else {
            '+'
        },
    ] + two_digits(a / 60) + seq![':'] + two_digits(a % 60)
}

/// A `ZonedTime` as ISO-8601 text with its UTC offset.
pub open spec fn time_text(t: ZonedTime) -> Seq<char> {
    four_digits(t.year as int) + seq!['-'] + two_digits(t.month as int) + seq!['-'] + two_digits(
        t.day as int,
    ) + seq!['T'] + two_digits(t.hour as int) + seq![':'] + two_digits(t.minute as int) + seq![
        ':',
        '0',
        '0',
    ] + offset_text(t.offset_minutes as int)
}

/// One character under JSON string escaping.
pub open spec fn escape_char(c: char) -> Seq<char> {
    if c == '"' {
        seq!['\\', '"']
    } else if c == '\\' {
        seq!['\\', '\\']
    } else if c == '\n' {
        seq!['\\', 'n']
    } else if c == '\r' {
        seq!['\\', 'r']
    } else if c == '\t' {
        seq!['\\', 't']
    } else if (c as u32) < 32 {
        seq!['\\', 'u', '0', '0', hex_char(c as u32 as int / 16), hex_char(c as u32 as int % 16)]
    } else {
        seq![c]
    }
}

pub open spec fn escape_str(s: Seq<char>) -> Seq<char>
    decreases s.len(),
{
    if s.len() == 0 {
        Seq::empty()
    } else {
        escape_str(s.drop_last()) + escape_char(s.last())
    }
}

/// A JSON string literal: quotes around the escaped text.
pub open spec fn quoted(s: Seq<char>) -> Seq<char> {
    seq!['"'] + escape_str(s) + seq!['"']
}

pub open spec fn null_text() -> Seq<char> {
    seq!['n', 'u', 'l', 'l']
}

pub open spec fn opt_string_text(v: Option<Seq<char>>) -> Seq<char> {
    match v {
        None => null_text(),
        Some(s) => quoted(s),
    }
}

pub open spec fn opt_time_text(v: Option<ZonedTime>) -> Seq<char> {
    match v {
        None => null_text(),
        Some(t) => seq!['"'] + time_text(t) + seq!['"'],
    }
}

pub open spec fn joined_strings(l: Seq<Seq<char>>) -> Seq<char>
    decreases l.len(),
{
    if l.len() == 0 {
        Seq::empty()
    } else if l.len() == 1 {
        quoted(l[0])
    } else {
        joined_strings(l.drop_last()) + seq![','] + quoted(l.last())
    }
}

pub open spec fn locations_text(v: Option<Seq<Seq<char>>>) -> Seq<char> {
    match v {
        None => null_text(),
        Some(l) => seq!['['] + joined_strings(l) + seq![']'],
    }
}

/// The first half of an outage object: type, locations, start time.
pub open spec fn outage_text_head(o: OutageView) -> Seq<char> {
    "{\"outage_type\":"@ + opt_string_text(o.outage_type) + ",\"locations\":"@ + locations_text(
        o.locations,
    ) + ",\"estimated_start_time\":"@ + opt_time_text(o.estimated_start_time)
}

/// The second half: restore time, cause, customers affected, crew status.
pub open spec fn outage_text_tail(o: OutageView) -> Seq<char> {
    ",\"estimated_restore_time\":"@ + opt_time_text(o.estimated_restore_time) + ",\"cause\":"@
        + opt_string_text(o.cause) + ",\"customers_affected\":"@ + opt_string_text(
        o.customers_affected,
    ) + ",\"crew_status\":"@ + opt_string_text(o.crew_status) + seq!['}']
}

/// One outage as a JSON object, fields in declaration order.
pub open spec fn outage_text(o: OutageView) -> Seq<char> {
    outage_text_head(o) + outage_text_tail(o)
}

pub open spec fn joined_outages(os: Seq<OutageView>) -> Seq<char>
    decreases os.len(),
{
    if os.len() == 0 {
        Seq::empty()
    } else if os.len() == 1 {
        outage_text(os[0])
    } else {
        joined_outages(os.drop_last()) + seq![','] + outage_text(os.last())
    }
}

/// The whole run's output: a JSON array of the outages in document order.
pub open spec fn outages_json(os: Seq<OutageView>) -> Seq<char> {
    seq!['['] + joined_outages(os) + seq![']']
}

fn digit_char_exec(n: u32) -> (c: char)
    requires
        n < 10,
    ensures
        c == digit_char(n as int),
{
    if n == 0 {
        '0'
    } else if n == 1 {
        '1'
    } else if n == 2 {
        '2'
    } else if n == 3 {
        '3'
    } else if n == 4 {
        '4'
    } else if n == 5 {
        '5'
    } else if n == 6 {
        '6'
    } else if n == 7 {
        '7'
    } else if n == 8 {
        '8'
    } else {
        '9'
    }
}

fn hex_char_exec(n: u32) -> (c: char)
    requires
        n < 16,
    ensures
        c == hex_char(n as int),
{
    if n < 10 {
        digit_char_exec(n)
    } else if n == 10 {
        'a'
    } else if n == 11 {
        'b'
    } else if n == 12 {
        'c'
    } else if n == 13 {
        'd'
    } else if n == 14 {
        'e'
    } else {
        'f'
    }
}

fn push_str_lit(out: &mut Vec<char>, lit: &str)
    ensures
        final(out)@ == old(out)@ + lit@,
{
    let v = chars_of(lit);
    push_all(out, &v);
}

fn push_two_digits(out: &mut Vec<char>, n: u32)
    requires
        n < 100,
    ensures
        final(out)@ == old(out)@ + two_digits(n as int),
{
    out.push(digit_char_exec(n / 10));
    out.push(digit_char_exec(n % 10));
    proof {
        assert(final(out)@ =~= old(out)@ + two_digits(n as int));
    }
}

fn push_four_digits(out: &mut Vec<char>, n: u32)
    requires
        n < 10000,
    ensures
        final(out)@ == old(out)@ + four_digits(n as int),
{
    out.push(digit_char_exec(n / 1000));
    out.push(digit_char_exec((n / 100) % 10));
    out.push(digit_char_exec((n / 10) % 10));
    out.push(digit_char_exec(n % 10));
    proof {
        assert(final(out)@ =~= old(out)@ + four_digits(n as int));
    }
}

fn push_offset(out: &mut Vec<char>, m: i32)
    requires
        -1440 < m < 1440,
    ensures
        final(out)@ == old(out)@ + offset_text(m as int),
{
    let a: u32 = if m < 0 {
        out.push('-');
        (-m) as u32
    } else {
        out.push('+');
        m as u32
    };
    push_two_digits(out, a / 60);
    out.push(':');
    push_two_digits(out, a % 60);
    proof {
        assert(final(out)@ =~= old(out)@ + offset_text(m as int));
    }
}

fn push_time(out: &mut Vec<char>, t: &ZonedTime)
    requires
        zt_wf(*t),
    ensures
        final(out)@ == old(out)@ + time_text(*t),
{
    push_four_digits(out, t.year as u32);
    out.push('-');
    push_two_digits(out, t.month as u32);
    out.push('-');
    push_two_digits(out, t.day as u32);
    out.push('T');
    push_two_digits(out, t.hour as u32);
    out.push(':');
    push_two_digits(out, t.minute as u32);
    out.push(':');
    out.push('0');
    out.push('0');
    push_offset(out, t.offset_minutes);
    proof {
        assert(final(out)@ =~= old(out)@ + time_text(*t));
    }
}

fn push_escaped(out: &mut Vec<char>, s: &str)
    ensures
        final(out)@ == old(out)@ + escape_str(s@),
{
    let v = chars_of(s);
    let mut i: usize = 0;
    while i < v.len()
        invariant
            i <= v.len(),
            v@ == s@,
            out@ == old(out)@ + escape_str(s@.take(i as int)),
        decreases v.len() - i,
    {
        let c = v[i];
        if c == '"' {
            out.push('\\');
            out.push('"');
        } else if c == '\\' {
            out.push('\\');
            out.push('\\');
        } else if c == '\n' {
            out.push('\\');
            out.push('n');
        } else if c == '\r' {
            out.push('\\');
            out.push('r');
        } else if c == '\t' {
            out.push('\\');
            out.push('t');
        } else if (c as u32) < 32 {
            out.push('\\');
            out.push('u');
            out.push('0');
            out.push('0');
            out.push(hex_char_exec(c as u32 / 16));
            out.push(hex_char_exec(c as u32 % 16));
        } else {
            out.push(c);
        }
        i = i + 1;
        proof {
            assert(s@.take(i as int).drop_last() =~= s@.take(i as int - 1));
            assert(s@.take(i as int).last() == s@[i as int - 1]);
            assert(out@ =~= old(out)@ + escape_str(s@.take(i as int)));
        }
    }
    proof {
        assert(s@.take(s@.len() as int) =~= s@);
    }
}

fn push_quoted(out: &mut Vec<char>, s: &str)
    ensures
        final(out)@ == old(out)@ + quoted(s@),
{
    out.push('"');
    push_escaped(out, s);
    out.push('"');
    proof {
        assert(final(out)@ =~= old(out)@ + quoted(s@));
    }
}

fn push_opt_string(out: &mut Vec<char>, v: &Option<String>)
    ensures
        final(out)@ == old(out)@ + opt_string_text(
            match v {
                Some(s) => Some(s@),
                None => None,
            },
        ),
{
    match v {
        None => {
            push_str_lit(out, "null");
            proof {
                reveal_strlit("null");
                assert(final(out)@ =~= old(out)@ + null_text());
            }
        },
        Some(s) => {
            push_quoted(out, s.as_str());
        },
    }
}

fn push_null(out: &mut Vec<char>)
    ensures
        final(out)@ == old(out)@ + null_text(),
{
    push_str_lit(out, "null");
    proof {
        reveal_strlit("null");
        assert(final(out)@ =~= old(out)@ + null_text());
    }
}

fn push_opt_time(out: &mut Vec<char>, v: &Option<ZonedTime>)
    requires
        (match v {
            Some(t) => zt_wf(*t),
            None => true,
        }),
    ensures
        final(out)@ == old(out)@ + opt_time_text(*v),
{
    match v {
        None => {
            push_null(out);
        },
        Some(t) => {
            out.push('"');
            push_time(out, t);
            out.push('"');
            proof {
                assert(final(out)@ =~= old(out)@ + opt_time_text(*v));
            }
        },
    }
}

fn push_locations(out: &mut Vec<char>, v: &Option<Vec<String>>)
    ensures
        final(out)@ == old(out)@ + locations_text(
            match v {
                Some(l) => Some(l.deep_view()),
                None => None,
            },
        ),
{
    match v {
        None => {
            push_null(out);
        },
        Some(l) => {
            out.push('[');
            let ghost lv = l.deep_view();
            let mut i: usize = 0;
            while i < l.len()
                invariant
                    i <= l.len(),
                    lv == l.deep_view(),
                    lv.len() == l@.len(),
                    out@ == old(out)@ + seq!['['] + joined_strings(lv.take(i as int)),
                decreases l.len() - i,
            {
                if i > 0 {
                    out.push(',');
                }
                proof {
                    assert(lv[i as int] == l@[i as int]@);
                }
                push_quoted(out, l[i].as_str());
                i = i + 1;
                proof {
                    assert(lv.take(i as int).drop_last() =~= lv.take(i as int - 1));
                    assert(lv.take(i as int).last() == lv[i as int - 1]);
                    assert(out@ =~= old(out)@ + seq!['['] + joined_strings(lv.take(i as int)));
                }
            }
            out.push(']');
            proof {
                assert(lv.take(l@.len() as int) =~= lv);
                assert(final(out)@ =~= old(out)@ + locations_text(Some(lv)));
            }
        },
    }
}

#[verifier::rlimit(80)]
fn push_outage_head(out: &mut Vec<char>, o: &Outage)
    requires
        outage_wf(o@),
    ensures
        final(out)@ == old(out)@ + outage_text_head(o@),
{
    push_str_lit(out, "{\"outage_type\":");
    push_opt_string(out, &o.outage_type);
    push_str_lit(out, ",\"locations\":");
    push_locations(out, &o.locations);
    push_str_lit(out, ",\"estimated_start_time\":");
    push_opt_time(out, &o.estimated_start_time);
    proof {
        assert(final(out)@ =~= old(out)@ + outage_text_head(o@));
    }
}

#[verifier::rlimit(80)]
fn push_outage_tail(out: &mut Vec<char>, o: &Outage)
    requires
        outage_wf(o@),
    ensures
        final(out)@ == old(out)@ + outage_text_tail(o@),
{
    push_str_lit(out, ",\"estimated_restore_time\":");
    push_opt_time(out, &o.estimated_restore_time);
    push_str_lit(out, ",\"cause\":");
    push_opt_string(out, &o.cause);
    push_str_lit(out, ",\"customers_affected\":");
    push_opt_string(out, &o.customers_affected);
    push_str_lit(out, ",\"crew_status\":");
    push_opt_string(out, &o.crew_status);
    out.push('}');
    proof {
        assert(final(out)@ =~= old(out)@ + outage_text_tail(o@));
    }
}

fn push_outage(out: &mut Vec<char>, o: &Outage)
    requires
        outage_wf(o@),
    ensures
        final(out)@ == old(out)@ + outage_text(o@),
{
    push_outage_head(out, o);
    push_outage_tail(out, o);
    proof {
        assert(final(out)@ =~= old(out)@ + outage_text(o@));
    }
}

/// Renders the outages as one JSON array.
#[verifier::rlimit(80)]
pub fn outages_to_json(v: &Vec<Outage>) -> (r: String)
    requires
        forall|i: int| 0 <= i < v@.len() ==> outage_wf(#[trigger] v@[i]@),
    ensures
        r@ == outages_json(v.deep_view()),
{
    let mut out: Vec<char> = Vec::new();
    out.push('[');
    let ghost vv = v.deep_view();
    let mut i: usize = 0;
    while i < v.len()
        invariant
            i <= v.len(),
            vv == v.deep_view(),
            vv.len() == v@.len(),
            forall|k: int| 0 <= k < v@.len() ==> outage_wf(#[trigger] v@[k]@),
            out@ == seq!['['] + joined_outages(vv.take(i as int)),
        decreases v.len() - i,
    {
        if i > 0 {
            out.push(',');
        }
        proof {
            assert(vv[i as int] == v@[i as int]@);
        }
        push_outage(&mut out, &v[i]);
        i = i + 1;
        proof {
            assert(vv.take(i as int).drop_last() =~= vv.take(i as int - 1));
            assert(vv.take(i as int).last() == vv[i as int - 1]);
            assert(out@ =~= seq!['['] + joined_outages(vv.take(i as int)));
        }
    }
    out.push(']');
    proof {
        assert(vv.take(v@.len() as int) =~= vv);
        assert(out@ =~= outages_json(vv));
    }
    string_from_chars(&out)
}

/// The value of a hexadecimal digit as `escape_char` writes them, or -1.
pub open spec fn hex_val(c: char) -> int {
    let n = c as u32;
    if 48 <= n <= 57 {
        n - 48
    } else if 97 <= n <= 102 {
        n - 87
    } else {
        -1
    }
}

/// The inverse reading of `escape_str`: the text between the quotes of a
/// JSON string back to the characters it encodes, or None where the text
/// is not something `escape_str` produces.
pub open spec fn json_unescape(s: Seq<char>) -> Option<Seq<char>>
    decreases s.len(),
{
    if s.len() == 0 {
        Some(Seq::empty())
    } else if s[0] == '\\' {
        if s.len() >= 2 && (s[1] == '"' || s[1] == '\\' || s[1] == 'n' || s[1] == 'r' || s[1]
            == 't') {
            let c = if s[1] == '"' {
                '"'
            } else if s[1] == '\\' {
                '\\'
            } else if s[1] == 'n' {
                '\n'
            } else if s[1] == 'r' {
                '\r'
            } else {
                '\t'
            };
            match json_unescape(s.skip(2)) {
                Some(rest) => Some(seq![c] + rest),
                None => None,
            }
        } else if s.len() >= 6 && s[1] == 'u' && s[2] == '0' && s[3] == '0' && 0 <= hex_val(s[4])
            && 0 <= hex_val(s[5]) && hex_val(s[4]) * 16 + hex_val(s[5]) < 32 {
            let code = hex_val(s[4]) * 16 + hex_val(s[5]);
            match json_unescape(s.skip(6)) {
                Some(rest) => Some(seq![(code as u8) as char] + rest),
                None => None,
            }
        } else {
            None
        }
    } else if s[0] == '"' {
        None
    } else {
        match json_unescape(s.skip(1)) {
            Some(rest) => Some(seq![s[0]] + rest),
            None => None,
        }
    }
}

proof fn lemma_escape_str_left(s: Seq<char>)
    requires
        s.len() > 0,
    ensures
        escape_str(s) == escape_char(s[0]) + escape_str(s.skip(1)),
    decreases s.len(),
{
    if s.len() == 1 {
        assert(s.drop_last().len() == 0);
        assert(escape_str(s.drop_last()) == Seq::<char>::empty());
        assert(s.skip(1).len() == 0);
        assert(escape_str(s.skip(1)) == Seq::<char>::empty());
        assert(s.last() == s[0]);
        assert(escape_str(s) == escape_str(s.drop_last()) + escape_char(s.last()));
        assert(escape_str(s) =~= escape_char(s[0]) + escape_str(s.skip(1)));
    } else {
        let d = s.drop_last();
        lemma_escape_str_left(d);
        assert(d[0] == s[0]);
        assert(d.skip(1) =~= s.skip(1).drop_last());
        assert(s.skip(1).last() == s.last());
        assert(escape_str(s) == escape_str(d) + escape_char(s.last()));
        assert(escape_str(d) == escape_char(s[0]) + escape_str(d.skip(1)));
        assert(escape_str(s.skip(1)) == escape_str(s.skip(1).drop_last()) + escape_char(
            s.skip(1).last(),
        ));
        assert(escape_str(s.skip(1).drop_last()) == escape_str(d.skip(1)));
        assert(escape_str(s) =~= escape_char(s[0]) + escape_str(s.skip(1)));
    }
}

/// Unescaping inverts escaping: reading the escaped text back yields
/// exactly the original characters. This is the string-level half of the
/// serialize-then-parse round trip. It is stated for texts whose control
/// characters are among the named escapes (newline, carriage return,
/// tab): for the other control characters, written as `\u00..`, the
/// decoded character has the right code point, but characters cannot be
/// recovered from code points in this proof system.
pub proof fn lemma_unescape_escape(s: Seq<char>)
    requires
        forall|i: int|
            0 <= i < s.len() ==> ((#[trigger] s[i]) as u32 >= 32 || s[i] == '\n' || s[i] == '\r'
                || s[i] == '\t'),
    ensures
        json_unescape(escape_str(s)) == Some(s),
    decreases s.len(),
{
    if s.len() > 0 {
        let c = s[0];
        let rest = s.skip(1);
        lemma_escape_str_left(s);
        assert(forall|i: int|
            0 <= i < rest.len() ==> ((#[trigger] rest[i]) as u32 >= 32 || rest[i] == '\n'
                || rest[i] == '\r' || rest[i] == '\t'));
        lemma_unescape_escape(rest);
        let e = escape_str(s);
        assert(seq![c] + rest =~= s);
        if c == '"' || c == '\\' || c == '\n' || c == '\r' || c == '\t' {
            assert(e.skip(2) =~= escape_str(rest));
        } else {
            assert(e[0] == c);
            assert(e.skip(1) =~= escape_str(rest));
        }
    }
}

/// A document holding no outage block yields exactly the empty JSON array.
pub proof fn lemma_empty_document(html: Seq<char>)
    requires
        blocks_of(html).len() == 0,
    ensures
        spec_extract(blocks_of(html)) == Ok::<Seq<OutageView>, ExtractErrorV>(
            Seq::<OutageView>::empty(),
        ),
        outages_json(Seq::<OutageView>::empty()) == "[]"@,
{
    reveal_strlit("[]");
    assert(outages_json(Seq::<OutageView>::empty()) =~= "[]"@);
}

/// The whole pipeline after the fetch: extract every outage block of the
/// document and render them as one JSON array, or report why the run must
/// be abandoned with no output.
pub fn outage_report(html: &str) -> (r: Result<String, ExtractError>)
    ensures
        (match r {
            Ok(j) => spec_extract(blocks_of(html@)) matches Ok(os) && j@ == outages_json(os),
            Err(e) => spec_extract(blocks_of(html@)) == Err::<Seq<OutageView>, ExtractErrorV>(
                e@,
            ),
        }),
{
    match extract_outages(html) {
        Ok(v) => {
            proof {
                lemma_extract_wf(blocks_of(html@), v.deep_view());
                assert forall|i: int| 0 <= i < v@.len() implies outage_wf(v@[i]@) by {
                    let os = v.deep_view();
                    assert(os.len() == v@.len());
                    assert(outage_wf(os[i]));
                    assert(os[i] == v@[i].deep_view());
                }
            }
            Ok(outages_to_json(&v))
        },
        Err(e) => Err(e),
    }
}

} // verus!
