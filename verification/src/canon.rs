//! The canonical textual form of a document.
//!
//! `ser` maps a document to the one compact JSON text this library considers
//! canonical: no whitespace, mapping keys in their stored order, integers in
//! decimal without leading zeros, and in strings exactly the escapes `\"`,
//! `\\`, `\b`, `\t`, `\n`, `\f`, `\r`, and `\u00xy` (lowercase hex) for the
//! remaining control characters.  This text is the plaintext that field
//! encryption protects and the byte string that signatures cover.

use crate::doc::{Document, DocV, view_of, view_list, view_entries, lemma_view_list_index, lemma_view_entries_index};
use vstd::prelude::*;
use vstd::string::StrSliceExecFns;

verus! {

pub open spec fn is_digit(c: char) -> bool {
    48 <= (c as u32) && (c as u32) <= 57
}

pub open spec fn digit_char(n: int) -> char {
    if n == 0 {
        '0'
    } else if n == 1 {
        '1'
    } else if n == 2 {
        '2'
    } else if n == 3 {
        '3'
    } else if n == 4 {
        '4'
    } else if n == 5 {
        '5'
    } else if n == 6 {
        '6'
    } else if n == 7 {
        '7'
    } else if n == 8 {
        '8'
    } else {
        '9'
    }
}

pub open spec fn digit_val(c: char) -> int {
    (c as u32) as int - 48
}

/// Lowercase hex digit, for the `\u00xy` escapes.
pub open spec fn hex_char(n: int) -> char {
    if n < 10 {
        digit_char(n)
    } else if n == 10 {
        'a'
    } else if n == 11 {
        'b'
    } else if n == 12 {
        'c'
    } else if n == 13 {
        'd'
    } else if n == 14 {
        'e'
    } else {
        'f'
    }
}

/// Canonical escape of one character inside a string literal.
pub open spec fn esc_char(c: char) -> Seq<char> {
    if c == '"' {
        seq!['\\', '"']
    } else if c == '\\' {
        seq!['\\', '\\']
    } else if c == '\u{8}' {
        seq!['\\', 'b']
    } else if c == '\u{9}' {
        seq!['\\', 't']
    } else if c == '\u{a}' {
        seq!['\\', 'n']
    } else if c == '\u{c}' {
        seq!['\\', 'f']
    } else if c == '\u{d}' {
        seq!['\\', 'r']
    } else if (c as u32) < 32 {
        seq!['\\', 'u', '0', '0', hex_char((c as u32) as int / 16), hex_char((c as u32) as int % 16)]
    } else {
        seq![c]
    }
}

pub open spec fn esc(s: Seq<char>) -> Seq<char>
    decreases s.len(),
{
    if s.len() == 0 {
        Seq::empty()
    } else {
        esc_char(s[0]) + esc(s.drop_first())
    }
}

/// Canonical string literal: quote, escaped contents, quote.
pub open spec fn ser_text(s: Seq<char>) -> Seq<char> {
    seq!['"'] + esc(s) + seq!['"']
}

/// Decimal digits of a non-negative integer, no leading zeros.
pub open spec fn ser_nat(n: int) -> Seq<char>
    recommends
        n >= 0,
    decreases n,
{
    if n < 10 {
        seq![digit_char(n)]
    } else {
        ser_nat(n / 10) + seq![digit_char(n % 10)]
    }
}

pub open spec fn ser_int(i: int) -> Seq<char> {
    if i < 0 {
        seq!['-'] + ser_nat(-i)
    } else {
        ser_nat(i)
    }
}

/// Sequence elements from some position on, comma separated, closed by `]`.
pub open spec fn ser_items(items: Seq<DocV>) -> Seq<char>
    decreases items,
{
    if items.len() == 0 {
        seq![']']
    } else if items.len() == 1 {
        ser(items[0]) + seq![']']
    } else {
        ser(items[0]) + seq![','] + ser_items(items.drop_first())
    }
}

/// Mapping entries from some position on, comma separated, closed by `}`.
pub open spec fn ser_fields(fields: Seq<(Seq<char>, DocV)>) -> Seq<char>
    decreases fields,
{
    if fields.len() == 0 {
        seq!['}']
    } else if fields.len() == 1 {
        ser_text(fields[0].0) + seq![':'] + ser(fields[0].1) + seq!['}']
    } else {
        ser_text(fields[0].0) + seq![':'] + ser(fields[0].1) + seq![','] + ser_fields(
            fields.drop_first(),
        )
    }
}

/// The canonical text of a document.
pub open spec fn ser(d: DocV) -> Seq<char>
    decreases d,
{
    match d {
        DocV::Null => seq!['n', 'u', 'l', 'l'],
        DocV::Bool(b) => if b {
            seq!['t', 'r', 'u', 'e']
        } else {
            seq!['f', 'a', 'l', 's', 'e']
        },
        DocV::Int(i) => ser_int(i as int),
        DocV::Text(s) => ser_text(s),
        DocV::Array(v) => seq!['['] + ser_items(v),
        DocV::Object(f) => seq!['{'] + ser_fields(f),
    }
}

/// Elements joined by commas, without the closing bracket.
pub open spec fn joined_items(items: Seq<DocV>) -> Seq<char>
    decreases items,
{
    if items.len() == 0 {
        Seq::empty()
    } else if items.len() == 1 {
        ser(items[0])
    } else {
        ser(items[0]) + seq![','] + joined_items(items.drop_first())
    }
}

pub open spec fn joined_fields(fields: Seq<(Seq<char>, DocV)>) -> Seq<char>
    decreases fields,
{
    if fields.len() == 0 {
        Seq::empty()
    } else if fields.len() == 1 {
        ser_text(fields[0].0) + seq![':'] + ser(fields[0].1)
    } else {
        ser_text(fields[0].0) + seq![':'] + ser(fields[0].1) + seq![','] + joined_fields(
            fields.drop_first(),
        )
    }
}

pub proof fn lemma_ser_items_joined(items: Seq<DocV>)
    ensures
        ser_items(items) == joined_items(items) + seq![']'],
    decreases items,
{
    if items.len() == 0 {
        assert(ser_items(items) =~= joined_items(items) + seq![']']);
    } else if items.len() == 1 {
        assert(ser_items(items) =~= joined_items(items) + seq![']']);
    } else {
        lemma_ser_items_joined(items.drop_first());
        assert(ser_items(items) =~= joined_items(items) + seq![']']);
    }
}

pub proof fn lemma_ser_fields_joined(fields: Seq<(Seq<char>, DocV)>)
    ensures
        ser_fields(fields) == joined_fields(fields) + seq!['}'],
    decreases fields,
{
    if fields.len() <= 1 {
        assert(ser_fields(fields) =~= joined_fields(fields) + seq!['}']);
    } else {
        lemma_ser_fields_joined(fields.drop_first());
        assert(ser_fields(fields) =~= joined_fields(fields) + seq!['}']);
    }
}

pub proof fn lemma_joined_items_push(items: Seq<DocV>, e: DocV)
    ensures
        joined_items(items.push(e)) == if items.len() == 0 {
            ser(e)
        } else {
            joined_items(items) + seq![','] + ser(e)
        },
    decreases items,
{
    if items.len() == 0 {
        assert(items.push(e)[0] == e);
        assert(joined_items(items.push(e)) =~= ser(e));
    } else {
        assert(items.push(e).drop_first() =~= items.drop_first().push(e));
        lemma_joined_items_push(items.drop_first(), e);
        if items.len() == 1 {
            assert(joined_items(items.push(e)) =~= joined_items(items) + seq![','] + ser(e));
        } else {
            assert(joined_items(items.push(e)) =~= joined_items(items) + seq![','] + ser(e));
        }
    }
}

pub proof fn lemma_joined_fields_push(fields: Seq<(Seq<char>, DocV)>, k: Seq<char>, v: DocV)
    ensures
        joined_fields(fields.push((k, v))) == if fields.len() == 0 {
            ser_text(k) + seq![':'] + ser(v)
        } else {
            joined_fields(fields) + seq![','] + ser_text(k) + seq![':'] + ser(v)
        },
    decreases fields,
{
    if fields.len() == 0 {
        assert(joined_fields(fields.push((k, v))) =~= ser_text(k) + seq![':'] + ser(v));
    } else {
        assert(fields.push((k, v)).drop_first() =~= fields.drop_first().push((k, v)));
        lemma_joined_fields_push(fields.drop_first(), k, v);
        assert(joined_fields(fields.push((k, v))) =~= joined_fields(fields) + seq![','] + ser_text(
            k,
        ) + seq![':'] + ser(v));
    }
}

/// Relies on `String::from_iter` over `char`: the returned string holds
/// exactly the given characters, in order.
#[verifier::external_body]
pub fn string_from_chars(v: &Vec<char>) -> (r: String)
    ensures
        r@ == v@,
{
    v.iter().copied().collect()
}

fn write_escaped_char(c: char, out: &mut Vec<char>)
    ensures
        final(out)@ == old(out)@ + esc_char(c),
{
    if c == '"' {
        out.push('\\');
        out.push('"');
    } else if c == '\\' {
        out.push('\\');
        out.push('\\');
    } else if c == '\u{8}' {
        out.push('\\');
        out.push('b');
    } else if c == '\u{9}' {
        out.push('\\');
        out.push('t');
    } else if c == '\u{a}' {
        out.push('\\');
        out.push('n');
    } else if c == '\u{c}' {
        out.push('\\');
        out.push('f');
    } else if (c as u32) < 32 {
        let code: u32 = c as u32;
        if c == '\u{d}' {
            out.push('\\');
            out.push('r');
        } else {
            out.push('\\');
            out.push('u');
            out.push('0');
            out.push('0');
            out.push(hex_digit_char(code / 16));
            out.push(hex_digit_char(code % 16));
        }
    } else {
        out.push(c);
    }
}

fn hex_digit_char(n: u32) -> (r: char)
    requires
        n < 16,
    ensures
        r == hex_char(n as int),
{
    if n == 0 {
        '0'
    } else if n == 1 {
        '1'
    } else if n == 2 {
        '2'
    } else if n == 3 {
        '3'
    } else if n == 4 {
        '4'
    } else if n == 5 {
        '5'
    } else if n == 6 {
        '6'
    } else if n == 7 {
        '7'
    } else if n == 8 {
        '8'
    } else if n == 9 {
        '9'
    } else if n == 10 {
        'a'
    } else if n == 11 {
        'b'
    } else if n == 12 {
        'c'
    } else if n == 13 {
        'd'
    } else if n == 14 {
        'e'
    } else {
        'f'
    }
}

fn write_text(s: &String, out: &mut Vec<char>)
    ensures
        final(out)@ == old(out)@ + ser_text(s@),
{
    out.push('"');
    let n = s.unicode_len();
    let mut i: usize = 0;
    proof {
        assert(esc(s@.take(0)) =~= Seq::<char>::empty());
        assert(out@ =~= old(out)@ + seq!['"'] + esc(s@.take(0)));
    }
    while i < n
        invariant
            n == s@.len(),
            i <= n,
            out@ == old(out)@ + seq!['"'] + esc(s@.take(i as int)),
        decreases n - i,
    {
        let c = s.as_str().get_char(i);
        write_escaped_char(c, out);
        proof {
            lemma_esc_snoc(s@.take(i as int), c);
            assert(s@.take(i as int).push(c) =~= s@.take(i + 1));
            assert(out@ =~= old(out)@ + seq!['"'] + esc(s@.take(i + 1)));
        }
        i = i + 1;
    }
    out.push('"');
    proof {
        assert(s@.take(n as int) =~= s@);
        assert(out@ =~= old(out)@ + ser_text(s@));
    }
}

pub proof fn lemma_esc_snoc(s: Seq<char>, c: char)
    ensures
        esc(s.push(c)) == esc(s) + esc_char(c),
    decreases s.len(),
{
    if s.len() == 0 {
        assert(esc(s.push(c).drop_first()) =~= esc(Seq::<char>::empty()));
        assert(s.push(c).drop_first() =~= Seq::<char>::empty());
        assert(esc(s.push(c)) =~= esc(s) + esc_char(c));
    } else {
        assert(s.push(c).drop_first() =~= s.drop_first().push(c));
        lemma_esc_snoc(s.drop_first(), c);
        assert(esc(s.push(c)) =~= esc(s) + esc_char(c));
    }
}

fn write_nat(n: u64, out: &mut Vec<char>)
    ensures
        final(out)@ == old(out)@ + ser_nat(n as int),
    decreases n,
{
    if n < 10 {
        let d: u32 = n as u32;
        out.push(hex_digit_char(d));
    } else {
        write_nat(n / 10, out);
        let d: u32 = (n % 10) as u32;
        out.push(hex_digit_char(d));
    }
}

fn write_int(i: i64, out: &mut Vec<char>)
    ensures
        final(out)@ == old(out)@ + ser_int(i as int),
{
    if i < 0 {
        out.push('-');
        let mag: u64 = ((-(i as i128)) as u64);
        write_nat(mag, out);
    } else {
        write_nat(i as u64, out);
    }
}

fn write_doc(d: &Document, out: &mut Vec<char>)
    ensures
        final(out)@ == old(out)@ + ser(d@),
    decreases *d,
{
    match d {
        Document::Null => {
            out.push('n');
            out.push('u');
            out.push('l');
            out.push('l');
            proof {
                assert(out@ =~= old(out)@ + ser(d@));
            }
        },
        Document::Bool(b) => {
            if *b {
                out.push('t');
                out.push('r');
                out.push('u');
                out.push('e');
            } else {
                out.push('f');
                out.push('a');
                out.push('l');
                out.push('s');
                out.push('e');
            }
            proof {
                assert(out@ =~= old(out)@ + ser(d@));
            }
        },
        Document::Int(i) => {
            write_int(*i, out);
        },
        Document::Text(s) => {
            write_text(s, out);
        },
        Document::Array(v) => {
            out.push('[');
            let n = v.len();
            let mut i: usize = 0;
            proof {
                lemma_view_list_index(v@);
                assert(joined_items(view_list(v@).take(0)) =~= Seq::<char>::empty());
                assert(out@ =~= old(out)@ + seq!['['] + joined_items(view_list(v@).take(0)));
            }
            while i < n
                invariant
                    *d == Document::Array(*v),
                    n == v.len(),
                    i <= n,
                    out@ == old(out)@ + seq!['['] + joined_items(view_list(v@).take(i as int)),
                decreases n - i,
            {
                proof {
                    lemma_view_list_index(v@);
                    assert(decreases_to!(*d => d->Array_0));
                    assert(decreases_to!(*v => v@));
                    assert(decreases_to!(v@ => v@[i as int]));
                    assert(decreases_to!(*d => v@[i as int]));
                }
                if i > 0 {
                    out.push(',');
                }
                write_doc(&v[i], out);
                proof {
                    lemma_view_list_index(v@);
                    lemma_joined_items_push(view_list(v@).take(i as int), view_list(v@)[i as int]);
                    assert(view_list(v@).take(i as int).push(view_list(v@)[i as int]) =~= view_list(
                        v@,
                    ).take(i + 1));
                    assert(out@ =~= old(out)@ + seq!['['] + joined_items(
                        view_list(v@).take(i + 1),
                    ));
                }
                i = i + 1;
            }
            out.push(']');
            proof {
                lemma_view_list_index(v@);
                assert(view_list(v@).take(n as int) =~= view_list(v@));
                lemma_ser_items_joined(view_list(v@));
                assert(out@ =~= old(out)@ + ser(d@));
            }
        },
        Document::Object(v) => {
            out.push('{');
            let n = v.len();
            let mut i: usize = 0;
            proof {
                lemma_view_entries_index(v@);
                assert(joined_fields(view_entries(v@).take(0)) =~= Seq::<char>::empty());
                assert(out@ =~= old(out)@ + seq!['{'] + joined_fields(view_entries(v@).take(0)));
            }
            while i < n
                invariant
                    *d == Document::Object(*v),
                    n == v.len(),
                    i <= n,
                    out@ == old(out)@ + seq!['{'] + joined_fields(view_entries(v@).take(i as int)),
                decreases n - i,
            {
                proof {
                    lemma_view_entries_index(v@);
                    assert(decreases_to!(*d => d->Object_0));
                    assert(decreases_to!(*v => v@));
                    assert(decreases_to!(v@ => v@[i as int]));
                    assert(decreases_to!(v@[i as int] => v@[i as int].1));
                    assert(decreases_to!(*d => v@[i as int].1));
                }
                if i > 0 {
                    out.push(',');
                }
                write_text(&v[i].0, out);
                out.push(':');
                write_doc(&v[i].1, out);
                proof {
                    lemma_view_entries_index(v@);
                    lemma_joined_fields_push(
                        view_entries(v@).take(i as int),
                        v@[i as int].0@,
                        view_of(v@[i as int].1),
                    );
                    assert(view_entries(v@).take(i as int).push(view_entries(v@)[i as int])
                        =~= view_entries(v@).take(i + 1));
                    assert(out@ =~= old(out)@ + seq!['{'] + joined_fields(
                        view_entries(v@).take(i + 1),
                    ));
                }
                i = i + 1;
            }
            out.push('}');
            proof {
                lemma_view_entries_index(v@);
                assert(view_entries(v@).take(n as int) =~= view_entries(v@));
                lemma_ser_fields_joined(view_entries(v@));
                assert(out@ =~= old(out)@ + ser(d@));
            }
        },
    }
}

/// The canonical text of `d`.
pub fn to_json(d: &Document) -> (r: String)
    ensures
        r@ == ser(d@),
{
    let mut out: Vec<char> = Vec::new();
    write_doc(d, &mut out);
    string_from_chars(&out)
}

} // verus!
