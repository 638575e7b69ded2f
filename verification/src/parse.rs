//! Parsing canonical text back into documents.
//!
//! `parse_json` accepts exactly the canonical form produced by
//! [`crate::canon::ser`] and is its exact inverse: it succeeds on a string if
//! and only if some document serializes to it, and then returns that (unique)
//! document.  Uniqueness rests on the determinism lemmas in this module: two
//! documents whose canonical texts both sit at the same position of the same
//! string, each properly delimited, are the same document.

use crate::canon::{
    digit_char, digit_val, esc, esc_char, hex_char, is_digit, ser, ser_fields, ser_items, ser_nat,
    ser_text,
};
use crate::doc::{Document, DocV, view_entries, view_list, view_of, lemma_view_entries_index,
    lemma_view_list_index};
use vstd::prelude::*;
use vstd::string::StrSliceExecFns;

verus! {

/// The canonical text of `d` occupies `s[i ..]` as a prefix, and where the
/// text ends in a digit the following character (if any) is not a digit, so
/// that a number is never read as a proper prefix of a longer digit run.
pub open spec fn sep_at(s: Seq<char>, i: int, d: DocV) -> bool {
    &&& 0 <= i
    &&& i + ser(d).len() <= s.len()
    &&& s.subrange(i, i + ser(d).len()) == ser(d)
    &&& !(i + ser(d).len() < s.len() && is_digit(s[i + ser(d).len()]) && is_digit(ser(d).last()))
}

/// A string that is canonical text of some document determines that document.
pub open spec fn canon_parse(t: Seq<char>) -> Option<DocV> {
    if exists|d: DocV| ser(d) == t {
        Some(choose|d: DocV| ser(d) == t)
    } else {
        None
    }
}

/// A piece of text known to sit inside `s` at position `i` can be read off
/// character by character.
pub proof fn lemma_at_index(s: Seq<char>, i: int, t: Seq<char>, j: int)
    requires
        0 <= i,
        i + t.len() <= s.len(),
        s.subrange(i, i + t.len()) == t,
        0 <= j < t.len(),
    ensures
        s[i + j] == t[j],
{
    assert(s.subrange(i, i + t.len())[j] == s[i + j]);
}

/// A concatenation sitting at `i` splits into its two parts.
pub proof fn lemma_at_split(s: Seq<char>, i: int, a: Seq<char>, b: Seq<char>)
    requires
        0 <= i,
        i + a.len() + b.len() <= s.len(),
        s.subrange(i, i + a.len() + b.len()) == a + b,
    ensures
        s.subrange(i, i + a.len()) == a,
        s.subrange(i + a.len(), i + a.len() + b.len()) == b,
{
    assert forall|j: int| 0 <= j < a.len() implies s.subrange(i, i + a.len())[j] == a[j] by {
        lemma_at_index(s, i, a + b, j);
    }
    assert(s.subrange(i, i + a.len()) =~= a);
    assert forall|j: int|
        0 <= j < b.len() implies s.subrange(i + a.len(), i + a.len() + b.len())[j] == b[j] by {
        lemma_at_index(s, i, a + b, a.len() + j);
        assert((a + b)[a.len() + j] == b[j]);
    }
    assert(s.subrange(i + a.len(), i + a.len() + b.len()) =~= b);
}

pub proof fn lemma_ser_nat_digits(n: int)
    requires
        n >= 0,
    ensures
        ser_nat(n).len() >= 1,
        forall|j: int| 0 <= j < ser_nat(n).len() ==> is_digit(#[trigger] ser_nat(n)[j]),
    decreases n,
{
    if n >= 10 {
        lemma_ser_nat_digits(n / 10);
    }
}

pub proof fn lemma_ser_nat_leading(n: int)
    requires
        n >= 0,
        ser_nat(n)[0] == '0',
    ensures
        n == 0,
    decreases n,
{
    if n >= 10 {
        lemma_ser_nat_leading(n / 10);
    }
}

/// Numeric value of a digit run.
pub open spec fn run_val(ds: Seq<char>) -> int
    decreases ds.len(),
{
    if ds.len() == 0 {
        0
    } else {
        run_val(ds.drop_last()) * 10 + digit_val(ds.last())
    }
}

pub proof fn lemma_ser_nat_val(n: int)
    requires
        n >= 0,
    ensures
        run_val(ser_nat(n)) == n,
    decreases n,
{
    if n < 10 {
        assert(ser_nat(n).drop_last() =~= Seq::<char>::empty());
        assert(run_val(Seq::<char>::empty()) == 0);
        assert(digit_val(digit_char(n)) == n);
    } else {
        lemma_ser_nat_val(n / 10);
        assert(ser_nat(n).drop_last() =~= ser_nat(n / 10));
        assert(ser_nat(n).last() == digit_char(n % 10));
        assert(digit_val(digit_char(n % 10)) == n % 10);
    }
}

/// Two delimited digit runs at the same position carry the same value.
pub proof fn lemma_digit_run_unique(s: Seq<char>, i: int, a: int, b: int)
    requires
        a >= 0,
        b >= 0,
        0 <= i,
        i + ser_nat(a).len() <= s.len(),
        s.subrange(i, i + ser_nat(a).len()) == ser_nat(a),
        !(i + ser_nat(a).len() < s.len() && is_digit(s[i + ser_nat(a).len()])),
        i + ser_nat(b).len() <= s.len(),
        s.subrange(i, i + ser_nat(b).len()) == ser_nat(b),
        !(i + ser_nat(b).len() < s.len() && is_digit(s[i + ser_nat(b).len()])),
    ensures
        a == b,
{
    lemma_ser_nat_digits(a);
    lemma_ser_nat_digits(b);
    let la = ser_nat(a).len() as int;
    let lb = ser_nat(b).len() as int;
    if la < lb {
        assert(is_digit(ser_nat(b)[la]));
        lemma_at_index(s, i, ser_nat(b), la);
        assert(false);
    }
    if lb < la {
        assert(is_digit(ser_nat(a)[lb]));
        lemma_at_index(s, i, ser_nat(a), lb);
        assert(false);
    }
    assert(ser_nat(a) == ser_nat(b));
    lemma_ser_nat_val(a);
    lemma_ser_nat_val(b);
}

/// First character of each escape unit; no unit starts with a quote.
pub proof fn lemma_esc_char_shape(c: char)
    ensures
        esc_char(c).len() == 1 || esc_char(c).len() == 2 || esc_char(c).len() == 6,
        esc_char(c)[0] != '"',
        esc_char(c)[0] == '\\' <==> (c == '"' || c == '\\' || (c as u32) < 32),
        esc_char(c).len() == 1 ==> esc_char(c)[0] == c,
{
}

/// Escape units are self-delimiting: two units starting at the same position
/// of the same string encode the same character.
pub proof fn lemma_esc_unit_unique(s: Seq<char>, i: int, c1: char, c2: char)
    requires
        0 <= i,
        i + esc_char(c1).len() <= s.len(),
        s.subrange(i, i + esc_char(c1).len()) == esc_char(c1),
        i + esc_char(c2).len() <= s.len(),
        s.subrange(i, i + esc_char(c2).len()) == esc_char(c2),
    ensures
        c1 == c2,
{
    lemma_esc_char_shape(c1);
    lemma_esc_char_shape(c2);
    lemma_at_index(s, i, esc_char(c1), 0);
    lemma_at_index(s, i, esc_char(c2), 0);
    if esc_char(c1)[0] == '\\' {
        lemma_at_index(s, i, esc_char(c1), 1);
        lemma_at_index(s, i, esc_char(c2), 1);
        if esc_char(c1)[1] == 'u' {
            assert((c1 as u32) < 32 && (c2 as u32) < 32);
            lemma_at_index(s, i, esc_char(c1), 4);
            lemma_at_index(s, i, esc_char(c1), 5);
            lemma_at_index(s, i, esc_char(c2), 4);
            lemma_at_index(s, i, esc_char(c2), 5);
            assert(hex_char((c1 as u32) as int / 16) == hex_char((c2 as u32) as int / 16));
            assert(hex_char((c1 as u32) as int % 16) == hex_char((c2 as u32) as int % 16));
            assert((c1 as u32) as int / 16 == (c2 as u32) as int / 16);
            assert((c1 as u32) as int % 16 == (c2 as u32) as int % 16);
            assert(c1 as u32 == c2 as u32);
            assert(c1 == c2);
        } else {
            assert(c1 == c2);
        }
    } else {
        assert(c1 == c2);
    }
}

/// The body of a canonical string literal sits at `s[i ..]`, closed by the
/// unescaped quote that follows it.
pub open spec fn text_body_at(s: Seq<char>, i: int, t: Seq<char>) -> bool {
    &&& 0 <= i
    &&& i + esc(t).len() + 1 <= s.len()
    &&& s.subrange(i, i + esc(t).len()) == esc(t)
    &&& s[i + esc(t).len()] == '"'
}

pub proof fn lemma_text_body_unique(s: Seq<char>, i: int, t1: Seq<char>, t2: Seq<char>)
    requires
        text_body_at(s, i, t1),
        text_body_at(s, i, t2),
    ensures
        t1 == t2,
    decreases t1.len(),
{
    if t1.len() == 0 {
        if t2.len() != 0 {
            assert(esc(t2) == esc_char(t2[0]) + esc(t2.drop_first()));
            lemma_esc_char_shape(t2[0]);
            lemma_at_index(s, i, esc(t2), 0);
            assert(s[i] == esc_char(t2[0])[0]);
            assert(s[i] == '"');
            assert(false);
        }
        assert(t1 =~= t2);
    } else {
        if t2.len() == 0 {
            assert(esc(t1) == esc_char(t1[0]) + esc(t1.drop_first()));
            lemma_esc_char_shape(t1[0]);
            lemma_at_index(s, i, esc(t1), 0);
            assert(s[i] == esc_char(t1[0])[0]);
            assert(s[i] == '"');
            assert(false);
        }
        assert(esc(t1) == esc_char(t1[0]) + esc(t1.drop_first()));
        assert(esc(t2) == esc_char(t2[0]) + esc(t2.drop_first()));
        let u1 = esc_char(t1[0]).len() as int;
        let u2 = esc_char(t2[0]).len() as int;
        lemma_at_split(s, i, esc_char(t1[0]), esc(t1.drop_first()));
        lemma_at_split(s, i, esc_char(t2[0]), esc(t2.drop_first()));
        lemma_esc_unit_unique(s, i, t1[0], t2[0]);
        assert(u1 == u2);
        assert(text_body_at(s, i + u1, t1.drop_first()));
        assert(text_body_at(s, i + u1, t2.drop_first()));
        lemma_text_body_unique(s, i + u1, t1.drop_first(), t2.drop_first());
        assert(t1 =~= seq![t1[0]] + t1.drop_first());
        assert(t2 =~= seq![t2[0]] + t2.drop_first());
        assert(t1 == t2);
    }
}

/// A canonical string literal (with its quotes) sitting at `i` decomposes
/// into quote, body, quote.
pub proof fn lemma_text_at_parts(s: Seq<char>, i: int, t: Seq<char>)
    requires
        0 <= i,
        i + ser_text(t).len() <= s.len(),
        s.subrange(i, i + ser_text(t).len()) == ser_text(t),
    ensures
        s[i] == '"',
        text_body_at(s, i + 1, t),
{
    assert(ser_text(t) == seq!['"'] + (esc(t) + seq!['"'])) by {
        assert(ser_text(t) =~= seq!['"'] + (esc(t) + seq!['"']));
    }
    lemma_at_split(s, i, seq!['"'], esc(t) + seq!['"']);
    lemma_at_index(s, i, ser_text(t), 0);
    lemma_at_split(s, i + 1, esc(t), seq!['"']);
    lemma_at_index(s, i + 1 + esc(t).len(), seq!['"'], 0);
}

pub proof fn lemma_text_unique(s: Seq<char>, i: int, t1: Seq<char>, t2: Seq<char>)
    requires
        0 <= i,
        i + ser_text(t1).len() <= s.len(),
        s.subrange(i, i + ser_text(t1).len()) == ser_text(t1),
        i + ser_text(t2).len() <= s.len(),
        s.subrange(i, i + ser_text(t2).len()) == ser_text(t2),
    ensures
        t1 == t2,
{
    lemma_text_at_parts(s, i, t1);
    lemma_text_at_parts(s, i, t2);
    lemma_text_body_unique(s, i + 1, t1, t2);
}

pub proof fn lemma_ser_len(d: DocV)
    ensures
        ser(d).len() >= 1,
{
    match d {
        DocV::Int(i) => {
            if i < 0 {
                lemma_ser_nat_digits(-(i as int));
            } else {
                lemma_ser_nat_digits(i as int);
            }
        },
        _ => {},
    }
}

/// What the first character of canonical text says about the document.
pub proof fn lemma_ser_first(d: DocV)
    ensures
        ser(d).len() >= 1,
        d is Null <==> ser(d)[0] == 'n',
        d == DocV::Bool(true) <==> ser(d)[0] == 't',
        d == DocV::Bool(false) <==> ser(d)[0] == 'f',
        d is Int <==> (ser(d)[0] == '-' || is_digit(ser(d)[0])),
        (d matches DocV::Int(i) && i < 0) <==> ser(d)[0] == '-',
        d is Text <==> ser(d)[0] == '"',
        d is Array <==> ser(d)[0] == '[',
        d is Object <==> ser(d)[0] == '{',
{
    match d {
        DocV::Int(i) => {
            if i < 0 {
                lemma_ser_nat_digits(-(i as int));
                assert(ser(d)[0] == '-');
            } else {
                lemma_ser_nat_digits(i as int);
                assert(ser(d)[0] == ser_nat(i as int)[0]);
                assert(is_digit(ser(d)[0]));
            }
        },
        DocV::Text(t) => {
            assert(ser(d)[0] == '"');
        },
        DocV::Array(v) => {
            assert(ser(d)[0] == '[');
        },
        DocV::Object(f) => {
            assert(ser(d)[0] == '{');
        },
        _ => {},
    }
}

/// The serialized tail of a sequence (elements, commas, closing bracket)
/// sits at `s[i ..]`.
pub open spec fn items_at(s: Seq<char>, i: int, items: Seq<DocV>) -> bool {
    &&& 0 <= i
    &&& i + ser_items(items).len() <= s.len()
    &&& s.subrange(i, i + ser_items(items).len()) == ser_items(items)
}

pub open spec fn fields_at(s: Seq<char>, i: int, fields: Seq<(Seq<char>, DocV)>) -> bool {
    &&& 0 <= i
    &&& i + ser_fields(fields).len() <= s.len()
    &&& s.subrange(i, i + ser_fields(fields).len()) == ser_fields(fields)
}

/// The first element of a non-empty serialized sequence tail is properly
/// delimited, and a comma or closing bracket follows it.
pub proof fn lemma_items_first_shape(s: Seq<char>, i: int, v: Seq<DocV>)
    requires
        items_at(s, i, v),
        v.len() >= 1,
    ensures
        sep_at(s, i, v[0]),
        ser(v[0]).len() < ser_items(v).len(),
        s[i + ser(v[0]).len()] == if v.len() == 1 {
            ']'
        } else {
            ','
        },
{
    let e = v[0];
    let l = ser(e).len() as int;
    if v.len() == 1 {
        assert(ser_items(v) == ser(e) + seq![']']);
        lemma_at_split(s, i, ser(e), seq![']']);
        lemma_at_index(s, i + l, seq![']'], 0);
    } else {
        assert(ser_items(v) == ser(e) + seq![','] + ser_items(v.drop_first()));
        assert(ser_items(v) == ser(e) + (seq![','] + ser_items(v.drop_first()))) by {
            assert(ser_items(v) =~= ser(e) + (seq![','] + ser_items(v.drop_first())));
        }
        lemma_at_split(s, i, ser(e), seq![','] + ser_items(v.drop_first()));
        lemma_at_index(s, i + l, seq![','] + ser_items(v.drop_first()), 0);
    }
}

pub proof fn lemma_items_unique(s: Seq<char>, i: int, v1: Seq<DocV>, v2: Seq<DocV>)
    requires
        items_at(s, i, v1),
        items_at(s, i, v2),
    ensures
        v1 == v2,
    decreases v1,
{
    if v1.len() == 0 {
        lemma_at_index(s, i, ser_items(v1), 0);
        assert(s[i] == ']');
        if v2.len() != 0 {
            lemma_ser_first(v2[0]);
            lemma_items_first_shape(s, i, v2);
            lemma_at_index(s, i, ser(v2[0]), 0);
            assert(false);
        }
        assert(v1 =~= v2);
    } else {
        if v2.len() == 0 {
            lemma_at_index(s, i, ser_items(v2), 0);
            assert(s[i] == ']');
            lemma_ser_first(v1[0]);
            lemma_items_first_shape(s, i, v1);
            lemma_at_index(s, i, ser(v1[0]), 0);
            assert(false);
        }
        lemma_items_first_shape(s, i, v1);
        lemma_items_first_shape(s, i, v2);
        lemma_sep_at_unique(s, i, v1[0], v2[0]);
        let l = ser(v1[0]).len() as int;
        if v1.len() == 1 {
            assert(s[i + l] == ']');
            if v2.len() > 1 {
                assert(s[i + l] == ',');
                assert(false);
            }
            assert(v1 =~= v2);
        } else {
            assert(s[i + l] == ',');
            if v2.len() == 1 {
                assert(s[i + l] == ']');
                assert(false);
            }
            assert(ser_items(v1) == (ser(v1[0]) + seq![',']) + ser_items(v1.drop_first())) by {
                assert(ser_items(v1) =~= (ser(v1[0]) + seq![',']) + ser_items(v1.drop_first()));
            }
            lemma_at_split(s, i, ser(v1[0]) + seq![','], ser_items(v1.drop_first()));
            assert(ser_items(v2) == (ser(v2[0]) + seq![',']) + ser_items(v2.drop_first())) by {
                assert(ser_items(v2) =~= (ser(v2[0]) + seq![',']) + ser_items(v2.drop_first()));
            }
            lemma_at_split(s, i, ser(v2[0]) + seq![','], ser_items(v2.drop_first()));
            lemma_items_unique(s, i + l + 1, v1.drop_first(), v2.drop_first());
            assert(v1 =~= seq![v1[0]] + v1.drop_first());
            assert(v2 =~= seq![v2[0]] + v2.drop_first());
            assert(v1 == v2);
        }
    }
}

/// Shape of the first entry of a non-empty serialized mapping tail: key text,
/// colon, delimited value, then comma or closing brace.
pub proof fn lemma_fields_first_shape(s: Seq<char>, i: int, f: Seq<(Seq<char>, DocV)>)
    requires
        fields_at(s, i, f),
        f.len() >= 1,
    ensures
        s[i] == '"',
        i + ser_text(f[0].0).len() <= s.len(),
        s.subrange(i, i + ser_text(f[0].0).len()) == ser_text(f[0].0),
        s[i + ser_text(f[0].0).len()] == ':',
        sep_at(s, i + ser_text(f[0].0).len() + 1, f[0].1),
        ser_text(f[0].0).len() + 1 + ser(f[0].1).len() < ser_fields(f).len(),
        s[i + ser_text(f[0].0).len() + 1 + ser(f[0].1).len()] == if f.len() == 1 {
            '}'
        } else {
            ','
        },
{
    let k = f[0].0;
    let kl = ser_text(k).len() as int;
    let e = f[0].1;
    let l = ser(e).len() as int;
    if f.len() == 1 {
        assert(ser_fields(f) == ser_text(k) + ((seq![':'] + ser(e)) + seq!['}'])) by {
            assert(ser_fields(f) =~= ser_text(k) + ((seq![':'] + ser(e)) + seq!['}']));
        }
        lemma_at_split(s, i, ser_text(k), (seq![':'] + ser(e)) + seq!['}']);
        lemma_at_split(s, i + kl, seq![':'] + ser(e), seq!['}']);
        lemma_at_split(s, i + kl, seq![':'], ser(e));
        lemma_at_index(s, i + kl, seq![':'], 0);
        lemma_at_index(s, i + kl + 1 + l, seq!['}'], 0);
        lemma_at_index(s, i, ser_text(k), 0);
        assert(ser_text(k)[0] == '"');
    } else {
        assert(ser_fields(f) == ser_text(k) + ((seq![':'] + ser(e)) + (seq![','] + ser_fields(
            f.drop_first(),
        )))) by {
            assert(ser_fields(f) =~= ser_text(k) + ((seq![':'] + ser(e)) + (seq![','] + ser_fields(
                f.drop_first(),
            ))));
        }
        lemma_at_split(
            s,
            i,
            ser_text(k),
            (seq![':'] + ser(e)) + (seq![','] + ser_fields(f.drop_first())),
        );
        lemma_at_split(s, i + kl, seq![':'] + ser(e), seq![','] + ser_fields(f.drop_first()));
        lemma_at_split(s, i + kl, seq![':'], ser(e));
        lemma_at_index(s, i + kl, seq![':'], 0);
        lemma_at_index(s, i + kl + 1 + l, seq![','] + ser_fields(f.drop_first()), 0);
        lemma_at_index(s, i, ser_text(k), 0);
        assert(ser_text(k)[0] == '"');
    }
}

pub proof fn lemma_fields_unique(
    s: Seq<char>,
    i: int,
    f1: Seq<(Seq<char>, DocV)>,
    f2: Seq<(Seq<char>, DocV)>,
)
    requires
        fields_at(s, i, f1),
        fields_at(s, i, f2),
    ensures
        f1 == f2,
    decreases f1,
{
    if f1.len() == 0 {
        lemma_at_index(s, i, ser_fields(f1), 0);
        assert(s[i] == '}');
        if f2.len() != 0 {
            lemma_fields_first_shape(s, i, f2);
            assert(false);
        }
        assert(f1 =~= f2);
    } else {
        if f2.len() == 0 {
            lemma_at_index(s, i, ser_fields(f2), 0);
            assert(s[i] == '}');
            lemma_fields_first_shape(s, i, f1);
            assert(false);
        }
        lemma_fields_first_shape(s, i, f1);
        lemma_fields_first_shape(s, i, f2);
        let k1 = f1[0].0;
        let k2 = f2[0].0;
        lemma_text_unique(s, i, k1, k2);
        let kl = ser_text(k1).len() as int;
        lemma_sep_at_unique(s, i + kl + 1, f1[0].1, f2[0].1);
        let l = ser(f1[0].1).len() as int;
        assert(f1[0] == f2[0]);
        if f1.len() == 1 {
            assert(s[i + kl + 1 + l] == '}');
            if f2.len() > 1 {
                assert(s[i + kl + 1 + l] == ',');
                assert(false);
            }
            assert(f1 =~= f2);
        } else {
            assert(s[i + kl + 1 + l] == ',');
            if f2.len() == 1 {
                assert(s[i + kl + 1 + l] == '}');
                assert(false);
            }
            assert(ser_fields(f1) == (ser_text(k1) + seq![':'] + ser(f1[0].1) + seq![','])
                + ser_fields(f1.drop_first())) by {
                assert(ser_fields(f1) =~= (ser_text(k1) + seq![':'] + ser(f1[0].1) + seq![','])
                    + ser_fields(f1.drop_first()));
            }
            lemma_at_split(
                s,
                i,
                ser_text(k1) + seq![':'] + ser(f1[0].1) + seq![','],
                ser_fields(f1.drop_first()),
            );
            assert(ser_fields(f2) == (ser_text(k2) + seq![':'] + ser(f2[0].1) + seq![','])
                + ser_fields(f2.drop_first())) by {
                assert(ser_fields(f2) =~= (ser_text(k2) + seq![':'] + ser(f2[0].1) + seq![','])
                    + ser_fields(f2.drop_first()));
            }
            lemma_at_split(
                s,
                i,
                ser_text(k2) + seq![':'] + ser(f2[0].1) + seq![','],
                ser_fields(f2.drop_first()),
            );
            lemma_fields_unique(s, i + kl + 1 + l + 1, f1.drop_first(), f2.drop_first());
            assert(f1 =~= seq![f1[0]] + f1.drop_first());
            assert(f2 =~= seq![f2[0]] + f2.drop_first());
            assert(f1 == f2);
        }
    }
}

/// Determinism: two delimited canonical texts at one position are the same
/// document.
pub proof fn lemma_sep_at_unique(s: Seq<char>, i: int, d1: DocV, d2: DocV)
    requires
        sep_at(s, i, d1),
        sep_at(s, i, d2),
    ensures
        d1 == d2,
    decreases d1,
{
    lemma_ser_first(d1);
    lemma_ser_first(d2);
    lemma_at_index(s, i, ser(d1), 0);
    lemma_at_index(s, i, ser(d2), 0);
    assert(s[i] == ser(d1)[0]);
    assert(s[i] == ser(d2)[0]);
    match d1 {
        DocV::Null => {
            assert(d2 is Null);
        },
        DocV::Bool(b) => {
            if b {
                assert(d2 == DocV::Bool(true));
            } else {
                assert(d2 == DocV::Bool(false));
            }
        },
        DocV::Int(a0) => {
            assert(d2 is Int);
            let a: int = a0 as int;
            let b: int = d2->Int_0 as int;
            if a < 0 {
                assert(ser(d1)[0] == '-');
                assert(b < 0);
                lemma_ser_nat_digits(-a);
                lemma_ser_nat_digits(-b);
                assert(ser(d1) == seq!['-'] + ser_nat(-a));
                assert(ser(d2) == seq!['-'] + ser_nat(-b));
                lemma_at_split(s, i, seq!['-'], ser_nat(-a));
                lemma_at_split(s, i, seq!['-'], ser_nat(-b));
                assert(ser(d1).last() == ser_nat(-a).last());
                assert(ser(d2).last() == ser_nat(-b).last());
                assert(is_digit(ser_nat(-a).last()));
                assert(is_digit(ser_nat(-b).last()));
                lemma_digit_run_unique(s, i + 1, -a, -b);
            } else {
                if b < 0 {
                    lemma_ser_nat_digits(a);
                    assert(ser(d1)[0] == ser_nat(a)[0]);
                    assert(ser(d2)[0] == '-');
                    assert(false);
                }
                assert(ser(d1) == ser_nat(a));
                assert(ser(d2) == ser_nat(b));
                lemma_ser_nat_digits(a);
                lemma_ser_nat_digits(b);
                lemma_digit_run_unique(s, i, a, b);
            }
        },
        DocV::Text(t1) => {
            assert(d2 is Text);
            let t2 = d2->Text_0;
            assert(ser(d1) == ser_text(t1));
            assert(ser(d2) == ser_text(t2));
            lemma_text_unique(s, i, t1, t2);
        },
        DocV::Array(v1) => {
            assert(d2 is Array);
            let v2 = d2->Array_0;
            assert(ser(d1) == seq!['['] + ser_items(v1));
            assert(ser(d2) == seq!['['] + ser_items(v2));
            lemma_at_split(s, i, seq!['['], ser_items(v1));
            lemma_at_split(s, i, seq!['['], ser_items(v2));
            lemma_items_unique(s, i + 1, v1, v2);
        },
        DocV::Object(f1) => {
            assert(d2 is Object);
            let f2 = d2->Object_0;
            assert(ser(d1) == seq!['{'] + ser_fields(f1));
            assert(ser(d2) == seq!['{'] + ser_fields(f2));
            lemma_at_split(s, i, seq!['{'], ser_fields(f1));
            lemma_at_split(s, i, seq!['{'], ser_fields(f2));
            lemma_fields_unique(s, i + 1, f1, f2);
        },
    }
}

/// Canonical parsing inverts canonical serialization.
pub proof fn lemma_canon_parse_ser(d: DocV)
    ensures
        canon_parse(ser(d)) == Some(d),
{
    let t = ser(d);
    assert(ser(d) == t);
    let w = choose|w: DocV| ser(w) == t;
    assert(ser(w) == t);
    lemma_ser_len(d);
    assert(sep_at(t, 0, d)) by {
        assert(t.subrange(0, t.len() as int) =~= t);
    }
    assert(sep_at(t, 0, w)) by {
        assert(t.subrange(0, ser(w).len() as int) =~= ser(w));
    }
    lemma_sep_at_unique(t, 0, d, w);
}

/// Digit characters and digit values are inverse to each other.
pub proof fn lemma_digit_roundtrip(c: char)
    requires
        is_digit(c),
    ensures
        0 <= digit_val(c) <= 9,
        digit_char(digit_val(c)) == c,
{
    let v = c as u32;
    assert(48 <= v <= 57);
    if v == 48 {
        assert(c == '0');
    } else if v == 49 {
        assert(c == '1');
    } else if v == 50 {
        assert(c == '2');
    } else if v == 51 {
        assert(c == '3');
    } else if v == 52 {
        assert(c == '4');
    } else if v == 53 {
        assert(c == '5');
    } else if v == 54 {
        assert(c == '6');
    } else if v == 55 {
        assert(c == '7');
    } else if v == 56 {
        assert(c == '8');
    } else {
        assert(c == '9');
    }
}

pub proof fn lemma_run_val_nonneg(ds: Seq<char>)
    requires
        forall|j: int| 0 <= j < ds.len() ==> is_digit(#[trigger] ds[j]),
    ensures
        run_val(ds) >= 0,
    decreases ds.len(),
{
    if ds.len() > 0 {
        assert(forall|j: int|
            0 <= j < ds.drop_last().len() ==> is_digit(#[trigger] ds.drop_last()[j]));
        lemma_run_val_nonneg(ds.drop_last());
        assert(digit_val(ds.last()) >= 0);
    }
}

/// A digit run whose first digit is not zero has a positive value.
pub proof fn lemma_run_val_first_pos(ds: Seq<char>)
    requires
        ds.len() >= 1,
        forall|j: int| 0 <= j < ds.len() ==> is_digit(#[trigger] ds[j]),
        ds[0] != '0',
    ensures
        run_val(ds) >= 1,
    decreases ds.len(),
{
    assert(is_digit(ds[ds.len() - 1]));
    lemma_digit_roundtrip(ds[ds.len() - 1]);
    assert(ds.last() == ds[ds.len() - 1]);
    if ds.len() == 1 {
        assert(ds.last() == ds[0]);
        assert(digit_val(ds.last()) >= 1);
    } else {
        assert(forall|j: int|
            0 <= j < ds.drop_last().len() ==> is_digit(#[trigger] ds.drop_last()[j]));
        lemma_run_val_first_pos(ds.drop_last());
        assert(run_val(ds) == run_val(ds.drop_last()) * 10 + digit_val(ds.last()));
        assert(digit_val(ds.last()) >= 0);
    }
}

/// The value of a digit run bounds the value of each of its prefixes.
pub proof fn lemma_run_val_prefix_le(ds: Seq<char>, k: int)
    requires
        forall|j: int| 0 <= j < ds.len() ==> is_digit(#[trigger] ds[j]),
        0 <= k <= ds.len(),
    ensures
        run_val(ds.take(k)) <= run_val(ds),
    decreases ds.len() - k,
{
    if k == ds.len() {
        assert(ds.take(k) =~= ds);
    } else {
        lemma_run_val_prefix_le(ds, k + 1);
        assert(ds.take(k + 1).drop_last() =~= ds.take(k));
        assert(ds.take(k + 1).last() == ds[k]);
        assert(forall|j: int| 0 <= j < ds.take(k).len() ==> is_digit(#[trigger] ds.take(k)[j]));
        lemma_run_val_nonneg(ds.take(k));
        assert(run_val(ds.take(k + 1)) == run_val(ds.take(k)) * 10 + digit_val(ds[k]));
        assert(digit_val(ds[k]) >= 0);
    }
}

/// A canonical digit run (non-empty, no leading zero) is the canonical
/// decimal of its value.
pub proof fn lemma_ser_nat_of_digits(ds: Seq<char>)
    requires
        ds.len() >= 1,
        forall|j: int| 0 <= j < ds.len() ==> is_digit(#[trigger] ds[j]),
        ds[0] == '0' ==> ds.len() == 1,
    ensures
        run_val(ds) >= 0,
        ser_nat(run_val(ds)) == ds,
    decreases ds.len(),
{
    lemma_run_val_nonneg(ds);
    if ds.len() == 1 {
        assert(ds.drop_last() =~= Seq::<char>::empty());
        assert(run_val(Seq::<char>::empty()) == 0);
        assert(ds.last() == ds[0]);
        assert(run_val(ds) == digit_val(ds[0]));
        lemma_digit_roundtrip(ds[0]);
        assert(ser_nat(run_val(ds)) =~= ds);
    } else {
        let init = ds.drop_last();
        assert(init[0] == ds[0]);
        assert(ds[0] != '0');
        assert(forall|j: int| 0 <= j < init.len() ==> is_digit(#[trigger] init[j]));
        lemma_ser_nat_of_digits(init);
        lemma_run_val_first_pos(init);
        let rv = run_val(init);
        let dv = digit_val(ds.last());
        assert(0 <= dv <= 9);
        assert(run_val(ds) == rv * 10 + dv);
        assert(run_val(ds) >= 10);
        assert(run_val(ds) / 10 == rv);
        assert(run_val(ds) % 10 == dv);
        assert(ser_nat(run_val(ds)) == ser_nat(rv) + seq![digit_char(dv)]);
        assert(is_digit(ds[ds.len() - 1]));
        assert(ds.last() == ds[ds.len() - 1]);
        lemma_digit_roundtrip(ds.last());
        assert(ser_nat(run_val(ds)) =~= ds);
    }
}

/// One escape unit of a canonical string literal sits at `s[p ..]`.
pub open spec fn unit_at(s: Seq<char>, p: int, c: char) -> bool {
    &&& 0 <= p
    &&& p + esc_char(c).len() <= s.len()
    &&& s.subrange(p, p + esc_char(c).len()) == esc_char(c)
}

/// A whole canonical string literal, quotes included, sits at `s[i ..]`.
pub open spec fn text_at(s: Seq<char>, i: int, t: Seq<char>) -> bool {
    &&& 0 <= i
    &&& i + ser_text(t).len() <= s.len()
    &&& s.subrange(i, i + ser_text(t).len()) == ser_text(t)
}


/// Characters with the same scalar value are the same character.
pub proof fn lemma_char_code(c1: char, c2: char)
    requires
        c1 as u32 == c2 as u32,
    ensures
        c1 == c2,
{
}

pub proof fn lemma_hex_char_inj(m1: int, m2: int)
    requires
        0 <= m1 < 16,
        0 <= m2 < 16,
        hex_char(m1) == hex_char(m2),
    ensures
        m1 == m2,
{
    assert(hex_char(m1) as u32 == hex_char(m2) as u32);
}

/// Structured description of a parse failure: the character position at
/// which the input stopped being canonical text.
#[derive(Debug, PartialEq, Eq)]
pub struct ParseError {
    pub at: usize,
}

fn hex_val(c: char) -> (r: Option<u32>)
    ensures
        match r {
            Some(v) => v < 16 && hex_char(v as int) == c,
            None => forall|m: int| 0 <= m < 16 ==> hex_char(m) != c,
        },
{
    let v: u32 = c as u32;
    if 48 <= v && v <= 57 {
        proof {
            lemma_digit_roundtrip(c);
        }
        Some(v - 48)
    } else if 97 <= v && v <= 102 {
        proof {
            if v == 97 {
                assert(c == 'a');
            } else if v == 98 {
                assert(c == 'b');
            } else if v == 99 {
                assert(c == 'c');
            } else if v == 100 {
                assert(c == 'd');
            } else if v == 101 {
                assert(c == 'e');
            } else {
                assert(c == 'f');
            }
        }
        Some(v - 87)
    } else {
        proof {
            assert forall|m: int| 0 <= m < 16 implies hex_char(m) != c by {
                assert(hex_char(m) as u32 != v);
            }
        }
        None
    }
}

/// Reads one escape unit of a canonical string literal.
fn scan_unit(s: &Vec<char>, p: usize) -> (r: Result<(char, usize), usize>)
    requires
        p <= s@.len(),
    ensures
        match r {
            Ok((c, q)) => p < q <= s@.len() && q == p + esc_char(c).len() && unit_at(
                s@,
                p as int,
                c,
            ),
            Err(_) => forall|c: char| !unit_at(s@, p as int, c),
        },
{
    let n = s.len();
    if p == n {
        proof {
            assert forall|c: char| !unit_at(s@, p as int, c) by {
                lemma_esc_char_shape(c);
            }
        }
        return Err(p);
    }
    let c0 = s[p];
    if c0 == '\\' {
        if p + 1 == n {
            proof {
                assert forall|c: char| !unit_at(s@, p as int, c) by {
                    lemma_esc_char_shape(c);
                    if unit_at(s@, p as int, c) {
                        lemma_at_index(s@, p as int, esc_char(c), 0);
                        assert(esc_char(c)[0] == '\\');
                        assert(esc_char(c).len() >= 2);
                        assert(false);
                    }
                }
            }
            return Err(p);
        }
        let code = s[p + 1];
        if code == '"' {
            proof {
                assert(s@.subrange(p as int, p + 2) =~= esc_char('"'));
            }
            return Ok(('"', p + 2));
        }
        if code == '\\' {
            proof {
                assert(s@.subrange(p as int, p + 2) =~= esc_char('\\'));
            }
            return Ok(('\\', p + 2));
        }
        if code == 'b' {
            proof {
                assert(s@.subrange(p as int, p + 2) =~= esc_char('\u{8}'));
            }
            return Ok(('\u{8}', p + 2));
        }
        if code == 't' {
            proof {
                assert(s@.subrange(p as int, p + 2) =~= esc_char('\u{9}'));
            }
            return Ok(('\u{9}', p + 2));
        }
        if code == 'n' {
            proof {
                assert(s@.subrange(p as int, p + 2) =~= esc_char('\u{a}'));
            }
            return Ok(('\u{a}', p + 2));
        }
        if code == 'f' {
            proof {
                assert(s@.subrange(p as int, p + 2) =~= esc_char('\u{c}'));
            }
            return Ok(('\u{c}', p + 2));
        }
        if code == 'r' {
            proof {
                assert(s@.subrange(p as int, p + 2) =~= esc_char('\u{d}'));
            }
            return Ok(('\u{d}', p + 2));
        }
        if code != 'u' {
            proof {
                assert forall|c: char| !unit_at(s@, p as int, c) by {
                    lemma_esc_char_shape(c);
                    if unit_at(s@, p as int, c) {
                        lemma_at_index(s@, p as int, esc_char(c), 0);
                        lemma_at_index(s@, p as int, esc_char(c), 1);
                        assert(esc_char(c)[0] == '\\');
                        assert(false);
                    }
                }
            }
            return Err(p + 1);
        }
        // \u00xy, lowercase hex, only for control characters without a
        // shorter escape
        if n - p < 6 {
            proof {
                assert forall|c: char| !unit_at(s@, p as int, c) by {
                    lemma_esc_char_shape(c);
                    if unit_at(s@, p as int, c) {
                        lemma_at_index(s@, p as int, esc_char(c), 0);
                        lemma_at_index(s@, p as int, esc_char(c), 1);
                        assert(esc_char(c)[1] == 'u');
                        assert(esc_char(c).len() == 6);
                        assert(false);
                    }
                }
            }
            return Err(p + 1);
        }
        proof {
            assert forall|c: char|
                unit_at(s@, p as int, c) implies (c as u32) < 32 && esc_char(c).len() == 6
                && s@[p + 2] == '0' && s@[p + 3] == '0' && s@[p + 4] == hex_char(
                (c as u32) as int / 16,
            ) && s@[p + 5] == hex_char((c as u32) as int % 16) by {
                lemma_esc_char_shape(c);
                lemma_at_index(s@, p as int, esc_char(c), 0);
                lemma_at_index(s@, p as int, esc_char(c), 1);
                assert(esc_char(c)[1] == 'u');
                assert((c as u32) < 32);
                lemma_at_index(s@, p as int, esc_char(c), 2);
                lemma_at_index(s@, p as int, esc_char(c), 3);
                lemma_at_index(s@, p as int, esc_char(c), 4);
                lemma_at_index(s@, p as int, esc_char(c), 5);
            }
        }
        if !(s[p + 2] == '0' && s[p + 3] == '0') {
            return Err(p + 2);
        }
        let h1 = hex_val(s[p + 4]);
        let h2 = hex_val(s[p + 5]);
        match (h1, h2) {
            (Some(a), Some(b)) => {
                let v: u32 = a * 16 + b;
                if v >= 32 || v == 8 || v == 9 || v == 10 || v == 12 || v == 13 {
                    proof {
                        assert forall|c: char| !unit_at(s@, p as int, c) by {
                            if unit_at(s@, p as int, c) {
                                assert(hex_char((c as u32) as int / 16) == hex_char(a as int));
                                assert(hex_char((c as u32) as int % 16) == hex_char(b as int));
                                lemma_hex_char_inj((c as u32) as int / 16, a as int);
                                lemma_hex_char_inj((c as u32) as int % 16, b as int);
                                assert(c as u32 == v);
                                assert((c as u32) < 32);
                                assert(esc_char(c).len() == 6);
                                if v >= 32 {
                                    assert(false);
                                } else if v == 8 {
                                    assert('\u{8}' as u32 == 8);
                                    lemma_char_code(c, '\u{8}');
                                    assert(esc_char(c).len() == 2);
                                    assert(false);
                                } else if v == 9 {
                                    assert('\u{9}' as u32 == 9);
                                    lemma_char_code(c, '\u{9}');
                                    assert(esc_char(c).len() == 2);
                                    assert(false);
                                } else if v == 10 {
                                    assert('\u{a}' as u32 == 10);
                                    lemma_char_code(c, '\u{a}');
                                    assert(esc_char(c).len() == 2);
                                    assert(false);
                                } else if v == 12 {
                                    assert('\u{c}' as u32 == 12);
                                    lemma_char_code(c, '\u{c}');
                                    assert(esc_char(c).len() == 2);
                                    assert(false);
                                } else {
                                    assert('\u{d}' as u32 == 13);
                                    lemma_char_code(c, '\u{d}');
                                    assert(esc_char(c).len() == 2);
                                    assert(false);
                                }
                            }
                        }
                    }
                    return Err(p + 4);
                }
                let c: char = (v as u8) as char;
                proof {
                    assert(c as u32 == v);
                    assert(c != '"' && c != '\\');
                    assert(c != '\u{8}' && c != '\u{9}' && c != '\u{a}' && c != '\u{c}' && c
                        != '\u{d}');
                    assert(esc_char(c) =~= seq![
                        '\\',
                        'u',
                        '0',
                        '0',
                        hex_char(v as int / 16),
                        hex_char(v as int % 16),
                    ]);
                    assert(hex_char(v as int / 16) == hex_char(a as int));
                    assert(hex_char(v as int % 16) == hex_char(b as int));
                    assert(s@.subrange(p as int, p + 6) =~= esc_char(c));
                }
                Ok((c, p + 6))
            },
            _ => {
                proof {
                    assert forall|c: char| !unit_at(s@, p as int, c) by {
                        if unit_at(s@, p as int, c) {
                            if h1 is None {
                                assert(hex_char((c as u32) as int / 16) == s@[p + 4]);
                            } else {
                                assert(hex_char((c as u32) as int % 16) == s@[p + 5]);
                            }
                            assert(false);
                        }
                    }
                }
                Err(p + 4)
            },
        }
    } else {
        let v: u32 = c0 as u32;
        if v >= 32 && c0 != '"' {
            proof {
                assert(esc_char(c0) =~= seq![c0]);
                assert(s@.subrange(p as int, p + 1) =~= esc_char(c0));
            }
            Ok((c0, p + 1))
        } else {
            proof {
                assert forall|c: char| !unit_at(s@, p as int, c) by {
                    lemma_esc_char_shape(c);
                    if unit_at(s@, p as int, c) {
                        lemma_at_index(s@, p as int, esc_char(c), 0);
                        if esc_char(c).len() == 1 {
                            assert(esc_char(c)[0] == c);
                            assert(c == c0);
                            assert(!(c == '"' || c == '\\' || (c as u32) < 32));
                            assert(false);
                        } else {
                            assert(esc_char(c)[0] == '\\');
                            assert(c0 == '\\');
                            assert(false);
                        }
                    }
                }
            }
            Err(p)
        }
    }
}

/// Reads the body of a canonical string literal up to and including the
/// closing quote.  `i` points just past the opening quote.
#[verifier::rlimit(50)]
fn parse_text_body(s: &Vec<char>, i: usize) -> (r: Result<(String, usize), usize>)
    requires
        i <= s@.len(),
    ensures
        match r {
            Ok((t, j)) => {
                &&& i < j <= s@.len()
                &&& j == i + esc(t@).len() + 1
                &&& text_body_at(s@, i as int, t@)
            },
            Err(_) => forall|t: Seq<char>| !text_body_at(s@, i as int, t),
        },
{
    let n = s.len();
    let mut p: usize = i;
    let mut acc: Vec<char> = Vec::new();
    proof {
        assert(esc(acc@) =~= Seq::<char>::empty());
        assert(s@.subrange(i as int, p as int) =~= esc(acc@));
        assert forall|t: Seq<char>|
            #[trigger] text_body_at(s@, i as int, t) implies t.len() >= acc@.len() && t.take(
            acc@.len() as int,
        ) == acc@ && text_body_at(s@, p as int, t.skip(acc@.len() as int)) by {
            assert(t.take(acc@.len() as int) =~= acc@);
            assert(t.skip(acc@.len() as int) =~= t);
        }
    }
    loop
        invariant
            i <= p <= n,
            n == s@.len(),
            s@.subrange(i as int, p as int) == esc(acc@),
            p - i == esc(acc@).len(),
            forall|t: Seq<char>|
                #[trigger] text_body_at(s@, i as int, t) ==> t.len() >= acc@.len() && t.take(
                    acc@.len() as int,
                ) == acc@ && text_body_at(s@, p as int, t.skip(acc@.len() as int)),
        decreases n - p,
    {
        if p == n {
            proof {
                assert forall|t: Seq<char>| !text_body_at(s@, i as int, t) by {
                    if text_body_at(s@, i as int, t) {
                        let rest = t.skip(acc@.len() as int);
                        assert(text_body_at(s@, p as int, rest));
                        assert(p + esc(rest).len() + 1 <= n);
                        assert(false);
                    }
                }
            }
            return Err(p);
        }
        if s[p] == '"' {
            let t = crate::canon::string_from_chars(&acc);
            proof {
                assert(text_body_at(s@, i as int, acc@));
            }
            return Ok((t, p + 1));
        }
        let unit = scan_unit(s, p);
        match unit {
            Err(e) => {
                proof {
                    assert forall|t: Seq<char>| !text_body_at(s@, i as int, t) by {
                        if text_body_at(s@, i as int, t) {
                            let rest = t.skip(acc@.len() as int);
                            assert(text_body_at(s@, p as int, rest));
                            if rest.len() == 0 {
                                assert(esc(rest) =~= Seq::<char>::empty());
                                assert(s@[p as int] == '"');
                                assert(false);
                            } else {
                                assert(esc(rest) == esc_char(rest[0]) + esc(rest.drop_first()));
                                lemma_at_split(
                                    s@,
                                    p as int,
                                    esc_char(rest[0]),
                                    esc(rest.drop_first()),
                                );
                                assert(unit_at(s@, p as int, rest[0]));
                                assert(false);
                            }
                        }
                    }
                }
                return Err(e);
            },
            Ok((c, q)) => {
                proof {
                    let accv = acc@;
                    assert forall|t: Seq<char>|
                        #[trigger] text_body_at(s@, i as int, t) implies t.len() >= accv.len() + 1
                        && t.take(accv.len() as int + 1) == accv.push(c) && text_body_at(
                        s@,
                        q as int,
                        t.skip(accv.len() as int + 1),
                    ) by {
                        let rest = t.skip(accv.len() as int);
                        assert(text_body_at(s@, p as int, rest));
                        if rest.len() == 0 {
                            assert(esc(rest) =~= Seq::<char>::empty());
                            assert(s@[p as int] == '"');
                            lemma_at_index(s@, p as int, esc_char(c), 0);
                            lemma_esc_char_shape(c);
                            assert(false);
                        }
                        assert(esc(rest) == esc_char(rest[0]) + esc(rest.drop_first()));
                        lemma_at_split(s@, p as int, esc_char(rest[0]), esc(rest.drop_first()));
                        lemma_esc_unit_unique(s@, p as int, rest[0], c);
                        assert(rest[0] == c);
                        assert(t.len() >= accv.len() + 1);
                        assert(t[accv.len() as int] == rest[0]);
                        assert(t.take(accv.len() as int + 1) =~= accv.push(c));
                        assert(t.skip(accv.len() as int + 1) =~= rest.drop_first());
                        assert(text_body_at(s@, q as int, rest.drop_first()));
                    }
                }
                proof {
                    crate::canon::lemma_esc_snoc(acc@, c);
                }
                acc.push(c);
                proof {
                    assert(s@.subrange(i as int, q as int) =~= s@.subrange(i as int, p as int)
                        + s@.subrange(p as int, q as int));
                    assert(s@.subrange(i as int, q as int) =~= esc(acc@));
                }
                p = q;
            },
        }
    }
}

/// Reads a whole canonical string literal, quotes included.
fn parse_text(s: &Vec<char>, i: usize) -> (r: Result<(String, usize), usize>)
    requires
        i <= s@.len(),
    ensures
        match r {
            Ok((t, j)) => {
                &&& i < j <= s@.len()
                &&& j == i + ser_text(t@).len()
                &&& text_at(s@, i as int, t@)
            },
            Err(_) => forall|t: Seq<char>| !text_at(s@, i as int, t),
        },
{
    let n = s.len();
    if i == n || !(s[i] == '"') {
        proof {
            assert forall|t: Seq<char>| !text_at(s@, i as int, t) by {
                if text_at(s@, i as int, t) {
                    lemma_text_at_parts(s@, i as int, t);
                }
            }
        }
        return Err(i);
    }
    match parse_text_body(s, i + 1) {
        Ok((t, j)) => {
            proof {
                assert(ser_text(t@) == seq!['"'] + (esc(t@) + seq!['"'])) by {
                    assert(ser_text(t@) =~= seq!['"'] + (esc(t@) + seq!['"']));
                }
                assert(s@.subrange(i as int, j as int) =~= ser_text(t@));
            }
            Ok((t, j))
        },
        Err(e) => {
            proof {
                assert forall|t: Seq<char>| !text_at(s@, i as int, t) by {
                    if text_at(s@, i as int, t) {
                        lemma_text_at_parts(s@, i as int, t);
                    }
                }
            }
            Err(e)
        },
    }
}

/// Elements already consumed inside a sequence, each followed by its comma.
pub open spec fn items_led(items: Seq<DocV>) -> Seq<char>
    decreases items,
{
    if items.len() == 0 {
        Seq::empty()
    } else {
        ser(items[0]) + seq![','] + items_led(items.drop_first())
    }
}

/// Entries already consumed inside a mapping, each followed by its comma.
pub open spec fn fields_led(fields: Seq<(Seq<char>, DocV)>) -> Seq<char>
    decreases fields,
{
    if fields.len() == 0 {
        Seq::empty()
    } else {
        ser_text(fields[0].0) + seq![':'] + ser(fields[0].1) + seq![','] + fields_led(
            fields.drop_first(),
        )
    }
}

pub proof fn lemma_items_led_push(items: Seq<DocV>, e: DocV)
    ensures
        items_led(items.push(e)) == items_led(items) + (ser(e) + seq![',']),
    decreases items,
{
    if items.len() == 0 {
        assert(items.push(e)[0] == e);
        assert(items.push(e).drop_first() =~= Seq::<DocV>::empty());
        assert(items_led(Seq::<DocV>::empty()) =~= Seq::<char>::empty());
        assert(items_led(items.push(e)) =~= items_led(items) + (ser(e) + seq![',']));
    } else {
        assert(items.push(e).drop_first() =~= items.drop_first().push(e));
        lemma_items_led_push(items.drop_first(), e);
        assert(items_led(items.push(e)) =~= items_led(items) + (ser(e) + seq![',']));
    }
}

pub proof fn lemma_ser_items_of_push(items: Seq<DocV>, e: DocV)
    ensures
        ser_items(items.push(e)) == items_led(items) + (ser(e) + seq![']']),
    decreases items,
{
    if items.len() == 0 {
        assert(items.push(e)[0] == e);
        assert(ser_items(items.push(e)) =~= items_led(items) + (ser(e) + seq![']']));
    } else {
        assert(items.push(e).drop_first() =~= items.drop_first().push(e));
        lemma_ser_items_of_push(items.drop_first(), e);
        assert(ser_items(items.push(e)) =~= items_led(items) + (ser(e) + seq![']']));
    }
}

pub proof fn lemma_fields_led_push(fields: Seq<(Seq<char>, DocV)>, k: Seq<char>, v: DocV)
    ensures
        fields_led(fields.push((k, v))) == fields_led(fields) + (ser_text(k) + seq![':'] + ser(v)
            + seq![',']),
    decreases fields,
{
    if fields.len() == 0 {
        assert(fields.push((k, v))[0] == (k, v));
        assert(fields.push((k, v)).drop_first() =~= Seq::<(Seq<char>, DocV)>::empty());
        assert(fields_led(Seq::<(Seq<char>, DocV)>::empty()) =~= Seq::<char>::empty());
        assert(fields_led(fields.push((k, v))) =~= fields_led(fields) + (ser_text(k) + seq![':']
            + ser(v) + seq![',']));
    } else {
        assert(fields.push((k, v)).drop_first() =~= fields.drop_first().push((k, v)));
        lemma_fields_led_push(fields.drop_first(), k, v);
        assert(fields_led(fields.push((k, v))) =~= fields_led(fields) + (ser_text(k) + seq![':']
            + ser(v) + seq![',']));
    }
}

pub proof fn lemma_ser_fields_of_push(fields: Seq<(Seq<char>, DocV)>, k: Seq<char>, v: DocV)
    ensures
        ser_fields(fields.push((k, v))) == fields_led(fields) + (ser_text(k) + seq![':'] + ser(v)
            + seq!['}']),
    decreases fields,
{
    if fields.len() == 0 {
        assert(fields.push((k, v))[0] == (k, v));
        assert(ser_fields(fields.push((k, v))) =~= fields_led(fields) + (ser_text(k) + seq![':']
            + ser(v) + seq!['}']));
    } else {
        assert(fields.push((k, v)).drop_first() =~= fields.drop_first().push((k, v)));
        lemma_ser_fields_of_push(fields.drop_first(), k, v);
        assert(ser_fields(fields.push((k, v))) =~= fields_led(fields) + (ser_text(k) + seq![':']
            + ser(v) + seq!['}']));
    }
}

pub proof fn lemma_view_list_snoc(l: Seq<Document>, x: Document)
    ensures
        view_list(l.push(x)) == view_list(l).push(view_of(x)),
{
    lemma_view_list_index(l.push(x));
    lemma_view_list_index(l);
    assert(view_list(l.push(x)) =~= view_list(l).push(view_of(x)));
}

pub proof fn lemma_view_entries_snoc(l: Seq<(String, Document)>, k: String, x: Document)
    ensures
        view_entries(l.push((k, x))) == view_entries(l).push((k@, view_of(x))),
{
    lemma_view_entries_index(l.push((k, x)));
    lemma_view_entries_index(l);
    assert(view_entries(l.push((k, x))) =~= view_entries(l).push((k@, view_of(x))));
}

/// Reads a canonical integer.  The run of digits is maximal, has no leading
/// zero, no negative zero, and its value must fit in `i64`.
#[verifier::rlimit(60)]
fn parse_number(s: &Vec<char>, i: usize) -> (r: Result<(Document, usize), usize>)
    requires
        i < s@.len(),
        s@[i as int] == '-' || is_digit(s@[i as int]),
    ensures
        match r {
            Ok((d, j)) => i < j <= s@.len() && j == i + ser(d@).len() && sep_at(s@, i as int, d@),
            Err(_) => forall|d: DocV| !sep_at(s@, i as int, d),
        },
{
    let n = s.len();
    let neg = s[i] == '-';
    let start = if neg { i + 1 } else { i };
    proof {
        assert forall|d: DocV| sep_at(s@, i as int, d) implies sep_digits(s@, i as int, d, neg)
            by {
            lemma_ser_first(d);
            lemma_at_index(s@, i as int, ser(d), 0);
            assert(d is Int);
            let m = d->Int_0;
            if neg {
                assert(ser(d)[0] == '-');
                assert(m < 0);
                assert(ser(d) == seq!['-'] + ser_nat(-m));
                lemma_ser_nat_digits(-m);
                lemma_at_split(s@, i as int, seq!['-'], ser_nat(-m));
            } else {
                if m < 0 {
                    lemma_ser_nat_digits(m as int);
                    assert(ser(d)[0] == '-');
                    assert(false);
                }
                assert(ser(d) == ser_nat(m as int));
                lemma_ser_nat_digits(m as int);
            }
        }
    }
    if start == n || !is_digit_exec(s, start) {
        proof {
            assert forall|d: DocV| !sep_at(s@, i as int, d) by {
                if sep_at(s@, i as int, d) {
                    assert(sep_digits(s@, i as int, d, neg));
                    let m = d->Int_0;
                    let mag: int = if m < 0 {
                        -(m as int)
                    } else {
                        m as int
                    };
                    lemma_ser_nat_digits(mag);
                    lemma_at_index(s@, start as int, ser_nat(mag), 0);
                    assert(is_digit(s@[start as int]));
                    assert(false);
                }
            }
        }
        return Err(start);
    }
    if is_zero_exec(s, start) && start + 1 < n && is_digit_exec(s, start + 1) {
        proof {
            assert forall|d: DocV| !sep_at(s@, i as int, d) by {
                if sep_at(s@, i as int, d) {
                    assert(sep_digits(s@, i as int, d, neg));
                    let m = d->Int_0;
                    let mag: int = if m < 0 {
                        -(m as int)
                    } else {
                        m as int
                    };
                    lemma_ser_nat_digits(mag);
                    lemma_at_index(s@, start as int, ser_nat(mag), 0);
                    assert(ser_nat(mag)[0] == '0');
                    lemma_ser_nat_leading(mag);
                    assert(ser_nat(mag).len() == 1);
                    assert(ser(d).last() == ser_nat(mag).last());
                    assert(is_digit(ser(d).last()));
                    assert(i + ser(d).len() == start + 1);
                    assert(false);
                }
            }
        }
        return Err(start + 1);
    }
    let limit: u64 = if neg {
        9223372036854775808
    } else {
        9223372036854775807
    };
    let mut p: usize = start;
    let mut acc: u64 = 0;
    loop
        invariant
            i <= start <= p <= n,
            n == s@.len(),
            start < n,
            neg ==> start == i + 1,
            !neg ==> start == i,
            limit == if neg {
                9223372036854775808u64
            } else {
                9223372036854775807u64
            },
            is_digit(s@[start as int]),
            forall|j: int| start <= j < p ==> is_digit(#[trigger] s@[j]),
            p > start ==> acc == run_val(s@.subrange(start as int, p as int)) && acc <= limit,
            p == start ==> acc == 0,
            s@[start as int] == '0' ==> p <= start + 1,
            s@[start as int] == '0' && start + 1 < n ==> !is_digit(s@[start as int + 1]),
            forall|d: DocV| #[trigger] sep_at(s@, i as int, d) ==> sep_digits(s@, i as int, d, neg),
        ensures
            i <= start < p <= n,
            acc == run_val(s@.subrange(start as int, p as int)),
            acc <= limit,
            p == n || !is_digit(s@[p as int]),
            forall|j: int| start <= j < p ==> is_digit(#[trigger] s@[j]),
            s@[start as int] == '0' ==> p <= start + 1,
        decreases n - p,
    {
        if p == n {
            break;
        }
        if !is_digit_exec(s, p) {
            break;
        }
        let dv: u64 = (char_code(s, p) - 48) as u64;
        proof {
            assert(digit_val(s@[p as int]) == dv);
            assert(0 <= dv <= 9);
        }
        let wide: u128 = (acc as u128) * 10 + (dv as u128);
        if wide > limit as u128 {
            proof {
                let run1 = s@.subrange(start as int, p + 1);
                assert(run1.drop_last() =~= s@.subrange(start as int, p as int));
                assert(run1.last() == s@[p as int]);
                if p == start {
                    assert(run1 =~= seq![s@[p as int]]);
                    assert(run1.drop_last() =~= Seq::<char>::empty());
                    assert(run_val(Seq::<char>::empty()) == 0);
                    assert(run_val(run1) == dv);
                    assert(false);
                }
                assert(run_val(run1) == acc * 10 + dv);
                assert(run_val(run1) == wide);
                assert forall|d: DocV| !sep_at(s@, i as int, d) by {
                    if sep_at(s@, i as int, d) {
                        assert(sep_digits(s@, i as int, d, neg));
                        let m = d->Int_0;
                        let mag: int = if m < 0 {
                            -(m as int)
                        } else {
                            m as int
                        };
                        lemma_ser_nat_digits(mag);
                        let ds = ser_nat(mag);
                        let k = p - start;
                        assert(ser(d).last() == ds.last()) by {
                            if m < 0 {
                                assert(ser(d) == seq!['-'] + ds);
                            } else {
                                assert(ser(d) == ds);
                            }
                        }
                        assert(is_digit(ser(d).last()));
                        if ds.len() <= k {
                            assert(start + ds.len() <= p < n);
                            assert(is_digit(s@[start + ds.len()]));
                            assert(i + ser(d).len() == start + ds.len());
                            assert(false);
                        }
                        assert(ds.len() >= k + 1);
                        assert(start + k + 1 <= start + ds.len() <= n);
                        assert(ds.take(k + 1) =~= run1) by {
                            assert forall|j: int| 0 <= j < k + 1 implies ds[j] == run1[j] by {
                                lemma_at_index(s@, start as int, ds, j);
                            }
                        }
                        lemma_run_val_prefix_le(ds, k + 1);
                        lemma_ser_nat_val(mag);
                        assert(mag >= run_val(run1));
                        assert(mag > limit);
                        if m < 0 {
                            assert(-m <= 9223372036854775808);
                            assert(false);
                        } else {
                            assert(m <= 9223372036854775807);
                            assert(false);
                        }
                    }
                }
            }
            return Err(p);
        }
        let acc2: u64 = acc * 10 + dv;
        proof {
            let run1 = s@.subrange(start as int, p + 1);
            assert(run1.drop_last() =~= s@.subrange(start as int, p as int));
            assert(run1.last() == s@[p as int]);
            if p == start {
                assert(run1.drop_last() =~= Seq::<char>::empty());
                assert(run_val(Seq::<char>::empty()) == 0);
            }
            assert(run_val(run1) == acc2);
        }
        acc = acc2;
        p = p + 1;
    }
    proof {
        assert(p > start);
        assert(p == n || !is_digit(s@[p as int]));
    }
    let run_ghost = Ghost(s@.subrange(start as int, p as int));
    proof {
        let run = run_ghost@;
        assert(run.len() >= 1);
        assert(run[0] == s@[start as int]);
        assert(forall|j: int| 0 <= j < run.len() ==> is_digit(#[trigger] run[j]));
        if run[0] == '0' {
            assert(p <= start + 1);
            assert(run.len() == 1);
        }
        lemma_ser_nat_of_digits(run);
        assert(ser_nat(acc as int) == run);
    }
    if neg {
        if acc == 0 {
            proof {
                let run = run_ghost@;
                assert forall|d: DocV| !sep_at(s@, i as int, d) by {
                    if sep_at(s@, i as int, d) {
                        assert(sep_digits(s@, i as int, d, neg));
                        let m = d->Int_0;
                        assert(m < 0);
                        let mag: int = -(m as int);
                        lemma_ser_nat_digits(mag);
                        let ds = ser_nat(mag);
                        lemma_match_run(s@, start as int, p as int, ds);
                        lemma_ser_nat_val(mag);
                        lemma_ser_nat_val(acc as int);
                        assert(ds =~= run);
                        assert(mag == 0);
                        assert(false);
                    }
                }
            }
            return Err(p);
        }
        let value: i64 = if acc == 9223372036854775808 {
            i64::MIN
        } else {
            -(acc as i64)
        };
        let d = Document::Int(value);
        proof {
            assert(value as int == -(acc as int));
            assert(view_of(d) == DocV::Int(value));
            assert(ser(view_of(d)) == seq!['-'] + ser_nat(acc as int));
            assert(s@.subrange(i as int, p as int) =~= seq!['-'] + run_ghost@);
            assert(s@.subrange(i as int, p as int) == ser(view_of(d)));
            assert(p - i == ser(view_of(d)).len());
            assert(sep_at(s@, i as int, view_of(d)));
        }
        Ok((d, p))
    } else {
        let value: i64 = acc as i64;
        let d = Document::Int(value);
        proof {
            assert(view_of(d) == DocV::Int(value));
            assert(ser(view_of(d)) == ser_nat(acc as int));
            assert(s@.subrange(i as int, p as int) == ser(view_of(d)));
            assert(p - i == ser(view_of(d)).len());
            assert(sep_at(s@, i as int, view_of(d)));
        }
        Ok((d, p))
    }
}

/// A delimited document at a position that starts like a number is an
/// integer whose digits sit right after any sign.
pub open spec fn sep_digits(s: Seq<char>, i: int, d: DocV, neg: bool) -> bool {
    &&& d is Int
    &&& {
        let m = d->Int_0;
        let mag: int = if m < 0 {
            -(m as int)
        } else {
            m as int
        };
        let start: int = if neg {
            i + 1
        } else {
            i
        };
        &&& (neg <==> m < 0)
        &&& mag >= 0
        &&& start + ser_nat(mag).len() == i + ser(d).len() <= s.len()
        &&& s.subrange(start, start + ser_nat(mag).len()) == ser_nat(mag)
        &&& !(i + ser(d).len() < s.len() && is_digit(s[i + ser(d).len()]) && is_digit(
            ser(d).last(),
        ))
    }
}

/// A delimited digit run equals the maximal digit run observed at the same
/// position.
pub proof fn lemma_match_run(s: Seq<char>, start: int, p: int, ds: Seq<char>)
    requires
        0 <= start < p <= s.len(),
        forall|j: int| start <= j < p ==> is_digit(#[trigger] s[j]),
        p == s.len() || !is_digit(s[p]),
        ds.len() >= 1,
        forall|j: int| 0 <= j < ds.len() ==> is_digit(#[trigger] ds[j]),
        start + ds.len() <= s.len(),
        s.subrange(start, start + ds.len()) == ds,
        !(start + ds.len() < s.len() && is_digit(s[start + ds.len()])),
    ensures
        ds == s.subrange(start, p),
{
    let k = p - start;
    if ds.len() < k {
        assert(start + ds.len() < p <= s.len());
        assert(is_digit(s[start + ds.len()]));
        assert(false);
    }
    if ds.len() > k {
        lemma_at_index(s, start, ds, k);
        assert(ds[k] == s[p]);
        assert(start + ds.len() <= s.len());
        assert(p < s.len());
        assert(is_digit(s[p]));
        assert(false);
    }
    assert(ds =~= s.subrange(start, p)) by {
        assert forall|j: int| 0 <= j < k implies ds[j] == s[start + j] by {
            lemma_at_index(s, start, ds, j);
        }
    }
}

fn is_digit_exec(s: &Vec<char>, p: usize) -> (r: bool)
    requires
        p < s@.len(),
    ensures
        r == is_digit(s@[p as int]),
{
    let v: u32 = s[p] as u32;
    48 <= v && v <= 57
}

fn is_zero_exec(s: &Vec<char>, p: usize) -> (r: bool)
    requires
        p < s@.len(),
    ensures
        r == (s@[p as int] == '0'),
{
    s[p] == '0'
}

fn char_code(s: &Vec<char>, p: usize) -> (r: u32)
    requires
        p < s@.len(),
    ensures
        r == s@[p as int] as u32,
{
    s[p] as u32
}

/// Reads one document from position `i`.  On success, the consumed range is
/// exactly the canonical text of the result; on failure, no document's
/// canonical text is properly delimited at `i`.
#[verifier::rlimit(100)]
fn parse_value(s: &Vec<char>, i: usize) -> (r: Result<(Document, usize), usize>)
    requires
        i <= s@.len(),
    ensures
        match r {
            Ok((d, j)) => i < j <= s@.len() && j == i + ser(d@).len() && sep_at(s@, i as int, d@),
            Err(_) => forall|d: DocV| !sep_at(s@, i as int, d),
        },
    decreases s@.len() - i, 1int,
{
    let n = s.len();
    if i == n {
        proof {
            assert forall|d: DocV| !sep_at(s@, i as int, d) by {
                lemma_ser_first(d);
            }
        }
        return Err(i);
    }
    let c = s[i];
    if c == 'n' {
        if n - i >= 4 && s[i + 1] == 'u' && s[i + 2] == 'l' && s[i + 3] == 'l' {
            let d = Document::Null;
            proof {
                assert(view_of(d) == DocV::Null);
                assert(ser(view_of(d)) =~= seq!['n', 'u', 'l', 'l']);
                assert(s@.subrange(i as int, i + 4) =~= ser(view_of(d)));
            }
            Ok((d, i + 4))
        } else {
            proof {
                assert forall|d: DocV| !sep_at(s@, i as int, d) by {
                    if sep_at(s@, i as int, d) {
                        lemma_ser_first(d);
                        lemma_at_index(s@, i as int, ser(d), 0);
                        assert(d is Null);
                        assert(ser(d) =~= seq!['n', 'u', 'l', 'l']);
                        lemma_at_index(s@, i as int, ser(d), 1);
                        lemma_at_index(s@, i as int, ser(d), 2);
                        lemma_at_index(s@, i as int, ser(d), 3);
                        assert(false);
                    }
                }
            }
            Err(i)
        }
    } else if c == 't' {
        if n - i >= 4 && s[i + 1] == 'r' && s[i + 2] == 'u' && s[i + 3] == 'e' {
            let d = Document::Bool(true);
            proof {
                assert(view_of(d) == DocV::Bool(true));
                assert(ser(view_of(d)) =~= seq!['t', 'r', 'u', 'e']);
                assert(s@.subrange(i as int, i + 4) =~= ser(view_of(d)));
            }
            Ok((d, i + 4))
        } else {
            proof {
                assert forall|d: DocV| !sep_at(s@, i as int, d) by {
                    if sep_at(s@, i as int, d) {
                        lemma_ser_first(d);
                        lemma_at_index(s@, i as int, ser(d), 0);
                        assert(d == DocV::Bool(true));
                        assert(ser(d) =~= seq!['t', 'r', 'u', 'e']);
                        lemma_at_index(s@, i as int, ser(d), 1);
                        lemma_at_index(s@, i as int, ser(d), 2);
                        lemma_at_index(s@, i as int, ser(d), 3);
                        assert(false);
                    }
                }
            }
            Err(i)
        }
    } else if c == 'f' {
        if n - i >= 5 && s[i + 1] == 'a' && s[i + 2] == 'l' && s[i + 3] == 's' && s[i + 4] == 'e' {
            let d = Document::Bool(false);
            proof {
                assert(view_of(d) == DocV::Bool(false));
                assert(ser(view_of(d)) =~= seq!['f', 'a', 'l', 's', 'e']);
                assert(s@.subrange(i as int, i + 5) =~= ser(view_of(d)));
            }
            Ok((d, i + 5))
        } else {
            proof {
                assert forall|d: DocV| !sep_at(s@, i as int, d) by {
                    if sep_at(s@, i as int, d) {
                        lemma_ser_first(d);
                        lemma_at_index(s@, i as int, ser(d), 0);
                        assert(d == DocV::Bool(false));
                        assert(ser(d) =~= seq!['f', 'a', 'l', 's', 'e']);
                        lemma_at_index(s@, i as int, ser(d), 1);
                        lemma_at_index(s@, i as int, ser(d), 2);
                        lemma_at_index(s@, i as int, ser(d), 3);
                        lemma_at_index(s@, i as int, ser(d), 4);
                        assert(false);
                    }
                }
            }
            Err(i)
        }
    } else if c == '"' {
        match parse_text(s, i) {
            Ok((t, j)) => {
                let d = Document::Text(t);
                proof {
                    assert(view_of(d) == DocV::Text(t@));
                    assert(ser(view_of(d)) == ser_text(t@));
                    assert(ser_text(t@).last() == '"') by {
                        assert(ser_text(t@) =~= seq!['"'] + (esc(t@) + seq!['"']));
                    }
                    assert(sep_at(s@, i as int, view_of(d)));
                }
                Ok((d, j))
            },
            Err(e) => {
                proof {
                    assert forall|d: DocV| !sep_at(s@, i as int, d) by {
                        if sep_at(s@, i as int, d) {
                            lemma_ser_first(d);
                            lemma_at_index(s@, i as int, ser(d), 0);
                            assert(d is Text);
                            assert(ser(d) == ser_text(d->Text_0));
                            assert(text_at(s@, i as int, d->Text_0));
                            assert(false);
                        }
                    }
                }
                Err(e)
            },
        }
    } else if c == '[' {
        proof {
            assert forall|d: DocV|
                sep_at(s@, i as int, d) implies d is Array && items_at(
                s@,
                i + 1,
                d->Array_0,
            ) by {
                lemma_ser_first(d);
                lemma_at_index(s@, i as int, ser(d), 0);
                assert(d is Array);
                assert(ser(d) == seq!['['] + ser_items(d->Array_0));
                lemma_at_split(s@, i as int, seq!['['], ser_items(d->Array_0));
            }
        }
        if i + 1 < n && s[i + 1] == ']' {
            let d = Document::Array(Vec::new());
            proof {
                assert(view_of(d) == DocV::Array(view_list(Seq::<Document>::empty())));
                assert(view_list(Seq::<Document>::empty()) =~= Seq::<DocV>::empty());
                assert(ser(view_of(d)) =~= seq!['[', ']']);
                assert(s@.subrange(i as int, i + 2) =~= ser(view_of(d)));
            }
            return Ok((d, i + 2));
        }
        if i + 1 == n {
            proof {
                assert forall|d: DocV| !sep_at(s@, i as int, d) by {
                    if sep_at(s@, i as int, d) {
                        let v2 = d->Array_0;
                        assert(items_at(s@, i + 1, v2));
                        lemma_at_index(s@, i + 1, ser_items(v2), 0);
                        assert(false);
                    }
                }
            }
            return Err(i);
        }
        // non-empty sequence: elements separated by commas
        let mut acc: Vec<Document> = Vec::new();
        let mut p: usize = i + 1;
        proof {
            assert(view_list(acc@) =~= Seq::<DocV>::empty());
            assert(items_led(view_list(acc@)) =~= Seq::<char>::empty());
            assert(s@.subrange(i + 1, p as int) =~= items_led(view_list(acc@)));
            assert forall|v2: Seq<DocV>|
                #[trigger] items_at(s@, i + 1, v2) implies v2.len() > acc@.len() && v2.take(
                acc@.len() as int,
            ) == view_list(acc@) && items_at(s@, p as int, v2.skip(acc@.len() as int)) by {
                if v2.len() == 0 {
                    lemma_at_index(s@, i + 1, ser_items(v2), 0);
                    assert(false);
                }
                assert(v2.take(0) =~= view_list(acc@));
                assert(v2.skip(0) =~= v2);
            }
        }
        loop
            invariant
                i + 1 <= p <= n,
                n == s@.len(),
                acc@.len() < n,
                s@[i as int] == '[',
                s@.subrange(i + 1, p as int) == items_led(view_list(acc@)),
                p as int - (i + 1) == items_led(view_list(acc@)).len(),
                forall|d: DocV|
                    #[trigger] sep_at(s@, i as int, d) ==> d is Array && items_at(
                        s@,
                        i + 1,
                        d->Array_0,
                    ),
                forall|v2: Seq<DocV>|
                    #[trigger] items_at(s@, i + 1, v2) ==> v2.len() > acc@.len() && v2.take(
                        acc@.len() as int,
                    ) == view_list(acc@) && items_at(s@, p as int, v2.skip(acc@.len() as int)),
            decreases n - p,
        {
            proof {
                lemma_view_list_index(acc@);
            }
            match parse_value(s, p) {
                Err(e) => {
                    proof {
                        assert forall|d: DocV| !sep_at(s@, i as int, d) by {
                            if sep_at(s@, i as int, d) {
                                let v2 = d->Array_0;
                                assert(items_at(s@, i + 1, v2));
                                let rest = v2.skip(acc@.len() as int);
                                assert(items_at(s@, p as int, rest));
                                lemma_items_first_shape(s@, p as int, rest);
                                assert(false);
                            }
                        }
                    }
                    return Err(e);
                },
                Ok((e, j)) => {
                    proof {
                        lemma_view_list_index(acc@);
                        assert forall|v2: Seq<DocV>|
                            #[trigger] items_at(s@, i + 1, v2) implies {
                            let rest = v2.skip(acc@.len() as int);
                            rest[0] == e@ && rest.len() >= 1 && (j < n ==> s@[j as int] == (
                            if rest.len() == 1 {
                                ']'
                            } else {
                                ','
                            })) && j < n
                        } by {
                            let rest = v2.skip(acc@.len() as int);
                            assert(items_at(s@, p as int, rest));
                            lemma_items_first_shape(s@, p as int, rest);
                            lemma_sep_at_unique(s@, p as int, rest[0], e@);
                        }
                    }
                    if j == n {
                        proof {
                            assert forall|d: DocV| !sep_at(s@, i as int, d) by {
                                if sep_at(s@, i as int, d) {
                                    let v2 = d->Array_0;
                                    assert(items_at(s@, i + 1, v2));
                                    let rest = v2.skip(acc@.len() as int);
                                    assert(items_at(s@, p as int, rest));
                                    lemma_items_first_shape(s@, p as int, rest);
                                    assert(p + ser_items(rest).len() <= n);
                                    assert(p + ser(rest[0]).len() < n);
                                    lemma_sep_at_unique(s@, p as int, rest[0], e@);
                                    assert(false);
                                }
                            }
                        }
                        return Err(j);
                    }
                    let c2 = s[j];
                    if c2 == ']' {
                        let ghost accv = view_list(acc@);
                        proof {
                            lemma_ser_items_of_push(accv, e@);
                            lemma_view_list_snoc(acc@, e);
                        }
                        acc.push(e);
                        let d = Document::Array(acc);
                        proof {
                            assert(view_list(d->Array_0@) == accv.push(e@));
                            assert(view_of(d) == DocV::Array(accv.push(e@)));
                            assert(ser(view_of(d)) == seq!['['] + ser_items(accv.push(e@)));
                            assert(ser_items(accv.push(e@)) == items_led(accv) + (ser(e@)
                                + seq![']']));
                            assert(s@.subrange(i as int, j + 1) =~= seq!['['] + (s@.subrange(
                                i + 1,
                                p as int,
                            ) + (s@.subrange(p as int, j as int) + seq![']'])));
                            assert(s@.subrange(p as int, j as int) == ser(e@));
                            assert(s@.subrange(i as int, j + 1) =~= ser(view_of(d)));
                            assert(sep_at(s@, i as int, view_of(d)));
                        }
                        return Ok((d, j + 1));
                    }
                    if c2 == ',' {
                        proof {
                            lemma_items_led_push(view_list(acc@), e@);
                            lemma_view_list_snoc(acc@, e);
                            let accv = view_list(acc@);
                            assert forall|v2: Seq<DocV>|
                                #[trigger] items_at(s@, i + 1, v2) implies v2.len() > accv.len()
                                + 1 && v2.take(accv.len() as int + 1) == accv.push(e@) && items_at(
                                s@,
                                j + 1,
                                v2.skip(accv.len() as int + 1),
                            ) by {
                                let rest = v2.skip(accv.len() as int);
                                assert(items_at(s@, p as int, rest));
                                lemma_items_first_shape(s@, p as int, rest);
                                if rest.len() == 1 {
                                    assert(s@[j as int] == ']');
                                    assert(false);
                                }
                                assert(v2.len() > accv.len() + 1);
                                assert(v2[accv.len() as int] == rest[0]);
                                assert(v2.take(accv.len() as int + 1) =~= accv.push(e@));
                                assert(ser_items(rest) == (ser(rest[0]) + seq![','])
                                    + ser_items(rest.drop_first())) by {
                                    assert(ser_items(rest) =~= (ser(rest[0]) + seq![','])
                                        + ser_items(rest.drop_first()));
                                }
                                lemma_at_split(
                                    s@,
                                    p as int,
                                    ser(rest[0]) + seq![','],
                                    ser_items(rest.drop_first()),
                                );
                                assert(v2.skip(accv.len() as int + 1) =~= rest.drop_first());
                                assert(items_at(s@, j + 1, v2.skip(accv.len() as int + 1)));
                            }
                        }
                        acc.push(e);
                        proof {
                            assert(s@.subrange(i + 1, j + 1) =~= s@.subrange(i + 1, p as int) + (
                            s@.subrange(p as int, j as int) + seq![',']));
                            assert(s@.subrange(p as int, j as int) == ser(e@));
                            assert(s@.subrange(i + 1, j + 1) == items_led(view_list(acc@)));
                            assert(acc@.len() < n) by {
                                assert(items_led(view_list(acc@)).len() <= n);
                                lemma_items_led_ge(view_list(acc@));
                            }
                        }
                        p = j + 1;
                    } else {
                        proof {
                            assert forall|d: DocV| !sep_at(s@, i as int, d) by {
                                if sep_at(s@, i as int, d) {
                                    let v2 = d->Array_0;
                                    assert(items_at(s@, i + 1, v2));
                                    let rest = v2.skip(acc@.len() as int);
                                    assert(rest[0] == e@);
                                    assert(s@[j as int] == ']' || s@[j as int] == ',');
                                    assert(false);
                                }
                            }
                        }
                        return Err(j);
                    }
                },
            }
        }
    } else if c == '{' {
        parse_object(s, i)
    } else if c == '-' || is_digit_exec(s, i) {
        parse_number(s, i)
    } else {
        proof {
            assert forall|d: DocV| !sep_at(s@, i as int, d) by {
                if sep_at(s@, i as int, d) {
                    lemma_ser_first(d);
                    lemma_at_index(s@, i as int, ser(d), 0);
                    assert(false);
                }
            }
        }
        Err(i)
    }
}

/// Each consumed element contributes at least one character, so the number
/// of elements is bounded by the text length.
pub proof fn lemma_items_led_ge(items: Seq<DocV>)
    ensures
        items_led(items).len() >= items.len(),
    decreases items,
{
    if items.len() > 0 {
        lemma_items_led_ge(items.drop_first());
        lemma_ser_len(items[0]);
    }
}

pub proof fn lemma_fields_led_ge(fields: Seq<(Seq<char>, DocV)>)
    ensures
        fields_led(fields).len() >= fields.len(),
    decreases fields,
{
    if fields.len() > 0 {
        lemma_fields_led_ge(fields.drop_first());
        lemma_ser_len(fields[0].1);
    }
}

/// Reads a mapping from position `i`, which must hold `{`.
#[verifier::rlimit(100)]
fn parse_object(s: &Vec<char>, i: usize) -> (r: Result<(Document, usize), usize>)
    requires
        i < s@.len(),
        s@[i as int] == '{',
    ensures
        match r {
            Ok((d, j)) => i < j <= s@.len() && j == i + ser(d@).len() && sep_at(s@, i as int, d@),
            Err(_) => forall|d: DocV| !sep_at(s@, i as int, d),
        },
    decreases s@.len() - i, 0int,
{
    let n = s.len();
    proof {
        assert forall|d: DocV|
            sep_at(s@, i as int, d) implies d is Object && fields_at(s@, i + 1, d->Object_0) by {
            lemma_ser_first(d);
            lemma_at_index(s@, i as int, ser(d), 0);
            assert(d is Object);
            assert(ser(d) == seq!['{'] + ser_fields(d->Object_0));
            lemma_at_split(s@, i as int, seq!['{'], ser_fields(d->Object_0));
        }
    }
    if i + 1 < n && s[i + 1] == '}' {
        let d = Document::Object(Vec::new());
        proof {
            assert(view_of(d) == DocV::Object(view_entries(Seq::<(String, Document)>::empty())));
            assert(view_entries(Seq::<(String, Document)>::empty()) =~= Seq::<(
                Seq<char>,
                DocV,
            )>::empty());
            assert(ser(view_of(d)) =~= seq!['{', '}']);
            assert(s@.subrange(i as int, i + 2) =~= ser(view_of(d)));
        }
        return Ok((d, i + 2));
    }
    if i + 1 == n {
        proof {
            assert forall|d: DocV| !sep_at(s@, i as int, d) by {
                if sep_at(s@, i as int, d) {
                    let f2 = d->Object_0;
                    assert(fields_at(s@, i + 1, f2));
                    lemma_at_index(s@, i + 1, ser_fields(f2), 0);
                    assert(false);
                }
            }
        }
        return Err(i);
    }
    let mut acc: Vec<(String, Document)> = Vec::new();
    let mut p: usize = i + 1;
    proof {
        assert(view_entries(acc@) =~= Seq::<(Seq<char>, DocV)>::empty());
        assert(fields_led(view_entries(acc@)) =~= Seq::<char>::empty());
        assert(s@.subrange(i + 1, p as int) =~= fields_led(view_entries(acc@)));
        assert forall|f2: Seq<(Seq<char>, DocV)>|
            #[trigger] fields_at(s@, i + 1, f2) implies f2.len() > acc@.len() && f2.take(
            acc@.len() as int,
        ) == view_entries(acc@) && fields_at(s@, p as int, f2.skip(acc@.len() as int)) by {
            if f2.len() == 0 {
                lemma_at_index(s@, i + 1, ser_fields(f2), 0);
                assert(false);
            }
            assert(f2.take(0) =~= view_entries(acc@));
            assert(f2.skip(0) =~= f2);
        }
    }
    loop
        invariant
            i + 1 <= p <= n,
            n == s@.len(),
            acc@.len() < n,
            s@[i as int] == '{',
            s@.subrange(i + 1, p as int) == fields_led(view_entries(acc@)),
            p as int - (i + 1) == fields_led(view_entries(acc@)).len(),
            forall|d: DocV|
                #[trigger] sep_at(s@, i as int, d) ==> d is Object && fields_at(
                    s@,
                    i + 1,
                    d->Object_0,
                ),
            forall|f2: Seq<(Seq<char>, DocV)>|
                #[trigger] fields_at(s@, i + 1, f2) ==> f2.len() > acc@.len() && f2.take(
                    acc@.len() as int,
                ) == view_entries(acc@) && fields_at(s@, p as int, f2.skip(acc@.len() as int)),
        decreases n - p,
    {
        proof {
            lemma_view_entries_index(acc@);
        }
        let kres = parse_text(s, p);
        match kres {
            Err(e) => {
                proof {
                    assert forall|d: DocV| !sep_at(s@, i as int, d) by {
                        if sep_at(s@, i as int, d) {
                            let f2 = d->Object_0;
                            let rest = f2.skip(acc@.len() as int);
                            assert(fields_at(s@, p as int, rest));
                            lemma_fields_first_shape(s@, p as int, rest);
                            assert(text_at(s@, p as int, rest[0].0));
                            assert(false);
                        }
                    }
                }
                return Err(e);
            },
            Ok((key, jk)) => {
                proof {
                    assert forall|f2: Seq<(Seq<char>, DocV)>|
                        #[trigger] fields_at(s@, i + 1, f2) implies {
                        let rest = f2.skip(acc@.len() as int);
                        rest[0].0 == key@ && jk < n && s@[jk as int] == ':' && sep_at(
                            s@,
                            jk + 1,
                            rest[0].1,
                        )
                    } by {
                        let rest = f2.skip(acc@.len() as int);
                        assert(fields_at(s@, p as int, rest));
                        lemma_fields_first_shape(s@, p as int, rest);
                        lemma_text_unique(s@, p as int, rest[0].0, key@);
                        assert(p + ser_text(rest[0].0).len() == jk);
                        assert(jk < p + ser_fields(rest).len());
                    }
                }
                if jk == n || !(s[jk] == ':') {
                    proof {
                        assert forall|d: DocV| !sep_at(s@, i as int, d) by {
                            if sep_at(s@, i as int, d) {
                                let f2 = d->Object_0;
                                assert(fields_at(s@, i + 1, f2));
                                assert(false);
                            }
                        }
                    }
                    return Err(jk);
                }
                match parse_value(s, jk + 1) {
                    Err(e) => {
                        proof {
                            assert forall|d: DocV| !sep_at(s@, i as int, d) by {
                                if sep_at(s@, i as int, d) {
                                    let f2 = d->Object_0;
                                    let rest = f2.skip(acc@.len() as int);
                                    assert(sep_at(s@, jk + 1, rest[0].1));
                                    assert(false);
                                }
                            }
                        }
                        return Err(e);
                    },
                    Ok((e, j)) => {
                        proof {
                            assert forall|f2: Seq<(Seq<char>, DocV)>|
                                #[trigger] fields_at(s@, i + 1, f2) implies {
                                let rest = f2.skip(acc@.len() as int);
                                rest[0].1 == e@ && j < n && s@[j as int] == (if rest.len() == 1 {
                                    '}'
                                } else {
                                    ','
                                })
                            } by {
                                let rest = f2.skip(acc@.len() as int);
                                assert(fields_at(s@, p as int, rest));
                                lemma_fields_first_shape(s@, p as int, rest);
                                lemma_sep_at_unique(s@, jk + 1, rest[0].1, e@);
                                assert(p + ser_text(rest[0].0).len() + 1 + ser(rest[0].1).len()
                                    == j);
                                assert(j < p + ser_fields(rest).len() <= n);
                            }
                        }
                        if j == n {
                            proof {
                                assert forall|d: DocV| !sep_at(s@, i as int, d) by {
                                    if sep_at(s@, i as int, d) {
                                        let f2 = d->Object_0;
                                        assert(fields_at(s@, i + 1, f2));
                                        assert(false);
                                    }
                                }
                            }
                            return Err(j);
                        }
                        let c2 = s[j];
                        if c2 == '}' {
                            let ghost accv = view_entries(acc@);
                            proof {
                                lemma_ser_fields_of_push(accv, key@, e@);
                                lemma_view_entries_snoc(acc@, key, e);
                            }
                            acc.push((key, e));
                            let d = Document::Object(acc);
                            proof {
                                assert(view_entries(d->Object_0@) == accv.push((key@, e@)));
                                assert(view_of(d) == DocV::Object(accv.push((key@, e@))));
                                assert(ser(view_of(d)) == seq!['{'] + ser_fields(
                                    accv.push((key@, e@)),
                                ));
                                assert(ser_fields(accv.push((key@, e@))) == fields_led(accv) + (
                                ser_text(key@) + seq![':'] + ser(e@) + seq!['}']));
                                assert(ser_fields(accv.push((key@, e@))) =~= fields_led(accv) + (
                                ser_text(key@) + (seq![':'] + (ser(e@) + seq!['}']))));
                                assert(s@.subrange(i as int, j + 1) =~= seq!['{'] + (s@.subrange(
                                    i + 1,
                                    p as int,
                                ) + (s@.subrange(p as int, jk as int) + (seq![':'] + (s@.subrange(
                                    jk + 1,
                                    j as int,
                                ) + seq!['}'])))));
                                assert(s@.subrange(p as int, jk as int) == ser_text(key@));
                                assert(s@.subrange(jk + 1, j as int) == ser(e@));
                                assert(s@.subrange(i as int, j + 1) =~= ser(view_of(d)));
                                assert(sep_at(s@, i as int, view_of(d)));
                            }
                            return Ok((d, j + 1));
                        }
                        if c2 == ',' {
                            proof {
                                lemma_fields_led_push(view_entries(acc@), key@, e@);
                                lemma_view_entries_snoc(acc@, key, e);
                                let accv = view_entries(acc@);
                                assert forall|f2: Seq<(Seq<char>, DocV)>|
                                    #[trigger] fields_at(s@, i + 1, f2) implies f2.len()
                                    > accv.len() + 1 && f2.take(accv.len() as int + 1)
                                    == accv.push((key@, e@)) && fields_at(
                                    s@,
                                    j + 1,
                                    f2.skip(accv.len() as int + 1),
                                ) by {
                                    let rest = f2.skip(accv.len() as int);
                                    assert(fields_at(s@, p as int, rest));
                                    lemma_fields_first_shape(s@, p as int, rest);
                                    if rest.len() == 1 {
                                        assert(s@[j as int] == '}');
                                        assert(false);
                                    }
                                    assert(f2.len() > accv.len() + 1);
                                    assert(f2[accv.len() as int] == rest[0]);
                                    assert(rest[0] == (key@, e@));
                                    assert(f2.take(accv.len() as int + 1) =~= accv.push(
                                        (key@, e@),
                                    ));
                                    assert(ser_fields(rest) == (ser_text(rest[0].0) + seq![':']
                                        + ser(rest[0].1) + seq![',']) + ser_fields(
                                        rest.drop_first(),
                                    )) by {
                                        assert(ser_fields(rest) =~= (ser_text(rest[0].0)
                                            + seq![':'] + ser(rest[0].1) + seq![','])
                                            + ser_fields(rest.drop_first()));
                                    }
                                    lemma_at_split(
                                        s@,
                                        p as int,
                                        ser_text(rest[0].0) + seq![':'] + ser(rest[0].1)
                                            + seq![','],
                                        ser_fields(rest.drop_first()),
                                    );
                                    assert(f2.skip(accv.len() as int + 1) =~= rest.drop_first());
                                    assert(fields_at(s@, j + 1, f2.skip(accv.len() as int + 1)));
                                }
                            }
                            acc.push((key, e));
                            proof {
                                assert(s@.subrange(i + 1, j + 1) =~= s@.subrange(i + 1, p as int)
                                    + (s@.subrange(p as int, jk as int) + (seq![':'] + (
                                s@.subrange(jk + 1, j as int) + seq![',']))));
                                assert(s@.subrange(p as int, jk as int) == ser_text(
                                    acc@.last().0@,
                                ));
                                assert(s@.subrange(jk + 1, j as int) == ser(e@));
                                assert(s@.subrange(i + 1, j + 1) == fields_led(
                                    view_entries(acc@),
                                ));
                                assert(acc@.len() < n) by {
                                    assert(fields_led(view_entries(acc@)).len() <= n);
                                    lemma_fields_led_ge(view_entries(acc@));
                                    lemma_view_entries_index(acc@);
                                }
                            }
                            p = j + 1;
                        } else {
                            proof {
                                assert forall|d: DocV| !sep_at(s@, i as int, d) by {
                                    if sep_at(s@, i as int, d) {
                                        let f2 = d->Object_0;
                                        assert(fields_at(s@, i + 1, f2));
                                        assert(false);
                                    }
                                }
                            }
                            return Err(j);
                        }
                    },
                }
            },
        }
    }
}

/// Characters of a string slice, in order.
fn chars_of(s: &str) -> (r: Vec<char>)
    ensures
        r@ == s@,
{
    let n = s.unicode_len();
    let mut out: Vec<char> = Vec::new();
    let mut i: usize = 0;
    while i < n
        invariant
            n == s@.len(),
            i <= n,
            out@ == s@.take(i as int),
        decreases n - i,
    {
        let c = s.get_char(i);
        out.push(c);
        proof {
            assert(out@ =~= s@.take(i + 1));
        }
        i = i + 1;
    }
    proof {
        assert(s@.take(n as int) =~= s@);
    }
    out
}

/// Parses canonical document text.
///
/// Succeeds exactly on the canonical texts: `Ok(d)` is returned if and only
/// if `text` is `ser(d@)` for that unique document, and otherwise the error
/// carries a position at which the input stopped being canonical.
pub fn parse_json(text: &str) -> (r: Result<Document, ParseError>)
    ensures
        match r {
            Ok(d) => ser(d@) == text@ && canon_parse(text@) == Some(d@),
            Err(e) => canon_parse(text@) is None && e.at <= text@.len(),
        },
{
    let chars = chars_of(text);
    let n = chars.len();
    match parse_value(&chars, 0) {
        Ok((d, j)) => {
            if j == n {
                proof {
                    assert(text@.subrange(0, text@.len() as int) =~= text@);
                    assert(ser(d@) == text@);
                    let w = choose|w: DocV| ser(w) == text@;
                    assert(ser(d@) == text@);
                    if canon_parse(text@) != Some(d@) {
                        assert(exists|w2: DocV| ser(w2) == text@);
                        assert(ser(w) == text@);
                        assert(sep_at(text@, 0, w)) by {
                            assert(text@.subrange(0, ser(w).len() as int) =~= ser(w));
                        }
                        assert(sep_at(text@, 0, d@));
                        lemma_sep_at_unique(text@, 0, d@, w);
                        assert(false);
                    }
                }
                Ok(d)
            } else {
                proof {
                    if canon_parse(text@) is Some {
                        let w = choose|w: DocV| ser(w) == text@;
                        assert(ser(w) == text@);
                        assert(sep_at(text@, 0, w)) by {
                            assert(text@.subrange(0, ser(w).len() as int) =~= ser(w));
                        }
                        assert(sep_at(text@, 0, d@));
                        lemma_sep_at_unique(text@, 0, d@, w);
                        assert(ser(d@).len() == text@.len());
                        assert(false);
                    }
                }
                Err(ParseError { at: j })
            }
        },
        Err(e) => {
            proof {
                if canon_parse(text@) is Some {
                    let w = choose|w: DocV| ser(w) == text@;
                    assert(ser(w) == text@);
                    assert(sep_at(text@, 0, w)) by {
                        assert(text@.subrange(0, ser(w).len() as int) =~= ser(w));
                    }
                    assert(false);
                }
            }
            Err(ParseError { at: if e < n {
                e
            } else {
                n
            } })
        },
    }
}

} // verus!
