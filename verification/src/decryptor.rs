//! Best-effort recursive decryption.
//!
//! `detect_and_decrypt` walks every mapping and sequence of a document.  For
//! each string value that sits directly in a mapping it attempts, in order:
//! base64 decoding, RSA decryption, UTF-8 decoding, and a parse of the
//! canonical text.  Where the whole chain succeeds the string is replaced by
//! the parsed document, which is itself decrypted again; where any step
//! fails the string stays untouched, so decryption never hard-fails.  The
//! final step accepts exactly this library's canonical text (the only form
//! the encryptor ever produces), so a ciphertext of some foreign,
//! non-canonical JSON text is left in place rather than replaced.  The
//! spec model `decrypt_doc` states this exactly, and termination rests on
//! the recovered text being strictly shorter than the base64 input, which
//! the code tests before recursing.

use crate::canon::{esc, esc_char, ser, ser_fields, ser_items, ser_text};
use crate::doc::{
    lemma_view_entries_index, lemma_view_list_index, view_entries, view_list, view_of, DocV,
    Document,
};
use crate::keys::{b64_decode, b64_decoding, rsa_decrypt_text, rsa_plaintext, KeyPair};
use crate::parse::{canon_parse, lemma_ser_len, parse_json};
use vstd::prelude::*;

verus! {

/// What opportunistic decryption makes of one string: the document whose
/// canonical text the string is an encryption of, if the whole chain
/// (base64, RSA, UTF-8, canonical parse) goes through.  The recovered text
/// of a real chain is always strictly shorter than the base64 input (the
/// padding costs eleven bytes and base64 only shrinks), which the guard
/// records.
pub open spec fn opened(key: rsa::RsaPrivateKey, s: Seq<char>) -> Option<DocV> {
    match b64_decoding(s) {
        Option::None => Option::None,
        Option::Some(c) => match rsa_plaintext(key, c) {
            Option::None => Option::None,
            Option::Some(t) => if t.len() < s.len() {
                canon_parse(t)
            } else {
                Option::None
            },
        },
    }
}

/// Every canonical string text is at least as long as the raw string, so a
/// recovered plaintext is shorter than the string literal it came from.
pub proof fn lemma_esc_ge(s: Seq<char>)
    ensures
        esc(s).len() >= s.len(),
    decreases s.len(),
{
    if s.len() > 0 {
        lemma_esc_ge(s.drop_first());
        assert(esc_char(s[0]).len() >= 1);
    }
}

/// The model of decryption: mappings and sequences are walked, and string
/// values directly inside mappings are replaced by whatever they open to.
pub open spec fn decrypt_doc(key: rsa::RsaPrivateKey, d: DocV) -> DocV
    decreases ser(d).len(), 0int,
        via decrypt_doc_dec
{
    match d {
        DocV::Array(v) => DocV::Array(decrypt_list(key, v)),
        DocV::Object(f) => DocV::Object(decrypt_fields(key, f)),
        _ => d,
    }
}

pub open spec fn decrypt_list(key: rsa::RsaPrivateKey, v: Seq<DocV>) -> Seq<DocV>
    decreases ser_items(v).len(), 1int,
        via decrypt_list_dec
{
    if v.len() == 0 {
        v
    } else {
        seq![decrypt_doc(key, v[0])] + decrypt_list(key, v.drop_first())
    }
}

pub open spec fn decrypt_fields(
    key: rsa::RsaPrivateKey,
    f: Seq<(Seq<char>, DocV)>,
) -> Seq<(Seq<char>, DocV)>
    decreases ser_fields(f).len(), 2int,
        via decrypt_fields_dec
{
    if f.len() == 0 {
        f
    } else {
        seq![(f[0].0, decrypt_entry(key, f[0].1))] + decrypt_fields(key, f.drop_first())
    }
}

/// One mapping value: strings are tried against the decryption chain,
/// everything else is walked.
pub open spec fn decrypt_entry(key: rsa::RsaPrivateKey, v: DocV) -> DocV
    decreases ser(v).len(), 1int,
        via decrypt_entry_dec
{
    match v {
        DocV::Text(s) => match opened(key, s) {
            Option::Some(d2) => decrypt_doc(key, d2),
            Option::None => v,
        },
        _ => decrypt_doc(key, v),
    }
}

#[via_fn]
proof fn decrypt_doc_dec(key: rsa::RsaPrivateKey, d: DocV) {
    match d {
        DocV::Array(v) => {
            assert(ser(d).len() == 1 + ser_items(v).len());
        },
        DocV::Object(f) => {
            assert(ser(d).len() == 1 + ser_fields(f).len());
        },
        _ => {},
    }
}

#[via_fn]
proof fn decrypt_list_dec(key: rsa::RsaPrivateKey, v: Seq<DocV>) {
    if v.len() == 1 {
        assert(ser_items(v) == ser(v[0]) + seq![']']);
        assert(ser_items(v.drop_first()).len() == 1);
        lemma_ser_len(v[0]);
    } else if v.len() > 1 {
        assert(ser_items(v) == ser(v[0]) + seq![','] + ser_items(v.drop_first()));
        lemma_ser_len(v[0]);
    }
}

#[via_fn]
proof fn decrypt_fields_dec(key: rsa::RsaPrivateKey, f: Seq<(Seq<char>, DocV)>) {
    if f.len() == 1 {
        assert(ser_fields(f) == ser_text(f[0].0) + seq![':'] + ser(f[0].1) + seq!['}']);
        assert(ser_fields(f.drop_first()).len() == 1);
    } else if f.len() > 1 {
        assert(ser_fields(f) == ser_text(f[0].0) + seq![':'] + ser(f[0].1) + seq![','] + ser_fields(
            f.drop_first(),
        ));
    }
}

#[via_fn]
proof fn decrypt_entry_dec(key: rsa::RsaPrivateKey, v: DocV) {
    match v {
        DocV::Text(s) => {
            match opened(key, s) {
                Option::Some(d2) => {
                    match b64_decoding(s) {
                        Option::Some(c) => {
                            match rsa_plaintext(key, c) {
                                Option::Some(t) => {
                                    assert(canon_parse(t) == Option::Some(d2));
                                    assert(ser(d2) == t);
                                    lemma_esc_ge(s);
                                    assert(ser(v).len() >= s.len() + 2);
                                    assert(ser(d2).len() < ser(v).len());
                                },
                                Option::None => {},
                            }
                        },
                        Option::None => {},
                    }
                },
                Option::None => {},
            }
        },
        _ => {},
    }
}

pub proof fn lemma_decrypt_list_index(key: rsa::RsaPrivateKey, v: Seq<DocV>)
    ensures
        decrypt_list(key, v).len() == v.len(),
        forall|i: int| 0 <= i < v.len() ==> decrypt_list(key, v)[i] == decrypt_doc(key, v[i]),
    decreases v.len(),
{
    if v.len() > 0 {
        lemma_decrypt_list_index(key, v.drop_first());
    }
}

pub proof fn lemma_decrypt_fields_index(key: rsa::RsaPrivateKey, f: Seq<(Seq<char>, DocV)>)
    ensures
        decrypt_fields(key, f).len() == f.len(),
        forall|i: int|
            0 <= i < f.len() ==> decrypt_fields(key, f)[i] == (
            f[i].0,
            decrypt_entry(key, f[i].1),
            ),
    decreases f.len(),
{
    if f.len() > 0 {
        lemma_decrypt_fields_index(key, f.drop_first());
    }
}

/// Recursively decrypts every value that the chain can open, leaving
/// everything else exactly as it was.  Never fails.
pub fn detect_and_decrypt(payload: &Document, kp: &KeyPair) -> (r: Document)
    ensures
        r@ == decrypt_doc(kp.priv_key(), payload@),
    decreases ser(payload@).len(), 0int,
{
    match payload {
        Document::Text(_) | Document::Null | Document::Bool(_) | Document::Int(_) => {
            let r = payload.duplicate();
            proof {
                assert(decrypt_doc(kp.priv_key(), payload@) == payload@);
            }
            r
        },
        Document::Array(v) => {
            let n = v.len();
            let mut out: Vec<Document> = Vec::new();
            let mut i: usize = 0;
            while i < n
                invariant
                    *payload == Document::Array(*v),
                    n == v.len(),
                    i <= n,
                    out@.len() == i,
                    forall|j: int|
                        0 <= j < i ==> view_list(out@)[j] == decrypt_doc(
                            kp.priv_key(),
                            view_list(v@)[j],
                        ),
                decreases n - i,
            {
                proof {
                    lemma_view_list_index(v@);
                    lemma_view_list_index(out@);
                    assert(view_list(v@)[i as int] == view_of(v@[i as int]));
                    lemma_ser_elem_lt(payload@, i as int);
                }
                let e = detect_and_decrypt(&v[i], kp);
                let ghost pre = out@;
                out.push(e);
                proof {
                    lemma_view_list_index(out@);
                    lemma_view_list_index(v@);
                    lemma_view_list_index(pre);
                    assert forall|j: int|
                        0 <= j < i + 1 implies view_list(out@)[j] == decrypt_doc(
                        kp.priv_key(),
                        view_list(v@)[j],
                    ) by {
                        if j < i {
                            assert(view_list(pre)[j] == decrypt_doc(
                                kp.priv_key(),
                                view_list(v@)[j],
                            ));
                            assert(view_list(out@)[j] == view_of(out@[j]));
                            assert(out@[j] == pre[j]);
                        } else {
                            assert(view_list(out@)[i as int] == view_of(e));
                        }
                    }
                }
                i = i + 1;
            }
            let r = Document::Array(out);
            proof {
                lemma_view_list_index(out@);
                lemma_view_list_index(v@);
                lemma_decrypt_list_index(kp.priv_key(), view_list(v@));
                assert(view_list(out@) =~= decrypt_list(kp.priv_key(), view_list(v@)));
                assert(r@ == decrypt_doc(kp.priv_key(), payload@));
            }
            r
        },
        Document::Object(entries) => {
            let n = entries.len();
            let mut out: Vec<(String, Document)> = Vec::new();
            let mut i: usize = 0;
            while i < n
                invariant
                    *payload == Document::Object(*entries),
                    n == entries.len(),
                    i <= n,
                    out@.len() == i,
                    forall|j: int|
                        0 <= j < i ==> view_entries(out@)[j] == (
                            view_entries(entries@)[j].0,
                            decrypt_entry(kp.priv_key(), view_entries(entries@)[j].1),
                        ),
                decreases n - i,
            {
                proof {
                    lemma_view_entries_index(entries@);
                    lemma_view_entries_index(out@);
                    lemma_ser_entry_lt(payload@, i as int);
                }
                let key_copy = entries[i].0.clone();
                let e = decrypt_value(&entries[i].1, kp);
                let ghost pre = out@;
                out.push((key_copy, e));
                proof {
                    lemma_view_entries_index(out@);
                    lemma_view_entries_index(entries@);
                    lemma_view_entries_index(pre);
                    assert forall|j: int|
                        0 <= j < i + 1 implies view_entries(out@)[j] == (
                        view_entries(entries@)[j].0,
                        decrypt_entry(kp.priv_key(), view_entries(entries@)[j].1),
                    ) by {
                        if j < i {
                            assert(view_entries(pre)[j] == (
                                view_entries(entries@)[j].0,
                                decrypt_entry(kp.priv_key(), view_entries(entries@)[j].1),
                            ));
                            assert(view_entries(out@)[j] == (out@[j].0@, view_of(out@[j].1)));
                            assert(out@[j] == pre[j]);
                        } else {
                            assert(view_entries(out@)[i as int] == (key_copy@, view_of(e)));
                            assert(key_copy@ == entries@[i as int].0@);
                        }
                    }
                }
                i = i + 1;
            }
            let r = Document::Object(out);
            proof {
                lemma_view_entries_index(out@);
                lemma_view_entries_index(entries@);
                lemma_decrypt_fields_index(kp.priv_key(), view_entries(entries@));
                assert(view_entries(out@) =~= decrypt_fields(kp.priv_key(), view_entries(entries@)));
                assert(r@ == decrypt_doc(kp.priv_key(), payload@));
            }
            r
        },
    }
}

/// One mapping value: a string is handed to the decryption chain, anything
/// else is walked recursively.
fn decrypt_value(value: &Document, kp: &KeyPair) -> (r: Document)
    ensures
        r@ == decrypt_entry(kp.priv_key(), value@),
    decreases ser(value@).len(), 1int,
{
    match value {
        Document::Text(s) => {
            match b64_decode(s.as_str()) {
                Option::None => {
                    proof {
                        assert(opened(kp.priv_key(), s@) is None);
                    }
                    Document::Text(s.clone())
                },
                Option::Some(cipher) => {
                    match rsa_decrypt_text(kp, &cipher) {
                        Option::None => {
                            proof {
                                assert(opened(kp.priv_key(), s@) is None);
                            }
                            Document::Text(s.clone())
                        },
                        Option::Some(plain) => {
                            // a real chain always shrinks (the padding costs
                            // eleven bytes and base64 only expands), but the
                            // model demands it, so test it rather than trust it
                            if !(plain.as_str().unicode_len() < s.as_str().unicode_len()) {
                                proof {
                                    assert(opened(kp.priv_key(), s@) is None);
                                }
                                return Document::Text(s.clone());
                            }
                            match parse_json(plain.as_str()) {
                                Result::Err(_) => {
                                    proof {
                                        assert(opened(kp.priv_key(), s@) is None);
                                    }
                                    Document::Text(s.clone())
                                },
                                Result::Ok(inner) => {
                                    proof {
                                        assert(plain@.len() < s@.len());
                                        assert(opened(kp.priv_key(), s@) == Option::Some(inner@));
                                        assert(ser(inner@) == plain@);
                                        lemma_esc_ge(s@);
                                        assert(ser(inner@).len() < ser(value@).len());
                                    }
                                    detect_and_decrypt(&inner, kp)
                                },
                            }
                        },
                    }
                },
            }
        },
        _ => {
            proof {
                assert(decrypt_entry(kp.priv_key(), value@) == decrypt_doc(kp.priv_key(), value@));
            }
            detect_and_decrypt(value, kp)
        },
    }
}

/// Each element of a sequence document has strictly shorter canonical text
/// than the whole.
pub proof fn lemma_ser_elem_lt(d: DocV, i: int)
    requires
        d is Array,
        0 <= i < d->Array_0.len(),
    ensures
        ser(d->Array_0[i]).len() < ser(d).len(),
{
    assert(ser(d).len() == 1 + ser_items(d->Array_0).len());
    lemma_ser_items_elem(d->Array_0, i);
}

pub proof fn lemma_ser_items_elem(v: Seq<DocV>, i: int)
    requires
        0 <= i < v.len(),
    ensures
        ser(v[i]).len() < ser_items(v).len(),
    decreases v.len(),
{
    if i == 0 {
        if v.len() == 1 {
            assert(ser_items(v) == ser(v[0]) + seq![']']);
        } else {
            assert(ser_items(v) == ser(v[0]) + seq![','] + ser_items(v.drop_first()));
            lemma_ser_items_len_ge(v.drop_first());
        }
    } else {
        lemma_ser_items_elem(v.drop_first(), i - 1);
        assert(ser_items(v) == ser(v[0]) + seq![','] + ser_items(v.drop_first()));
        assert(v.drop_first()[i - 1] == v[i]);
    }
}

pub proof fn lemma_ser_items_len_ge(v: Seq<DocV>)
    ensures
        ser_items(v).len() >= 1,
    decreases v.len(),
{
    if v.len() > 0 {
        if v.len() == 1 {
        } else {
            lemma_ser_items_len_ge(v.drop_first());
        }
    }
}

/// Each mapping value has strictly shorter canonical text than the whole.
pub proof fn lemma_ser_entry_lt(d: DocV, i: int)
    requires
        d is Object,
        0 <= i < d->Object_0.len(),
    ensures
        ser(d->Object_0[i].1).len() < ser(d).len(),
{
    assert(ser(d).len() == 1 + ser_fields(d->Object_0).len());
    lemma_ser_fields_elem(d->Object_0, i);
}

pub proof fn lemma_ser_fields_elem(f: Seq<(Seq<char>, DocV)>, i: int)
    requires
        0 <= i < f.len(),
    ensures
        ser(f[i].1).len() < ser_fields(f).len(),
    decreases f.len(),
{
    if i == 0 {
        if f.len() == 1 {
            assert(ser_fields(f) == ser_text(f[0].0) + seq![':'] + ser(f[0].1) + seq!['}']);
        } else {
            assert(ser_fields(f) == ser_text(f[0].0) + seq![':'] + ser(f[0].1) + seq![',']
                + ser_fields(f.drop_first()));
            lemma_ser_fields_len_ge(f.drop_first());
        }
    } else {
        lemma_ser_fields_elem(f.drop_first(), i - 1);
        assert(ser_fields(f) == ser_text(f[0].0) + seq![':'] + ser(f[0].1) + seq![','] + ser_fields(
            f.drop_first(),
        ));
        assert(f.drop_first()[i - 1] == f[i]);
    }
}

pub proof fn lemma_ser_fields_len_ge(f: Seq<(Seq<char>, DocV)>)
    ensures
        ser_fields(f).len() >= 1,
    decreases f.len(),
{
    if f.len() > 0 {
        if f.len() == 1 {
        } else {
            lemma_ser_fields_len_ge(f.drop_first());
        }
    }
}

/// A document in which no string directly inside a mapping can be opened:
/// what a document looks like once everything decryptable is decrypted.
pub open spec fn fully_decrypted(key: rsa::RsaPrivateKey, d: DocV) -> bool
    decreases d, 0int,
{
    match d {
        DocV::Array(v) => forall|i: int| 0 <= i < v.len() ==> fully_decrypted(key, #[trigger] v[i]),
        DocV::Object(f) => forall|i: int|
            0 <= i < f.len() ==> entry_fully_decrypted(key, #[trigger] f[i].1),
        _ => true,
    }
}

pub open spec fn entry_fully_decrypted(key: rsa::RsaPrivateKey, v: DocV) -> bool
    decreases v, 1int,
{
    match v {
        DocV::Text(s) => opened(key, s) is None,
        _ => fully_decrypted(key, v),
    }
}

/// Decryption leaves a fully decrypted document untouched.
pub proof fn lemma_decrypt_fixed(key: rsa::RsaPrivateKey, d: DocV)
    requires
        fully_decrypted(key, d),
    ensures
        decrypt_doc(key, d) == d,
    decreases d, 0int,
{
    match d {
        DocV::Array(v) => {
            lemma_decrypt_list_index(key, v);
            assert forall|i: int| 0 <= i < v.len() implies decrypt_list(key, v)[i] == v[i] by {
                assert(fully_decrypted(key, v[i]));
                lemma_decrypt_fixed(key, v[i]);
            }
            assert(decrypt_list(key, v) =~= v);
        },
        DocV::Object(f) => {
            lemma_decrypt_fields_index(key, f);
            assert forall|i: int| 0 <= i < f.len() implies decrypt_fields(key, f)[i] == f[i] by {
                assert(entry_fully_decrypted(key, f[i].1));
                lemma_entry_decrypt_fixed(key, f[i].1);
            }
            assert(decrypt_fields(key, f) =~= f);
        },
        _ => {},
    }
}

pub proof fn lemma_entry_decrypt_fixed(key: rsa::RsaPrivateKey, v: DocV)
    requires
        entry_fully_decrypted(key, v),
    ensures
        decrypt_entry(key, v) == v,
    decreases v, 1int,
{
    match v {
        DocV::Text(s) => {
            assert(decrypt_entry(key, v) == v);
        },
        _ => {
            lemma_decrypt_fixed(key, v);
        },
    }
}

/// Decrypting twice is decrypting once, for any document whose single
/// decryption leaves nothing more to open (in particular, any document
/// holding no ciphertext made under a different key).
pub proof fn lemma_decrypt_idempotent(key: rsa::RsaPrivateKey, d: DocV)
    requires
        fully_decrypted(key, decrypt_doc(key, d)),
    ensures
        decrypt_doc(key, decrypt_doc(key, d)) == decrypt_doc(key, d),
{
    lemma_decrypt_fixed(key, decrypt_doc(key, d));
}

/// Idempotence for every document at once, under a key whose plaintexts are
/// never bare strings: one pass opens everything there is to open.
pub proof fn lemma_decrypt_idempotent_all(key: rsa::RsaPrivateKey, d: DocV)
    requires
        no_text_plaintexts(key),
    ensures
        decrypt_doc(key, decrypt_doc(key, d)) == decrypt_doc(key, d),
{
    lemma_decrypt_reaches_fixed_point(key, d);
    lemma_decrypt_fixed(key, decrypt_doc(key, d));
}

/// A key under which no opened ciphertext is itself a bare string: then one
/// decryption pass reaches a fixed point on every document.
pub open spec fn no_text_plaintexts(key: rsa::RsaPrivateKey) -> bool {
    forall|s: Seq<char>| !(#[trigger] opened(key, s) matches Some(DocV::Text(_)))
}

/// Under such a key, decryption leaves nothing more to open: every string
/// remaining directly inside a mapping of the result fails the chain.
pub proof fn lemma_decrypt_reaches_fixed_point(key: rsa::RsaPrivateKey, d: DocV)
    requires
        no_text_plaintexts(key),
    ensures
        fully_decrypted(key, decrypt_doc(key, d)),
    decreases ser(d).len(), 0int,
{
    match d {
        DocV::Array(v) => {
            lemma_decrypt_list_index(key, v);
            let w = decrypt_list(key, v);
            assert forall|i: int| 0 <= i < w.len() implies fully_decrypted(
                key,
                #[trigger] w[i],
            ) by {
                lemma_ser_elem_lt(d, i);
                lemma_decrypt_reaches_fixed_point(key, v[i]);
            }
        },
        DocV::Object(f) => {
            lemma_decrypt_fields_index(key, f);
            let g = decrypt_fields(key, f);
            assert forall|i: int| 0 <= i < g.len() implies entry_fully_decrypted(
                key,
                (#[trigger] g[i]).1,
            ) by {
                lemma_ser_entry_lt(d, i);
                lemma_entry_decrypt_reaches_fixed_point(key, f[i].1);
            }
        },
        _ => {},
    }
}

pub proof fn lemma_entry_decrypt_reaches_fixed_point(key: rsa::RsaPrivateKey, v: DocV)
    requires
        no_text_plaintexts(key),
    ensures
        entry_fully_decrypted(key, decrypt_entry(key, v)),
    decreases ser(v).len(), 1int,
{
    match v {
        DocV::Text(s) => {
            match opened(key, s) {
                Option::Some(d2) => {
                    assert(!(d2 is Text));
                    lemma_chain_shrinks(key, s, d2);
                    lemma_decrypt_reaches_fixed_point(key, d2);
                    assert(decrypt_entry(key, v) == decrypt_doc(key, d2));
                    match d2 {
                        DocV::Array(_) => {
                            assert(decrypt_doc(key, d2) is Array);
                        },
                        DocV::Object(_) => {
                            assert(decrypt_doc(key, d2) is Object);
                        },
                        _ => {
                            assert(decrypt_doc(key, d2) == d2);
                        },
                    }
                },
                Option::None => {
                    assert(decrypt_entry(key, v) == v);
                },
            }
        },
        _ => {
            lemma_decrypt_reaches_fixed_point(key, v);
            match v {
                DocV::Array(_) => {
                    assert(decrypt_doc(key, v) is Array);
                },
                DocV::Object(_) => {
                    assert(decrypt_doc(key, v) is Object);
                },
                _ => {
                    assert(decrypt_doc(key, v) == v);
                },
            }
        },
    }
}

/// What a string opens to has strictly shorter canonical text than the
/// string literal itself.
pub proof fn lemma_chain_shrinks(key: rsa::RsaPrivateKey, s: Seq<char>, d2: DocV)
    requires
        opened(key, s) == Some(d2),
    ensures
        ser(d2).len() < ser(DocV::Text(s)).len(),
{
    match b64_decoding(s) {
        Option::Some(c) => {
            match rsa_plaintext(key, c) {
                Option::Some(t) => {
                    assert(canon_parse(t) == Option::Some(d2));
                    assert(ser(d2) == t);
                    lemma_esc_ge(s);
                },
                Option::None => {},
            }
        },
        Option::None => {},
    }
}

} // verus!
