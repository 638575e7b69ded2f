//! Field encryption.
//!
//! Two policies are supported.  The legacy depth-one policy
//! (`encrypt_depth_1`) demands a mapping at the top level and replaces every
//! first-level value, unconditionally, by the base64 ciphertext of its
//! canonical text.  The selective policy (`detect_and_encrypt`) walks
//! mappings and sequences recursively and replaces the value of every entry
//! whose key is selected, wherever it sits; an encrypted branch is not
//! walked further.  Encryption is randomized, so the contracts pin the
//! result relationally: each ciphertext opens (under the pair's private
//! key) to exactly the value it replaced, from which the round trip with
//! [`crate::decryptor::detect_and_decrypt`] follows.

use crate::canon::{ser, to_json};
use crate::config::FieldSelector;
use crate::decryptor::{
    decrypt_doc, decrypt_entry, decrypt_fields, decrypt_list, entry_fully_decrypted,
    fully_decrypted, lemma_decrypt_fields_index, lemma_decrypt_fixed, lemma_decrypt_list_index,
    opened,
};
use crate::doc::{
    lemma_view_entries_index, lemma_view_list_index, view_entries, view_list, view_of, DocV,
    Document,
};
use crate::keys::{b64_decoding, b64_encode, rsa_accepts_text, rsa_encrypt_text, rsa_plaintext, KeyPair};
use crate::parse::{canon_parse, lemma_canon_parse_ser};
use vstd::prelude::*;

verus! {

/// Why an encryption request was rejected.
#[derive(Debug, PartialEq, Eq)]
pub enum EncryptError {
    /// The depth-one policy requires a mapping at the top level.
    NotAnObject,
    /// The cipher reported failure on some value.
    EncryptionFailed,
}

/// `e` is a base64 ciphertext that opens, under `key`, to exactly `v`.
pub open spec fn cipher_of(key: rsa::RsaPrivateKey, v: DocV, e: DocV) -> bool {
    e matches DocV::Text(c) && opened(key, c) == Some(v)
}

/// The depth-one policy's result shape: same keys in the same order, every
/// value a ciphertext of the original value.
pub open spec fn depth1_encrypted(key: rsa::RsaPrivateKey, d: DocV, e: DocV) -> bool {
    &&& d matches DocV::Object(f)
    &&& e matches DocV::Object(g)
    &&& d->Object_0.len() == e->Object_0.len()
    &&& forall|i: int|
        0 <= i < d->Object_0.len() ==> (#[trigger] e->Object_0[i]).0 == d->Object_0[i].0
            && cipher_of(key, d->Object_0[i].1, e->Object_0[i].1)
}

/// The selective policy's result shape: the same tree, with the value of
/// every selected entry replaced by a ciphertext of it, other compound
/// values walked, and scalars kept.
pub open spec fn selectively_encrypted(
    key: rsa::RsaPrivateKey,
    sel: Seq<Seq<char>>,
    d: DocV,
    e: DocV,
) -> bool
    decreases d,
{
    match d {
        DocV::Array(v) => {
            &&& e matches DocV::Array(w)
            &&& v.len() == w.len()
            &&& forall|i: int|
                0 <= i < v.len() ==> selectively_encrypted(key, sel, v[i], #[trigger] w[i])
        },
        DocV::Object(f) => {
            &&& e matches DocV::Object(g)
            &&& f.len() == g.len()
            &&& forall|i: int|
                0 <= i < f.len() ==> (#[trigger] g[i]).0 == f[i].0 && if sel.contains(f[i].0) {
                    cipher_of(key, f[i].1, g[i].1)
                } else {
                    selectively_encrypted(key, sel, f[i].1, g[i].1)
                }
        },
        _ => e == d,
    }
}

/// The cipher accepts the canonical text of every first-level value of the
/// mapping: exactly when the depth-one policy succeeds.
pub open spec fn depth1_encryptable(key: rsa::RsaPublicKey, d: DocV) -> bool {
    forall|i: int|
        0 <= i < d->Object_0.len() ==> rsa_accepts_text(key, ser((#[trigger] d->Object_0[i]).1))
}

/// The cipher accepts the canonical text of every selected entry's value,
/// at any depth: exactly when the selective policy succeeds.
pub open spec fn selection_encryptable(
    key: rsa::RsaPublicKey,
    sel: Seq<Seq<char>>,
    d: DocV,
) -> bool
    decreases d,
{
    match d {
        DocV::Array(v) => forall|i: int|
            0 <= i < v.len() ==> selection_encryptable(key, sel, #[trigger] v[i]),
        DocV::Object(f) => forall|i: int|
            0 <= i < f.len() ==> if sel.contains((#[trigger] f[i]).0) {
                rsa_accepts_text(key, ser(f[i].1))
            } else {
                selection_encryptable(key, sel, f[i].1)
            },
        _ => true,
    }
}

/// Encrypts one value: its canonical text, RSA-encrypted and base64-coded.
/// Succeeds exactly when the cipher accepts that text.
fn encrypt_leaf(value: &Document, kp: &KeyPair) -> (r: Option<Document>)
    ensures
        r is Some <==> rsa_accepts_text(kp.pub_key(), ser(value@)),
        r matches Some(e) ==> cipher_of(kp.priv_key(), value@, e@),
{
    let text = to_json(value);
    match rsa_encrypt_text(kp, text.as_str()) {
        Option::None => Option::None,
        Option::Some(cipher) => {
            let coded = b64_encode(&cipher);
            proof {
                lemma_canon_parse_ser(value@);
                assert(b64_decoding(coded@) == Some(cipher@));
                assert(rsa_plaintext(kp.priv_key(), cipher@) == Some(ser(value@)));
                assert(ser(value@).len() < coded@.len());
                assert(opened(kp.priv_key(), coded@) == Some(value@));
            }
            Option::Some(Document::Text(coded))
        },
    }
}

/// Depth-one encryption: every first-level value of a top-level mapping is
/// replaced by a ciphertext of its canonical text.
///
/// Fails with `NotAnObject` exactly when the top level is not a mapping,
/// and otherwise succeeds exactly when the cipher accepts every first-level
/// value's canonical text.  On success, decrypting the result restores the
/// input, provided the input held no string that the decryption chain can
/// itself open.
#[verifier::loop_isolation(false)]
pub fn encrypt_depth_1(payload: &Document, kp: &KeyPair) -> (r: Result<Document, EncryptError>)
    ensures
        payload@ !is Object <==> r == Err::<Document, EncryptError>(EncryptError::NotAnObject),
        payload@ is Object ==> (r is Ok <==> depth1_encryptable(kp.pub_key(), payload@)),
        match r {
            Ok(enc) => {
                &&& depth1_encrypted(kp.priv_key(), payload@, enc@)
                &&& fully_decrypted(kp.priv_key(), payload@) ==> decrypt_doc(
                    kp.priv_key(),
                    enc@,
                ) == payload@
            },
            Err(e) => e is NotAnObject || e is EncryptionFailed,
        },
{
    match payload {
        Document::Object(entries) => {
            let n = entries.len();
            let mut out: Vec<(String, Document)> = Vec::new();
            let mut i: usize = 0;
            while i < n
                invariant
                    i <= n,
                    out@.len() == i,
                    forall|j: int|
                        0 <= j < i ==> rsa_accepts_text(
                            kp.pub_key(),
                            ser((#[trigger] view_entries(entries@)[j]).1),
                        ),
                    forall|j: int|
                        0 <= j < i ==> (#[trigger] view_entries(out@)[j]).0 == view_entries(
                            entries@,
                        )[j].0 && cipher_of(
                            kp.priv_key(),
                            view_entries(entries@)[j].1,
                            view_entries(out@)[j].1,
                        ),
                decreases n - i,
            {
                proof {
                    lemma_view_entries_index(entries@);
                    lemma_view_entries_index(out@);
                }
                match encrypt_leaf(&entries[i].1, kp) {
                    Option::None => {
                        proof {
                            assert(!rsa_accepts_text(
                                kp.pub_key(),
                                ser(view_entries(entries@)[i as int].1),
                            ));
                            assert(!depth1_encryptable(kp.pub_key(), payload@));
                        }
                        return Err(EncryptError::EncryptionFailed);
                    },
                    Option::Some(e) => {
                        let key_copy = entries[i].0.clone();
                        let ghost pre = out@;
                        out.push((key_copy, e));
                        proof {
                            lemma_view_entries_index(out@);
                            lemma_view_entries_index(pre);
                            assert forall|j: int|
                                0 <= j < i + 1 implies (#[trigger] view_entries(out@)[j]).0
                                == view_entries(entries@)[j].0 && cipher_of(
                                kp.priv_key(),
                                view_entries(entries@)[j].1,
                                view_entries(out@)[j].1,
                            ) by {
                                if j < i {
                                    assert(view_entries(pre)[j] == view_entries(out@)[j]);
                                } else {
                                    assert(view_entries(out@)[j] == (key_copy@, view_of(e)));
                                }
                            }
                        }
                    },
                }
                i = i + 1;
            }
            let r = Document::Object(out);
            proof {
                lemma_view_entries_index(out@);
                lemma_view_entries_index(entries@);
                assert(depth1_encrypted(kp.priv_key(), payload@, r@));
                assert(depth1_encryptable(kp.pub_key(), payload@));
                if fully_decrypted(kp.priv_key(), payload@) {
                    lemma_decrypt_depth1(kp.priv_key(), payload@, r@);
                }
            }
            Ok(r)
        },
        _ => Err(EncryptError::NotAnObject),
    }
}

/// Selective encryption: walks the document and replaces the value of every
/// entry whose key is in the selection by a ciphertext of it; sequence
/// elements are walked unconditionally, scalars outside selected entries
/// stay as they are.
///
/// Never rejects a shape; succeeds exactly when the cipher accepts the
/// canonical text of every selected entry's value (so always, in
/// particular, when nothing is selected).  On success, decrypting the
/// result restores the input, provided the input held no string that the
/// decryption chain can itself open.
#[verifier::loop_isolation(false)]
pub fn detect_and_encrypt(payload: &Document, kp: &KeyPair, fields: &FieldSelector) -> (r: Result<
    Document,
    EncryptError,
>)
    ensures
        r is Ok <==> selection_encryptable(kp.pub_key(), fields@, payload@),
        match r {
            Ok(enc) => {
                &&& selectively_encrypted(kp.priv_key(), fields@, payload@, enc@)
                &&& fully_decrypted(kp.priv_key(), payload@) ==> decrypt_doc(
                    kp.priv_key(),
                    enc@,
                ) == payload@
            },
            Err(e) => e is EncryptionFailed,
        },
{
    let r = encrypt_selected(payload, kp, fields);
    match &r {
        Ok(enc) => {
            proof {
                if fully_decrypted(kp.priv_key(), payload@) {
                    lemma_decrypt_selective(kp.priv_key(), fields@, payload@, enc@);
                }
            }
        },
        Err(_) => {},
    }
    r
}

fn encrypt_selected(payload: &Document, kp: &KeyPair, fields: &FieldSelector) -> (r: Result<
    Document,
    EncryptError,
>)
    ensures
        r is Ok <==> selection_encryptable(kp.pub_key(), fields@, payload@),
        match r {
            Ok(enc) => selectively_encrypted(kp.priv_key(), fields@, payload@, enc@),
            Err(e) => e is EncryptionFailed,
        },
    decreases *payload,
{
    match payload {
        Document::Null | Document::Bool(_) | Document::Int(_) | Document::Text(_) => {
            let r = payload.duplicate();
            proof {
                assert(selection_encryptable(kp.pub_key(), fields@, payload@));
            }
            Ok(r)
        },
        Document::Array(v) => {
            let n = v.len();
            let mut out: Vec<Document> = Vec::new();
            let mut i: usize = 0;
            while i < n
                invariant
                    *payload == Document::Array(*v),
                    n == v.len(),
                    i <= n,
                    out@.len() == i,
                    forall|j: int|
                        0 <= j < i ==> selection_encryptable(
                            kp.pub_key(),
                            fields@,
                            #[trigger] view_list(v@)[j],
                        ),
                    forall|j: int|
                        0 <= j < i ==> selectively_encrypted(
                            kp.priv_key(),
                            fields@,
                            view_list(v@)[j],
                            #[trigger] view_list(out@)[j],
                        ),
                decreases n - i,
            {
                proof {
                    lemma_view_list_index(v@);
                    lemma_view_list_index(out@);
                    assert(decreases_to!(*payload => payload->Array_0));
                    assert(decreases_to!(*v => v@));
                    assert(decreases_to!(v@ => v@[i as int]));
                    assert(decreases_to!(*payload => v@[i as int]));
                }
                match encrypt_selected(&v[i], kp, fields) {
                    Err(e) => {
                        proof {
                            assert(!selection_encryptable(
                                kp.pub_key(),
                                fields@,
                                view_list(v@)[i as int],
                            ));
                            assert(payload@ == DocV::Array(view_list(v@)));
                            if selection_encryptable(kp.pub_key(), fields@, payload@) {
                                lemma_sel_enc_array_elem(
                                    kp.pub_key(),
                                    fields@,
                                    view_list(v@),
                                    i as int,
                                );
                            }
                            assert(!selection_encryptable(kp.pub_key(), fields@, payload@));
                        }
                        return Err(e);
                    },
                    Ok(e) => {
                        let ghost pre = out@;
                        out.push(e);
                        proof {
                            lemma_view_list_index(out@);
                            lemma_view_list_index(pre);
                            assert forall|j: int|
                                0 <= j < i + 1 implies selectively_encrypted(
                                kp.priv_key(),
                                fields@,
                                view_list(v@)[j],
                                #[trigger] view_list(out@)[j],
                            ) by {
                                if j < i {
                                    assert(view_list(pre)[j] == view_list(out@)[j]);
                                } else {
                                    assert(view_list(out@)[j] == view_of(e));
                                }
                            }
                        }
                    },
                }
                i = i + 1;
            }
            let r = Document::Array(out);
            proof {
                lemma_view_list_index(out@);
                lemma_view_list_index(v@);
                assert(selection_encryptable(kp.pub_key(), fields@, payload@));
            }
            Ok(r)
        },
        Document::Object(entries) => {
            let n = entries.len();
            let mut out: Vec<(String, Document)> = Vec::new();
            let mut i: usize = 0;
            while i < n
                invariant
                    *payload == Document::Object(*entries),
                    n == entries.len(),
                    i <= n,
                    out@.len() == i,
                    forall|j: int|
                        0 <= j < i ==> if fields@.contains(
                            (#[trigger] view_entries(entries@)[j]).0,
                        ) {
                            rsa_accepts_text(kp.pub_key(), ser(view_entries(entries@)[j].1))
                        } else {
                            selection_encryptable(
                                kp.pub_key(),
                                fields@,
                                view_entries(entries@)[j].1,
                            )
                        },
                    forall|j: int|
                        0 <= j < i ==> (#[trigger] view_entries(out@)[j]).0 == view_entries(
                            entries@,
                        )[j].0 && if fields@.contains(view_entries(entries@)[j].0) {
                            cipher_of(
                                kp.priv_key(),
                                view_entries(entries@)[j].1,
                                view_entries(out@)[j].1,
                            )
                        } else {
                            selectively_encrypted(
                                kp.priv_key(),
                                fields@,
                                view_entries(entries@)[j].1,
                                view_entries(out@)[j].1,
                            )
                        },
                decreases n - i,
            {
                proof {
                    lemma_view_entries_index(entries@);
                    lemma_view_entries_index(out@);
                    assert(decreases_to!(*payload => payload->Object_0));
                    assert(decreases_to!(*entries => entries@));
                    assert(decreases_to!(entries@ => entries@[i as int]));
                    assert(decreases_to!(entries@[i as int] => entries@[i as int].1));
                    assert(decreases_to!(*payload => entries@[i as int].1));
                }
                let key_copy = entries[i].0.clone();
                let enc_value: Document;
                if fields.selects(&entries[i].0) {
                    match encrypt_leaf(&entries[i].1, kp) {
                        Option::None => {
                            proof {
                                assert(!rsa_accepts_text(
                                    kp.pub_key(),
                                    ser(view_entries(entries@)[i as int].1),
                                ));
                                assert(fields@.contains(view_entries(entries@)[i as int].0));
                                assert(payload@ == DocV::Object(view_entries(entries@)));
                                if selection_encryptable(kp.pub_key(), fields@, payload@) {
                                    lemma_sel_enc_object_entry(
                                        kp.pub_key(),
                                        fields@,
                                        view_entries(entries@),
                                        i as int,
                                    );
                                }
                                assert(!selection_encryptable(kp.pub_key(), fields@, payload@));
                            }
                            return Err(EncryptError::EncryptionFailed);
                        },
                        Option::Some(e) => {
                            enc_value = e;
                        },
                    }
                } else {
                    match encrypt_selected(&entries[i].1, kp, fields) {
                        Err(e) => {
                            proof {
                                assert(!selection_encryptable(
                                    kp.pub_key(),
                                    fields@,
                                    view_entries(entries@)[i as int].1,
                                ));
                                assert(!fields@.contains(view_entries(entries@)[i as int].0));
                                assert(payload@ == DocV::Object(view_entries(entries@)));
                                if selection_encryptable(kp.pub_key(), fields@, payload@) {
                                    lemma_sel_enc_object_entry(
                                        kp.pub_key(),
                                        fields@,
                                        view_entries(entries@),
                                        i as int,
                                    );
                                }
                                assert(!selection_encryptable(kp.pub_key(), fields@, payload@));
                            }
                            return Err(e);
                        },
                        Ok(e) => {
                            enc_value = e;
                        },
                    }
                }
                let ghost pre = out@;
                out.push((key_copy, enc_value));
                proof {
                    lemma_view_entries_index(out@);
                    lemma_view_entries_index(pre);
                    assert forall|j: int|
                        0 <= j < i + 1 implies (#[trigger] view_entries(out@)[j]).0
                        == view_entries(entries@)[j].0 && if fields@.contains(
                        view_entries(entries@)[j].0,
                    ) {
                        cipher_of(
                            kp.priv_key(),
                            view_entries(entries@)[j].1,
                            view_entries(out@)[j].1,
                        )
                    } else {
                        selectively_encrypted(
                            kp.priv_key(),
                            fields@,
                            view_entries(entries@)[j].1,
                            view_entries(out@)[j].1,
                        )
                    } by {
                        if j < i {
                            assert(view_entries(pre)[j] == view_entries(out@)[j]);
                        } else {
                            assert(view_entries(out@)[j] == (key_copy@, view_of(enc_value)));
                            assert(key_copy@ == view_entries(entries@)[j].0);
                        }
                    }
                }
                i = i + 1;
            }
            let r = Document::Object(out);
            proof {
                lemma_view_entries_index(out@);
                lemma_view_entries_index(entries@);
                assert(selection_encryptable(kp.pub_key(), fields@, payload@));
            }
            Ok(r)
        },
    }
}

/// Round trip for the depth-one policy: decrypting a depth-one encryption
/// of a fully decrypted mapping restores it.
pub proof fn lemma_decrypt_depth1(key: rsa::RsaPrivateKey, d: DocV, e: DocV)
    requires
        depth1_encrypted(key, d, e),
        fully_decrypted(key, d),
    ensures
        decrypt_doc(key, e) == d,
{
    let f = d->Object_0;
    let g = e->Object_0;
    lemma_decrypt_fields_index(key, g);
    assert forall|i: int| 0 <= i < g.len() implies decrypt_fields(key, g)[i] == f[i] by {
        assert(cipher_of(key, f[i].1, g[i].1));
        let c = g[i].1->Text_0;
        assert(opened(key, c) == Some(f[i].1));
        assert(decrypt_entry(key, g[i].1) == decrypt_doc(key, f[i].1));
        assert(entry_fully_decrypted(key, f[i].1));
        match f[i].1 {
            DocV::Array(_) => {
                assert(fully_decrypted(key, f[i].1));
            },
            DocV::Object(_) => {
                assert(fully_decrypted(key, f[i].1));
            },
            _ => {
                assert(fully_decrypted(key, f[i].1));
            },
        }
        lemma_decrypt_fixed(key, f[i].1);
    }
    assert(decrypt_fields(key, g) =~= f);
}

/// Round trip for the selective policy: decrypting a selective encryption
/// of a fully decrypted document restores it.
pub proof fn lemma_decrypt_selective(
    key: rsa::RsaPrivateKey,
    sel: Seq<Seq<char>>,
    d: DocV,
    e: DocV,
)
    requires
        selectively_encrypted(key, sel, d, e),
        fully_decrypted(key, d),
    ensures
        decrypt_doc(key, e) == d,
    decreases d,
{
    match d {
        DocV::Array(v) => {
            let w = e->Array_0;
            lemma_decrypt_list_index(key, w);
            assert forall|i: int| 0 <= i < w.len() implies decrypt_list(key, w)[i] == v[i] by {
                assert(selectively_encrypted(key, sel, v[i], w[i]));
                assert(fully_decrypted(key, v[i]));
                lemma_decrypt_selective(key, sel, v[i], w[i]);
            }
            assert(decrypt_list(key, w) =~= v);
        },
        DocV::Object(f) => {
            let g = e->Object_0;
            lemma_decrypt_fields_index(key, g);
            assert forall|i: int| 0 <= i < g.len() implies decrypt_fields(key, g)[i] == f[i] by {
                assert(entry_fully_decrypted(key, f[i].1));
                if sel.contains(f[i].0) {
                    assert(cipher_of(key, f[i].1, g[i].1));
                    assert(decrypt_entry(key, g[i].1) == decrypt_doc(key, f[i].1));
                    match f[i].1 {
                        DocV::Array(_) => {
                            assert(fully_decrypted(key, f[i].1));
                        },
                        DocV::Object(_) => {
                            assert(fully_decrypted(key, f[i].1));
                        },
                        _ => {
                            assert(fully_decrypted(key, f[i].1));
                        },
                    }
                    lemma_decrypt_fixed(key, f[i].1);
                } else {
                    assert(selectively_encrypted(key, sel, f[i].1, g[i].1));
                    match f[i].1 {
                        DocV::Text(s) => {
                            assert(g[i].1 == f[i].1);
                            assert(opened(key, s) is None);
                            assert(decrypt_entry(key, g[i].1) == g[i].1);
                        },
                        DocV::Array(_) | DocV::Object(_) => {
                            lemma_decrypt_selective(key, sel, f[i].1, g[i].1);
                            assert(g[i].1 is Array || g[i].1 is Object);
                            assert(decrypt_entry(key, g[i].1) == decrypt_doc(key, g[i].1));
                        },
                        _ => {
                            assert(g[i].1 == f[i].1);
                            assert(decrypt_entry(key, g[i].1) == decrypt_doc(key, g[i].1));
                        },
                    }
                }
            }
            assert(decrypt_fields(key, g) =~= f);
        },
        _ => {
            assert(e == d);
        },
    }
}

/// Instantiates `selection_encryptable` at one element of a sequence.
proof fn lemma_sel_enc_array_elem(
    key: rsa::RsaPublicKey,
    sel: Seq<Seq<char>>,
    items: Seq<DocV>,
    i: int,
)
    requires
        0 <= i < items.len(),
        selection_encryptable(key, sel, DocV::Array(items)),
    ensures
        selection_encryptable(key, sel, items[i]),
{
    assert(DocV::Array(items)->Array_0 == items);
    assert(selection_encryptable(key, sel, DocV::Array(items)) == (forall|j: int|
        0 <= j < items.len() ==> selection_encryptable(key, sel, #[trigger] items[j])));
}

/// Instantiates `selection_encryptable` at one entry of a mapping.
proof fn lemma_sel_enc_object_entry(
    key: rsa::RsaPublicKey,
    sel: Seq<Seq<char>>,
    fs: Seq<(Seq<char>, DocV)>,
    i: int,
)
    requires
        0 <= i < fs.len(),
        selection_encryptable(key, sel, DocV::Object(fs)),
    ensures
        sel.contains(fs[i].0) ==> rsa_accepts_text(key, ser(fs[i].1)),
        !sel.contains(fs[i].0) ==> selection_encryptable(key, sel, fs[i].1),
{
    assert(DocV::Object(fs)->Object_0 == fs);
    assert(selection_encryptable(key, sel, DocV::Object(fs)) == (forall|j: int|
        0 <= j < fs.len() ==> if sel.contains((#[trigger] fs[j]).0) {
            rsa_accepts_text(key, ser(fs[j].1))
        } else {
            selection_encryptable(key, sel, fs[j].1)
        }));
}

/// With nothing selected, the selective policy hands nothing to the
/// cipher, so it cannot fail ...
pub proof fn lemma_empty_selection_encryptable(
    key: rsa::RsaPublicKey,
    sel: Seq<Seq<char>>,
    d: DocV,
)
    requires
        sel.len() == 0,
    ensures
        selection_encryptable(key, sel, d),
    decreases d,
{
    match d {
        DocV::Array(v) => {
            assert forall|i: int|
                0 <= i < v.len() implies selection_encryptable(key, sel, #[trigger] v[i]) by {
                lemma_empty_selection_encryptable(key, sel, v[i]);
            }
        },
        DocV::Object(f) => {
            assert forall|i: int|
                0 <= i < f.len() implies if sel.contains((#[trigger] f[i]).0) {
                    rsa_accepts_text(key, ser(f[i].1))
                } else {
                    selection_encryptable(key, sel, f[i].1)
                } by {
                assert(!sel.contains(f[i].0));
                lemma_empty_selection_encryptable(key, sel, f[i].1);
            }
        },
        _ => {},
    }
}

/// ... and is the identity: the result of a successful run is the input.
pub proof fn lemma_empty_selection_identity(
    key: rsa::RsaPrivateKey,
    sel: Seq<Seq<char>>,
    d: DocV,
    e: DocV,
)
    requires
        sel.len() == 0,
        selectively_encrypted(key, sel, d, e),
    ensures
        e == d,
    decreases d,
{
    match d {
        DocV::Array(v) => {
            let w = e->Array_0;
            assert forall|i: int| 0 <= i < v.len() implies w[i] == v[i] by {
                assert(selectively_encrypted(key, sel, v[i], w[i]));
                lemma_empty_selection_identity(key, sel, v[i], w[i]);
            }
            assert(w =~= v);
        },
        DocV::Object(f) => {
            let g = e->Object_0;
            assert forall|i: int| 0 <= i < f.len() implies g[i] == f[i] by {
                assert(!sel.contains(f[i].0));
                assert(selectively_encrypted(key, sel, f[i].1, g[i].1));
                lemma_empty_selection_identity(key, sel, f[i].1, g[i].1);
                assert(g[i].0 == f[i].0);
            }
            assert(g =~= f);
        },
        _ => {},
    }
}

} // verus!
