//! Detached signing and verification over a document's canonical text.
//!
//! `get_signature` hashes the canonical text with SHA-256 and signs the
//! digest with PKCS#1 v1.5; the signature travels base64-coded.
//! `get_verification` reads an envelope `{data, signature}`, decrypts the
//! embedded data with the pair's private key (so a verifier holds the whole
//! pair — see the note in [`crate::keys`]), re-hashes its canonical text
//! and checks the signature against the public key.  A malformed envelope
//! is a hard error; a cryptographic mismatch is the answer `false`.

use crate::canon::{ser, to_json};
use crate::decryptor::{decrypt_doc, detect_and_decrypt, fully_decrypted, lemma_decrypt_fixed};
use crate::doc::{lookup, DocV, Document};
use crate::keys::{
    b64_decode, b64_decoding, b64_encode, b64_encoding, rsa_sign, rsa_sign_ok, rsa_signature,
    rsa_verify, rsa_verify_ok, sha256, sha256_digest, KeyPair,
};
use vstd::prelude::*;

verus! {

/// Why a signing request failed: the primitive refused the digest.
#[derive(Debug, PartialEq, Eq)]
pub enum SignError {
    SigningFailed,
}

/// Why a verification request was rejected without a yes/no answer.
#[derive(Debug, PartialEq, Eq)]
pub enum VerifyError {
    /// The envelope is not a mapping binding `signature`.
    MissingSignature,
    /// The bound signature is not a string.
    SignatureNotText,
    /// The bound signature is not valid base64.
    InvalidSignatureEncoding,
    /// The envelope binds no `data`.
    MissingData,
}

/// `sig` is a base64 text whose bytes verify, under the pair's public key,
/// as a signature of the SHA-256 digest of `d`'s canonical text.
pub open spec fn good_signature(kp: KeyPair, d: DocV, sig: Seq<char>) -> bool {
    b64_decoding(sig) matches Some(b) && b == rsa_signature(
        kp.priv_key(),
        sha256_digest(ser(d)),
    ) && rsa_verify_ok(kp.pub_key(), sha256_digest(ser(d)), b)
}

/// The exact outcome of verification on a given envelope: each shape error
/// in the order the checks run, else the primitive's answer on the
/// decrypted data's canonical text.
pub open spec fn verify_outcome(kp: KeyPair, env: DocV) -> Result<bool, VerifyError> {
    if !(env matches DocV::Object(es) && lookup(es, "signature"@) is Some) {
        Err(VerifyError::MissingSignature)
    } else {
        let sig = lookup(env->Object_0, "signature"@)->Some_0;
        if !(sig is Text) {
            Err(VerifyError::SignatureNotText)
        } else if b64_decoding(sig->Text_0) is None {
            Err(VerifyError::InvalidSignatureEncoding)
        } else if !(lookup(env->Object_0, "data"@) is Some) {
            Err(VerifyError::MissingData)
        } else {
            let data = lookup(env->Object_0, "data"@)->Some_0;
            Ok(
                rsa_verify_ok(
                    kp.pub_key(),
                    sha256_digest(ser(decrypt_doc(kp.priv_key(), data))),
                    b64_decoding(sig->Text_0)->Some_0,
                ),
            )
        }
    }
}

/// Signs the canonical text of `payload`: SHA-256 digest, PKCS#1 v1.5
/// signature, base64 coding.  Succeeds exactly when the key accepts the
/// digest (signing is deterministic, so acceptance is a function of key
/// and digest); the result verifies against the same pair.
pub fn get_signature(payload: &Document, kp: &KeyPair) -> (r: Result<String, SignError>)
    ensures
        r is Ok <==> rsa_sign_ok(kp.priv_key(), sha256_digest(ser(payload@))),
        match r {
            Ok(sig) => sig@ == b64_encoding(
                rsa_signature(kp.priv_key(), sha256_digest(ser(payload@))),
            ) && good_signature(*kp, payload@, sig@),
            Err(e) => e is SigningFailed,
        },
{
    let text = to_json(payload);
    let digest = sha256(text.as_str());
    match rsa_sign(kp, &digest) {
        Option::None => Err(SignError::SigningFailed),
        Option::Some(sig) => {
            let coded = b64_encode(&sig);
            Ok(coded)
        },
    }
}

/// Verifies an envelope `{data, signature}` against the pair: decrypts the
/// data, re-hashes its canonical text and checks the signature bytes under
/// the public key.  Shape errors are exact, in checking order: a missing
/// signature binding, a non-string signature, a signature that is not
/// base64, missing data.  A cryptographic mismatch is `Ok(false)`, never an
/// error.
pub fn get_verification(payload: &Document, kp: &KeyPair) -> (r: Result<bool, VerifyError>)
    ensures
        r == verify_outcome(*kp, payload@),
{
    match payload.get_field("signature") {
        Option::None => Err(VerifyError::MissingSignature),
        Option::Some(sig_doc) => {
            match sig_doc {
                Document::Text(sig_text) => {
                    match b64_decode(sig_text.as_str()) {
                        Option::None => Err(VerifyError::InvalidSignatureEncoding),
                        Option::Some(sig_bytes) => {
                            match payload.get_field("data") {
                                Option::None => Err(VerifyError::MissingData),
                                Option::Some(data) => {
                                    let clear = detect_and_decrypt(data, kp);
                                    let text = to_json(&clear);
                                    let digest = sha256(text.as_str());
                                    let ok = rsa_verify(kp, &digest, &sig_bytes);
                                    Ok(ok)
                                },
                            }
                        },
                    }
                },
                _ => Err(VerifyError::SignatureNotText),
            }
        },
    }
}

/// Signing then verifying succeeds: an envelope binding `data` to the
/// signed document and `signature` to the signature text verifies as
/// `true`, for any document that the decryption pass leaves unchanged (in
/// particular, any document holding no openable ciphertext text).
pub proof fn lemma_sign_then_verify(kp: KeyPair, d: DocV, sig: Seq<char>, env: DocV)
    requires
        good_signature(kp, d, sig),
        fully_decrypted(kp.priv_key(), d),
        env matches DocV::Object(es),
        lookup(env->Object_0, "signature"@) == Some(DocV::Text(sig)),
        lookup(env->Object_0, "data"@) == Some(d),
    ensures
        verify_outcome(kp, env) == Ok::<bool, VerifyError>(true),
{
    lemma_decrypt_fixed(kp.priv_key(), d);
    assert(decrypt_doc(kp.priv_key(), d) == d);
}

} // verus!
