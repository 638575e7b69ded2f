//! Key material and the trusted layer over the RSA, base64 and SHA-256
//! primitives.
//!
//! Everything the engine assumes about those primitives is collected here:
//! a handful of named results (`b64_encoding`, `rsa_plaintext`, ...) and the
//! `external_body` wrappers whose contracts state, over those names, what
//! each outside call returns.  A [`KeyPair`] can only be built by
//! [`KeyPair::generate`] or [`KeyPair::from_private`], both of which derive
//! the public half from the private one, so the two halves of any `KeyPair`
//! always match; the round-trip contracts below are stated for such matched
//! pairs.
//!
//! Note that this engine's `verify` operation decrypts embedded fields
//! before hashing, so a verifier holds the whole pair, private half
//! included; this departs from the usual asymmetric trust split and is
//! inherited behaviour, kept deliberately.

use rsa::PublicKey;
use rsa::PublicKeyParts;
use vstd::prelude::*;

verus! {

#[verifier::external_type_specification]
#[verifier::external_body]
pub struct ExRsaPublicKey(rsa::RsaPublicKey);

#[verifier::external_type_specification]
#[verifier::external_body]
pub struct ExRsaPrivateKey(rsa::RsaPrivateKey);

/// An RSA key pair whose public half is derived from its private half.
pub struct KeyPair {
    public: rsa::RsaPublicKey,
    private: rsa::RsaPrivateKey,
}

/// The base64 text of a byte string, as `base64::encode` produces it.
pub uninterp spec fn b64_encoding(bytes: Seq<u8>) -> Seq<char>;

/// What `base64::decode` makes of a text: the decoded bytes, or nothing
/// where the text is not valid base64.
pub uninterp spec fn b64_decoding(text: Seq<char>) -> Option<Seq<u8>>;

/// What PKCS#1 v1.5 decryption under `key` followed by UTF-8 decoding makes
/// of a ciphertext: the recovered text, or nothing where either step fails.
/// Decryption and UTF-8 decoding are both deterministic in (key, bytes).
pub uninterp spec fn rsa_plaintext(key: rsa::RsaPrivateKey, cipher: Seq<u8>) -> Option<Seq<char>>;

/// The SHA-256 digest of the UTF-8 bytes of a text.
pub uninterp spec fn sha256_digest(text: Seq<char>) -> Seq<u8>;

/// The PKCS#1 v1.5 signature of a digest under `key` (deterministic: this
/// padding scheme for signing adds no randomness).
pub uninterp spec fn rsa_signature(key: rsa::RsaPrivateKey, digest: Seq<u8>) -> Seq<u8>;

/// Whether PKCS#1 v1.5 signature verification under `key` accepts
/// `sig` as a signature of `digest`.
pub uninterp spec fn rsa_verify_ok(key: rsa::RsaPublicKey, digest: Seq<u8>, sig: Seq<u8>) -> bool;

/// Whether PKCS#1 v1.5 encryption under `key` accepts the UTF-8 bytes of
/// `text`: it refuses exactly an invalid public exponent, a message longer
/// than the modulus leaves room for, or a modulus too short to hold the
/// eleven padding bytes at all (the wrapper below refuses such keys before
/// calling, since the crate's own length check underflows there).  All
/// three are functions of key and text alone.
pub uninterp spec fn rsa_accepts_text(key: rsa::RsaPublicKey, text: Seq<char>) -> bool;

/// Whether PKCS#1 v1.5 signing under `key` accepts `digest`: without
/// blinding the whole signing path is deterministic in key and digest, so
/// acceptance is too.
pub uninterp spec fn rsa_sign_ok(key: rsa::RsaPrivateKey, digest: Seq<u8>) -> bool;

impl KeyPair {
    /// The private half, for contracts.
    pub closed spec fn priv_key(&self) -> rsa::RsaPrivateKey {
        self.private
    }

    /// The public half, for contracts.
    pub closed spec fn pub_key(&self) -> rsa::RsaPublicKey {
        self.public
    }

    /// Relies on `RsaPrivateKey::new` and `RsaPublicKey::from`: a fresh pair
    /// whose public half is derived from the private one.  Fails for moduli
    /// the crate cannot generate.
    #[verifier::external_body]
    pub fn generate(bits: usize) -> (r: Option<KeyPair>)
    {
        let mut rng = rand::rngs::OsRng;
        match rsa::RsaPrivateKey::new(&mut rng, bits) {
            Ok(private) => {
                let public = rsa::RsaPublicKey::from(&private);
                Some(KeyPair { public, private })
            },
            Err(_) => None,
        }
    }

    /// Relies on `RsaPublicKey::from`: the public half derived from the
    /// given private key.
    #[verifier::external_body]
    pub fn from_private(private: rsa::RsaPrivateKey) -> (r: KeyPair)
    {
        let public = rsa::RsaPublicKey::from(&private);
        KeyPair { public, private }
    }

    pub fn public_key(&self) -> (r: &rsa::RsaPublicKey)
        ensures
            *r == self.pub_key(),
    {
        &self.public
    }

    pub fn private_key(&self) -> (r: &rsa::RsaPrivateKey)
        ensures
            *r == self.priv_key(),
    {
        &self.private
    }
}

/// Relies on `base64::encode`: the base64 text of the bytes, which
/// `base64::decode` maps back to exactly those bytes, and which is at least
/// as long as the input.
#[verifier::external_body]
pub(crate) fn b64_encode(bytes: &Vec<u8>) -> (r: String)
    ensures
        r@ == b64_encoding(bytes@),
        b64_decoding(r@) == Some(bytes@),
        r@.len() >= bytes@.len(),
{
    base64::encode(bytes)
}

/// Relies on `base64::decode`: the decoded bytes of a valid base64 text
/// (never more bytes than the text has characters), or nothing.
#[verifier::external_body]
pub(crate) fn b64_decode(text: &str) -> (r: Option<Vec<u8>>)
    ensures
        match r {
            Some(b) => b64_decoding(text@) == Some(b@) && b@.len() <= text@.len(),
            None => b64_decoding(text@) is None,
        },
{
    base64::decode(text).ok()
}

/// Relies on `RsaPublicKey::encrypt` with PKCS#1 v1.5 padding: it fails
/// exactly when the modulus is too short for the padding, the key's public
/// exponent is invalid, or the message does not fit the modulus (all
/// deterministic in key and text); on success it yields a ciphertext that
/// decrypts under the pair's private key to exactly the input text, and
/// that is at least eleven bytes longer than that text, since the
/// ciphertext fills the whole modulus and the padding takes eleven bytes.
/// The guard on the modulus size stands in for the length check the crate
/// itself skips (by unchecked subtraction) on such short keys.
#[verifier::external_body]
pub(crate) fn rsa_encrypt_text(kp: &KeyPair, text: &str) -> (r: Option<Vec<u8>>)
    ensures
        r is Some <==> rsa_accepts_text(kp.pub_key(), text@),
        match r {
            Some(c) => rsa_plaintext(kp.priv_key(), c@) == Some(text@) && text@.len() + 11 <= c@.len(),
            None => true,
        },
{
    if kp.public.size() < 11 {
        return None;
    }
    let mut rng = rand::rngs::OsRng;
    kp.public.encrypt(&mut rng, rsa::PaddingScheme::new_pkcs1v15_encrypt(), text.as_bytes()).ok()
}

/// Relies on `RsaPrivateKey::decrypt` with PKCS#1 v1.5 padding and
/// `String::from_utf8`: the recovered text, or nothing where decryption or
/// UTF-8 decoding fails.  (The padding bounds the plaintext against the
/// modulus size, not against the handed-in buffer, so no length relation
/// between the two arguments is assumed here; the decryptor tests lengths
/// executably where it needs them.)
#[verifier::external_body]
pub(crate) fn rsa_decrypt_text(kp: &KeyPair, cipher: &Vec<u8>) -> (r: Option<String>)
    ensures
        match r {
            Some(t) => rsa_plaintext(kp.priv_key(), cipher@) == Some(t@),
            None => rsa_plaintext(kp.priv_key(), cipher@) is None,
        },
{
    match kp.private.decrypt(rsa::PaddingScheme::new_pkcs1v15_encrypt(), cipher) {
        Ok(bytes) => String::from_utf8(bytes).ok(),
        Err(_) => None,
    }
}

/// Relies on `crypto_hash::digest` with the SHA-256 algorithm over the
/// UTF-8 bytes of the text; a SHA-256 digest is 32 bytes.
#[verifier::external_body]
pub(crate) fn sha256(text: &str) -> (r: Vec<u8>)
    ensures
        r@ == sha256_digest(text@),
        r@.len() == 32,
{
    crypto_hash::digest(crypto_hash::Algorithm::SHA256, text.as_bytes())
}

/// Relies on `RsaPrivateKey::sign` with PKCS#1 v1.5 padding, which without
/// blinding is deterministic in key and digest (so acceptance is too), and
/// on `RsaPublicKey::verify` accepting what `sign` produced under the
/// matching key.
#[verifier::external_body]
pub(crate) fn rsa_sign(kp: &KeyPair, digest: &Vec<u8>) -> (r: Option<Vec<u8>>)
    ensures
        r is Some <==> rsa_sign_ok(kp.priv_key(), digest@),
        match r {
            Some(sig) => sig@ == rsa_signature(kp.priv_key(), digest@) && rsa_verify_ok(
                kp.pub_key(),
                digest@,
                sig@,
            ),
            None => true,
        },
{
    kp.private.sign(rsa::PaddingScheme::new_pkcs1v15_sign(None), digest).ok()
}

/// Relies on `RsaPublicKey::verify` with PKCS#1 v1.5 padding, which is
/// deterministic in (key, digest, signature).
#[verifier::external_body]
pub(crate) fn rsa_verify(kp: &KeyPair, digest: &Vec<u8>, sig: &Vec<u8>) -> (r: bool)
    ensures
        r == rsa_verify_ok(kp.pub_key(), digest@, sig@),
{
    kp.public.verify(rsa::PaddingScheme::new_pkcs1v15_sign(None), digest, sig).is_ok()
}

} // verus!
