//! End-to-end behaviour of the engine with real RSA keys: encryption round
//! trips, signing and verification, and the exact shape errors.

use fieldcrypt::config::{get_config, ConfigError, FieldSelector};
use fieldcrypt::decryptor::detect_and_decrypt;
use fieldcrypt::doc::Document;
use fieldcrypt::encryptor::{detect_and_encrypt, encrypt_depth_1, EncryptError};
use fieldcrypt::keys::KeyPair;
use fieldcrypt::signature::{get_signature, get_verification, VerifyError};

fn obj(entries: Vec<(&str, Document)>) -> Document {
    Document::Object(entries.into_iter().map(|(k, v)| (k.to_string(), v)).collect())
}

fn text(s: &str) -> Document {
    Document::Text(s.to_string())
}

fn keys() -> KeyPair {
    KeyPair::generate(512).expect("key generation")
}

fn envelope(data: Document, sig: &str) -> Document {
    obj(vec![("data", data), ("signature", text(sig))])
}

#[test]
fn depth_1_round_trip() {
    let kp = keys();
    let d = obj(vec![("a", text("b"))]);
    let enc = encrypt_depth_1(&d, &kp).unwrap();
    match &enc {
        Document::Object(entries) => {
            assert_eq!(entries.len(), 1);
            assert_eq!(entries[0].0, "a");
            match &entries[0].1 {
                Document::Text(c) => assert_ne!(c, "b"),
                other => panic!("expected ciphertext text, got {:?}", other),
            }
        },
        other => panic!("expected a mapping, got {:?}", other),
    }
    assert_eq!(detect_and_decrypt(&enc, &kp), d);
}

#[test]
fn depth_1_rejects_non_mappings() {
    let kp = keys();
    let arr = Document::Array(vec![Document::Int(1)]);
    assert_eq!(encrypt_depth_1(&arr, &kp).unwrap_err(), EncryptError::NotAnObject);
    assert_eq!(encrypt_depth_1(&text("x"), &kp).unwrap_err(), EncryptError::NotAnObject);
}

#[test]
fn selective_encrypts_at_any_depth() {
    let kp = keys();
    let sel = FieldSelector::from_fields(vec!["secret".to_string()]);
    let d = obj(vec![
        ("secret", obj(vec![("x", Document::Int(1))])),
        ("open", obj(vec![("secret", Document::Int(2))])),
    ]);
    let enc = detect_and_encrypt(&d, &kp, &sel).unwrap();
    match &enc {
        Document::Object(entries) => {
            assert_eq!(entries.len(), 2);
            assert!(matches!(entries[0].1, Document::Text(_)), "top-level secret is ciphertext");
            match &entries[1].1 {
                Document::Object(inner) => {
                    assert_eq!(inner[0].0, "secret");
                    assert!(
                        matches!(inner[0].1, Document::Text(_)),
                        "nested secret is ciphertext too"
                    );
                },
                other => panic!("open must stay a mapping, got {:?}", other),
            }
        },
        other => panic!("expected a mapping, got {:?}", other),
    }
    assert_eq!(detect_and_decrypt(&enc, &kp), d);
}

#[test]
fn selective_keeps_unselected_values() {
    let kp = keys();
    let sel = FieldSelector::from_fields(vec!["none".to_string()]);
    let d = obj(vec![("a", text("plain")), ("b", Document::Int(7))]);
    let enc = detect_and_encrypt(&d, &kp, &sel).unwrap();
    assert_eq!(enc, d);
}

#[test]
fn decryption_is_idempotent() {
    let kp = keys();
    let sel = FieldSelector::from_fields(vec!["s".to_string()]);
    let d = obj(vec![("s", Document::Array(vec![Document::Int(3)])), ("t", text("keep"))]);
    let enc = detect_and_encrypt(&d, &kp, &sel).unwrap();
    let once = detect_and_decrypt(&enc, &kp);
    let twice = detect_and_decrypt(&once, &kp);
    assert_eq!(once, twice);
    assert_eq!(once, d);
}

#[test]
fn decryption_leaves_plain_documents_alone() {
    let kp = keys();
    let d = obj(vec![
        ("a", text("hello world")),
        ("b", Document::Array(vec![text("zzz"), Document::Null])),
    ]);
    assert_eq!(detect_and_decrypt(&d, &kp), d);
}

#[test]
fn sign_and_verify_round_trip() {
    let kp = keys();
    let d = obj(vec![("nice", text("to meet you"))]);
    let sig = get_signature(&d, &kp).unwrap();
    let env = envelope(d, &sig);
    assert_eq!(get_verification(&env, &kp).unwrap(), true);
}

#[test]
fn verify_rejects_tampered_data() {
    let kp = keys();
    let d = obj(vec![("nice", text("to meet you"))]);
    let sig = get_signature(&d, &kp).unwrap();
    let tampered = obj(vec![("nice", text("hi"))]);
    let env = envelope(tampered, &sig);
    assert_eq!(get_verification(&env, &kp).unwrap(), false);
    let one_byte = obj(vec![("nice", text("to meet yoU"))]);
    let env2 = envelope(one_byte, &sig);
    assert_eq!(get_verification(&env2, &kp).unwrap(), false);
}

#[test]
fn verify_uses_decrypted_data() {
    // the signature covers the clear document; verification decrypts the
    // embedded data before re-hashing, so an encrypted envelope still
    // verifies
    let kp = keys();
    let sel = FieldSelector::from_fields(vec!["card".to_string()]);
    let d = obj(vec![("card", text("4000-1111"))]);
    let sig = get_signature(&d, &kp).unwrap();
    let enc = detect_and_encrypt(&d, &kp, &sel).unwrap();
    let env = envelope(enc, &sig);
    assert_eq!(get_verification(&env, &kp).unwrap(), true);
}

#[test]
fn verify_missing_signature() {
    let kp = keys();
    let env = obj(vec![("data", text("abcdefg"))]);
    assert_eq!(get_verification(&env, &kp).unwrap_err(), VerifyError::MissingSignature);
    assert_eq!(get_verification(&text("bare"), &kp).unwrap_err(), VerifyError::MissingSignature);
}

#[test]
fn verify_signature_shape_errors() {
    let kp = keys();
    let not_text = obj(vec![("signature", Document::Int(5)), ("data", Document::Null)]);
    assert_eq!(get_verification(&not_text, &kp).unwrap_err(), VerifyError::SignatureNotText);
    let bad_b64 = obj(vec![("signature", text("!!!")), ("data", Document::Null)]);
    assert_eq!(
        get_verification(&bad_b64, &kp).unwrap_err(),
        VerifyError::InvalidSignatureEncoding
    );
    let no_data = obj(vec![("signature", text("AAAA"))]);
    assert_eq!(get_verification(&no_data, &kp).unwrap_err(), VerifyError::MissingData);
}

#[test]
fn config_reads_field_lists() {
    let d = obj(vec![("fieldsToEncrypt", Document::Array(vec![text("a"), text("b")]))]);
    let fields = get_config(&d).unwrap();
    assert_eq!(fields, vec!["a".to_string(), "b".to_string()]);
}

#[test]
fn config_shape_errors() {
    let missing = obj(vec![("other", Document::Int(1))]);
    assert_eq!(get_config(&missing).unwrap_err(), ConfigError::MissingField);
    assert_eq!(get_config(&Document::Null).unwrap_err(), ConfigError::MissingField);
    let not_array = obj(vec![("fieldsToEncrypt", Document::Int(5))]);
    assert_eq!(get_config(&not_array).unwrap_err(), ConfigError::WrongType);
    let bad_elem = obj(vec![("fieldsToEncrypt", Document::Array(vec![Document::Int(1)]))]);
    assert_eq!(get_config(&bad_elem).unwrap_err(), ConfigError::WrongType);
}

#[test]
fn selector_membership() {
    let mut sel = FieldSelector::new();
    assert!(!sel.selects(&"a".to_string()));
    sel.replace(vec!["a".to_string(), "b".to_string()]);
    assert!(sel.selects(&"a".to_string()));
    assert!(sel.selects(&"b".to_string()));
    assert!(!sel.selects(&"c".to_string()));
}

#[test]
fn compound_values_round_trip_as_documents() {
    // an encrypted compound value decrypts back to the compound document,
    // not to a string holding its text
    let kp = keys();
    let sel = FieldSelector::from_fields(vec!["deep".to_string()]);
    let inner = Document::Array(vec![Document::Int(1), obj(vec![("k", Document::Bool(true))])]);
    let d = obj(vec![("deep", inner.duplicate())]);
    let enc = detect_and_encrypt(&d, &kp, &sel).unwrap();
    let dec = detect_and_decrypt(&enc, &kp);
    match &dec {
        Document::Object(entries) => assert_eq!(entries[0].1, inner),
        other => panic!("expected a mapping, got {:?}", other),
    }
}

#[test]
fn get_field_returns_first_binding() {
    let d = obj(vec![("k", Document::Int(1)), ("k", Document::Int(2))]);
    match d.get_field("k") {
        Some(Document::Int(v)) => assert_eq!(*v, 1),
        other => panic!("expected the first binding, got {:?}", other),
    }
    assert!(d.get_field("missing").is_none());
}

#[test]
fn depth_1_of_empty_mapping() {
    let kp = keys();
    let d = obj(vec![]);
    let enc = encrypt_depth_1(&d, &kp).unwrap();
    assert_eq!(enc, obj(vec![]));
    assert_eq!(detect_and_decrypt(&enc, &kp), obj(vec![]));
}

#[test]
fn oversized_value_fails_encryption() {
    // a 512-bit modulus leaves room for 53 plaintext bytes; a longer
    // canonical text must surface EncryptionFailed, never silent loss
    let kp = keys();
    let long = "x".repeat(200);
    let d = obj(vec![("a", text(&long))]);
    assert_eq!(encrypt_depth_1(&d, &kp).unwrap_err(), EncryptError::EncryptionFailed);
    let sel = FieldSelector::from_fields(vec!["a".to_string()]);
    assert_eq!(detect_and_encrypt(&d, &kp, &sel).unwrap_err(), EncryptError::EncryptionFailed);
}

#[test]
fn round_trip_with_unicode_text() {
    let kp = keys();
    let d = obj(vec![("greeting", text("salut \u{e9}t\u{e9} \u{2603}"))]);
    let enc = encrypt_depth_1(&d, &kp).unwrap();
    assert_eq!(detect_and_decrypt(&enc, &kp), d);
}

#[test]
fn empty_selection_is_the_identity_and_succeeds() {
    // the process-start state: no fields configured; nothing is handed to
    // the cipher, so encryption cannot fail and changes nothing
    let kp = keys();
    let sel = FieldSelector::new();
    let d = obj(vec![
        ("a", text("plain")),
        ("b", Document::Array(vec![Document::Int(1), obj(vec![("c", Document::Null)])])),
    ]);
    let enc = detect_and_encrypt(&d, &kp, &sel).expect("no selection, no failure");
    assert_eq!(enc, d);
}
