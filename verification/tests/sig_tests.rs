//! Tests for Ed25519 signing and verification.

use esta_kernel::sig::{ModuleSigner, SignatureError, SignatureVerifier};
use sha2::Digest;

#[test]
fn test_key_generation_and_verification() {
    let signer = ModuleSigner::generate().expect("Key generation should succeed");
    let verifier = SignatureVerifier::from_bytes(signer.public_key_bytes())
        .expect("Verifier creation should succeed");

    let data = b"test module data".to_vec();
    let signature = signer.sign(&data);

    assert!(verifier.verify(&data, &signature).is_ok());
}

#[test]
fn test_invalid_signature() {
    let signer = ModuleSigner::generate().expect("Key generation should succeed");
    let verifier = SignatureVerifier::from_bytes(signer.public_key_bytes())
        .expect("Verifier creation should succeed");

    let data = b"test module data".to_vec();
    let signature = signer.sign(&data);

    // Modify the signature.
    let mut bad_sig = hex::decode(&signature).unwrap();
    bad_sig[0] ^= 0xff;
    let bad_sig_hex = hex::encode(bad_sig);

    assert!(matches!(
        verifier.verify(&data, &bad_sig_hex),
        Err(SignatureError::InvalidSignature)
    ));
}

#[test]
fn test_module_verification() {
    let signer = ModuleSigner::generate().expect("Key generation should succeed");
    let verifier = SignatureVerifier::from_bytes(signer.public_key_bytes())
        .expect("Verifier creation should succeed");

    let module_bytes = b"(module)".to_vec();

    // Calculate the checksum.
    let checksum = hex::encode(sha2::Sha256::digest(&module_bytes));

    // Sign the module.
    let signature = signer.sign_module(&module_bytes, &checksum);

    // Verify.
    assert!(verifier.verify_module(&module_bytes, &checksum, &signature).is_ok());
}

#[test]
fn test_checksum_mismatch() {
    let signer = ModuleSigner::generate().expect("Key generation should succeed");
    let verifier = SignatureVerifier::from_bytes(signer.public_key_bytes())
        .expect("Verifier creation should succeed");

    let module_bytes = b"(module)".to_vec();
    let wrong_checksum = "0".repeat(64);
    let signature = signer.sign_module(&module_bytes, &wrong_checksum);

    let result = verifier.verify_module(&module_bytes, &wrong_checksum, &signature);
    assert!(matches!(result, Err(SignatureError::InvalidFormat(_))));
}

#[test]
fn test_invalid_public_key_length() {
    let result = SignatureVerifier::new("abcd"); // Too short
    assert!(matches!(result, Err(SignatureError::InvalidPublicKey)));
}

#[test]
fn test_deterministic_signing() {
    let seed = vec![0u8; 32];
    let signer1 = ModuleSigner::from_seed(&seed).expect("Should create signer");
    let signer2 = ModuleSigner::from_seed(&seed).expect("Should create signer");

    let data = b"test data".to_vec();
    let sig1 = signer1.sign(&data);
    let sig2 = signer2.sign(&data);

    // The same seed yields the same key pair and the same signatures.
    assert_eq!(sig1, sig2);
    assert_eq!(signer1.public_key_hex(), signer2.public_key_hex());
}

#[test]
fn sign_then_verify_round_trip() {
    // For any module and key: verifying what was signed succeeds.
    let signer = ModuleSigner::generate().unwrap();
    let verifier = SignatureVerifier::from_bytes(signer.public_key_bytes()).unwrap();

    let module_bytes = b"arbitrary module payload".to_vec();
    let checksum = hex::encode(sha2::Sha256::digest(&module_bytes));
    let signature = signer.sign_module(&module_bytes, &checksum);

    assert!(verifier.verify_module(&module_bytes, &checksum, &signature).is_ok());
}

#[test]
fn signature_is_128_hex_chars() {
    let signer = ModuleSigner::generate().unwrap();
    let data = b"some data".to_vec();
    let signature = signer.sign(&data);
    assert_eq!(signature.len(), 128);
    assert!(signature.chars().all(|c| c.is_ascii_hexdigit()));
}

#[test]
fn public_key_hex_decodes_to_key_bytes() {
    let signer = ModuleSigner::generate().unwrap();
    let hex_key = signer.public_key_hex();
    let bytes = hex::decode(&hex_key).unwrap();
    assert_eq!(bytes, signer.public_key_bytes());

    let verifier = SignatureVerifier::new(&hex_key).unwrap();
    assert_eq!(verifier.public_key_hex(), hex_key);
}
