//! Ed25519 signature verification for guest modules.
//!
//! A module's signature covers the ASCII hex of its expected checksum followed
//! by the module bytes; the verifier checks the checksum first and then the
//! signature against a trusted public key.

use crate::encoding::{
    hex_chars_of, hex_decode, hex_decode_of, hex_encode, is_hex_seq, push_bytes, sha256, sha256_of,
};
use vstd::prelude::*;
use vstd::string::{StrSliceExecFns, StringExecFns};

verus! {

/// Errors that can occur during signature operations.
#[derive(Debug)]
pub enum SignatureError {
    /// The signature does not verify under the trusted key.
    InvalidSignature,
    /// No signature was provided for the module.
    MissingSignature,
    /// The public key is not 32 bytes of hex.
    InvalidPublicKey,
    /// Some other input is not in the expected format.
    InvalidFormat(String),
    /// Key generation failed.
    KeyGenerationFailed(String),
}

/// Result type for signature operations.
pub type SignatureResult<T> = Result<T, SignatureError>;

// ---------------------------------------------------------------------------
// Trusted Ed25519 primitives
// ---------------------------------------------------------------------------

/// Whether `sig` is a valid Ed25519 signature of `msg` under public key `pk`;
/// a function of the three values alone.
pub uninterp spec fn ed25519_ok(pk: Seq<u8>, msg: Seq<u8>, sig: Seq<u8>) -> bool;

/// The Ed25519 public key derived from a 32-byte seed; a function of the seed
/// alone.
pub uninterp spec fn ed25519_pub(seed: Seq<u8>) -> Seq<u8>;

/// The Ed25519 signature of `msg` under the key pair derived from `seed`; a
/// function of the two alone.
pub uninterp spec fn ed25519_sig(seed: Seq<u8>, msg: Seq<u8>) -> Seq<u8>;

/// Relies on `ring::signature::UnparsedPublicKey::verify` with the `ED25519`
/// algorithm: acceptance depends only on the key, message and signature
/// bytes.
#[verifier::external_body]
fn ed25519_verify(pk: &Vec<u8>, msg: &Vec<u8>, sig: &Vec<u8>) -> (r: bool)
    ensures
        r == ed25519_ok(pk@, msg@, sig@),
{
    let key = ring::signature::UnparsedPublicKey::new(&ring::signature::ED25519, pk.as_slice());
    key.verify(msg.as_slice(), sig.as_slice()).is_ok()
}

/// Relies on `ring::signature::Ed25519KeyPair::from_seed_unchecked` and
/// `ring::signature::KeyPair::public_key`: a 32-byte seed is accepted and
/// deterministically yields the pair's 32-byte public key.
#[verifier::external_body]
fn ed25519_public_of_seed(seed: &Vec<u8>) -> (r: Vec<u8>)
    requires
        seed@.len() == 32,
    ensures
        r@ == ed25519_pub(seed@),
        r@.len() == 32,
{
    match ring::signature::Ed25519KeyPair::from_seed_unchecked(seed.as_slice()) {
        Ok(kp) => ring::signature::KeyPair::public_key(&kp).as_ref().to_vec(),
        Err(_) => Vec::new(),
    }
}

/// Relies on `ring::signature::Ed25519KeyPair::from_seed_unchecked` and
/// `Ed25519KeyPair::sign`: signing is deterministic in the seed and message,
/// produces 64 bytes, and the result verifies under the pair's public key.
#[verifier::external_body]
fn ed25519_sign_with_seed(seed: &Vec<u8>, msg: &Vec<u8>) -> (r: Vec<u8>)
    requires
        seed@.len() == 32,
    ensures
        r@ == ed25519_sig(seed@, msg@),
        r@.len() == 64,
        ed25519_ok(ed25519_pub(seed@), msg@, r@),
{
    match ring::signature::Ed25519KeyPair::from_seed_unchecked(seed.as_slice()) {
        Ok(kp) => kp.sign(msg.as_slice()).as_ref().to_vec(),
        Err(_) => Vec::new(),
    }
}

// ---------------------------------------------------------------------------
// Verifier
// ---------------------------------------------------------------------------

/// The message a module signature covers: the ASCII hex checksum, then the
/// module bytes.
pub open spec fn signed_message(checksum: Seq<char>, module_bytes: Seq<u8>) -> Seq<u8> {
    vstd::utf8::encode_utf8(checksum) + module_bytes
}

/// Whether a module passes full verification: its checksum is the hex SHA-256
/// of its bytes, and the signature of `checksum ++ bytes` verifies under the
/// key.
pub open spec fn module_verified(
    pk: Seq<u8>,
    module_bytes: Seq<u8>,
    checksum: Seq<char>,
    signature: Seq<char>,
) -> bool {
    &&& checksum == hex_chars_of(sha256_of(module_bytes))
    &&& signature.len() % 2 == 0
    &&& is_hex_seq(signature)
    &&& ed25519_ok(pk, signed_message(checksum, module_bytes), hex_decode_of(signature))
}

/// Signature verifier for guest modules, around a trusted 32-byte Ed25519
/// public key.
#[derive(Debug)]
pub struct SignatureVerifier {
    public_key: Vec<u8>,
}

impl View for SignatureVerifier {
    type V = Seq<u8>;

    closed spec fn view(&self) -> Seq<u8> {
        self.public_key@
    }
}

impl SignatureVerifier {
    /// Well-formedness: the key is 32 bytes.
    pub open spec fn wf(&self) -> bool {
        self@.len() == 32
    }

    /// Create a verifier from a hex-encoded 32-byte public key.
    pub fn new(public_key_hex: &str) -> (r: SignatureResult<Self>)
        ensures
            r matches Ok(v) ==> v.wf() && public_key_hex@.len() % 2 == 0 && is_hex_seq(
                public_key_hex@,
            ) && v@ == hex_decode_of(public_key_hex@),
            r is Err ==> !(public_key_hex@.len() % 2 == 0 && is_hex_seq(public_key_hex@)
                && hex_decode_of(public_key_hex@).len() == 32),
            (r matches Err(e) && e is InvalidFormat) <==> !(public_key_hex@.len() % 2 == 0
                && is_hex_seq(public_key_hex@)),
            (r matches Err(e) && e is InvalidPublicKey) <==> (public_key_hex@.len() % 2 == 0
                && is_hex_seq(public_key_hex@) && hex_decode_of(public_key_hex@).len() != 32),
    {
        let bytes = match hex_decode(public_key_hex) {
            Some(b) => b,
            None => {
                return Err(
                    SignatureError::InvalidFormat(String::from_str("public key is not hex")),
                );
            },
        };
        if bytes.len() != 32 {
            return Err(SignatureError::InvalidPublicKey);
        }
        Ok(SignatureVerifier { public_key: bytes })
    }

    /// Create a verifier from raw public key bytes, which must be 32 bytes.
    pub fn from_bytes(public_key: Vec<u8>) -> (r: SignatureResult<Self>)
        ensures
            r matches Ok(v) ==> v.wf() && v@ == public_key@,
            r is Err <==> public_key@.len() != 32,
    {
        if public_key.len() != 32 {
            return Err(SignatureError::InvalidPublicKey);
        }
        Ok(SignatureVerifier { public_key })
    }

    /// Verify an Ed25519 signature, given as 128 hex characters, over data:
    /// a malformed signature (not hex, or not 64 bytes) is `InvalidFormat`,
    /// and a well-formed one that does not verify is `InvalidSignature`.
    pub fn verify(&self, data: &Vec<u8>, signature_hex: &str) -> (r: SignatureResult<()>)
        ensures
            r is Ok <==> (signature_hex@.len() % 2 == 0 && is_hex_seq(signature_hex@)
                && hex_decode_of(signature_hex@).len() == 64 && ed25519_ok(
                self@,
                data@,
                hex_decode_of(signature_hex@),
            )),
            (r matches Err(e) && e is InvalidFormat) <==> !(signature_hex@.len() % 2 == 0
                && is_hex_seq(signature_hex@) && hex_decode_of(signature_hex@).len() == 64),
            (r matches Err(e) && e is InvalidSignature) <==> (signature_hex@.len() % 2 == 0
                && is_hex_seq(signature_hex@) && hex_decode_of(signature_hex@).len() == 64
                && !ed25519_ok(self@, data@, hex_decode_of(signature_hex@))),
    {
        let signature = match hex_decode(signature_hex) {
            Some(s) => s,
            None => {
                return Err(
                    SignatureError::InvalidFormat(String::from_str("signature is not hex")),
                );
            },
        };
        if signature.len() != 64 {
            return Err(
                SignatureError::InvalidFormat(String::from_str("signature must be 64 bytes")),
            );
        }
        if ed25519_verify(&self.public_key, data, &signature) {
            Ok(())
        } else {
            Err(SignatureError::InvalidSignature)
        }
    }

    /// Verify a module: its checksum must be the hex SHA-256 of its bytes and
    /// the signature must cover `checksum ++ module_bytes`.
    pub fn verify_module(&self, module_bytes: &Vec<u8>, checksum: &str, signature_hex: &str) -> (r:
        SignatureResult<()>)
        ensures
            r is Ok <==> (module_verified(self@, module_bytes@, checksum@, signature_hex@)
                && hex_decode_of(signature_hex@).len() == 64),
            hex_chars_of(sha256_of(module_bytes@)) != checksum@ ==> (r matches Err(e)
                && e is InvalidFormat),
            (hex_chars_of(sha256_of(module_bytes@)) == checksum@ && !(signature_hex@.len() % 2 == 0
                && is_hex_seq(signature_hex@) && hex_decode_of(signature_hex@).len() == 64)) ==> (
            r matches Err(e) && e is InvalidFormat),
            (hex_chars_of(sha256_of(module_bytes@)) == checksum@ && signature_hex@.len() % 2 == 0
                && is_hex_seq(signature_hex@) && hex_decode_of(signature_hex@).len() == 64
                && !ed25519_ok(
                self@,
                signed_message(checksum@, module_bytes@),
                hex_decode_of(signature_hex@),
            )) ==> (r matches Err(e) && e is InvalidSignature),
    {
        let digest = sha256(module_bytes.as_slice());
        let actual = hex_encode(digest.as_slice());
        if !(actual == String::from_str(checksum)) {
            return Err(SignatureError::InvalidFormat(String::from_str("checksum mismatch")));
        }
        let mut signed: Vec<u8> = Vec::new();
        push_bytes(&mut signed, checksum.as_bytes());
        push_bytes(&mut signed, module_bytes.as_slice());
        proof {
            assert(signed@ =~= signed_message(checksum@, module_bytes@));
        }
        self.verify(&signed, signature_hex)
    }

    /// The public key as a hex string.
    pub fn public_key_hex(&self) -> (r: String)
        ensures
            r@ == hex_chars_of(self@),
    {
        hex_encode(self.public_key.as_slice())
    }
}

// ---------------------------------------------------------------------------
// Signer
// ---------------------------------------------------------------------------

/// Key pair for signing guest modules, kept as its 32-byte seed. Used by
/// build tooling, not by the runtime.
pub struct ModuleSigner {
    seed: Vec<u8>,
}

impl View for ModuleSigner {
    type V = Seq<u8>;

    closed spec fn view(&self) -> Seq<u8> {
        self.seed@
    }
}

impl ModuleSigner {
    /// Well-formedness: the seed is 32 bytes.
    pub open spec fn wf(&self) -> bool {
        self@.len() == 32
    }

    /// Generate a new key pair from 32 random bytes; generation always
    /// succeeds.
    pub fn generate() -> (r: SignatureResult<Self>)
        ensures
            r is Ok,
            r matches Ok(s) ==> s.wf(),
    {
        let seed = crate::caps::CapabilityManager::generate_secret();
        Ok(ModuleSigner { seed })
    }

    /// Create a signer from an existing 32-byte seed.
    pub fn from_seed(seed: &Vec<u8>) -> (r: SignatureResult<Self>)
        ensures
            r matches Ok(s) ==> s.wf() && s@ == seed@,
            r is Err <==> seed@.len() != 32,
    {
        if seed.len() != 32 {
            return Err(
                SignatureError::KeyGenerationFailed(String::from_str("seed must be 32 bytes")),
            );
        }
        let mut copy: Vec<u8> = Vec::new();
        push_bytes(&mut copy, seed.as_slice());
        proof {
            assert(copy@ =~= seed@);
        }
        Ok(ModuleSigner { seed: copy })
    }

    /// Sign data; the signature is returned as 128 hex characters that decode
    /// to the 64 signature bytes, which verify under this signer's public key.
    pub fn sign(&self, data: &Vec<u8>) -> (r: String)
        requires
            self.wf(),
        ensures
            r@ == hex_chars_of(ed25519_sig(self@, data@)),
            r@.len() == 128,
            r@.len() % 2 == 0,
            is_hex_seq(r@),
            hex_decode_of(r@) == ed25519_sig(self@, data@),
            ed25519_sig(self@, data@).len() == 64,
            ed25519_ok(ed25519_pub(self@), data@, ed25519_sig(self@, data@)),
    {
        let sig = ed25519_sign_with_seed(&self.seed, data);
        proof {
            lemma_hex_chars_decode(sig@);
            crate::encoding::lemma_hex_bytes_ascii(sig@);
        }
        hex_encode(sig.as_slice())
    }

    /// Sign a module together with its checksum: the signature covers
    /// `checksum ++ module_bytes`, is returned as 128 hex characters decoding
    /// to its 64 bytes, and verifies under this signer's public key.
    pub fn sign_module(&self, module_bytes: &Vec<u8>, checksum: &str) -> (r: String)
        requires
            self.wf(),
        ensures
            r@ == hex_chars_of(
                ed25519_sig(self@, signed_message(checksum@, module_bytes@)),
            ),
            r@.len() == 128,
            r@.len() % 2 == 0,
            is_hex_seq(r@),
            hex_decode_of(r@) == ed25519_sig(self@, signed_message(checksum@, module_bytes@)),
            ed25519_sig(self@, signed_message(checksum@, module_bytes@)).len() == 64,
            ed25519_ok(
                ed25519_pub(self@),
                signed_message(checksum@, module_bytes@),
                ed25519_sig(self@, signed_message(checksum@, module_bytes@)),
            ),
    {
        let mut signed: Vec<u8> = Vec::new();
        push_bytes(&mut signed, checksum.as_bytes());
        push_bytes(&mut signed, module_bytes.as_slice());
        proof {
            assert(signed@ =~= signed_message(checksum@, module_bytes@));
        }
        self.sign(&signed)
    }

    /// The public key as a hex string.
    pub fn public_key_hex(&self) -> (r: String)
        requires
            self.wf(),
        ensures
            r@ == hex_chars_of(ed25519_pub(self@)),
    {
        let pk = ed25519_public_of_seed(&self.seed);
        hex_encode(pk.as_slice())
    }

    /// The public key bytes.
    pub fn public_key_bytes(&self) -> (r: Vec<u8>)
        requires
            self.wf(),
        ensures
            r@ == ed25519_pub(self@),
            r@.len() == 32,
    {
        ed25519_public_of_seed(&self.seed)
    }
}

// ---------------------------------------------------------------------------
// Sign-then-verify law
// ---------------------------------------------------------------------------

/// Signing a module and handing the signature, the true checksum and the
/// pair's public key to the verifier always verifies: the checksum matches by
/// construction and the signature verifies under the key that signed it.
pub proof fn lemma_sign_then_verify(seed: Seq<u8>, module_bytes: Seq<u8>)
    requires
        ed25519_ok(
            ed25519_pub(seed),
            signed_message(hex_chars_of(sha256_of(module_bytes)), module_bytes),
            ed25519_sig(seed, signed_message(
                hex_chars_of(sha256_of(module_bytes)),
                module_bytes,
            )),
        ),
        ed25519_sig(seed, signed_message(hex_chars_of(sha256_of(module_bytes)), module_bytes)).len()
            == 64,
    ensures
        ({
            let checksum = hex_chars_of(sha256_of(module_bytes));
            let signature = hex_chars_of(ed25519_sig(seed, signed_message(
                checksum,
                module_bytes,
            )));
            &&& module_verified(ed25519_pub(seed), module_bytes, checksum, signature)
            &&& hex_decode_of(signature).len() == 64
        }),
{
    let checksum = hex_chars_of(sha256_of(module_bytes));
    let sig_bytes = ed25519_sig(seed, signed_message(checksum, module_bytes));
    lemma_hex_chars_decode(sig_bytes);
}

/// Hex encoding always yields an even number of hex digits that decode back
/// to the original bytes.
pub proof fn lemma_hex_chars_decode(bytes: Seq<u8>)
    ensures
        hex_chars_of(bytes).len() % 2 == 0,
        is_hex_seq(hex_chars_of(bytes)),
        hex_decode_of(hex_chars_of(bytes)) == bytes,
    decreases bytes.len(),
{
    crate::encoding::lemma_hex_bytes_ascii(bytes);
    if bytes.len() == 0 {
        assert(hex_chars_of(bytes) =~= Seq::<char>::empty());
        assert(hex_decode_of(hex_chars_of(bytes)) =~= bytes);
    } else {
        lemma_hex_chars_decode(bytes.drop_first());
        let hb = crate::encoding::hex_bytes_of(bytes);
        let hc = hex_chars_of(bytes);
        let rest = crate::encoding::hex_bytes_of(bytes.drop_first());
        assert(hb =~= seq![
            crate::encoding::hex_digit_byte(bytes[0] / 16),
            crate::encoding::hex_digit_byte(bytes[0] % 16),
        ] + rest);
        assert(hc.skip(2) =~= hex_chars_of(bytes.drop_first()));
        assert(hc[0] == crate::encoding::hex_digit_byte(bytes[0] / 16) as char);
        assert(hc[1] == crate::encoding::hex_digit_byte(bytes[0] % 16) as char);
        lemma_hex_digit_val(bytes[0] / 16);
        lemma_hex_digit_val(bytes[0] % 16);
        assert forall|i: int| 0 <= i < hc.len() implies crate::encoding::is_hex_digit(
            #[trigger] hc[i],
        ) by {
            if i >= 2 {
                assert(hc[i] == hex_chars_of(bytes.drop_first())[i - 2]);
            }
        }
        assert((crate::encoding::hex_val(hc[0]) * 16 + crate::encoding::hex_val(hc[1])) as u8
            == bytes[0]);
        assert(hex_decode_of(hc) =~= seq![bytes[0]] + hex_decode_of(hc.skip(2)));
        assert(hex_decode_of(hc) =~= bytes);
    }
}

/// A hex digit byte reads back as the value it encodes.
proof fn lemma_hex_digit_val(v: u8)
    requires
        v < 16,
    ensures
        crate::encoding::is_hex_digit(crate::encoding::hex_digit_byte(v) as char),
        crate::encoding::hex_val(crate::encoding::hex_digit_byte(v) as char) == v,
{
}

} // verus!
