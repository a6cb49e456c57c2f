//! Hash functions (`sha2`, `ripemd`, `seahash`) and secp256k1 ECDSA keys and
//! signatures (`secp256k1`), on plain bytes.

use vstd::prelude::*;

use sha2::Digest;

verus! {

/// The SHA-256 digest of `data`.
pub uninterp spec fn sha256_digest(data: Seq<u8>) -> Seq<u8>;

/// `sha2::Sha256::digest`: the digest named by `sha256_digest`, 32 bytes long.
#[verifier::external_body]
pub(crate) fn sha256(data: &[u8]) -> (d: Vec<u8>)
    ensures
        d@ == sha256_digest(data@),
        d@.len() == 32,
{
    sha2::Sha256::digest(data).to_vec()
}

/// The RIPEMD-160 digest of `data`.
pub uninterp spec fn ripemd160_digest(data: Seq<u8>) -> Seq<u8>;

/// `ripemd::Ripemd160::digest`: the digest named by `ripemd160_digest`, 20 bytes long.
#[verifier::external_body]
pub(crate) fn ripemd160(data: &[u8]) -> (d: Vec<u8>)
    ensures
        d@ == ripemd160_digest(data@),
        d@.len() == 20,
{
    ripemd::Ripemd160::digest(data).to_vec()
}

/// The SeaHash of `data`.
pub uninterp spec fn seahash_of(data: Seq<u8>) -> u64;

/// `seahash::hash`: the hash named by `seahash_of`.
#[verifier::external_body]
pub(crate) fn seahash_hash(data: &[u8]) -> (h: u64)
    ensures
        h == seahash_of(data@),
{
    seahash::hash(data)
}

/// Whether 32 bytes are a secp256k1 secret key (non-zero and below the group order).
pub uninterp spec fn secret_key_valid(secret: Seq<u8>) -> bool;

/// The compressed (33-byte) public key of a secret key.
pub uninterp spec fn public_key_of(secret: Seq<u8>) -> Seq<u8>;

/// Whether bytes parse as a secp256k1 public key.
pub uninterp spec fn public_key_parses(key: Seq<u8>) -> bool;

/// The compact (64-byte) ECDSA signature, with RFC 6979 nonces, of a 32-byte digest.
pub uninterp spec fn ecdsa_signature(digest: Seq<u8>, secret: Seq<u8>) -> Seq<u8>;

/// Whether 64 bytes parse as a compact ECDSA signature.
pub uninterp spec fn compact_signature_parses(sig: Seq<u8>) -> bool;

/// Whether an ECDSA signature of a 32-byte digest verifies under a public key.
pub uninterp spec fn ecdsa_verifies(digest: Seq<u8>, sig: Seq<u8>, key: Seq<u8>) -> bool;

/// The text of the error `secp256k1::SecretKey::from_slice` gives on bytes that are
/// not a secret key: the `Display` text of `Error::InvalidSecretKey`.
pub open spec fn invalid_secret_key_text() -> Seq<char> {
    "malformed or out-of-range secret key"@
}

/// The text of the error `secp256k1::ecdsa::Signature::from_compact` gives on bytes
/// that are not a compact signature: the `Display` text of `Error::InvalidSignature`.
pub open spec fn invalid_signature_text() -> Seq<char> {
    "malformed signature"@
}

/// `secp256k1::SecretKey::from_slice`: succeeds exactly on 32 bytes that
/// `secret_key_valid` accepts; otherwise its only error is `InvalidSecretKey`,
/// given here by its `Display` text.
#[verifier::external_body]
pub(crate) fn check_secret_key(secret: &[u8]) -> (r: Result<(), String>)
    ensures
        r is Ok <==> (secret@.len() == 32 && secret_key_valid(secret@)),
        r matches Err(m) ==> m@ == invalid_secret_key_text(),
{
    match secp256k1::SecretKey::from_slice(secret) {
        Ok(_) => Ok(()),
        Err(e) => Err(e.to_string()),
    }
}

/// `secp256k1::Secp256k1::generate_keypair` with the thread's random generator: a
/// random valid secret key and its serialized public key, which parses again.
#[verifier::external_body]
pub(crate) fn generate_keypair() -> (r: (Vec<u8>, Vec<u8>))
    ensures
        r.0@.len() == 32,
        secret_key_valid(r.0@),
        r.1@ == public_key_of(r.0@),
        r.1@.len() == 33,
        public_key_parses(r.1@),
{
    let (sk, pk) = secp256k1::Secp256k1::new().generate_keypair(&mut secp256k1::rand::thread_rng());
    (sk.secret_bytes().to_vec(), pk.serialize().to_vec())
}

/// `secp256k1::PublicKey::from_secret_key`, serialized: the key named by
/// `public_key_of`, 33 bytes, which parses again.
#[verifier::external_body]
pub(crate) fn derive_public_key(secret: &[u8]) -> (key: Vec<u8>)
    requires
        secret@.len() == 32,
        secret_key_valid(secret@),
    ensures
        key@ == public_key_of(secret@),
        key@.len() == 33,
        public_key_parses(key@),
{
    let sk = secp256k1::SecretKey::from_slice(secret).unwrap();
    secp256k1::PublicKey::from_secret_key(&secp256k1::Secp256k1::new(), &sk).serialize().to_vec()
}

/// `secp256k1::Secp256k1::sign_ecdsa`, serialized compactly: the signature named by
/// `ecdsa_signature`, 64 bytes, which parses again and verifies under the
/// signer's public key.
#[verifier::external_body]
pub(crate) fn ecdsa_sign(digest: &[u8], secret: &[u8]) -> (sig: Vec<u8>)
    requires
        digest@.len() == 32,
        secret@.len() == 32,
        secret_key_valid(secret@),
    ensures
        sig@ == ecdsa_signature(digest@, secret@),
        sig@.len() == 64,
        compact_signature_parses(sig@),
        ecdsa_verifies(digest@, sig@, public_key_of(secret@)),
{
    let msg = secp256k1::Message::from_slice(digest).unwrap();
    let sk = secp256k1::SecretKey::from_slice(secret).unwrap();
    secp256k1::Secp256k1::new().sign_ecdsa(&msg, &sk).serialize_compact().to_vec()
}

/// `secp256k1::ecdsa::Signature::from_compact`: succeeds exactly on 64 bytes that
/// `compact_signature_parses` accepts; otherwise its only error is
/// `InvalidSignature`, given here by its `Display` text.
#[verifier::external_body]
pub(crate) fn check_compact_signature(sig: &[u8]) -> (r: Result<(), String>)
    ensures
        r is Ok <==> (sig@.len() == 64 && compact_signature_parses(sig@)),
        r matches Err(m) ==> m@ == invalid_signature_text(),
{
    match secp256k1::ecdsa::Signature::from_compact(sig) {
        Ok(_) => Ok(()),
        Err(e) => Err(e.to_string()),
    }
}

/// `secp256k1::Secp256k1::verify_ecdsa`: whether it succeeds, as named by `ecdsa_verifies`.
#[verifier::external_body]
pub(crate) fn ecdsa_verify(digest: &[u8], sig: &[u8], key: &[u8]) -> (ok: bool)
    requires
        digest@.len() == 32,
        sig@.len() == 64,
        compact_signature_parses(sig@),
        public_key_parses(key@),
    ensures
        ok == ecdsa_verifies(digest@, sig@, key@),
{
    let msg = secp256k1::Message::from_slice(digest).unwrap();
    let signature = secp256k1::ecdsa::Signature::from_compact(sig).unwrap();
    let pk = secp256k1::PublicKey::from_slice(key).unwrap();
    secp256k1::Secp256k1::new().verify_ecdsa(&msg, &signature, &pk).is_ok()
}

} // verus!
