//! Sealing under the node's keys.

use vstd::prelude::*;
use vstd::slice::slice_subrange;
use vstd::utf8::encode_utf8;
use aes_gcm::aead::{Aead, Payload};
use aes_gcm::{Aes256Gcm, KeyInit, Nonce};
use hkdf::Hkdf;
use rand::RngCore;
use sha2::{Digest, Sha256};
use zeroize::Zeroize;
use crate::bytes::{copy_bytes, put_bytes, same_bytes};
use crate::error::Error;
use crate::table::Key;

verus! {

/// What AES-256-GCM makes of a message: ciphertext and tag.
pub uninterp spec fn aes256gcm_sealed(key: Seq<u8>, nonce: Seq<u8>, aad: Seq<u8>, message: Seq<u8>) -> Seq<u8>;

/// What AES-256-GCM finds in ciphertext and tag, if they authenticate.
pub uninterp spec fn aes256gcm_opened(key: Seq<u8>, nonce: Seq<u8>, aad: Seq<u8>, sealed: Seq<u8>) -> Option<Seq<u8>>;

/// The SHA-256 digest of a message.
pub uninterp spec fn sha256_digest(message: Seq<u8>) -> Seq<u8>;

/// Thirty-two bytes of HKDF-SHA-256 output.
pub uninterp spec fn hkdf_sha256(salt: Seq<u8>, material: Seq<u8>, info: Seq<u8>) -> Seq<u8>;

/// The X25519 public key of a secret key.
pub uninterp spec fn x25519_public(secret: Seq<u8>) -> Seq<u8>;

/// The longest message, and the longest associated data, that AES-GCM takes.
pub open spec fn gcm_max() -> nat {
    0x10_0000_0000
}

/// `Aead::encrypt` of the `aes-gcm` crate's `Aes256Gcm`. It fails exactly on a
/// message or associated data of more than 2^36 bytes. What it returns is 16
/// bytes longer than the message, and decryption under the same key, nonce and
/// associated data gives the message back.
#[verifier::external_body]
fn aes256gcm_encrypt(key: &[u8; 32], nonce: &[u8; 12], aad: &[u8], message: &[u8]) -> (r: Option<Vec<u8>>)
    requires
        message@.len() + 16 <= isize::MAX,
    ensures
        r is Some == (message@.len() <= gcm_max() && aad@.len() <= gcm_max()),
        r is Some ==> r->0@ == aes256gcm_sealed(key@, nonce@, aad@, message@),
        r is Some ==> r->0@.len() == message@.len() + 16,
        r is Some ==> aes256gcm_opened(key@, nonce@, aad@, r->0@) == Some(message@),
{
    let cipher = Aes256Gcm::new_from_slice(key).expect("AES-256 key");
    cipher.encrypt(Nonce::from_slice(nonce), Payload { msg: message, aad }).ok()
}

/// `Aead::decrypt` of the `aes-gcm` crate's `Aes256Gcm`. The message it returns
/// is 16 bytes shorter than what it was given.
#[verifier::external_body]
fn aes256gcm_decrypt(key: &[u8; 32], nonce: &[u8; 12], aad: &[u8], sealed: &[u8]) -> (r: Option<Vec<u8>>)
    ensures
        match r {
            Some(m) => aes256gcm_opened(key@, nonce@, aad@, sealed@) == Some(m@) && m@.len() + 16 == sealed@.len(),
            None => aes256gcm_opened(key@, nonce@, aad@, sealed@) is None,
        },
{
    let cipher = Aes256Gcm::new_from_slice(key).expect("AES-256 key");
    cipher.decrypt(Nonce::from_slice(nonce), Payload { msg: sealed, aad }).ok()
}

/// Twelve bytes from `rand::thread_rng`. Nothing is known of them.
#[verifier::external_body]
fn random_nonce() -> (r: [u8; 12]) {
    let mut nonce = [0u8; 12];
    rand::thread_rng().fill_bytes(&mut nonce);
    nonce
}

/// `Sha256::digest` of the `sha2` crate.
#[verifier::external_body]
pub(crate) fn sha256(message: &[u8]) -> (r: [u8; 32])
    ensures
        r@ == sha256_digest(message@),
{
    Sha256::digest(message).into()
}

/// `Hkdf::<Sha256>` of the `hkdf` crate: extract with the salt, then expand to
/// thirty-two bytes, a length that expansion always takes.
#[verifier::external_body]
pub(crate) fn hkdf_expand(salt: &[u8], material: &[u8], info: &[u8]) -> (r: [u8; 32])
    ensures
        r@ == hkdf_sha256(salt@, material@, info@),
{
    let mut out = [0u8; 32];
    Hkdf::<Sha256>::new(Some(salt), material).expand(info, &mut out).expect("32 bytes fit hkdf-sha256");
    out
}

/// `PublicKey::from` of the `x25519-dalek` crate on a `StaticSecret`.
#[verifier::external_body]
pub(crate) fn x25519_public_key(secret: &[u8; 32]) -> (r: [u8; 32])
    ensures
        r@ == x25519_public(secret@),
{
    x25519_dalek::PublicKey::from(&x25519_dalek::StaticSecret::from(*secret)).to_bytes()
}

/// `Zeroize::zeroize` of the `zeroize` crate on a vector, which it leaves empty.
#[verifier::external_body]
pub(crate) fn zeroize_bytes(secret: &mut Vec<u8>)
    ensures
        final(secret)@.len() == 0,
{
    secret.zeroize();
}

/// What a sealed value is bound to: the node's identity and three labels.
#[derive(Debug, PartialEq, Eq)]
pub struct SessionContext {
    pub identity: [u8; 32],
    pub first: Vec<u8>,
    pub second: Vec<u8>,
    pub third: Vec<u8>,
}

pub struct ContextView {
    pub identity: Seq<u8>,
    pub first: Seq<u8>,
    pub second: Seq<u8>,
    pub third: Seq<u8>,
}

impl View for SessionContext {
    type V = ContextView;

    open spec fn view(&self) -> ContextView {
        ContextView {
            identity: self.identity@,
            first: self.first@,
            second: self.second@,
            third: self.third@,
        }
    }
}

impl SessionContext {
    /// The context of a node's identity key and three labels.
    pub fn of_identity(identity_pk: &[u8], first: &[u8], second: &[u8], third: &[u8]) -> (r: Self)
        ensures
            r@ == context_view(identity_pk@, first@, second@, third@),
    {
        SessionContext {
            identity: sha256(identity_pk),
            first: copy_bytes(first),
            second: copy_bytes(second),
            third: copy_bytes(third),
        }
    }

}

impl Key for SessionContext {
    fn same_key(&self, other: &Self) -> (r: bool) {
        same_bytes(&self.identity, &other.identity) && same_bytes(self.first.as_slice(), other.first.as_slice())
            && same_bytes(self.second.as_slice(), other.second.as_slice()) && same_bytes(
            self.third.as_slice(),
            other.third.as_slice(),
        )
    }

    fn copy_key(&self) -> (r: Self) {
        SessionContext {
            identity: self.identity,
            first: copy_bytes(self.first.as_slice()),
            second: copy_bytes(self.second.as_slice()),
            third: copy_bytes(self.third.as_slice()),
        }
    }
}

pub open spec fn context_view(identity_pk: Seq<u8>, first: Seq<u8>, second: Seq<u8>, third: Seq<u8>) -> ContextView {
    ContextView { identity: sha256_digest(identity_pk), first, second, third }
}

/// What `open_bytes` makes of a sealed value: a message that is twenty-eight bytes
/// shorter, for the nonce and the tag.
pub open spec fn opened(key: Seq<u8>, aad: Seq<u8>, sealed: Seq<u8>) -> Result<Seq<u8>, Error> {
    if sealed.len() < 28 {
        Err(Error::Malformed)
    } else {
        match aes256gcm_opened(key, sealed.subrange(0, 12), aad, sealed.subrange(12, sealed.len() as int)) {
            Some(message) if message.len() + 28 == sealed.len() => Ok(message),
            _ => Err(Error::AuthenticationFailed),
        }
    }
}

/// Whether a message of so many bytes can be sealed with so much associated data.
pub open spec fn sealable(message: nat, aad: nat) -> bool {
    message <= gcm_max() && aad <= gcm_max() && message + 16 <= isize::MAX
}

/// Seals a message: a fresh nonce, then ciphertext and tag.
pub fn seal_bytes(wrapping_key: &[u8; 32], aad: &[u8], plaintext: &[u8]) -> (r: Result<Vec<u8>, Error>)
    ensures
        r is Ok <==> sealable(plaintext@.len(), aad@.len()),
        match r {
            Ok(sealed) => sealed@.len() == plaintext@.len() + 28 && opened(wrapping_key@, aad@, sealed@) == Ok::<
                Seq<u8>,
                Error,
            >(plaintext@),
            Err(e) => e == Error::SealFailed,
        },
{
    if plaintext.len() > isize::MAX as usize - 16 {
        return Err(Error::SealFailed);
    }
    let nonce = random_nonce();
    match aes256gcm_encrypt(wrapping_key, &nonce, aad, plaintext) {
        Some(ciphertext) => {
            let mut out: Vec<u8> = copy_bytes(&nonce);
            put_bytes(&mut out, ciphertext.as_slice());
            assert(out@.subrange(0, 12) =~= nonce@);
            assert(out@.subrange(12, out@.len() as int) =~= ciphertext@);
            Ok(out)
        },
        None => Err(Error::SealFailed),
    }
}

/// Opens a sealed value.
pub fn open_bytes(wrapping_key: &[u8; 32], aad: &[u8], sealed: &[u8]) -> (r: Result<Vec<u8>, Error>)
    ensures
        match r {
            Ok(message) => opened(wrapping_key@, aad@, sealed@) == Ok::<Seq<u8>, Error>(message@),
            Err(e) => opened(wrapping_key@, aad@, sealed@) == Err::<Seq<u8>, Error>(e),
        },
{
    if sealed.len() < 28 {
        return Err(Error::Malformed);
    }
    let mut nonce: [u8; 12] = [0u8; 12];
    let mut i: usize = 0;
    while i < 12
        invariant
            i <= 12,
            sealed@.len() >= 28,
            forall|j: int| 0 <= j < i ==> nonce@[j] == sealed@[j],
        decreases 12 - i,
    {
        nonce[i] = sealed[i];
        i += 1;
    }
    assert(nonce@ =~= sealed@.subrange(0, 12));
    match aes256gcm_decrypt(wrapping_key, &nonce, aad, slice_subrange(sealed, 12, sealed.len())) {
        Some(message) => Ok(message),
        None => Err(Error::AuthenticationFailed),
    }
}

/// What is sealed opens under the same key and associated data.
pub proof fn sealed_opens(key: Seq<u8>, nonce: Seq<u8>, aad: Seq<u8>, body: Seq<u8>, message: Seq<u8>)
    requires
        nonce.len() == 12,
        body.len() == message.len() + 16,
        aes256gcm_opened(key, nonce, aad, body) == Some(message),
    ensures
        opened(key, aad, nonce + body) == Ok::<Seq<u8>, Error>(message),
{
    assert((nonce + body).subrange(0, 12) =~= nonce);
    assert((nonce + body).subrange(12, (nonce + body).len() as int) =~= body);
}

/// The seed of a channel's owner: thirty-two bytes derived from the node's seed
/// and the channel's name.
pub open spec fn spec_channel_seed(identity_seed: Seq<u8>, channel: Seq<char>) -> Seq<u8> {
    hkdf_sha256(identity_seed, encode_utf8(channel), encode_utf8("gc1/channel-seed"@))
}

pub fn channel_seed_from(identity_seed: &[u8; 32], channel: &str) -> (r: [u8; 32])
    ensures
        r@ == spec_channel_seed(identity_seed@, channel@),
{
    hkdf_expand(identity_seed, channel.as_bytes(), "gc1/channel-seed".as_bytes())
}

} // verus!
