//! Key fingerprints: the key's size in bits, and the SHA-256 digest of its
//! canonical re-encoding. Because the re-encoding is canonical, the digest
//! depends only on the key's semantic fields, never on the wire bytes the
//! key was parsed from.

use vstd::prelude::*;

use crate::bytes::bit_len;
use crate::message::{spec_key_encoding, KeyBlob, KeyBlobView};
use crate::pack::{Pack, Packer};
use crate::unpack::utf8_to_string;
use vstd::utf8::{decode_utf8, valid_utf8};

use base64::Engine;
use sha2::Digest;

verus! {

/// The SHA-256 digest of a byte string: a function of the bytes alone.
pub uninterp spec fn sha256_of(data: Seq<u8>) -> Seq<u8>;

/// The standard base64 encoding without padding: a function of the bytes
/// alone.
pub uninterp spec fn base64_nopad_of(data: Seq<u8>) -> Seq<char>;

/// Relies on sha2's `Sha256`: a pure function of the input bytes, with a
/// 32-byte digest.
#[verifier::external_body]
pub(crate) fn sha256(data: &[u8]) -> (r: Vec<u8>)
    ensures
        r@ == sha256_of(data@),
        r@.len() == 32,
{
    sha2::Sha256::digest(data).to_vec()
}

/// Relies on base64's `STANDARD_NO_PAD` engine: a pure encoding of the
/// input bytes. The engine panics when the encoded length cannot be
/// computed in `usize`; the bound on the input keeps such inputs out.
#[verifier::external_body]
pub(crate) fn base64_nopad(data: &[u8]) -> (r: String)
    requires
        data@.len() <= 0x1000_0000,
    ensures
        r@ == base64_nopad_of(data@),
{
    base64::engine::general_purpose::STANDARD_NO_PAD.encode(data)
}

/// The key's size in bits, over its semantic fields: the bit length of
/// the RSA modulus (of the value, leading zero bits excluded), 256 for
/// ed25519, zero for an unknown algorithm.
pub open spec fn spec_bits_of(kv: KeyBlobView) -> nat {
    match kv {
        KeyBlobView::Rsa { e, n } => bit_len(
            if n < 0 {
                (-n) as nat
            } else {
                n as nat
            },
        ),
        KeyBlobView::Ed25519 { key } => 256,
        KeyBlobView::Unknown { algo, data } => 0,
    }
}

/// The name a notification shows for a key's algorithm.
pub open spec fn spec_algo_name_of(kv: KeyBlobView) -> Seq<char> {
    match kv {
        KeyBlobView::Rsa { e, n } => "RSA"@,
        KeyBlobView::Ed25519 { key } => "ED25519"@,
        KeyBlobView::Unknown { algo, data } => {
            if valid_utf8(algo) {
                decode_utf8(algo)
            } else {
                Seq::empty()
            }
        },
    }
}

impl KeyBlob {
    pub fn bits(&self) -> (r: u64)
        requires
            self.wf(),
        ensures
            r == spec_bits_of(self@),
    {
        match self {
            KeyBlob::Rsa { e, n } => n.magnitude_bits(),
            KeyBlob::Ed25519 { key } => 256,
            KeyBlob::Unknown { algo, data } => 0,
        }
    }

    /// The SHA-256 digest of the canonical key encoding, as raw bytes;
    /// rendering is the caller's concern.
    pub fn digest(&self) -> (r: Vec<u8>)
        requires
            self.wf(),
        ensures
            r@ == sha256_of(spec_key_encoding(self@)),
            r@.len() == 32,
    {
        proof {
            crate::message::lemma_pack_is_view_encoding(self);
        }
        let mut packer = Packer::new();
        packer.pack(self);
        let bytes = packer.inner();
        sha256(bytes.as_slice())
    }

    /// The digest rendered the way the notification shows it: base64
    /// without padding.
    pub fn fingerprint(&self) -> (r: String)
        requires
            self.wf(),
        ensures
            r@ == base64_nopad_of(sha256_of(spec_key_encoding(self@))),
    {
        let d = self.digest();
        base64_nopad(d.as_slice())
    }

    pub fn algo_name(&self) -> (r: String)
        ensures
            r@ == spec_algo_name_of(self@),
    {
        match self {
            KeyBlob::Rsa { e, n } => "RSA".to_owned(),
            KeyBlob::Ed25519 { key } => "ED25519".to_owned(),
            KeyBlob::Unknown { algo, data } => match utf8_to_string(algo) {
                Some(s) => s,
                None => String::new(),
            },
        }
    }
}

/// Two keys with equal semantic fields have equal digests, whatever bytes
/// each was parsed from: the digest input is the canonical re-encoding,
/// which depends only on the fields.
pub proof fn lemma_digest_depends_on_view(a: &KeyBlob, b: &KeyBlob)
    requires
        a.wf(),
        b.wf(),
        a@ == b@,
    ensures
        sha256_of(a.spec_pack()) == sha256_of(b.spec_pack()),
        sha256_of(a.spec_pack()) == sha256_of(spec_key_encoding(a@)),
{
    crate::message::lemma_pack_depends_on_view(a, b);
    crate::message::lemma_pack_is_view_encoding(a);
}

} // verus!
