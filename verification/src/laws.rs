//! The laws of the codec, stated once over the encode and decode
//! specifications and proved for every value: whatever a packer writes, a
//! matching unpacker reads back unchanged, wherever in a stream the bytes
//! stand; and a canonical `mpint` survives a decode and re-encode byte for
//! byte.

use vstd::prelude::*;
use vstd::string::StringSliceAdditionalSpecFns;
use vstd::utf8::{encode_utf8_decode_utf8, encode_utf8_valid_utf8};

use crate::bytes::{
    is_canonical_mpint, lemma_be_bytes_len, lemma_be_bytes_value, lemma_pow256_adds,
    lemma_pow256_small, twos_complement,
};
use crate::error::Error;
use crate::mpint::{lemma_canonical_reencode, Mpint};
use crate::pack::Pack;
use crate::unpack::Unpack;

verus! {

/// Decoding what was encoded yields the value back: `byte`.
pub proof fn lemma_roundtrip_u8(v: u8, rest: Seq<u8>)
    ensures
        u8::spec_unpack(v.spec_pack() + rest) == Ok::<(u8, int), Error>((v, 1)),
{
    let s = v.spec_pack() + rest;
    assert(s[0] == v);
}

/// Decoding what was encoded yields the value back: `boolean`.
pub proof fn lemma_roundtrip_bool(v: bool, rest: Seq<u8>)
    ensures
        bool::spec_unpack(v.spec_pack() + rest) == Ok::<(bool, int), Error>((v, 1)),
{
    let s = v.spec_pack() + rest;
    assert(s[0] == (if v {
        1u8
    } else {
        0u8
    }));
}

/// Decoding what was encoded yields the value back: `uint32`.
pub proof fn lemma_roundtrip_u32(v: u32, rest: Seq<u8>)
    ensures
        u32::spec_unpack(v.spec_pack() + rest) == Ok::<(u32, int), Error>((v, 4)),
{
    let s = v.spec_pack() + rest;
    lemma_pow256_small();
    lemma_be_bytes_len(v as nat, 4);
    lemma_be_bytes_value(v as nat, 4);
    assert(s.take(4) =~= v.spec_pack());
}

/// Decoding what was encoded yields the value back: `uint64`.
pub proof fn lemma_roundtrip_u64(v: u64, rest: Seq<u8>)
    ensures
        u64::spec_unpack(v.spec_pack() + rest) == Ok::<(u64, int), Error>((v, 8)),
{
    let s = v.spec_pack() + rest;
    lemma_pow256_small();
    lemma_pow256_adds(4, 4);
    lemma_be_bytes_len(v as nat, 8);
    lemma_be_bytes_value(v as nat, 8);
    assert(s.take(8) =~= v.spec_pack());
}

/// Decoding what was encoded yields the value back: `string`.
pub proof fn lemma_roundtrip_bytes(b: &[u8], rest: Seq<u8>)
    requires
        b@.len() <= u32::MAX,
    ensures
        <Vec<u8>>::spec_unpack(b.spec_pack() + rest) == Ok::<(Seq<u8>, int), Error>(
            (b@, 4 + b@.len() as int),
        ),
{
    let s = b.spec_pack() + rest;
    let l = b@.len() as int;
    lemma_pow256_small();
    lemma_be_bytes_len(b@.len(), 4);
    lemma_be_bytes_value(b@.len(), 4);
    assert(s.take(4) =~= crate::bytes::be_bytes(b@.len(), 4));
    assert(s.subrange(4, 4 + l) =~= b@);
}

/// A `string` encoding is exactly four bytes more than its content. (The
/// length header has fixed width four.)
pub proof fn lemma_string_encoding_len(b: &[u8])
    ensures
        b.spec_pack().len() == 4 + b@.len(),
{
    lemma_be_bytes_len(b@.len(), 4);
}

/// Decoding what was encoded yields the value back: text, through its
/// UTF-8 bytes.
pub proof fn lemma_roundtrip_text(t: &str, rest: Seq<u8>)
    requires
        t.spec_bytes().len() <= u32::MAX,
    ensures
        String::spec_unpack(t.spec_pack() + rest) == Ok::<(Seq<char>, int), Error>(
            (t@, 4 + t.spec_bytes().len() as int),
        ),
{
    let bytes = t.spec_bytes();
    let s = t.spec_pack() + rest;
    let l = bytes.len() as int;
    lemma_pow256_small();
    lemma_be_bytes_len(bytes.len(), 4);
    lemma_be_bytes_value(bytes.len(), 4);
    assert(s.take(4) =~= crate::bytes::be_bytes(bytes.len(), 4));
    assert(s.subrange(4, 4 + l) =~= bytes);
    encode_utf8_valid_utf8(t@);
    encode_utf8_decode_utf8(t@);
}

/// Decoding what was encoded yields the value back: `mpint`.
pub proof fn lemma_roundtrip_mpint(m: &Mpint, rest: Seq<u8>)
    requires
        m.wf(),
        m.spec_content().len() <= u32::MAX,
    ensures
        Mpint::spec_unpack(m.spec_pack() + rest) == Ok::<(int, int), Error>(
            (m@, 4 + m.spec_content().len() as int),
        ),
{
    let content = m.spec_content();
    let s = m.spec_pack() + rest;
    let l = content.len() as int;
    lemma_pow256_small();
    lemma_be_bytes_len(content.len(), 4);
    lemma_be_bytes_value(content.len(), 4);
    assert(s.take(4) =~= crate::bytes::be_bytes(content.len(), 4));
    assert(s.subrange(4, 4 + l) =~= content);
    crate::mpint::lemma_content_properties(m);
}

/// Re-encoding the value read from a canonical `mpint` content reproduces
/// the content byte for byte; with the lemma above, a full wire `mpint`
/// that is already canonical survives a decode and re-encode unchanged.
pub proof fn lemma_reencode_mpint(m: &Mpint, content: Seq<u8>)
    requires
        m.wf(),
        is_canonical_mpint(content),
        m@ == twos_complement(content),
    ensures
        m.spec_content() == content,
{
    lemma_canonical_reencode(m, content);
}

} // verus!
