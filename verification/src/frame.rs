//! Framed record I/O: one agent record on the wire is a four-byte
//! big-endian length followed by that many payload bytes. The byte-level
//! framing logic lives here; the blocking transport reads and writes
//! around it belong to the caller.

use vstd::prelude::*;

use crate::bytes::{
    be_bytes, be_value, lemma_be_bytes_len, lemma_be_bytes_value, lemma_be_value_4,
    lemma_pow256_small,
};
use crate::error::Error;
use crate::pack::{Pack, Packer};

verus! {

/// One whole record: the length header, then the payload.
pub open spec fn spec_record(payload: Seq<u8>) -> Seq<u8> {
    be_bytes(payload.len(), 4) + payload
}

/// What reading one record off the front of a byte stream yields: the
/// record's bytes (header and payload together) and the count consumed,
/// or a short-read error.
pub open spec fn spec_read_record(stream: Seq<u8>) -> Result<(Seq<u8>, int), Error> {
    if stream.len() >= 4 {
        let l = be_value(stream.take(4)) as int;
        if stream.len() >= 4 + l {
            Ok((stream.take(4 + l), 4 + l))
        } else {
            Err(Error::InsufficientData)
        }
    } else {
        Err(Error::InsufficientData)
    }
}

/// Frame one payload for the wire.
pub fn encode_record(payload: &[u8]) -> (r: Vec<u8>)
    requires
        payload@.len() <= u32::MAX,
    ensures
        r@ == spec_record(payload@),
{
    let mut packer = Packer::new();
    packer.pack(payload);
    let r = packer.inner();
    proof {
        assert(r@ =~= spec_record(payload@));
    }
    r
}

/// Read one record off the front of a buffer: the framed bytes, ready to
/// be forwarded verbatim, and how many bytes of the buffer they took.
pub fn read_record(data: &[u8]) -> (r: Result<(Vec<u8>, usize), Error>)
    ensures
        match spec_read_record(data@) {
            Ok(p) => r matches Ok(q) && q.0@ == p.0 && q.1 == p.1,
            Err(e) => r matches Err(e2) && e2 == e,
        },
{
    if data.len() < 4 {
        return Err(Error::InsufficientData);
    }
    let l = (data[0] as u32) * 0x100_0000 + (data[1] as u32) * 0x1_0000 + (data[2] as u32) * 0x100
        + (data[3] as u32);
    proof {
        lemma_be_value_4(data@.take(4));
    }
    if data.len() - 4 < l as usize {
        return Err(Error::InsufficientData);
    }
    let total = 4 + l as usize;
    let mut out: Vec<u8> = Vec::new();
    let mut i: usize = 0;
    while i < total
        invariant
            i <= total,
            total <= data@.len(),
            out@ =~= data@.subrange(0, i as int),
        decreases total - i,
    {
        out.push(data[i]);
        i = i + 1;
    }
    proof {
        assert(out@ =~= data@.take(4 + l as int));
    }
    Ok((out, total))
}

/// Writing one record onto a transport and then reading one record back
/// off it yields exactly the record's bytes, whatever the transport
/// carries after them.
pub proof fn lemma_record_round_trip(payload: Seq<u8>, rest: Seq<u8>)
    requires
        payload.len() <= u32::MAX,
    ensures
        spec_read_record(spec_record(payload) + rest) == Ok::<(Seq<u8>, int), Error>(
            (spec_record(payload), 4 + payload.len() as int),
        ),
{
    let s = spec_record(payload) + rest;
    lemma_be_bytes_len(payload.len(), 4);
    lemma_pow256_small();
    lemma_be_bytes_value(payload.len(), 4);
    assert(s.take(4) =~= be_bytes(payload.len(), 4));
    assert(s.take(4 + payload.len() as int) =~= spec_record(payload));
}

} // verus!
