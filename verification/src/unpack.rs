//! Decoding of wire primitives from a byte cursor. Every decoder is a pure
//! function of the bytes in front of the cursor together with the statically
//! expected type; `spec_unpack` states that function and the executable
//! decoders are proved against it.

use vstd::prelude::*;
use vstd::utf8::{decode_utf8, valid_utf8};

use crate::bytes::be_value;
use crate::error::Error;

verus! {

/// A cursor over a borrowed byte buffer. Decoding strictly shrinks the
/// remaining view; there is no seeking backward.
pub struct Unpacker<'a> {
    data: &'a [u8],
    pos: usize,
}

impl<'a> Unpacker<'a> {
    /// The bytes that have not been consumed yet.
    pub closed spec fn remaining(&self) -> Seq<u8> {
        self.data@.skip(self.pos as int)
    }

    /// The cursor front never passes the end of the buffer.
    pub closed spec fn wf(&self) -> bool {
        self.pos <= self.data@.len()
    }

    pub fn new(data: &'a [u8]) -> (u: Self)
        ensures
            u.wf(),
            u.remaining() == data@,
    {
        let u = Unpacker { data, pos: 0 };
        proof {
            assert(u.remaining() =~= data@);
        }
        u
    }

    /// True when every byte has been consumed.
    pub fn empty(&self) -> (r: bool)
        requires
            self.wf(),
        ensures
            r == (self.remaining().len() == 0),
    {
        self.pos == self.data.len()
    }

    /// Decode one value of type `T` from the front of the cursor.
    pub fn unpack<T: Unpack>(&mut self) -> (r: Result<T, Error>)
        requires
            old(self).wf(),
        ensures
            final(self).wf(),
            unpack_post::<T>(old(self).remaining(), final(self).remaining(), r),
    {
        T::unpack(self)
    }

    /// Take every remaining byte, leaving the cursor empty.
    pub fn take_rest(&mut self) -> (r: Vec<u8>)
        requires
            old(self).wf(),
        ensures
            final(self).wf(),
            r@ == old(self).remaining(),
            final(self).remaining() == Seq::<u8>::empty(),
    {
        let len = self.data.len() - self.pos;
        match self.read_bytes(len) {
            Ok(v) => {
                proof {
                    assert(v@ =~= old(self).remaining());
                    assert(self.remaining() =~= Seq::<u8>::empty());
                }
                v
            },
            Err(_) => {
                proof {
                    assert(false);
                }
                Vec::new()
            },
        }
    }

    /// Take the next `n` bytes, or fail without moving when fewer remain.
    fn read_bytes(&mut self, n: usize) -> (r: Result<Vec<u8>, Error>)
        requires
            old(self).wf(),
        ensures
            final(self).wf(),
            old(self).remaining().len() >= n ==> {
                &&& r matches Ok(v) && v@ == old(self).remaining().take(n as int)
                &&& final(self).remaining() == old(self).remaining().skip(n as int)
            },
            old(self).remaining().len() < n ==> {
                &&& r matches Err(e) && e == Error::InsufficientData
                &&& *final(self) == *old(self)
            },
    {
        if n <= self.data.len() - self.pos {
            let mut v: Vec<u8> = Vec::new();
            let mut i: usize = 0;
            while i < n
                invariant
                    self.wf(),
                    self == old(self),
                    i <= n,
                    self.pos + n <= self.data@.len(),
                    self.pos + n <= usize::MAX,
                    v@ =~= self.data@.subrange(self.pos as int, self.pos + i),
                decreases n - i,
            {
                v.push(self.data[self.pos + i]);
                i = i + 1;
            }
            proof {
                assert(v@ =~= old(self).remaining().take(n as int));
            }
            self.pos = self.pos + n;
            proof {
                assert(self.remaining() =~= old(self).remaining().skip(n as int));
            }
            Ok(v)
        } else {
            Err(Error::InsufficientData)
        }
    }
}

/// What a decoder of `T` must return and consume: exactly what
/// `T::spec_unpack` says of the bytes that lay in front of the cursor.
pub open spec fn unpack_post<T: Unpack>(pre: Seq<u8>, post: Seq<u8>, r: Result<T, Error>) -> bool {
    match T::spec_unpack(pre) {
        Ok(p) => {
            &&& r matches Ok(x) && x@ == p.0
            &&& 0 <= p.1 <= pre.len()
            &&& post == pre.skip(p.1)
        },
        Err(e) => r matches Err(e2) && e2 == e,
    }
}

/// A type that can be decoded from the wire. The decode rule is chosen by
/// the static type expectation; the format carries no type information.
pub trait Unpack: View + Sized {
    /// The value this type's decoder yields on `data`, and how many bytes
    /// it consumes; or the error it stops with.
    spec fn spec_unpack(data: Seq<u8>) -> Result<(Self::V, int), Error>;

    /// Decode one value from the cursor.
    fn unpack(u: &mut Unpacker) -> (r: Result<Self, Error>)
        requires
            old(u).wf(),
        ensures
            final(u).wf(),
            match Self::spec_unpack(old(u).remaining()) {
                Ok(p) => {
                    &&& r matches Ok(x) && x@ == p.0
                    &&& 0 <= p.1 <= old(u).remaining().len()
                    &&& final(u).remaining() == old(u).remaining().skip(p.1)
                },
                Err(e) => r matches Err(e2) && e2 == e,
            },
    ;
}

impl Unpack for u8 {
    open spec fn spec_unpack(data: Seq<u8>) -> Result<(u8, int), Error> {
        if data.len() >= 1 {
            Ok((data[0], 1))
        } else {
            Err(Error::InsufficientData)
        }
    }

    fn unpack(u: &mut Unpacker) -> (r: Result<Self, Error>) {
        match u.read_bytes(1) {
            Ok(v) => Ok(v[0]),
            Err(e) => Err(e),
        }
    }
}

impl Unpack for bool {
    /// Zero is false; any non-zero byte is true.
    open spec fn spec_unpack(data: Seq<u8>) -> Result<(bool, int), Error> {
        match u8::spec_unpack(data) {
            Ok(p) => Ok((p.0 != 0, p.1)),
            Err(e) => Err(e),
        }
    }

    fn unpack(u: &mut Unpacker) -> (r: Result<Self, Error>) {
        match u.unpack::<u8>() {
            Ok(b) => Ok(b != 0),
            Err(e) => Err(e),
        }
    }
}

impl Unpack for u32 {
    /// Four bytes, big-endian.
    open spec fn spec_unpack(data: Seq<u8>) -> Result<(u32, int), Error> {
        if data.len() >= 4 {
            Ok((be_value(data.take(4)) as u32, 4))
        } else {
            Err(Error::InsufficientData)
        }
    }

    fn unpack(u: &mut Unpacker) -> (r: Result<Self, Error>) {
        match u.read_bytes(4) {
            Ok(v) => {
                let x = (v[0] as u32) * 0x100_0000 + (v[1] as u32) * 0x1_0000 + (v[2] as u32)
                    * 0x100 + (v[3] as u32);
                proof {
                    crate::bytes::lemma_be_value_4(v@);
                }
                Ok(x)
            },
            Err(e) => Err(e),
        }
    }
}

impl Unpack for u64 {
    /// Eight bytes, big-endian.
    open spec fn spec_unpack(data: Seq<u8>) -> Result<(u64, int), Error> {
        if data.len() >= 8 {
            Ok((be_value(data.take(8)) as u64, 8))
        } else {
            Err(Error::InsufficientData)
        }
    }

    fn unpack(u: &mut Unpacker) -> (r: Result<Self, Error>) {
        match u.read_bytes(8) {
            Ok(v) => {
                let hi = (v[0] as u64) * 0x100_0000 + (v[1] as u64) * 0x1_0000 + (v[2] as u64)
                    * 0x100 + (v[3] as u64);
                let lo = (v[4] as u64) * 0x100_0000 + (v[5] as u64) * 0x1_0000 + (v[6] as u64)
                    * 0x100 + (v[7] as u64);
                let x = hi * 0x1_0000_0000 + lo;
                proof {
                    crate::bytes::lemma_be_value_8(v@);
                }
                Ok(x)
            },
            Err(e) => Err(e),
        }
    }
}

impl Unpack for Vec<u8> {
    /// A `uint32` length, then that many raw bytes.
    open spec fn spec_unpack(data: Seq<u8>) -> Result<(Seq<u8>, int), Error> {
        match u32::spec_unpack(data) {
            Ok(p) => {
                let l = p.0 as int;
                if data.len() >= 4 + l {
                    Ok((data.subrange(4, 4 + l), 4 + l))
                } else {
                    Err(Error::InsufficientData)
                }
            },
            Err(e) => Err(e),
        }
    }

    fn unpack(u: &mut Unpacker) -> (r: Result<Self, Error>) {
        let ghost pre = u.remaining();
        match u.unpack::<u32>() {
            Ok(l) => match u.read_bytes(l as usize) {
                Ok(v) => {
                    proof {
                        assert(v@ =~= pre.subrange(4, 4 + l as int));
                        assert(u.remaining() =~= pre.skip(4 + l as int));
                    }
                    Ok(v)
                },
                Err(e) => Err(e),
            },
            Err(e) => Err(e),
        }
    }
}

impl Unpack for String {
    /// A `string` whose bytes must additionally be valid UTF-8.
    open spec fn spec_unpack(data: Seq<u8>) -> Result<(Seq<char>, int), Error> {
        match <Vec<u8>>::spec_unpack(data) {
            Ok(p) => {
                if valid_utf8(p.0) {
                    Ok((decode_utf8(p.0), p.1))
                } else {
                    Err(Error::InvalidUtf8)
                }
            },
            Err(e) => Err(e),
        }
    }

    fn unpack(u: &mut Unpacker) -> (r: Result<Self, Error>) {
        match u.unpack::<Vec<u8>>() {
            Ok(v) => match utf8_to_string(&v) {
                Some(s) => Ok(s),
                None => Err(Error::InvalidUtf8),
            },
            Err(e) => Err(e),
        }
    }
}

/// Relies on `str::from_utf8`: it accepts exactly the valid UTF-8 byte
/// strings, and the returned text is the decoding of those bytes.
#[verifier::external_body]
pub(crate) fn utf8_to_string(b: &Vec<u8>) -> (r: Option<String>)
    ensures
        r is Some <==> valid_utf8(b@),
        r matches Some(s) ==> s@ == decode_utf8(b@),
{
    match core::str::from_utf8(b.as_slice()) {
        Ok(s) => Some(s.to_string()),
        Err(_) => None,
    }
}

} // verus!
