//! A second, minimal view of the primitive decoders: a `Reader` over a
//! borrowed buffer and the `Data` trait for the types it can yield. The
//! decode rules are the ones stated by `Unpack::spec_unpack`; this cursor
//! exists for callers that want plain data reading without the `mpint`
//! machinery.

use vstd::prelude::*;

use crate::error::Error;
use crate::unpack::{Unpack, Unpacker};

verus! {

/// A cursor over a borrowed byte buffer.
pub struct Reader<'a> {
    inner: Unpacker<'a>,
}

impl<'a> Reader<'a> {
    /// The bytes that have not been consumed yet.
    pub closed spec fn remaining(&self) -> Seq<u8> {
        self.inner.remaining()
    }

    pub closed spec fn wf(&self) -> bool {
        self.inner.wf()
    }

    pub fn new(data: &'a [u8]) -> (r: Self)
        ensures
            r.wf(),
            r.remaining() == data@,
    {
        Reader { inner: Unpacker::new(data) }
    }

    /// Decode one value of type `T` from the front of the cursor.
    pub fn read<T: Data>(&mut self) -> (r: Result<T, Error>)
        requires
            old(self).wf(),
        ensures
            final(self).wf(),
            match T::spec_unpack(old(self).remaining()) {
                Ok(p) => {
                    &&& r matches Ok(x) && x@ == p.0
                    &&& 0 <= p.1 <= old(self).remaining().len()
                    &&& final(self).remaining() == old(self).remaining().skip(p.1)
                },
                Err(e) => r matches Err(e2) && e2 == e,
            },
    {
        T::read(self)
    }
}

/// A plain data type that a `Reader` can yield. Every decoder follows the
/// rule its `Unpack` implementation states.
pub trait Data: Unpack {
    /// Decode one value from the reader.
    fn read(r: &mut Reader) -> (res: Result<Self, Error>)
        requires
            old(r).wf(),
        ensures
            final(r).wf(),
            match Self::spec_unpack(old(r).remaining()) {
                Ok(p) => {
                    &&& res matches Ok(x) && x@ == p.0
                    &&& 0 <= p.1 <= old(r).remaining().len()
                    &&& final(r).remaining() == old(r).remaining().skip(p.1)
                },
                Err(e) => res matches Err(e2) && e2 == e,
            },
    ;
}

impl Data for u8 {
    fn read(r: &mut Reader) -> (res: Result<Self, Error>) {
        r.inner.unpack::<u8>()
    }
}

impl Data for bool {
    fn read(r: &mut Reader) -> (res: Result<Self, Error>) {
        r.inner.unpack::<bool>()
    }
}

impl Data for u32 {
    fn read(r: &mut Reader) -> (res: Result<Self, Error>) {
        r.inner.unpack::<u32>()
    }
}

impl Data for u64 {
    fn read(r: &mut Reader) -> (res: Result<Self, Error>) {
        r.inner.unpack::<u64>()
    }
}

impl Data for Vec<u8> {
    fn read(r: &mut Reader) -> (res: Result<Self, Error>) {
        r.inner.unpack::<Vec<u8>>()
    }
}

impl Data for String {
    fn read(r: &mut Reader) -> (res: Result<Self, Error>) {
        r.inner.unpack::<String>()
    }
}

} // verus!
