//! Encoding of wire primitives onto a growable byte buffer. `spec_pack`
//! states the exact bytes each encoder appends.

use vstd::prelude::*;
use vstd::string::StringSliceAdditionalSpecFns;

use crate::bytes::{be_bytes, pow256};

verus! {

/// A growable buffer that encoders append to.
pub struct Packer {
    buf: Vec<u8>,
}

impl View for Packer {
    type V = Seq<u8>;

    closed spec fn view(&self) -> Seq<u8> {
        self.buf@
    }
}

impl Packer {
    pub fn new() -> (p: Self)
        ensures
            p@ == Seq::<u8>::empty(),
    {
        Packer { buf: Vec::new() }
    }

    /// Hand the accumulated bytes out.
    pub fn inner(self) -> (r: Vec<u8>)
        ensures
            r@ == self@,
    {
        self.buf
    }

    /// Append the encoding of one value.
    pub fn pack<T: Pack>(&mut self, value: T)
        requires
            value.packable(),
        ensures
            final(self)@ == old(self)@ + value.spec_pack(),
    {
        value.pack(self)
    }

    pub(crate) fn write_byte(&mut self, b: u8)
        ensures
            final(self)@ == old(self)@ + seq![b],
    {
        self.buf.push(b);
        proof {
            assert(self.buf@ =~= old(self).buf@ + seq![b]);
        }
    }

    pub(crate) fn write_bytes(&mut self, bytes: &[u8])
        ensures
            final(self)@ == old(self)@ + bytes@,
    {
        self.buf.extend_from_slice(bytes);
        proof {
            assert(self.buf@ =~= old(self).buf@ + bytes@);
        }
    }
}

/// A type that can be encoded onto the wire.
pub trait Pack: Sized {
    /// When the value can be encoded at all: a limit of the machine (a
    /// string longer than a `uint32` can count) or the well-formedness of
    /// the value itself.
    spec fn packable(self) -> bool;

    /// The bytes the encoder appends.
    spec fn spec_pack(self) -> Seq<u8>;

    /// Append this value's encoding to the packer.
    fn pack(self, packer: &mut Packer)
        requires
            self.packable(),
        ensures
            final(packer)@ == old(packer)@ + self.spec_pack(),
    ;
}

impl Pack for u8 {
    open spec fn packable(self) -> bool {
        true
    }

    open spec fn spec_pack(self) -> Seq<u8> {
        seq![self]
    }

    fn pack(self, packer: &mut Packer) {
        packer.write_byte(self);
    }
}

impl Pack for u32 {
    open spec fn packable(self) -> bool {
        true
    }

    /// Four bytes, big-endian.
    open spec fn spec_pack(self) -> Seq<u8> {
        be_bytes(self as nat, 4)
    }

    fn pack(self, packer: &mut Packer) {
        proof {
            crate::bytes::lemma_be_bytes_4(self as nat);
        }
        packer.write_byte((self / 0x100_0000) as u8);
        packer.write_byte(((self / 0x1_0000) % 0x100) as u8);
        packer.write_byte(((self / 0x100) % 0x100) as u8);
        packer.write_byte((self % 0x100) as u8);
        proof {
            assert(packer@ =~= old(packer)@ + self.spec_pack());
        }
    }
}

impl Pack for u64 {
    open spec fn packable(self) -> bool {
        true
    }

    /// Eight bytes, big-endian.
    open spec fn spec_pack(self) -> Seq<u8> {
        be_bytes(self as nat, 8)
    }

    fn pack(self, packer: &mut Packer) {
        let hi = (self / 0x1_0000_0000) as u32;
        let lo = (self % 0x1_0000_0000) as u32;
        proof {
            crate::bytes::lemma_pow256_small();
            crate::bytes::lemma_be_bytes_split(self as nat, 4, 4);
            assert(hi as nat == self as nat / pow256(4));
            assert(lo as nat == self as nat % pow256(4));
        }
        hi.pack(packer);
        lo.pack(packer);
        proof {
            assert(packer@ =~= old(packer)@ + self.spec_pack());
        }
    }
}

impl Pack for bool {
    open spec fn packable(self) -> bool {
        true
    }

    /// One byte: `1` for true, `0` for false.
    open spec fn spec_pack(self) -> Seq<u8> {
        if self {
            seq![1u8]
        } else {
            seq![0u8]
        }
    }

    fn pack(self, packer: &mut Packer) {
        if self {
            packer.pack(1u8);
        } else {
            packer.pack(0u8);
        }
    }
}

impl Pack for &[u8] {
    /// The wire carries the length in a `uint32`.
    open spec fn packable(self) -> bool {
        self@.len() <= u32::MAX
    }

    /// A `uint32` length, then the bytes themselves.
    open spec fn spec_pack(self) -> Seq<u8> {
        be_bytes(self@.len(), 4) + self@
    }

    fn pack(self, packer: &mut Packer) {
        let len = self.len() as u32;
        packer.pack(len);
        packer.write_bytes(self);
        proof {
            assert(packer@ =~= old(packer)@ + self.spec_pack());
        }
    }
}

impl Pack for &str {
    /// The wire carries the byte length in a `uint32`.
    open spec fn packable(self) -> bool {
        self.spec_bytes().len() <= u32::MAX
    }

    /// The UTF-8 bytes of the text, as a `string`.
    open spec fn spec_pack(self) -> Seq<u8> {
        be_bytes(self.spec_bytes().len(), 4) + self.spec_bytes()
    }

    fn pack(self, packer: &mut Packer) {
        let bytes = self.as_bytes();
        bytes.pack(packer);
    }
}

} // verus!
