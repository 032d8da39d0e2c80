use vstd::prelude::*;

verus! {

/// The big-endian value of the two bytes of `d` at `p`.
pub open spec fn be16(d: Seq<u8>, p: int) -> u16 {
    (d[p] as int * 256 + d[p + 1] as int) as u16
}

/// The big-endian value of the four bytes of `d` at `p`.
pub open spec fn be32(d: Seq<u8>, p: int) -> u32 {
    (d[p] as int * 16777216 + d[p + 1] as int * 65536 + d[p + 2] as int * 256
        + d[p + 3] as int) as u32
}

/// A cursor over a byte buffer: the bytes and the position of the next byte to read.
pub struct Reader {
    pub data: Vec<u8>,
    pub pos: usize,
}

impl Reader {
    /// A reader positioned at the first byte of `data`.
    pub fn new(data: Vec<u8>) -> (r: Reader)
        ensures
            r.data@ == data@,
            r.pos == 0,
    {
        Reader { data, pos: 0 }
    }

    /// Number of bytes not read yet.
    pub open spec fn remaining(&self) -> int {
        self.data@.len() - self.pos
    }

    /// Reads one byte.
    pub fn read_u8(&mut self) -> (b: u8)
        requires
            old(self).pos < old(self).data.len(),
        ensures
            b == old(self).data@[old(self).pos as int],
            final(self).data@ == old(self).data@,
            final(self).pos == old(self).pos + 1,
    {
        let b = self.data[self.pos];
        self.pos = self.pos + 1;
        b
    }

    /// Reads a big-endian 16-bit integer.
    pub fn read_be_u16(&mut self) -> (v: u16)
        requires
            old(self).pos + 2 <= old(self).data@.len(),
        ensures
            v == be16(old(self).data@, old(self).pos as int),
            final(self).data@ == old(self).data@,
            final(self).pos == old(self).pos + 2,
    {
        let hi = self.read_u8();
        let lo = self.read_u8();
        let v = hi as u16 * 256 + lo as u16;
        v
    }

    /// Reads a big-endian 32-bit integer.
    pub fn read_be_u32(&mut self) -> (v: u32)
        requires
            old(self).pos + 4 <= old(self).data@.len(),
        ensures
            v == be32(old(self).data@, old(self).pos as int),
            final(self).data@ == old(self).data@,
            final(self).pos == old(self).pos + 4,
    {
        let b0 = self.read_u8() as u32;
        let b1 = self.read_u8() as u32;
        let b2 = self.read_u8() as u32;
        let b3 = self.read_u8() as u32;
        b0 * 16777216 + b1 * 65536 + b2 * 256 + b3
    }
}

} // verus!
