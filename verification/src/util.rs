//! Binary field reader: fixed-width little-endian scalar and byte-block
//! extraction from an in-memory byte source, with short-read detection.

use vstd::prelude::*;

verus! {

/// The little-endian value of the four bytes of `d` starting at `p`.
pub open spec fn le32_at(d: Seq<u8>, p: int) -> int {
    d[p] + d[p + 1] * 0x100 + d[p + 2] * 0x1_0000 + d[p + 3] * 0x100_0000
}

/// The little-endian value of the sixteen bytes of `d` starting at `p`.
pub open spec fn le128_at(d: Seq<u8>, p: int) -> int {
    d[p]
        + d[p + 1] * 0x100
        + d[p + 2] * 0x1_0000
        + d[p + 3] * 0x100_0000
        + d[p + 4] * 0x1_0000_0000
        + d[p + 5] * 0x100_0000_0000
        + d[p + 6] * 0x1_0000_0000_0000
        + d[p + 7] * 0x100_0000_0000_0000
        + d[p + 8] * 0x1_0000_0000_0000_0000
        + d[p + 9] * 0x100_0000_0000_0000_0000
        + d[p + 10] * 0x1_0000_0000_0000_0000_0000
        + d[p + 11] * 0x100_0000_0000_0000_0000_0000
        + d[p + 12] * 0x1_0000_0000_0000_0000_0000_0000
        + d[p + 13] * 0x100_0000_0000_0000_0000_0000_0000
        + d[p + 14] * 0x1_0000_0000_0000_0000_0000_0000_0000
        + d[p + 15] * 0x100_0000_0000_0000_0000_0000_0000_0000
}

/// A sequential cursor over a byte buffer. Seeks may land anywhere; a read
/// past the end of the buffer reports a short read instead of succeeding.
pub struct Source {
    pub data: Vec<u8>,
    pub pos: u64,
}

impl Source {
    pub fn new(data: Vec<u8>) -> (s: Source)
        ensures
            s.data@ == data@,
            s.pos == 0,
    {
        Source { data, pos: 0 }
    }

    /// True when `n` more bytes can be read at the current position.
    pub open spec fn can_read(&self, n: int) -> bool {
        self.pos + n <= self.data@.len()
    }

    /// Moves the cursor to an absolute byte offset, which may lie past the
    /// end of the buffer; reads there fail.
    pub fn seek(&mut self, to: u64)
        ensures
            final(self).data@ == old(self).data@,
            final(self).pos == to,
    {
        self.pos = to;
    }

    pub fn read_u8(&mut self) -> (r: Option<u8>)
        ensures
            final(self).data@ == old(self).data@,
            old(self).can_read(1) ==> {
                &&& r matches Some(v) && v == old(self).data@[old(self).pos as int]
                &&& final(self).pos == old(self).pos + 1
            },
            !old(self).can_read(1) ==> r is None && *final(self) == *old(self),
    {
        if self.pos < self.data.len() as u64 {
            let i = self.pos as usize;
            let v = self.data[i];
            self.pos = self.pos + 1;
            Some(v)
        } else {
            None
        }
    }

    pub fn read_u32(&mut self) -> (r: Option<u32>)
        ensures
            final(self).data@ == old(self).data@,
            old(self).can_read(4) ==> {
                &&& r matches Some(v) && v == le32_at(old(self).data@, old(self).pos as int)
                &&& final(self).pos == old(self).pos + 4
            },
            !old(self).can_read(4) ==> r is None && *final(self) == *old(self),
    {
        if self.pos <= self.data.len() as u64 && self.data.len() as u64 - self.pos >= 4 {
            let i = self.pos as usize;
            let b0 = self.data[i];
            let b1 = self.data[i + 1];
            let b2 = self.data[i + 2];
            let b3 = self.data[i + 3];
            let v: u32 = (b0 as u32) + (b1 as u32) * 0x100 + (b2 as u32) * 0x1_0000 + (b3
                as u32) * 0x100_0000;
            self.pos = self.pos + 4;
            Some(v)
        } else {
            None
        }
    }

    pub fn read_u128(&mut self) -> (r: Option<u128>)
        ensures
            final(self).data@ == old(self).data@,
            old(self).can_read(16) ==> {
                &&& r matches Some(v) && v == le128_at(old(self).data@, old(self).pos as int)
                &&& final(self).pos == old(self).pos + 16
            },
            !old(self).can_read(16) ==> r is None && *final(self) == *old(self),
    {
        if self.pos <= self.data.len() as u64 && self.data.len() as u64 - self.pos >= 16 {
            let i = self.pos as usize;
            let v: u128 = (self.data[i] as u128) + (self.data[i + 1] as u128) * 0x100 + (
            self.data[i + 2] as u128) * 0x1_0000 + (self.data[i + 3] as u128) * 0x100_0000 + (
            self.data[i + 4] as u128) * 0x1_0000_0000 + (self.data[i + 5] as u128)
                * 0x100_0000_0000 + (self.data[i + 6] as u128) * 0x1_0000_0000_0000 + (self.data[i
                + 7] as u128) * 0x100_0000_0000_0000 + (self.data[i + 8] as u128)
                * 0x1_0000_0000_0000_0000 + (self.data[i + 9] as u128) * 0x100_0000_0000_0000_0000
                + (self.data[i + 10] as u128) * 0x1_0000_0000_0000_0000_0000 + (self.data[i + 11]
                as u128) * 0x100_0000_0000_0000_0000_0000 + (self.data[i + 12] as u128)
                * 0x1_0000_0000_0000_0000_0000_0000 + (self.data[i + 13] as u128)
                * 0x100_0000_0000_0000_0000_0000_0000 + (self.data[i + 14] as u128)
                * 0x1_0000_0000_0000_0000_0000_0000_0000 + (self.data[i + 15] as u128)
                * 0x100_0000_0000_0000_0000_0000_0000_0000;
            self.pos = self.pos + 16;
            Some(v)
        } else {
            None
        }
    }

    pub fn read_bytes(&mut self, n: usize) -> (r: Option<Vec<u8>>)
        ensures
            final(self).data@ == old(self).data@,
            old(self).can_read(n as int) ==> {
                &&& r matches Some(v) && v@ == old(self).data@.subrange(
                    old(self).pos as int,
                    old(self).pos + n,
                )
                &&& final(self).pos == old(self).pos + n
            },
            !old(self).can_read(n as int) ==> r is None && *final(self) == *old(self),
    {
        if self.pos <= self.data.len() as u64 && self.data.len() as u64 - self.pos >= n as u64 {
            let start = self.pos as usize;
            let end: usize = start + n;
            let mut v: Vec<u8> = Vec::new();
            let mut j: usize = start;
            while j < end
                invariant
                    start <= j <= end,
                    end == start + n,
                    end <= self.data@.len(),
                    v@ =~= self.data@.subrange(start as int, j as int),
                decreases end - j,
            {
                v.push(self.data[j]);
                j = j + 1;
            }
            self.pos = self.pos + n as u64;
            Some(v)
        } else {
            None
        }
    }
}

} // verus!
