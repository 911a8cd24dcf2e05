//! A cursor that takes fixed-size and length-prefixed pieces off a byte slice.
use vstd::bytes::*;
use vstd::prelude::*;
use vstd::slice::slice_subrange;

verus! {

/// The input ended before the requested bytes.
#[derive(Copy, Clone, PartialEq, Eq, Debug, Structural)]
pub struct ReadError;

pub struct ByteReader<'a> {
    data: &'a [u8],
    pos: usize,
}

impl<'a> ByteReader<'a> {
    pub closed spec fn wf(&self) -> bool {
        self.pos <= self.data@.len()
    }

    /// The bytes not read yet.
    pub closed spec fn rest(&self) -> Seq<u8> {
        self.data@.subrange(self.pos as int, self.data@.len() as int)
    }

    pub fn new(data: &'a [u8]) -> (r: Self)
        ensures
            r.wf(),
            r.rest() == data@,
    {
        let r = ByteReader { data, pos: 0 };
        assert(r.rest() =~= data@);
        r
    }

    pub fn eof(&self) -> (r: bool)
        requires
            self.wf(),
        ensures
            r == (self.rest().len() == 0),
    {
        self.pos == self.data.len()
    }

    /// Takes the next `n` bytes.
    pub fn read_slice(&mut self, n: usize) -> (r: Result<&'a [u8], ReadError>)
        requires
            old(self).wf(),
        ensures
            final(self).wf(),
            match r {
                Ok(s) => n <= old(self).rest().len() && s@ == old(self).rest().subrange(0, n as int)
                    && final(self).rest() == old(self).rest().subrange(n as int, old(self).rest().len() as int),
                Err(_) => n > old(self).rest().len() && final(self).rest() == old(self).rest(),
            },
    {
        if n > self.data.len() - self.pos {
            return Err(ReadError);
        }
        let s = slice_subrange(self.data, self.pos, self.pos + n);
        proof {
            let d = self.data@;
            assert(s@ =~= d.subrange(self.pos as int, d.len() as int).subrange(0, n as int));
            assert(d.subrange(self.pos + n, d.len() as int) =~= d.subrange(self.pos as int, d.len() as int).subrange(n as int, d.len() - self.pos));
        }
        self.pos = self.pos + n;
        Ok(s)
    }

    /// Takes the next `N` bytes.
    pub fn read<const N: usize>(&mut self) -> (r: Result<&'a [u8], ReadError>)
        requires
            old(self).wf(),
        ensures
            final(self).wf(),
            match r {
                Ok(s) => N <= old(self).rest().len() && s@ == old(self).rest().subrange(0, N as int)
                    && final(self).rest() == old(self).rest().subrange(N as int, old(self).rest().len() as int),
                Err(_) => N > old(self).rest().len() && final(self).rest() == old(self).rest(),
            },
    {
        self.read_slice(N)
    }

    pub fn read_u8(&mut self) -> (r: Result<u8, ReadError>)
        requires
            old(self).wf(),
        ensures
            final(self).wf(),
            match r {
                Ok(v) => 1 <= old(self).rest().len() && v == old(self).rest()[0]
                    && final(self).rest() == old(self).rest().subrange(1, old(self).rest().len() as int),
                Err(_) => old(self).rest().len() < 1 && final(self).rest() == old(self).rest(),
            },
    {
        let s = self.read_slice(1)?;
        Ok(s[0])
    }

    pub fn read_u16(&mut self) -> (r: Result<u16, ReadError>)
        requires
            old(self).wf(),
        ensures
            final(self).wf(),
            match r {
                Ok(v) => 2 <= old(self).rest().len() && v == spec_u16_from_le_bytes(old(self).rest().subrange(0, 2))
                    && final(self).rest() == old(self).rest().subrange(2, old(self).rest().len() as int),
                Err(_) => old(self).rest().len() < 2 && final(self).rest() == old(self).rest(),
            },
    {
        let s = self.read_slice(2)?;
        Ok(u16_from_le_bytes(s))
    }

    pub fn read_u32(&mut self) -> (r: Result<u32, ReadError>)
        requires
            old(self).wf(),
        ensures
            final(self).wf(),
            match r {
                Ok(v) => 4 <= old(self).rest().len() && v == spec_u32_from_le_bytes(old(self).rest().subrange(0, 4))
                    && final(self).rest() == old(self).rest().subrange(4, old(self).rest().len() as int),
                Err(_) => old(self).rest().len() < 4 && final(self).rest() == old(self).rest(),
            },
    {
        let s = self.read_slice(4)?;
        Ok(u32_from_le_bytes(s))
    }

    pub fn read_u64(&mut self) -> (r: Result<u64, ReadError>)
        requires
            old(self).wf(),
        ensures
            final(self).wf(),
            match r {
                Ok(v) => 8 <= old(self).rest().len() && v == spec_u64_from_le_bytes(old(self).rest().subrange(0, 8))
                    && final(self).rest() == old(self).rest().subrange(8, old(self).rest().len() as int),
                Err(_) => old(self).rest().len() < 8 && final(self).rest() == old(self).rest(),
            },
    {
        let s = self.read_slice(8)?;
        Ok(u64_from_le_bytes(s))
    }

    /// Takes a one-byte length, then that many bytes.
    pub fn read_slice_len8(&mut self) -> (r: Result<&'a [u8], ReadError>)
        requires
            old(self).wf(),
        ensures
            final(self).wf(),
            ({
                let b = old(self).rest();
                match r {
                    Ok(s) => 1 <= b.len() && 1 + b[0] <= b.len()
                        && s@ == b.subrange(1, 1 + b[0])
                        && final(self).rest() == b.subrange(1 + b[0], b.len() as int),
                    Err(_) => b.len() < 1 || 1 + b[0] > b.len(),
                }
            }),
    {
        let len = self.read_u8()? as usize;
        proof {
            let b = old(self).rest();
            if 1 + b[0] <= b.len() {
                assert(self.rest().subrange(0, len as int) =~= b.subrange(1, 1 + b[0]));
                assert(self.rest().subrange(len as int, self.rest().len() as int) =~= b.subrange(1 + b[0], b.len() as int));
            }
        }
        self.read_slice(len)
    }

    /// Takes a two-byte little-endian length, then that many bytes.
    pub fn read_slice_len16(&mut self) -> (r: Result<&'a [u8], ReadError>)
        requires
            old(self).wf(),
        ensures
            final(self).wf(),
            ({
                let b = old(self).rest();
                match r {
                    Ok(s) => {
                        let n = spec_u16_from_le_bytes(b.subrange(0, 2)) as int;
                        2 <= b.len() && 2 + n <= b.len() && s@ == b.subrange(2, 2 + n)
                            && final(self).rest() == b.subrange(2 + n, b.len() as int)
                    },
                    Err(_) => b.len() < 2 || 2 + spec_u16_from_le_bytes(b.subrange(0, 2)) > b.len(),
                }
            }),
    {
        let len = self.read_u16()? as usize;
        proof {
            let b = old(self).rest();
            let n = len as int;
            if 2 + n <= b.len() {
                assert(self.rest().subrange(0, n) =~= b.subrange(2, 2 + n));
                assert(self.rest().subrange(n, self.rest().len() as int) =~= b.subrange(2 + n, b.len() as int));
            }
        }
        self.read_slice(len)
    }
}

} // verus!
