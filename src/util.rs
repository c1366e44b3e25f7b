use vstd::prelude::*;

use crate::err::{Error, Kind};

verus! {

/// A cursor over a byte buffer that counts the bytes consumed so far.
pub struct TrackedRead {
    inner: Vec<u8>,
    read_bytes: usize,
}

impl TrackedRead {
    /// The bytes of the source.
    pub closed spec fn data(&self) -> Seq<u8> {
        self.inner@
    }

    /// The number of bytes consumed so far.
    pub closed spec fn consumed(&self) -> nat {
        self.read_bytes as nat
    }

    pub open spec fn pos(&self) -> int {
        self.consumed() as int
    }

    pub open spec fn wf(&self) -> bool {
        self.pos() <= self.data().len()
    }

    pub fn new(inner: Vec<u8>) -> (r: TrackedRead)
        ensures
            r.wf(),
            r.data() == inner@,
            r.pos() == 0,
    {
        TrackedRead { inner: inner, read_bytes: 0 }
    }

    pub fn tell(&self) -> (r: usize)
        ensures
            r == self.pos(),
    {
        self.read_bytes
    }

    /// Consumes one byte; fails with `Kind::Io` at the end of the source.
    pub fn read_u8(&mut self) -> (r: Result<u8, Error>)
        requires
            old(self).wf(),
        ensures
            final(self).wf(),
            final(self).data() == old(self).data(),
            old(self).pos() <= old(self).data().len(),
            match r {
                Ok(b) => old(self).pos() < old(self).data().len() && b == old(self).data()[old(
                    self,
                ).pos()] && final(self).pos() == old(self).pos() + 1,
                Err(e) => old(self).pos() == old(self).data().len() && e.kind == Kind::Io
                    && e.offset == old(self).pos() && final(self).pos() == old(self).pos(),
            },
    {
        if self.read_bytes < self.inner.len() {
            let b = self.inner[self.read_bytes];
            self.read_bytes = self.read_bytes + 1;
            Ok(b)
        } else {
            Err(Error::new(Kind::Io, self.read_bytes, None))
        }
    }

    /// Consumes exactly `n` bytes; fails with `Kind::Io`, consuming nothing,
    /// when fewer remain.
    pub fn read_exact(&mut self, n: u64) -> (r: Result<Vec<u8>, Error>)
        requires
            old(self).wf(),
        ensures
            final(self).wf(),
            final(self).data() == old(self).data(),
            old(self).pos() <= old(self).data().len(),
            match r {
                Ok(v) => old(self).pos() + n <= old(self).data().len() && v@ == old(
                    self,
                ).data().subrange(old(self).pos(), old(self).pos() + n) && final(self).pos()
                    == old(self).pos() + n,
                Err(e) => old(self).pos() + n > old(self).data().len() && e.kind == Kind::Io
                    && e.offset == old(self).pos() && final(self).pos() == old(self).pos(),
            },
    {
        let start = self.read_bytes;
        let avail = self.inner.len() - start;
        if n > avail as u64 {
            return Err(Error::new(Kind::Io, start, None));
        }
        let end = start + n as usize;
        let mut out: Vec<u8> = Vec::new();
        let mut i: usize = start;
        while i < end
            invariant
                start <= i <= end <= self.inner.len(),
                out@ == self.inner@.subrange(start as int, i as int),
            decreases end - i,
        {
            out.push(self.inner[i]);
            assert(self.inner@.subrange(start as int, i + 1) =~= out@);
            i = i + 1;
        }
        self.read_bytes = end;
        Ok(out)
    }
}

} // verus!
