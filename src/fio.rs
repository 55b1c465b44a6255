use vstd::prelude::*;

use crate::errors::{Errors, Result};

verus! {

/// How many bytes a read of `want` bytes at `offset` yields from `len` bytes.
pub open spec fn read_len(want: nat, len: nat, offset: nat) -> nat {
    if offset >= len {
        0
    } else if want <= len - offset {
        want
    } else {
        (len - offset) as nat
    }
}

/// The I/O primitive a data file is kept in: positional reads, appends,
/// sync. A file on disk is one such backend, a buffer in memory another.
pub trait IOManager: Sized {
    /// The bytes the backend holds. Every backend proved here gives its own
    /// model. The default is a placeholder that lets a backend written outside
    /// verification implement the trait; such a backend cannot meet the
    /// contracts below under it, so nothing proved of a data file or a store
    /// holds of it.
    closed spec fn contents(&self) -> Seq<u8> {
        Seq::empty()
    }

    /// Opens (creating it if absent) the backend for data file `file_id` in
    /// directory `dir_path`.
    fn open(dir_path: &str, file_id: u32) -> (r: Result<Self>)
        ensures
            r is Err ==> r == Err::<Self, Errors>(Errors::FailedToOpenDataFile),
    ;

    /// Reads into `buf` the bytes that start at `offset`, as many as fit and
    /// exist, and returns their number. Does not move the append cursor.
    fn read(&self, buf: &mut [u8], offset: u64) -> (r: Result<usize>)
        ensures
            final(buf)@.len() == old(buf)@.len(),
            r is Ok ==> {
                let n = r->Ok_0;
                &&& n == read_len(old(buf)@.len(), self.contents().len(), offset as nat)
                &&& forall|j: int|
                    0 <= j < n ==> #[trigger] final(buf)@[j] == self.contents()[offset + j]
            },
            r is Err ==> r == Err::<usize, Errors>(Errors::FailedToReadFromDataFile),
    ;

    /// Appends all of `buf`. A failed append leaves the contents as they were.
    fn write(&mut self, buf: &[u8]) -> (r: Result<usize>)
        ensures
            r is Ok ==> r->Ok_0 == buf@.len() && final(self).contents() == old(self).contents()
                + buf@,
            r is Err ==> r == Err::<usize, Errors>(Errors::FailedToWriteToDataFile)
                && final(self).contents() == old(self).contents(),
    ;

    /// Makes every byte written so far durable.
    fn sync(&self) -> (r: Result<()>)
        ensures
            r is Err ==> r == Err::<(), Errors>(Errors::FailedToSyncDataFile),
    ;

    /// The number of bytes held.
    fn size(&self) -> (r: Result<u64>)
        ensures
            r is Ok ==> r->Ok_0 == self.contents().len(),
            r is Err ==> r == Err::<u64, Errors>(Errors::FailedToReadFromDataFile),
    ;

    /// Cuts the contents back to their first `size` bytes.
    fn truncate(&mut self, size: u64) -> (r: Result<()>)
        requires
            size <= old(self).contents().len(),
        ensures
            r is Ok ==> final(self).contents() == old(self).contents().subrange(0, size as int),
            r is Err ==> r == Err::<(), Errors>(Errors::FailedToWriteToDataFile)
                && final(self).contents() == old(self).contents(),
    ;
}

/// A backend held in memory.
pub struct MemIO {
    data: Vec<u8>,
}

impl MemIO {
    /// A backend that holds `data`.
    pub fn from_bytes(data: Vec<u8>) -> (r: MemIO)
        ensures
            r.contents() == data@,
    {
        MemIO { data }
    }

    /// A copy of the bytes held.
    pub fn bytes(&self) -> (r: Vec<u8>)
        ensures
            r@ == self.contents(),
    {
        self.data.clone()
    }
}

impl IOManager for MemIO {
    closed spec fn contents(&self) -> Seq<u8> {
        self.data@
    }

    fn open(dir_path: &str, file_id: u32) -> (r: Result<MemIO>)
        ensures
            r is Ok,
    {
        Ok(MemIO { data: Vec::new() })
    }

    fn read(&self, buf: &mut [u8], offset: u64) -> (r: Result<usize>)
        ensures
            r is Ok,
    {
        let len = self.data.len();
        if offset >= len as u64 {
            return Ok(0);
        }
        let start = offset as usize;
        let n: usize = if buf.len() <= len - start {
            buf.len()
        } else {
            len - start
        };
        let mut i: usize = 0;
        while i < n
            invariant
                i <= n,
                start + n <= self.data@.len(),
                self.data@.len() == len,
                n <= buf@.len(),
                buf@.len() == old(buf)@.len(),
                forall|j: int| 0 <= j < i ==> buf@[j] == self.data@[start + j],
            decreases n - i,
        {
            buf[i] = self.data[start + i];
            i = i + 1;
        }
        Ok(n)
    }

    fn write(&mut self, buf: &[u8]) -> (r: Result<usize>)
        ensures
            r is Ok,
    {
        let mut i: usize = 0;
        while i < buf.len()
            invariant
                i <= buf@.len(),
                self.data@ == old(self).data@ + buf@.subrange(0, i as int),
            decreases buf@.len() - i,
        {
            self.data.push(buf[i]);
            i = i + 1;
            assert(self.data@ =~= old(self).data@ + buf@.subrange(0, i as int));
        }
        assert(buf@.subrange(0, i as int) =~= buf@);
        Ok(buf.len())
    }

    fn sync(&self) -> (r: Result<()>)
        ensures
            r is Ok,
    {
        Ok(())
    }

    fn size(&self) -> (r: Result<u64>)
        ensures
            r is Ok,
    {
        Ok(self.data.len() as u64)
    }

    fn truncate(&mut self, size: u64) -> (r: Result<()>)
        ensures
            r is Ok,
    {
        self.data.truncate(size as usize);
        assert(self.data@ =~= old(self).data@.subrange(0, size as int));
        Ok(())
    }
}

} // verus!
