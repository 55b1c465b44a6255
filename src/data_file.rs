use vstd::prelude::*;
use vstd::string::StringSliceAdditionalSpecFns;

use crate::errors::{Errors, Result};
use crate::fio::IOManager;
use crate::log_record::{
    decode_header, decode_log_record, decode_spec, lemma_decode_prefix, lemma_parse_header_prefix,
    ReadLogRecord, RecordModel, CRC_SIZE, HEADER_READ_LEN, MIN_HEADER_SIZE,
};

verus! {

/// Value of a string of decimal digits.
pub open spec fn decimal_value(s: Seq<u8>) -> nat
    decreases s.len(),
{
    if s.len() == 0 {
        0
    } else {
        decimal_value(s.drop_last()) * 10 + (s.last() - 48) as nat
    }
}

pub open spec fn all_digits(s: Seq<u8>) -> bool {
    forall|i: int| 0 <= i < s.len() ==> 48 <= #[trigger] s[i] <= 57
}

/// The extension of data file names, `.data`.
pub open spec fn data_extension() -> Seq<u8> {
    seq![46u8, 100u8, 97u8, 116u8, 97u8]
}

/// What a directory entry's name says: `None` unless it ends in `.data`;
/// the id when the rest is a decimal `u32`; otherwise the directory is
/// corrupted.
pub open spec fn data_file_id_spec(name: Seq<u8>) -> Option<Result<u32>> {
    if name.len() < 5 || name.subrange(name.len() - 5, name.len() as int) != data_extension() {
        None
    } else {
        let stem = name.subrange(0, name.len() - 5);
        if stem.len() > 0 && all_digits(stem) && decimal_value(stem) <= u32::MAX {
            Some(Ok(decimal_value(stem) as u32))
        } else {
            Some(Err(Errors::DataDirCorrupted))
        }
    }
}

proof fn lemma_decimal_grows(s: Seq<u8>, j: int)
    requires
        0 <= j <= s.len(),
        all_digits(s),
    ensures
        decimal_value(s.subrange(0, j)) <= decimal_value(s),
    decreases s.len(),
{
    if j < s.len() {
        assert(s.drop_last().subrange(0, j) =~= s.subrange(0, j));
        lemma_decimal_grows(s.drop_last(), j);
    } else {
        assert(s.subrange(0, j) =~= s);
    }
}

/// Reads a data file's id from its name (see `data_file_id_spec`).
pub fn parse_data_file_id(name: &str) -> (r: Option<Result<u32>>)
    ensures
        r == data_file_id_spec(name.spec_bytes()),
{
    let b = name.as_bytes();
    let n = b.len();
    if n < 5 || b[n - 5] != 46u8 || b[n - 4] != 100u8 || b[n - 3] != 97u8 || b[n - 2] != 116u8 || b[n - 1] != 97u8 {
        proof {
            if n >= 5 && b@.subrange(n - 5, n as int) == data_extension() {
                assert(b@.subrange(n - 5, n as int)[0] == 46u8);
                assert(b@.subrange(n - 5, n as int)[1] == 100u8);
                assert(b@.subrange(n - 5, n as int)[2] == 97u8);
                assert(b@.subrange(n - 5, n as int)[3] == 116u8);
                assert(b@.subrange(n - 5, n as int)[4] == 97u8);
            }
        }
        return None;
    }
    assert(b@.subrange(n - 5, n as int) =~= data_extension());
    let ghost stem = b@.subrange(0, n - 5);
    if n == 5 {
        return Some(Err(Errors::DataDirCorrupted));
    }
    let mut v: u64 = 0;
    let mut i: usize = 0;
    while i < n - 5
        invariant
            n == b@.len(),
            b@ == name.spec_bytes(),
            b@.subrange(n - 5, n as int) == data_extension(),
            n > 5,
            stem == b@.subrange(0, n - 5),
            i <= n - 5,
            all_digits(stem.subrange(0, i as int)),
            v == decimal_value(stem.subrange(0, i as int)),
            v <= u32::MAX,
        decreases n - 5 - i,
    {
        let c = b[i];
        if c < 48 || c > 57 {
            proof {
                assert(stem[i as int] == c);
                assert(!all_digits(stem));
            }
            return Some(Err(Errors::DataDirCorrupted));
        }
        proof {
            assert(stem.subrange(0, i + 1).drop_last() =~= stem.subrange(0, i as int));
            assert(all_digits(stem.subrange(0, i + 1)));
        }
        v = v * 10 + (c - 48) as u64;
        i = i + 1;
        if v > u32::MAX as u64 {
            proof {
                if all_digits(stem) {
                    lemma_decimal_grows(stem, i as int);
                }
            }
            return Some(Err(Errors::DataDirCorrupted));
        }
    }
    assert(stem.subrange(0, i as int) =~= stem);
    Some(Ok(v as u32))
}

/// `found` lists the data files among `names` (as id and place in
/// `names`), each once, in ascending id order.
pub open spec fn lists_data_files(names: Seq<Seq<u8>>, found: Seq<(u32, usize)>) -> bool {
    &&& forall|a: int, b: int| 0 <= a < b < found.len() ==> found[a].0 <= found[b].0
    &&& forall|a: int, b: int| 0 <= a < b < found.len() ==> found[a].1 != found[b].1
    &&& forall|a: int|
        0 <= a < found.len() ==> found[a].1 < names.len() && data_file_id_spec(names[found[a].1 as int])
            == Some(Ok::<u32, Errors>(found[a].0))
    &&& forall|j: int|
        0 <= j < names.len() && data_file_id_spec(names[j]) is Some ==> exists|a: int|
            0 <= a < found.len() && found[a].1 == j
}

/// Picks the data files out of a directory's entry names (see
/// `data_file_id_spec`) and orders them by id; a name with the data
/// extension and a stem that is no id means the directory is corrupted.
pub fn find_data_files(names: &Vec<&str>) -> (r: Result<Vec<(u32, usize)>>)
    ensures
        match r {
            Ok(found) => lists_data_files(names@.map_values(|n: &str| n.spec_bytes()), found@),
            Err(e) => e == Errors::DataDirCorrupted && exists|j: int|
                0 <= j < names@.len() && data_file_id_spec(names@[j].spec_bytes()) == Some(
                    Err::<u32, Errors>(Errors::DataDirCorrupted),
                ),
        },
{
    let ghost ns = names@.map_values(|n: &str| n.spec_bytes());
    let mut found: Vec<(u32, usize)> = Vec::new();
    let mut i: usize = 0;
    while i < names.len()
        invariant
            i <= names@.len(),
            ns == names@.map_values(|n: &str| n.spec_bytes()),
            forall|a: int, b: int| 0 <= a < b < found@.len() ==> found@[a].0 <= found@[b].0,
            forall|a: int, b: int| 0 <= a < b < found@.len() ==> found@[a].1 != found@[b].1,
            forall|a: int|
                0 <= a < found@.len() ==> found@[a].1 < i && data_file_id_spec(ns[found@[a].1 as int])
                    == Some(Ok::<u32, Errors>(found@[a].0)),
            forall|j: int|
                0 <= j < i && data_file_id_spec(ns[j]) is Some ==> exists|a: int|
                    0 <= a < found@.len() && found@[a].1 == j,
        decreases names@.len() - i,
    {
        assert(ns[i as int] == names@[i as int].spec_bytes());
        match parse_data_file_id(names[i]) {
            None => {},
            Some(Err(e)) => {
                return Err(e);
            },
            Some(Ok(id)) => {
                let mut p: usize = 0;
                while p < found.len() && found[p].0 <= id
                    invariant
                        p <= found@.len(),
                        forall|a: int| 0 <= a < p ==> found@[a].0 <= id,
                    decreases found@.len() - p,
                {
                    p = p + 1;
                }
                let ghost before = found@;
                found.insert(p, (id, i));
                proof {
                    assert(found@ == before.insert(p as int, (id, i)));
                    assert forall|j: int|
                        0 <= j < i + 1 && data_file_id_spec(ns[j]) is Some implies exists|a: int|
                        0 <= a < found@.len() && found@[a].1 == j by {
                        if j == i {
                            assert(found@[p as int].1 == j);
                        } else {
                            let a = choose|a: int| 0 <= a < before.len() && before[a].1 == j;
                            if a < p {
                                assert(found@[a].1 == j);
                            } else {
                                assert(found@[a + 1].1 == j);
                            }
                        }
                    }
                }
            },
        }
        i = i + 1;
    }
    assert(ns.len() == names@.len());
    Ok(found)
}

/// A read of a record agrees with what the bytes decode to, unless the read
/// itself failed.
pub open spec fn read_as(r: Result<ReadLogRecord>, d: Result<(RecordModel, nat)>) -> bool {
    match r {
        Ok(x) => d == Ok::<(RecordModel, nat), Errors>((x.record@, x.size as nat)),
        Err(e) => e == Errors::FailedToReadFromDataFile || d == Err::<(RecordModel, nat), Errors>(e),
    }
}

/// One append-only segment of the log.
pub struct DataFile<IO> {
    file_id: u32,
    write_off: u64,
    io_manager: IO,
    /// How many leading bytes a sync has made durable.
    synced: Ghost<nat>,
}

impl<IO: IOManager> DataFile<IO> {
    pub closed spec fn id(&self) -> u32 {
        self.file_id
    }

    pub closed spec fn write_offset(&self) -> u64 {
        self.write_off
    }

    /// The bytes of the segment.
    pub closed spec fn contents(&self) -> Seq<u8> {
        self.io_manager.contents()
    }

    /// How many leading bytes are known to be durable.
    pub closed spec fn synced_len(&self) -> nat {
        self.synced@
    }

    /// Every byte of the segment is durable.
    pub open spec fn durable(&self) -> bool {
        self.synced_len() == self.contents().len()
    }

    /// The append cursor stands at the end of the contents.
    pub open spec fn wf(&self) -> bool {
        self.write_offset() as nat == self.contents().len()
    }

    /// The record at `offset`, as the contents decode it; past the end of
    /// the contents, the end of the log.
    pub open spec fn record_at(&self, offset: nat) -> Result<(RecordModel, nat)> {
        if offset > self.contents().len() {
            Err(Errors::ReadDataFileEOF)
        } else {
            decode_spec(self.contents().subrange(offset as int, self.contents().len() as int))
        }
    }

    /// Opens data file `file_id` in `dir_path`, creating it if absent; the
    /// cursor is put at its end.
    pub fn new(dir_path: &str, file_id: u32) -> (r: Result<DataFile<IO>>)
        ensures
            r is Ok ==> r->Ok_0.wf() && r->Ok_0.id() == file_id && r->Ok_0.synced_len() == 0,
            r is Err ==> r == Err::<DataFile<IO>, Errors>(Errors::FailedToOpenDataFile) || r == Err::<
                DataFile<IO>,
                Errors,
            >(Errors::FailedToReadFromDataFile),
    {
        let io = match IO::open(dir_path, file_id) {
            Ok(io) => io,
            Err(e) => return Err(e),
        };
        Self::from_io(file_id, io)
    }

    /// A data file kept in an already opened backend; the cursor is put at its end.
    pub fn from_io(file_id: u32, io: IO) -> (r: Result<DataFile<IO>>)
        ensures
            r is Ok ==> r->Ok_0.wf() && r->Ok_0.id() == file_id && r->Ok_0.contents() == io.contents()
                && r->Ok_0.synced_len() == 0,
            r is Err ==> r == Err::<DataFile<IO>, Errors>(Errors::FailedToReadFromDataFile),
    {
        let size = match io.size() {
            Ok(n) => n,
            Err(e) => return Err(e),
        };
        Ok(DataFile { file_id, write_off: size, io_manager: io, synced: Ghost(0) })
    }

    pub fn get_write_off(&self) -> (r: u64)
        ensures
            r == self.write_offset(),
    {
        self.write_off
    }

    pub fn get_file_id(&self) -> (r: u32)
        ensures
            r == self.id(),
    {
        self.file_id
    }

    /// The backend the segment is kept in.
    pub fn io_manager(&self) -> (r: &IO)
        ensures
            r.contents() == self.contents(),
    {
        &self.io_manager
    }

    /// Gives up the segment: its id and its backend.
    pub fn into_parts(self) -> (r: (u32, IO))
        ensures
            r.0 == self.id(),
            r.1.contents() == self.contents(),
    {
        (self.file_id, self.io_manager)
    }

    /// Moves the cursor back to `offset`, dropping the bytes after it, so
    /// that the next append starts there.
    pub fn set_write_off(&mut self, offset: u64) -> (r: Result<()>)
        requires
            old(self).wf(),
            offset <= old(self).write_offset(),
        ensures
            final(self).wf(),
            final(self).id() == old(self).id(),
            r is Ok ==> final(self).contents() == old(self).contents().subrange(0, offset as int),
            r is Ok ==> final(self).synced_len() == if old(self).synced_len() < offset {
                old(self).synced_len()
            } else {
                offset as nat
            },
            r is Err ==> final(self).contents() == old(self).contents() && final(self).synced_len()
                == old(self).synced_len() && r == Err::<(), Errors>(Errors::FailedToWriteToDataFile),
    {
        match self.io_manager.truncate(offset) {
            Ok(()) => {
                self.write_off = offset;
                self.synced = Ghost(
                    if self.synced@ < offset {
                        self.synced@
                    } else {
                        offset as nat
                    },
                );
                Ok(())
            },
            Err(e) => Err(e),
        }
    }

    /// Appends `buf` at the cursor and moves the cursor past it.
    pub fn write(&mut self, buf: &[u8]) -> (r: Result<usize>)
        requires
            old(self).wf(),
            old(self).write_offset() + buf@.len() <= u64::MAX,
        ensures
            final(self).wf(),
            final(self).id() == old(self).id(),
            r is Ok ==> r->Ok_0 == buf@.len() && final(self).contents() == old(self).contents() + buf@,
            final(self).synced_len() == old(self).synced_len(),
            r is Err ==> final(self).contents() == old(self).contents() && r == Err::<usize, Errors>(
                Errors::FailedToWriteToDataFile,
            ),
    {
        match self.io_manager.write(buf) {
            Ok(n) => {
                self.write_off = self.write_off + n as u64;
                Ok(n)
            },
            Err(e) => Err(e),
        }
    }

    /// Makes the segment's bytes durable.
    pub fn sync(&mut self) -> (r: Result<()>)
        requires
            old(self).wf(),
        ensures
            final(self).wf(),
            final(self).id() == old(self).id(),
            final(self).contents() == old(self).contents(),
            r is Ok ==> final(self).durable(),
            r is Err ==> *final(self) == *old(self) && r == Err::<(), Errors>(
                Errors::FailedToSyncDataFile,
            ),
    {
        match self.io_manager.sync() {
            Ok(()) => {
                self.synced = Ghost(self.io_manager.contents().len());
                Ok(())
            },
            Err(e) => Err(e),
        }
    }

    /// Reads exactly `len` bytes at `offset`.
    fn read_exact(&self, offset: u64, len: usize) -> (r: Result<Vec<u8>>)
        requires
            self.wf(),
            offset + len <= self.contents().len(),
        ensures
            r is Ok ==> r->Ok_0@ == self.contents().subrange(offset as int, offset + len),
            r is Err ==> r == Err::<Vec<u8>, Errors>(Errors::FailedToReadFromDataFile),
    {
        let mut buf: Vec<u8> = vec![0u8; len];
        match self.io_manager.read(buf.as_mut_slice(), offset) {
            Ok(n) => {
                assert(n == len);
                assert(buf@ =~= self.contents().subrange(offset as int, offset + len));
                Ok(buf)
            },
            Err(e) => Err(e),
        }
    }

    /// Reads and decodes the record at `offset`, without moving the cursor.
    pub fn read_log_record(&self, offset: u64) -> (r: Result<ReadLogRecord>)
        requires
            self.wf(),
        ensures
            read_as(r, self.record_at(offset as nat)),
            offset + MIN_HEADER_SIZE > self.contents().len() ==> r == Err::<ReadLogRecord, Errors>(
                Errors::ReadDataFileEOF,
            ),
    {
        if offset > self.write_off || self.write_off - offset < MIN_HEADER_SIZE as u64 {
            // too few bytes left for any header: the end of the log
            return Err(Errors::ReadDataFileEOF);
        }
        let ghost s = self.contents().subrange(offset as int, self.contents().len() as int);
        let avail: u64 = self.write_off - offset;
        let hlen: usize = if avail < HEADER_READ_LEN as u64 {
            avail as usize
        } else {
            HEADER_READ_LEN
        };
        let hbuf = match self.read_exact(offset, hlen) {
            Ok(b) => b,
            Err(e) => return Err(e),
        };
        proof {
            assert(hbuf@ =~= s.subrange(0, hlen as int));
            if hlen == HEADER_READ_LEN {
                lemma_parse_header_prefix(s, hlen as nat);
            } else {
                assert(s.subrange(0, hlen as int) =~= s);
            }
        }
        let (t, k, v, h) = match decode_header(hbuf.as_slice()) {
            Ok(x) => x,
            Err(e) => return Err(e),
        };
        let rest: u64 = avail - h as u64;
        if k > rest {
            return Err(Errors::IncompleteLogRecord);
        }
        if v > rest - k {
            return Err(Errors::IncompleteLogRecord);
        }
        if rest - k - v < CRC_SIZE as u64 {
            return Err(Errors::IncompleteLogRecord);
        }
        let total: u64 = h as u64 + k + v + CRC_SIZE as u64;
        if total > usize::MAX as u64 {
            // a record this large cannot be held in memory
            return Err(Errors::FailedToReadFromDataFile);
        }
        let buf = match self.read_exact(offset, total as usize) {
            Ok(b) => b,
            Err(e) => return Err(e),
        };
        proof {
            assert(buf@ =~= s.subrange(0, total as int));
            lemma_decode_prefix(s, total as nat);
        }
        match decode_log_record(buf.as_slice()) {
            Ok((record, size)) => Ok(ReadLogRecord { record, size: size as u64 }),
            Err(e) => Err(e),
        }
    }
}

} // verus!
