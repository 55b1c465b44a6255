use vstd::prelude::*;

use crate::data_file::DataFile;
use crate::errors::{Errors, Result};
use crate::fio::IOManager;
use crate::index::{new_index, Indexer, MemIndex};
use crate::log_record::{
    decode_error, lemma_decode_errors, decode_spec, encode_spec, lemma_decode_extend, lemma_decode_prefix, lemma_encode_decode,
    lemma_pow128_values, lemma_round_trip, valid_record, LogRecord, LogRecordPos, LogRecordType,
    RecordModel,
};
use crate::options::{check_options, options_error, Options};

verus! {

/// Largest key or value length the length fields can carry.
pub const MAX_FIELD_LEN: u64 = 0x8000000000000000;

/// The last of `files` whose id is `id`.
pub open spec fn find_file<IO: IOManager>(files: Seq<DataFile<IO>>, id: u32) -> Option<DataFile<IO>>
    decreases files.len(),
{
    if files.len() == 0 {
        None
    } else if files.last().id() == id {
        Some(files.last())
    } else {
        find_file(files.drop_last(), id)
    }
}

proof fn lemma_find_file<IO: IOManager>(files: Seq<DataFile<IO>>, id: u32)
    ensures
        find_file(files, id) is Some ==> exists|i: int|
            0 <= i < files.len() && files[i] == find_file(files, id)->Some_0 && files[i].id() == id,
    decreases files.len(),
{
    if files.len() > 0 && files.last().id() != id {
        lemma_find_file(files.drop_last(), id);
        if find_file(files, id) is Some {
            let i = choose|i: int|
                0 <= i < files.drop_last().len() && files.drop_last()[i] == find_file(files, id)->Some_0
                    && files.drop_last()[i].id() == id;
            assert(files[i] == files.drop_last()[i]);
        }
    }
}

/// The index after replaying record `r`, found at `off` of file `id`.
pub open spec fn apply_record(
    m: Map<Seq<u8>, LogRecordPos>,
    r: RecordModel,
    id: u32,
    off: nat,
) -> Map<Seq<u8>, LogRecordPos> {
    match r.rec_type {
        LogRecordType::NORMAL => m.insert(r.key, LogRecordPos { file_id: id, offset: off as u64 }),
        LogRecordType::DELETED => m.remove(r.key),
    }
}

/// Replays the records of file `id` (bytes `c`) from `off` onwards into `m`,
/// until a record does not decode: the index, the offset replay stopped
/// at, and why it stopped.
pub open spec fn replay_records(
    c: Seq<u8>,
    id: u32,
    off: nat,
    m: Map<Seq<u8>, LogRecordPos>,
) -> (Map<Seq<u8>, LogRecordPos>, nat, Errors)
    decreases c.len() - off,
{
    if off >= c.len() {
        (m, off, Errors::ReadDataFileEOF)
    } else {
        match decode_spec(c.subrange(off as int, c.len() as int)) {
            Ok((r, n)) => if n > 0 && off + n <= c.len() {
                replay_records(c, id, off + n, apply_record(m, r, id, off))
            } else {
                (m, off, Errors::ReadDataFileEOF)
            },
            Err(e) => (m, off, e),
        }
    }
}

/// The index that replaying `files` (id and bytes), first to last, builds
/// from nothing.
pub open spec fn replay_files(files: Seq<(u32, Seq<u8>)>) -> Map<Seq<u8>, LogRecordPos>
    decreases files.len(),
{
    if files.len() == 0 {
        Map::empty()
    } else {
        replay_records(files.last().1, files.last().0, 0, replay_files(files.drop_last())).0
    }
}

/// Replay of file `j` of `files`, after those before it, ran to the end of
/// its log rather than stopping at corruption.
pub open spec fn replays_clean(files: Seq<(u32, Seq<u8>)>, j: int) -> bool {
    replay_records(files[j].1, files[j].0, 0, replay_files(files.take(j))).2 == Errors::ReadDataFileEOF
}

/// Ids and bytes of data files.
pub open spec fn files_model<IO: IOManager>(files: Seq<DataFile<IO>>) -> Seq<(u32, Seq<u8>)> {
    files.map_values(|f: DataFile<IO>| (f.id(), f.contents()))
}

/// Ids and bytes of backends.
pub open spec fn input_model<IO: IOManager>(files: Seq<(u32, IO)>) -> Seq<(u32, Seq<u8>)> {
    files.map_values(|f: (u32, IO)| (f.0, f.1.contents()))
}

/// Ids strictly ascending.
pub open spec fn ids_ascending<IO: IOManager>(files: Seq<DataFile<IO>>) -> bool {
    forall|a: int, b: int| 0 <= a < b < files.len() ==> files[a].id() < files[b].id()
}

proof fn lemma_find_sorted<IO: IOManager>(files: Seq<DataFile<IO>>, j: int)
    requires
        0 <= j < files.len(),
        ids_ascending(files),
    ensures
        find_file(files, files[j].id()) == Some(files[j]),
    decreases files.len(),
{
    if j < files.len() - 1 {
        assert(files.last() == files[files.len() - 1]);
        lemma_find_sorted(files.drop_last(), j);
        assert(files.drop_last()[j] == files[j]);
    }
}

/// Once replay of `c` from `off` stops exactly at the end of `c`, bytes
/// appended to `c` are replayed after everything `c` held.
proof fn lemma_replay_extend(
    c: Seq<u8>,
    t: Seq<u8>,
    id: u32,
    off: nat,
    m: Map<Seq<u8>, LogRecordPos>,
)
    requires
        off <= c.len(),
        replay_records(c, id, off, m).1 == c.len(),
    ensures
        replay_records(c + t, id, off, m) == replay_records(
            c + t,
            id,
            c.len(),
            replay_records(c, id, off, m).0,
        ),
    decreases c.len() - off,
{
    if off < c.len() {
        let s = (c + t).subrange(off as int, (c + t).len() as int);
        assert(s.subrange(0, c.len() - off) =~= c.subrange(off as int, c.len() as int));
        match decode_spec(c.subrange(off as int, c.len() as int)) {
            Ok((r, n)) => {
                lemma_decode_extend(s, (c.len() - off) as nat);
                if n > 0 && off + n <= c.len() {
                    lemma_replay_extend(c, t, id, off + n, apply_record(m, r, id, off));
                }
            },
            Err(_) => {},
        }
    }
}

proof fn lemma_replay_stop_after(c: Seq<u8>, id: u32, off: nat, m: Map<Seq<u8>, LogRecordPos>)
    ensures
        off <= replay_records(c, id, off, m).1,
        off <= c.len() ==> replay_records(c, id, off, m).1 <= c.len(),
    decreases c.len() - off,
{
    if off < c.len() {
        match decode_spec(c.subrange(off as int, c.len() as int)) {
            Ok((r, n)) => {
                if n > 0 && off + n <= c.len() {
                    lemma_replay_stop_after(c, id, off + n, apply_record(m, r, id, off));
                }
            },
            Err(_) => {},
        }
    }
}

/// Cutting `c` back to where its replay stopped changes nothing replay
/// builds, and replay of what is left stops at its end.
proof fn lemma_replay_truncate(
    c: Seq<u8>,
    id: u32,
    off: nat,
    m: Map<Seq<u8>, LogRecordPos>,
    end: nat,
)
    requires
        off <= c.len(),
        end == replay_records(c, id, off, m).1,
    ensures
        replay_records(c.subrange(0, end as int), id, off, m).0 == replay_records(c, id, off, m).0,
        replay_records(c.subrange(0, end as int), id, off, m).1 == end,
    decreases c.len() - off,
{
    lemma_replay_stop_after(c, id, off, m);
    let d = c.subrange(0, end as int);
    if off < c.len() {
        match decode_spec(c.subrange(off as int, c.len() as int)) {
            Ok((r, n)) => {
                if n > 0 && off + n <= c.len() {
                    let m2 = apply_record(m, r, id, off);
                    lemma_replay_stop_after(c, id, off + n, m2);
                    let s = c.subrange(off as int, c.len() as int);
                    assert(d.subrange(off as int, d.len() as int) =~= s.subrange(0, end - off));
                    lemma_decode_prefix(s, (end - off) as nat);
                    lemma_replay_truncate(c, id, off + n, m2, end);
                    assert(c.subrange(0, end as int) == d);
                }
            },
            Err(_) => {},
        }
    }
}

/// Replay of a last record that fills `c` to its end.
proof fn lemma_replay_last(
    c: Seq<u8>,
    id: u32,
    off: nat,
    m: Map<Seq<u8>, LogRecordPos>,
    r: RecordModel,
)
    requires
        off < c.len(),
        decode_spec(c.subrange(off as int, c.len() as int)) == Ok::<(RecordModel, nat), Errors>(
            (r, (c.len() - off) as nat),
        ),
    ensures
        replay_records(c, id, off, m) == (
            apply_record(m, r, id, off),
            c.len(),
            Errors::ReadDataFileEOF,
        ),
{
    assert(replay_records(c, id, c.len(), apply_record(m, r, id, off)) == (
        apply_record(m, r, id, off),
        c.len(),
        Errors::ReadDataFileEOF,
    ));
}

/// The ids of `files`, in order, that `open` accepts: strictly ascending.
pub open spec fn ids_of<IO>(files: Seq<(u32, IO)>) -> Seq<u32> {
    files.map_values(|f: (u32, IO)| f.0)
}

pub open spec fn ascending(ids: Seq<u32>) -> bool {
    forall|a: int, b: int| 0 <= a < b < ids.len() ==> ids[a] < ids[b]
}

/// Wraps each backend in a data file, keeping their order.
fn open_data_files<IO: IOManager>(files: Vec<(u32, IO)>) -> (r: Result<Vec<DataFile<IO>>>)
    ensures
        r is Ok ==> r->Ok_0@.len() == files@.len() && forall|a: int|
            0 <= a < files@.len() ==> (#[trigger] r->Ok_0@[a]).wf() && r->Ok_0@[a].id()
                == files@[a].0 && r->Ok_0@[a].contents() == files@[a].1.contents(),
        r is Err ==> r == Err::<Vec<DataFile<IO>>, Errors>(Errors::FailedToReadFromDataFile),
{
    let ghost given = ids_of(files@);
    let ghost input = files@;
    let mut files = files;
    let mut data_files: Vec<DataFile<IO>> = Vec::new();
    let mut i: usize = 0;
    assert(given.len() == files.len());
    while files.len() > 0
        invariant
            i + files@.len() == given.len(),
            given.len() <= usize::MAX,
            ids_of(files@) == given.subrange(i as int, given.len() as int),
            given == ids_of(input),
            files@ == input.subrange(i as int, input.len() as int),
            data_files@.len() == i,
            forall|a: int| 0 <= a < i ==> (#[trigger] data_files@[a]).wf() && data_files@[a].id()
                == given[a] && data_files@[a].contents() == input[a].1.contents(),
        decreases files@.len(),
    {
        let ghost before = files@;
        let (id, io) = files.remove(0);
        assert(ids_of(files@) =~= given.subrange(i + 1, given.len() as int)) by {
            assert(ids_of(before)[0] == id);
            assert(ids_of(files@) =~= ids_of(before).drop_first());
        }
        assert(given[i as int] == id) by {
            assert(ids_of(before)[0] == id);
        }
        assert(files@ =~= input.subrange(i + 1, input.len() as int));
        assert(input[i as int] == (id, io));
        let f = match DataFile::from_io(id, io) {
            Ok(f) => f,
            Err(e) => return Err(e),
        };
        data_files.push(f);
        i = i + 1;
    }
    assert(i == given.len());
    Ok(data_files)
}

/// The store: one active data file that takes appends, older read-only
/// files, and an index from keys to record positions.
pub struct Engine<IO> {
    options: Options,
    active_file: DataFile<IO>,
    older_files: Vec<DataFile<IO>>,
    index: MemIndex,
}

impl<IO: IOManager> Engine<IO> {
    /// The file that takes appends.
    pub closed spec fn active(&self) -> DataFile<IO> {
        self.active_file
    }

    /// The files rotated out, read-only.
    pub closed spec fn older(&self) -> Seq<DataFile<IO>> {
        self.older_files@
    }

    /// The positions the index holds.
    pub closed spec fn entries(&self) -> Map<Seq<u8>, LogRecordPos> {
        self.index.entries()
    }

    pub closed spec fn opts(&self) -> Options {
        self.options
    }

    pub closed spec fn index_ok(&self) -> bool {
        self.index.inv()
    }

    /// The data file with id `id`, if the store has one.
    pub open spec fn file_of(&self, id: u32) -> Option<DataFile<IO>> {
        if self.active().id() == id {
            Some(self.active())
        } else {
            find_file(self.older(), id)
        }
    }

    /// What the bytes at `off` of file `id` decode to, if the file exists and
    /// is that long.
    pub open spec fn record_in(&self, id: u32, off: nat) -> Option<Result<(RecordModel, nat)>> {
        match self.file_of(id) {
            Some(f) => if off <= f.contents().len() {
                Some(f.record_at(off))
            } else {
                None
            },
            None => None,
        }
    }

    /// `pos` is where a live record of `key` starts.
    pub open spec fn holds_record(&self, pos: LogRecordPos, key: Seq<u8>) -> bool {
        match self.record_in(pos.file_id, pos.offset as nat) {
            Some(Ok((r, _))) => r.key == key && r.rec_type == LogRecordType::NORMAL,
            _ => false,
        }
    }

    pub open spec fn files_wf(&self) -> bool {
        &&& self.active().wf()
        &&& forall|i: int|
            0 <= i < self.older().len() ==> (#[trigger] self.older()[i]).wf() && self.older()[i].id()
                < self.active().id()
    }

    /// The files are well formed, older ids lie below the active one, and
    /// every index entry points at a live record of its key.
    pub open spec fn wf(&self) -> bool {
        &&& self.files_wf()
        &&& self.index_ok()
        &&& forall|k: Seq<u8>| #[trigger]
            self.entries().contains_key(k) ==> self.holds_record(self.entries()[k], k)
    }

    /// The value the store holds for `key`: the value of the record its index
    /// entry points at.
    pub open spec fn value_of(&self, key: Seq<u8>) -> Option<Seq<u8>> {
        if self.entries().contains_key(key) {
            match self.record_in(self.entries()[key].file_id, self.entries()[key].offset as nat) {
                Some(Ok((r, _))) => Some(r.value),
                _ => None,
            }
        } else {
            None
        }
    }

    /// Every record `old` held stands unchanged in `self`.
    pub open spec fn keeps_records_of(&self, old: Self) -> bool {
        forall|id: u32, off: nat|
            #![trigger old.record_in(id, off)]
            (old.record_in(id, off) matches Some(Ok(_))) ==> self.record_in(id, off) == old.record_in(
                id,
                off,
            )
    }

    /// `self` is `old` after one successful append of `rec`: the record went
    /// to the end of the active file if it fit under the size threshold;
    /// otherwise the active file became the newest older file and a new, empty
    /// file with the next id took the record.
    pub open spec fn appended(&self, old: Self, rec: RecordModel) -> bool {
        let len = encode_spec(rec).len();
        if old.active().write_offset() + len <= old.opts().data_file_size {
            &&& self.active().id() == old.active().id()
            &&& self.older() == old.older()
            &&& self.active().contents() == old.active().contents() + encode_spec(rec)
        } else {
            &&& self.rotated_from(old)
            &&& self.active().contents() == encode_spec(rec)
        }
    }

    /// `self` is `old` after a rotation: the active file, synced to its end,
    /// became the newest older file, and a file with the next id is active.
    pub open spec fn rotated_from(&self, old: Self) -> bool {
        &&& old.active().id() < u32::MAX
        &&& self.active().id() == old.active().id() + 1
        &&& self.older().len() == old.older().len() + 1
        &&& self.older().drop_last() == old.older()
        &&& self.older().last().id() == old.active().id()
        &&& self.older().last().contents() == old.active().contents()
        &&& self.older().last().durable()
    }

    /// What any append of `rec` leaves, whatever its outcome: the older files
    /// as they were, or a rotation; and the active file as it was, grown by
    /// exactly the encoded record, or (after a rotation) empty.
    pub open spec fn after_append(&self, old: Self, rec: RecordModel) -> bool {
        ||| {
            &&& self.older() == old.older()
            &&& self.active().id() == old.active().id()
            &&& (self.active().contents() == old.active().contents() || self.active().contents()
                == old.active().contents() + encode_spec(rec))
        }
        ||| {
            &&& self.rotated_from(old)
            &&& (self.active().contents() == Seq::<u8>::empty() || self.active().contents()
                == encode_spec(rec))
        }
    }

    /// Appending `rec` needs a new data file, and none is left: the active
    /// file already has the largest id.
    pub open spec fn id_exhausted_for(&self, rec: RecordModel) -> bool {
        &&& valid_record(rec)
        &&& self.active().write_offset() + encode_spec(rec).len() > self.opts().data_file_size
        &&& self.active().id() == u32::MAX
    }

    /// The errors an append can end in.
    pub open spec fn append_error(e: Errors) -> bool {
        e.is_io() || e == Errors::DataDirCorrupted || e == Errors::DataFileIdExhausted
    }

    /// Ids and bytes of every file, oldest first, the active file last.
    pub open spec fn files_view(&self) -> Seq<(u32, Seq<u8>)> {
        files_model(self.older()).push((self.active().id(), self.active().contents()))
    }

    /// The index is what replaying the files builds, and replay of the
    /// active file runs to its end.
    pub open spec fn consistent(&self) -> bool {
        &&& self.entries() == replay_files(self.files_view())
        &&& replay_records(
            self.active().contents(),
            self.active().id(),
            0,
            replay_files(files_model(self.older())),
        ).1 == self.active().contents().len()
    }

    /// After `rec` was appended to a consistent store at `pos`, replay sees
    /// it last.
    proof fn lemma_replay_after_append(&self, old: Self, rec: RecordModel, pos: LogRecordPos)
        requires
            old.consistent(),
            self.appended(old, rec),
            valid_record(rec),
            pos.file_id == self.active().id(),
            pos.offset == self.active().contents().len() - encode_spec(rec).len(),
        ensures
            replay_files(self.files_view()) == apply_record(
                old.entries(),
                rec,
                pos.file_id,
                pos.offset as nat,
            ),
            replay_records(
                self.active().contents(),
                self.active().id(),
                0,
                replay_files(files_model(self.older())),
            ).1 == self.active().contents().len(),
    {
        let enc = encode_spec(rec);
        lemma_encode_decode(rec);
        let c = old.active().contents();
        let m0 = replay_files(files_model(old.older()));
        let mold = old.entries();
        let id = self.active().id();
        let nc = self.active().contents();
        let mid = replay_files(files_model(self.older()));
        assert(old.files_view().drop_last() =~= files_model(old.older()));
        assert(mold == replay_records(c, old.active().id(), 0, m0).0);
        assert(self.files_view().drop_last() =~= files_model(self.older()));
        assert(replay_files(self.files_view()) == replay_records(nc, id, 0, mid).0);
        if old.active().write_offset() + enc.len() <= old.opts().data_file_size {
            lemma_replay_extend(c, enc, id, 0, m0);
            assert(nc.subrange(c.len() as int, nc.len() as int) =~= enc);
            lemma_replay_last(nc, id, c.len(), mold, rec);
        } else {
            assert(files_model(self.older()) =~= old.files_view());
            assert(nc.subrange(0, nc.len() as int) =~= enc);
            lemma_replay_last(nc, id, 0, mold, rec);
        }
    }

    proof fn lemma_keeps_values(&self, old: Self)
        requires
            old.wf(),
            self.keeps_records_of(old),
            self.entries() == old.entries(),
        ensures
            forall|k: Seq<u8>| #[trigger] self.value_of(k) == old.value_of(k),
            forall|k: Seq<u8>| #[trigger]
                self.entries().contains_key(k) ==> self.holds_record(self.entries()[k], k),
    {
        assert forall|k: Seq<u8>| #[trigger] self.value_of(k) == old.value_of(k) by {
            if old.entries().contains_key(k) {
                let p = old.entries()[k];
                assert(old.holds_record(p, k));
                assert(old.record_in(p.file_id, p.offset as nat) matches Some(Ok(_)));
            }
        }
        assert forall|k: Seq<u8>| #[trigger]
            self.entries().contains_key(k) implies self.holds_record(self.entries()[k], k) by {
            let p = old.entries()[k];
            assert(old.holds_record(p, k));
            assert(old.record_in(p.file_id, p.offset as nat) matches Some(Ok(_)));
        }
    }

    /// Syncs the active file and sets it aside as the newest older file; a
    /// new, empty file with the next id becomes the active one.
    #[verifier::rlimit(100)]
    fn rotate(&mut self) -> (r: Result<()>)
        requires
            old(self).files_wf(),
        ensures
            final(self).files_wf(),
            final(self).keeps_records_of(*old(self)),
            r is Ok ==> final(self).rotated_from(*old(self)) && final(self).active().contents()
                == Seq::<u8>::empty(),
            r is Err ==> Self::append_error(r->Err_0) && final(self).older() == old(self).older()
                && final(self).active().id() == old(self).active().id() && final(self).active().contents()
                == old(self).active().contents(),
            (r == Err::<(), Errors>(Errors::DataFileIdExhausted)) <==> old(self).active().id() == u32::MAX,
            final(self).entries() == old(self).entries(),
            final(self).index_ok() == old(self).index_ok(),
            final(self).opts() == old(self).opts(),
    {
        let cur = self.active_file.get_file_id();
        if cur == u32::MAX {
            return Err(Errors::DataFileIdExhausted);
        }
        let ghost start = *self;
        match self.active_file.sync() {
            Ok(()) => {},
            Err(e) => return Err(e),
        }
        proof {
            assert forall|k: int| 0 <= k < self.older().len() implies (#[trigger] self.older()[k]).wf()
                && self.older()[k].id() < self.active().id() by {
                assert(self.older()[k] == start.older()[k]);
            }
            assert forall|id: u32, off: nat|
                (#[trigger] start.record_in(id, off) matches Some(Ok(_))) implies self.record_in(id, off)
                == start.record_in(id, off) by {}
        }
        let mut new_file = match DataFile::<IO>::new(self.options.dir_path.as_str(), cur + 1) {
            Ok(f) => f,
            Err(e) => return Err(e),
        };
        if new_file.get_write_off() != 0 {
            // a file past the active one already holds data
            return Err(Errors::DataDirCorrupted);
        }
        let ghost pre = *self;
        core::mem::swap(&mut self.active_file, &mut new_file);
        self.older_files.push(new_file);
        proof {
            assert(self.older() == pre.older().push(pre.active()));
            assert(self.older().drop_last() =~= start.older());
            assert(self.older().last() == pre.active());
            assert(self.active().contents() =~= Seq::<u8>::empty());
            assert forall|id: u32, off: nat|
                (#[trigger] pre.record_in(id, off) matches Some(Ok(_))) implies self.record_in(id, off)
                == pre.record_in(id, off) by {
                if id != pre.active().id() {
                    lemma_find_file(pre.older(), id);
                    assert(self.older().drop_last() == pre.older());
                }
            }
            assert forall|i: int| 0 <= i < self.older().len() implies (#[trigger] self.older()[i]).wf()
                && self.older()[i].id() < self.active().id() by {
                if i < pre.older().len() {
                    assert(self.older()[i] == pre.older()[i]);
                }
            }
        }
        Ok(())
    }

    /// Appends `rec` to the active file, first rotating to a fresh file when
    /// the append would take the active file past the size threshold.
    #[verifier::rlimit(100)]
    fn append_log_record(&mut self, rec: &LogRecord) -> (r: Result<LogRecordPos>)
        requires
            old(self).wf(),
        ensures
            final(self).files_wf(),
            final(self).entries() == old(self).entries(),
            final(self).index_ok() == old(self).index_ok(),
            final(self).opts() == old(self).opts(),
            final(self).keeps_records_of(*old(self)),
            r is Ok ==> final(self).record_in(r->Ok_0.file_id, r->Ok_0.offset as nat) == Some(
                Ok::<(RecordModel, nat), Errors>((rec@, encode_spec(rec@).len())),
            ),
            r is Ok ==> final(self).appended(*old(self), rec@),
            r is Ok && final(self).opts().sync_writes ==> final(self).active().durable(),
            final(self).after_append(*old(self), rec@),
            r is Err ==> Self::append_error(r->Err_0),
            r == Err::<LogRecordPos, Errors>(Errors::DataFileIdExhausted) <==> old(self).id_exhausted_for(
                rec@,
            ),
            r is Ok ==> valid_record(rec@) && r->Ok_0.file_id == final(self).active().id()
                && r->Ok_0.offset == final(self).active().contents().len() - encode_spec(rec@).len(),
    {
        proof {
            lemma_pow128_values();
        }
        if rec.key.len() as u64 >= MAX_FIELD_LEN || rec.value.len() as u64 >= MAX_FIELD_LEN {
            return Err(Errors::FailedToWriteToDataFile);
        }
        let enc = rec.encode();
        let len = enc.len() as u64;
        if self.active_file.get_write_off() > u64::MAX - len || self.active_file.get_write_off()
            + len > self.options.data_file_size {
            match self.rotate() {
                Ok(()) => {},
                Err(e) => return Err(e),
            }
        }
        if self.active_file.get_write_off() > u64::MAX - len {
            return Err(Errors::FailedToWriteToDataFile);
        }
        let ghost pre = *self;
        let offset = self.active_file.get_write_off();
        match self.active_file.write(enc.as_slice()) {
            Ok(_) => {},
            Err(e) => return Err(e),
        }
        proof {
            let c = pre.active().contents();
            let id = self.active().id();
            assert forall|fid: u32, off: nat|
                (#[trigger] pre.record_in(fid, off) matches Some(Ok(_))) implies self.record_in(fid, off)
                == pre.record_in(fid, off) by {
                if fid == id {
                    let s = self.active().contents().subrange(off as int, self.active().contents().len() as int);
                    assert(s.subrange(0, c.len() - off) =~= c.subrange(off as int, c.len() as int));
                    lemma_decode_extend(s, (c.len() - off) as nat);
                }
            }
            let s = self.active().contents().subrange(offset as int, self.active().contents().len() as int);
            assert(s =~= encode_spec(rec@) + Seq::<u8>::empty());
            lemma_round_trip(rec@, Seq::<u8>::empty());
            assert(s =~= encode_spec(rec@));
        }
        if self.options.sync_writes {
            match self.active_file.sync() {
                Ok(()) => {},
                Err(e) => return Err(e),
            }
        }
        Ok(LogRecordPos { file_id: self.active_file.get_file_id(), offset })
    }

    /// Where in the older files the file with id `id` stands, if it does.
    fn find_older(&self, id: u32) -> (r: Option<usize>)
        ensures
            match r {
                Some(i) => i < self.older().len() && find_file(self.older(), id) == Some(
                    self.older()[i as int],
                ),
                None => find_file(self.older(), id) is None,
            },
    {
        let mut i: usize = self.older_files.len();
        assert(self.older().subrange(0, i as int) =~= self.older());
        while i > 0
            invariant
                i <= self.older().len(),
                find_file(self.older(), id) == find_file(self.older().subrange(0, i as int), id),
            decreases i,
        {
            let ghost sub = self.older().subrange(0, i as int);
            assert(sub.drop_last() =~= self.older().subrange(0, i - 1));
            if self.older_files[i - 1].get_file_id() == id {
                return Some(i - 1);
            }
            i = i - 1;
        }
        None
    }

    /// Stores `value` under `key`: appends a record, then points the index at it.
    #[verifier::rlimit(60)]
    pub fn put(&mut self, key: Vec<u8>, value: Vec<u8>) -> (r: Result<()>)
        requires
            old(self).wf(),
        ensures
            final(self).wf(),
            final(self).opts() == old(self).opts(),
            (r == Err::<(), Errors>(Errors::KeyIsEmpty)) <==> key@.len() == 0,
            key@.len() == 0 ==> *final(self) == *old(self),
            key@.len() > 0 ==> ((r == Err::<(), Errors>(Errors::DataFileIdExhausted)) <==> old(
                self,
            ).id_exhausted_for(RecordModel { key: key@, value: value@, rec_type: LogRecordType::NORMAL })),
            final(self).keeps_records_of(*old(self)),
            key@.len() > 0 ==> final(self).after_append(*old(self), RecordModel { key: key@, value: value@, rec_type: LogRecordType::NORMAL }),
            r is Ok && final(self).opts().sync_writes ==> final(self).active().durable(),
            r is Err && r != Err::<(), Errors>(Errors::IndexUpdateFailed) ==> final(self).entries()
                == old(self).entries(),
            r == Err::<(), Errors>(Errors::IndexUpdateFailed) ==> final(self).appended(*old(self), RecordModel { key: key@, value: value@, rec_type: LogRecordType::NORMAL })
                && final(self).entries() == old(self).entries(),
            r is Err ==> r->Err_0 == Errors::KeyIsEmpty || r->Err_0 == Errors::IndexUpdateFailed
                || Self::append_error(r->Err_0),
            r is Ok ==> final(self).value_of(key@) == Some(value@),
            r is Ok ==> final(self).appended(
                *old(self),
                RecordModel { key: key@, value: value@, rec_type: LogRecordType::NORMAL },
            ),
            r is Ok && old(self).consistent() ==> final(self).consistent(),
            r is Err ==> final(self).value_of(key@) == old(self).value_of(key@),
            forall|k: Seq<u8>| k != key@ ==> #[trigger] final(self).value_of(k) == old(self).value_of(k),
    {
        if key.len() == 0 {
            return Err(Errors::KeyIsEmpty);
        }
        let ghost pre = *self;
        let record = LogRecord { key: key.clone(), value, rec_type: LogRecordType::NORMAL };
        let pos = match self.append_log_record(&record) {
            Ok(p) => p,
            Err(e) => {
                proof {
                    self.lemma_keeps_values(pre);
                }
                return Err(e);
            },
        };
        let ghost mid = *self;
        proof {
            mid.lemma_keeps_values(pre);
        }
        let ok = self.index.put(key, pos);
        proof {
            if pre.consistent() {
                mid.lemma_replay_after_append(pre, record@, pos);
                assert(self.files_view() == mid.files_view());
            }
            if ok {
                assert forall|k: Seq<u8>| #[trigger]
                    self.entries().contains_key(k) implies self.holds_record(self.entries()[k], k) by {
                    if k != record.key@ {
                        assert(mid.entries().contains_key(k));
                    }
                }
            }
        }
        if !ok {
            return Err(Errors::IndexUpdateFailed);
        }
        Ok(())
    }

    /// Marks `key` deleted: appends a tombstone, then drops the key from the index.
    #[verifier::rlimit(60)]
    pub fn delete(&mut self, key: Vec<u8>) -> (r: Result<()>)
        requires
            old(self).wf(),
        ensures
            final(self).wf(),
            final(self).opts() == old(self).opts(),
            (r == Err::<(), Errors>(Errors::KeyIsEmpty)) <==> key@.len() == 0,
            key@.len() == 0 ==> *final(self) == *old(self),
            key@.len() > 0 ==> ((r == Err::<(), Errors>(Errors::DataFileIdExhausted)) <==> old(
                self,
            ).id_exhausted_for(RecordModel { key: key@, value: Seq::empty(), rec_type: LogRecordType::DELETED })),
            final(self).keeps_records_of(*old(self)),
            key@.len() > 0 ==> final(self).after_append(*old(self), RecordModel { key: key@, value: Seq::empty(), rec_type: LogRecordType::DELETED }),
            r is Ok && final(self).opts().sync_writes ==> final(self).active().durable(),
            r is Err ==> final(self).entries() == old(self).entries(),
            r is Err ==> r->Err_0 == Errors::KeyIsEmpty || Self::append_error(r->Err_0),
            r is Ok ==> final(self).value_of(key@) is None,
            r is Ok ==> final(self).appended(
                *old(self),
                RecordModel { key: key@, value: Seq::empty(), rec_type: LogRecordType::DELETED },
            ),
            r is Ok && old(self).consistent() ==> final(self).consistent(),
            r is Err ==> final(self).value_of(key@) == old(self).value_of(key@),
            forall|k: Seq<u8>| k != key@ ==> #[trigger] final(self).value_of(k) == old(self).value_of(k),
    {
        if key.len() == 0 {
            return Err(Errors::KeyIsEmpty);
        }
        let ghost pre = *self;
        let record = LogRecord { key: key.clone(), value: Vec::new(), rec_type: LogRecordType::DELETED };
        let pos = match self.append_log_record(&record) {
            Ok(p) => p,
            Err(e) => {
                proof {
                    self.lemma_keeps_values(pre);
                }
                return Err(e);
            },
        };
        let ghost mid = *self;
        proof {
            mid.lemma_keeps_values(pre);
        }
        self.index.delete(key);
        proof {
            if pre.consistent() {
                mid.lemma_replay_after_append(pre, record@, pos);
                assert(self.files_view() == mid.files_view());
            }
            assert forall|k: Seq<u8>| #[trigger]
                self.entries().contains_key(k) implies self.holds_record(self.entries()[k], k) by {
                assert(mid.entries().contains_key(k));
            }
        }
        Ok(())
    }

    /// The value stored under `key`.
    pub fn get(&self, key: Vec<u8>) -> (r: Result<Vec<u8>>)
        requires
            self.wf(),
        ensures
            key@.len() == 0 ==> r == Err::<Vec<u8>, Errors>(Errors::KeyIsEmpty),
            key@.len() > 0 ==> match self.value_of(key@) {
                Some(v) => (r is Ok && r->Ok_0@ == v) || r == Err::<Vec<u8>, Errors>(
                    Errors::FailedToReadFromDataFile,
                ),
                None => r == Err::<Vec<u8>, Errors>(Errors::KeyNotFound),
            },
    {
        if key.len() == 0 {
            return Err(Errors::KeyIsEmpty);
        }
        let ghost k = key@;
        let pos = match self.index.get(key) {
            Some(p) => p,
            None => return Err(Errors::KeyNotFound),
        };
        assert(self.holds_record(pos, k));
        let read = if self.active_file.get_file_id() == pos.file_id {
            self.active_file.read_log_record(pos.offset)
        } else {
            match self.find_older(pos.file_id) {
                Some(i) => {
                    assert(self.older()[i as int].wf());
                    self.older_files[i].read_log_record(pos.offset)
                },
                None => return Err(Errors::DataFileNotFound),
            }
        };
        let record = match read {
            Ok(rd) => rd.record,
            Err(e) => return Err(e),
        };
        match record.rec_type {
            LogRecordType::DELETED => Err(Errors::KeyNotFound),
            LogRecordType::NORMAL => Ok(record.value),
        }
    }

    /// Opens a store over the data files `files`, given as id and backend in
    /// ascending id order, and rebuilds the index by replaying them. With no
    /// files, data file 0 is created in the configured directory. A damaged
    /// record at the end of the newest file ends its replay, and the file is
    /// cut back to the last whole record.
    pub fn open(opts: Options, files: Vec<(u32, IO)>) -> (r: Result<Engine<IO>>)
        ensures
            options_error(opts) is Some ==> r == Err::<Engine<IO>, Errors>(options_error(opts)->Some_0),
            options_error(opts) is None && !ascending(ids_of(files@)) ==> r == Err::<Engine<IO>, Errors>(
                Errors::DataDirCorrupted,
            ),
            r == Err::<Engine<IO>, Errors>(Errors::DataDirCorrupted) ==> !ascending(ids_of(files@))
                || files@.len() == 0,
            r is Ok && files@.len() == 0 ==> r->Ok_0.entries() == Map::<Seq<u8>, LogRecordPos>::empty()
                && r->Ok_0.active().contents() == Seq::<u8>::empty(),
            r is Ok && files@.len() > 0 ==> files_model(r->Ok_0.older()) == input_model(
                files@,
            ).drop_last(),
            r is Ok ==> forall|j: int|
                0 <= j < files@.len() - 1 ==> #[trigger] replays_clean(input_model(files@), j),
            r is Err && decode_error(r->Err_0) ==> exists|j: int|
                0 <= j < files@.len() - 1 && !#[trigger] replays_clean(input_model(files@), j),
            r is Ok ==> r->Ok_0.wf() && r->Ok_0.opts() == opts,
            r is Ok && files@.len() > 0 ==> r->Ok_0.entries() == replay_files(input_model(files@)),
            r is Ok && files@.len() == 0 ==> r->Ok_0.active().id() == 0 && r->Ok_0.older().len() == 0,
            r is Ok ==> r->Ok_0.consistent(),
            r is Ok && files@.len() > 0 ==> r->Ok_0.older().len() + 1 == files@.len()
                && r->Ok_0.active().id() == files@.last().0
                && r->Ok_0.active().contents() == files@.last().1.contents().subrange(
                0,
                replay_records(
                    files@.last().1.contents(),
                    files@.last().0,
                    0,
                    replay_files(input_model(files@).drop_last()),
                ).1 as int,
            ),
    {
        match check_options(&opts) {
            Some(e) => return Err(e),
            None => {},
        }
        let ghost given = ids_of(files@);
        let mut c: usize = 1;
        while c < files.len()
            invariant
                given == ids_of(files@),
                options_error(opts) is None,
                1 <= c,
                forall|a: int, b: int|
                    0 <= a < b < c && b < files@.len() ==> #[trigger] given[a] < #[trigger] given[b],
            decreases files@.len() - c,
        {
            if files[c].0 <= files[c - 1].0 {
                proof {
                    assert(!(given[c - 1] < given[c as int]));
                }
                return Err(Errors::DataDirCorrupted);
            }
            proof {
                assert forall|a: int, b: int| 0 <= a < b < c + 1 && b < files@.len() implies #[trigger] given[a]
                    < #[trigger] given[b] by {
                    if b == c && a < c - 1 {
                        assert(given[a] < given[c - 1]);
                    }
                }
            }
            c = c + 1;
        }
        let mut data_files = match open_data_files(files) {
            Ok(v) => v,
            Err(e) => return Err(e),
        };
        let ghost i = given.len();
        let ghost all_files = data_files@;
        let active = match data_files.pop() {
            Some(f) => f,
            None => match DataFile::<IO>::new(opts.dir_path.as_str(), 0) {
                Ok(f) => {
                    if f.get_write_off() != 0 {
                        // no data file was found, yet the first one holds bytes
                        return Err(Errors::DataDirCorrupted);
                    }
                    f
                },
                Err(e) => return Err(e),
            },
        };
        let index = new_index(opts.index_type);
        let mut engine = Engine { options: opts, active_file: active, older_files: data_files, index };
        proof {
            assert forall|a: int, b: int| 0 <= a < b < engine.older().len() implies engine.older()[a].id()
                < engine.older()[b].id() by {
                assert(given[a] < given[b]);
            }
            assert forall|a: int| 0 <= a < engine.older().len() implies (#[trigger] engine.older()[a]).wf()
                && engine.older()[a].id() < engine.active().id() by {
                assert(given[a] < given[i - 1]);
            }
        }
        proof {
            if i > 0 {
                assert(all_files =~= engine.older().push(engine.active()));
                assert(files_model(engine.older()).push((engine.active().id(), engine.active().contents()))
                    =~= input_model(files@));
                assert(input_model(files@).drop_last() =~= files_model(engine.older()));
                assert(engine.active() == all_files[i - 1]);
            }
        }
        let ghost before = engine;
        match engine.load_index_from_data_files() {
            Ok(()) => {
                proof {
                    if i == 0 {
                        assert(before.active().contents() =~= Seq::<u8>::empty());
                        assert(files_model(before.older()) =~= Seq::<(u32, Seq<u8>)>::empty());
                        let fv = files_model(before.older()).push((before.active().id(), before.active().contents()));
                        assert(fv.drop_last() =~= Seq::<(u32, Seq<u8>)>::empty());
                        assert(replay_files(fv) == Map::<Seq<u8>, LogRecordPos>::empty());
                        assert(engine.active().contents() =~= Seq::<u8>::empty());
                    }
                    if i > 0 {
                        let input = input_model(files@);
                        let om = files_model(before.older());
                        assert(om =~= input.drop_last());
                        assert forall|j: int| 0 <= j < files@.len() - 1 implies #[trigger] replays_clean(
                            input,
                            j,
                        ) by {
                            assert(replays_clean(om, j));
                            assert(input.take(j) =~= om.take(j));
                            assert(input[j] == om[j]);
                        }
                    }
                }
                Ok(engine)
            },
            Err(e) => {
                proof {
                    if decode_error(e) {
                        let input = input_model(files@);
                        let om = files_model(before.older());
                        let j = choose|j: int| 0 <= j < om.len() && !#[trigger] replays_clean(om, j);
                        assert(om =~= input.drop_last());
                        assert(input.take(j) =~= om.take(j));
                        assert(input[j] == om[j]);
                        assert(!replays_clean(input, j));
                    }
                }
                Err(e)
            },
        }
    }

    /// Rebuilds the index by replaying every record of every file, oldest
    /// first, and puts the active file's cursor after its last whole record.
    #[verifier::rlimit(100)]
    fn load_index_from_data_files(&mut self) -> (r: Result<()>)
        requires
            old(self).files_wf(),
            old(self).index_ok(),
            old(self).entries() == Map::<Seq<u8>, LogRecordPos>::empty(),
            ids_ascending(old(self).older()),
        ensures
            r is Ok ==> final(self).wf(),
            r is Ok ==> final(self).consistent(),
            r is Ok ==> forall|j: int|
                0 <= j < old(self).older().len() ==> #[trigger] replays_clean(
                    files_model(old(self).older()),
                    j,
                ),
            r is Err ==> r->Err_0.is_io() || r->Err_0 == Errors::IndexUpdateFailed || (decode_error(
                r->Err_0,
            ) && r->Err_0 != Errors::ReadDataFileEOF),
            r is Err && decode_error(r->Err_0) ==> exists|j: int|
                0 <= j < old(self).older().len() && !#[trigger] replays_clean(
                    files_model(old(self).older()),
                    j,
                ),
            r is Ok ==> final(self).entries() == replay_files(
                files_model(old(self).older()).push((old(self).active().id(), old(self).active().contents())),
            ),
            final(self).opts() == old(self).opts(),
            r is Ok ==> final(self).active().id() == old(self).active().id(),
            r is Ok ==> final(self).older() == old(self).older(),
            r is Ok ==> final(self).active().contents() == old(self).active().contents().subrange(
                0,
                replay_records(
                    old(self).active().contents(),
                    old(self).active().id(),
                    0,
                    replay_files(files_model(old(self).older())),
                ).1 as int,
            ),
    {
        let ghost older = self.older();
        let ghost model = files_model(older);
        assert(model.take(0) =~= Seq::<(u32, Seq<u8>)>::empty());
        let mut j: usize = 0;
        while j < self.older_files.len()
            invariant
                self.files_wf(),
                self.index_ok(),
                self.older() == older,
                self.opts() == old(self).opts(),
                ids_ascending(older),
                j <= older.len(),
                self.active() == old(self).active(),
                older == old(self).older(),
                model == files_model(older),
                self.entries() == replay_files(model.take(j as int)),
                forall|jj: int| 0 <= jj < j ==> #[trigger] replays_clean(model, jj),
                forall|k: Seq<u8>| #[trigger]
                    self.entries().contains_key(k) ==> self.holds_record(self.entries()[k], k)
                        && self.entries()[k].file_id != self.active().id(),
            decreases older.len() - j,
        {
            proof {
                lemma_find_sorted(older, j as int);
            }
            let fid = self.older_files[j].get_file_id();
            assert(self.older()[j as int].wf());
            let ghost c = older[j as int].contents();
            let ghost start = self.entries();
            let mut offset: u64 = 0;
            loop
                invariant
                    self.files_wf(),
                    self.index_ok(),
                    self.older() == older,
                    self.opts() == old(self).opts(),
                    j < older.len(),
                    fid == older[j as int].id(),
                    self.file_of(fid) == Some(older[j as int]),
                    offset <= older[j as int].write_offset(),
                    c == older[j as int].contents(),
                    self.active() == old(self).active(),
                    replay_records(c, fid, 0, start).0 == replay_records(
                        c,
                        fid,
                        offset as nat,
                        self.entries(),
                    ).0,
                    replay_records(c, fid, 0, start).2 == replay_records(
                        c,
                        fid,
                        offset as nat,
                        self.entries(),
                    ).2,
                    start == replay_files(model.take(j as int)),
                    model == files_model(older),
                    older == old(self).older(),
                    forall|k: Seq<u8>| #[trigger]
                        self.entries().contains_key(k) ==> self.holds_record(self.entries()[k], k)
                            && self.entries()[k].file_id != self.active().id(),
                ensures
                    self.active() == old(self).active(),
                    self.files_wf(),
                    self.index_ok(),
                    self.older() == older,
                    self.opts() == old(self).opts(),
                    replay_records(c, fid, 0, start).0 == self.entries(),
                    replay_records(c, fid, 0, start).2 == Errors::ReadDataFileEOF,
                    forall|k: Seq<u8>| #[trigger]
                        self.entries().contains_key(k) ==> self.holds_record(self.entries()[k], k)
                            && self.entries()[k].file_id != self.active().id(),
                decreases older[j as int].write_offset() - offset,
            {
                let rd = match self.older_files[j].read_log_record(offset) {
                    Ok(rd) => rd,
                    Err(Errors::ReadDataFileEOF) => {
                        proof {
                            assert(replay_records(c, fid, offset as nat, self.entries()).0 == self.entries());
                            assert(replay_records(c, fid, offset as nat, self.entries()).2
                                == Errors::ReadDataFileEOF);
                        }
                        break;
                    },
                    Err(e) => {
                        proof {
                            lemma_decode_errors(
                                c.subrange(offset as int, c.len() as int),
                            );
                            if decode_error(e) {
                                assert(replay_records(c, fid, offset as nat, self.entries()).2 == e);
                                assert(model[j as int] == (fid, c));
                                assert(!replays_clean(model, j as int));
                                assert(!replays_clean(files_model(old(self).older()), j as int));
                            }
                        }
                        return Err(e);
                    },
                };
                let ghost rm = rd.record@;
                let ghost before = self.entries();
                let size = rd.size;
                let ghost pre = *self;
                let pos = LogRecordPos { file_id: fid, offset };
                match rd.record.rec_type {
                    LogRecordType::NORMAL => {
                        if !self.index.put(rd.record.key, pos) {
                            return Err(Errors::IndexUpdateFailed);
                        }
                    },
                    LogRecordType::DELETED => {
                        self.index.delete(rd.record.key);
                    },
                }
                proof {
                    assert forall|k: Seq<u8>| #[trigger]
                        self.entries().contains_key(k) implies self.holds_record(self.entries()[k], k)
                        && self.entries()[k].file_id != self.active().id() by {
                        if k != rm.key {
                            assert(pre.entries().contains_key(k));
                        }
                    }
                    assert(self.entries() == apply_record(before, rm, fid, offset as nat));
                }
                offset = offset + size;
            }
            proof {
                assert(model.take(j + 1).drop_last() =~= model.take(j as int));
                assert(model.take(j + 1).last() == (fid, c));
                assert(model[j as int] == (fid, c));
                assert(replays_clean(model, j as int));
            }
            j = j + 1;
        }
        // the active file: a damaged tail ends the replay
        let aid = self.active_file.get_file_id();
        let ghost act = self.active();
        let ghost start = self.entries();
        let ghost c = act.contents();
        assert(model.take(older.len() as int) =~= model);
        let mut offset: u64 = 0;
        loop
            invariant
                self.files_wf(),
                self.index_ok(),
                self.older() == older,
                self.active() == act,
                aid == act.id(),
                self.opts() == old(self).opts(),
                offset <= act.write_offset(),
                c == act.contents(),
                start == replay_files(model),
                model == files_model(older),
                replay_records(c, aid, 0, start).0 == replay_records(c, aid, offset as nat, self.entries()).0,
                replay_records(c, aid, 0, start).1 == replay_records(c, aid, offset as nat, self.entries()).1,
                forall|k: Seq<u8>| #[trigger]
                    self.entries().contains_key(k) ==> self.holds_record(self.entries()[k], k)
                        && (self.entries()[k].file_id == aid ==> match act.record_at(
                        self.entries()[k].offset as nat,
                    ) {
                        Ok((_, n)) => self.entries()[k].offset + n <= offset,
                        Err(_) => false,
                    }),
            ensures
                self.files_wf(),
                self.index_ok(),
                self.older() == older,
                self.active() == act,
                self.opts() == old(self).opts(),
                offset <= act.write_offset(),
                start == replay_files(model),
                replay_records(c, aid, 0, start).0 == self.entries(),
                replay_records(c, aid, 0, start).1 == offset,
                forall|k: Seq<u8>| #[trigger]
                    self.entries().contains_key(k) ==> self.holds_record(self.entries()[k], k)
                        && (self.entries()[k].file_id == aid ==> match act.record_at(
                        self.entries()[k].offset as nat,
                    ) {
                        Ok((_, n)) => self.entries()[k].offset + n <= offset,
                        Err(_) => false,
                    }),
            decreases act.write_offset() - offset,
        {
            let rd = match self.active_file.read_log_record(offset) {
                Ok(rd) => rd,
                Err(Errors::ReadDataFileEOF) => {
                    proof {
                        assert(replay_records(c, aid, offset as nat, self.entries()).0 == self.entries());
                        assert(replay_records(c, aid, offset as nat, self.entries()).1 == offset);
                    }
                    break;
                },
                Err(Errors::InvalidLogRecordCrc) => {
                    proof {
                        assert(replay_records(c, aid, offset as nat, self.entries()).0 == self.entries());
                        assert(replay_records(c, aid, offset as nat, self.entries()).1 == offset);
                    }
                    break;
                },
                Err(Errors::MalformedLogRecord) => {
                    proof {
                        assert(replay_records(c, aid, offset as nat, self.entries()).0 == self.entries());
                        assert(replay_records(c, aid, offset as nat, self.entries()).1 == offset);
                    }
                    break;
                },
                Err(Errors::IncompleteLogRecord) => {
                    proof {
                        assert(replay_records(c, aid, offset as nat, self.entries()).0 == self.entries());
                        assert(replay_records(c, aid, offset as nat, self.entries()).1 == offset);
                    }
                    break;
                },
                Err(e) => {
                    proof {
                        lemma_decode_errors(c.subrange(offset as int, c.len() as int));
                    }
                    return Err(e);
                },
            };
            let ghost rm = rd.record@;
            let ghost before = self.entries();
            let size = rd.size;
            let ghost pre = *self;
            let pos = LogRecordPos { file_id: aid, offset };
            match rd.record.rec_type {
                LogRecordType::NORMAL => {
                    if !self.index.put(rd.record.key, pos) {
                        return Err(Errors::IndexUpdateFailed);
                    }
                },
                LogRecordType::DELETED => {
                    self.index.delete(rd.record.key);
                },
            }
            proof {
                assert forall|k: Seq<u8>| #[trigger]
                    self.entries().contains_key(k) implies self.holds_record(self.entries()[k], k) && (
                    self.entries()[k].file_id == aid ==> match act.record_at(
                        self.entries()[k].offset as nat,
                    ) {
                        Ok((_, n)) => self.entries()[k].offset + n <= offset + size,
                        Err(_) => false,
                    }) by {
                    if k != rm.key {
                        assert(pre.entries().contains_key(k));
                    }
                }
                assert(self.entries() == apply_record(before, rm, aid, offset as nat));
            }
            offset = offset + size;
        }
        proof {
            let all = model.push((aid, c));
            assert(all.drop_last() =~= model);
            assert(self.entries() == replay_files(all));
            assert(act.id() == old(self).active().id());
        }
        if offset < self.active_file.get_write_off() {
            let ghost pre = *self;
            match self.active_file.set_write_off(offset) {
                Ok(()) => {},
                Err(e) => return Err(e),
            }
            proof {
                let c = act.contents();
                assert forall|k: Seq<u8>| #[trigger]
                    self.entries().contains_key(k) implies self.holds_record(self.entries()[k], k) by {
                    assert(pre.entries().contains_key(k));
                    let p = self.entries()[k];
                    if p.file_id == aid {
                        let s = c.subrange(p.offset as int, c.len() as int);
                        let n = match act.record_at(p.offset as nat) {
                            Ok((_, n)) => n,
                            Err(_) => 0,
                        };
                        assert(self.active().contents().subrange(
                            p.offset as int,
                            self.active().contents().len() as int,
                        ) =~= s.subrange(0, offset - p.offset));
                        lemma_decode_prefix(s, (offset - p.offset) as nat);
                    }
                }
                lemma_replay_truncate(c, aid, 0, start, offset as nat);
                assert(self.files_view().drop_last() =~= model);
            }
        } else {
            proof {
                assert(self.files_view().drop_last() =~= model);
                assert(c.subrange(0, offset as int) =~= c);
            }
        }
        Ok(())
    }

    /// Closes the store, handing back each data file's id and backend,
    /// oldest first.
    pub fn close(self) -> (r: Vec<(u32, IO)>)
        ensures
            input_model(r@) == self.files_view(),
    {
        let ghost older = self.older();
        let ghost om = files_model(older);
        let ghost act = self.active();
        let mut out: Vec<(u32, IO)> = Vec::new();
        let mut rest = self.older_files;
        let ghost n = rest@.len();
        assert(input_model(out@) =~= om.subrange(0, 0));
        assert(rest@ =~= older.subrange(0, n as int));
        while rest.len() > 0
            invariant
                n == older.len(),
                om == files_model(older),
                out@.len() + rest@.len() == n,
                rest@ == older.subrange(out@.len() as int, n as int),
                input_model(out@) == om.subrange(0, out@.len() as int),
            decreases rest@.len(),
        {
            let ghost i = out@.len();
            let f = rest.remove(0);
            assert(f == older[i as int]);
            out.push(f.into_parts());
            assert(rest@ =~= older.subrange((i + 1) as int, n as int));
            assert(input_model(out@) =~= om.subrange(0, (i + 1) as int));
        }
        assert(om.len() == n);
        assert(om.subrange(0, n as int) =~= om);
        let ghost before = out@;
        let last = self.active_file.into_parts();
        out.push(last);
        assert(input_model(out@) =~= input_model(before).push((last.0, last.1.contents())));
        assert(input_model(out@) =~= om.push((act.id(), act.contents())));
        out
    }
}

/// Append-only growth and rotation: after a successful put or delete the
/// active file's write offset grew by exactly the record's encoded length;
/// or, where that would have passed the size threshold, the active file was
/// set aside unchanged as the newest older file and a file with the next id
/// holds just the record.
pub proof fn lemma_append_growth<IO: IOManager>(new: Engine<IO>, old: Engine<IO>, rec: RecordModel)
    requires
        old.files_wf(),
        new.files_wf(),
        new.appended(old, rec),
    ensures
        if old.active().write_offset() + encode_spec(rec).len() <= old.opts().data_file_size {
            &&& new.active().id() == old.active().id()
            &&& new.active().write_offset() == old.active().write_offset() + encode_spec(rec).len()
        } else {
            &&& new.active().id() == old.active().id() + 1
            &&& new.older().last().contents() == old.active().contents()
            &&& new.older().last().durable()
            &&& new.active().write_offset() == encode_spec(rec).len()
        },
{
}

/// Reopening a store on exactly the files a consistent store holds (what
/// `close` hands back) rebuilds its index: `open` builds `replay_files` of its
/// input, and that is the index the store had.
pub proof fn lemma_reopen_rebuilds_index<IO: IOManager>(e: Engine<IO>, files: Seq<(u32, IO)>)
    requires
        e.consistent(),
        input_model(files) == e.files_view(),
    ensures
        files.len() > 0,
        replay_files(input_model(files)) == e.entries(),
{
}

} // verus!
