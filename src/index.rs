use vstd::prelude::*;

use crate::log_record::LogRecordPos;
use crate::options::IndexType;

verus! {

/// Map from key bytes to the position of the key's latest record.
pub trait Indexer: Sized {
    /// The mapping the index holds.
    spec fn entries(&self) -> Map<Seq<u8>, LogRecordPos>;

    /// The index's internal invariant.
    spec fn inv(&self) -> bool;

    /// Stores `pos` for `key`, replacing any earlier position. Returns false
    /// only when the index failed internally, and then changes nothing.
    fn put(&mut self, key: Vec<u8>, pos: LogRecordPos) -> (r: bool)
        requires
            old(self).inv(),
        ensures
            final(self).inv(),
            r ==> final(self).entries() == old(self).entries().insert(key@, pos),
            !r ==> final(self).entries() == old(self).entries(),
    ;

    /// The position stored for `key`, if any.
    fn get(&self, key: Vec<u8>) -> (r: Option<LogRecordPos>)
        requires
            self.inv(),
        ensures
            r == (if self.entries().contains_key(key@) {
                Some(self.entries()[key@])
            } else {
                None
            }),
    ;

    /// Removes `key`. Returns whether it had a position.
    fn delete(&mut self, key: Vec<u8>) -> (r: bool)
        requires
            old(self).inv(),
        ensures
            final(self).inv(),
            final(self).entries() == old(self).entries().remove(key@),
            r == old(self).entries().contains_key(key@),
    ;
}

/// An index kept as a list of distinct keys with their positions.
pub struct MemIndex {
    keys: Vec<Vec<u8>>,
    positions: Vec<LogRecordPos>,
}

impl MemIndex {
    pub closed spec fn keys_view(&self) -> Seq<Seq<u8>> {
        self.keys@.map_values(|k: Vec<u8>| k@)
    }

    /// An empty index.
    pub fn new() -> (r: MemIndex)
        ensures
            r.inv(),
            r.entries() == Map::<Seq<u8>, LogRecordPos>::empty(),
    {
        let r = MemIndex { keys: Vec::new(), positions: Vec::new() };
        assert(r.entries() =~= Map::<Seq<u8>, LogRecordPos>::empty());
        r
    }

    /// Where `key` stands in the list, if it does.
    fn find(&self, key: &Vec<u8>) -> (r: Option<usize>)
        requires
            self.inv(),
        ensures
            match r {
                Some(i) => i < self.keys@.len() && self.keys_view()[i as int] == key@,
                None => !self.keys_view().contains(key@),
            },
    {
        let mut i: usize = 0;
        while i < self.keys.len()
            invariant
                self.inv(),
                i <= self.keys@.len(),
                forall|j: int| 0 <= j < i ==> self.keys_view()[j] != key@,
            decreases self.keys@.len() - i,
        {
            if bytes_eq(&self.keys[i], key) {
                return Some(i);
            }
            i = i + 1;
        }
        None
    }
}

proof fn lemma_index_of(s: Seq<Seq<u8>>, k: Seq<u8>)
    requires
        s.no_duplicates(),
        s.contains(k),
    ensures
        0 <= s.index_of(k) < s.len(),
        s[s.index_of(k)] == k,
        forall|j: int| 0 <= j < s.len() && s[j] == k ==> j == s.index_of(k),
{
}

/// Whether two byte strings are equal.
fn bytes_eq(a: &Vec<u8>, b: &Vec<u8>) -> (r: bool)
    ensures
        r == (a@ == b@),
{
    if a.len() != b.len() {
        return false;
    }
    let mut i: usize = 0;
    while i < a.len()
        invariant
            a@.len() == b@.len(),
            i <= a@.len(),
            forall|j: int| 0 <= j < i ==> a@[j] == b@[j],
        decreases a@.len() - i,
    {
        if a[i] != b[i] {
            return false;
        }
        i = i + 1;
    }
    assert(a@ =~= b@);
    true
}

impl Indexer for MemIndex {
    closed spec fn entries(&self) -> Map<Seq<u8>, LogRecordPos> {
        Map::new(
            |k: Seq<u8>| self.keys_view().contains(k),
            |k: Seq<u8>| self.positions@[self.keys_view().index_of(k)],
        )
    }

    closed spec fn inv(&self) -> bool {
        &&& self.keys@.len() == self.positions@.len()
        &&& self.keys_view().no_duplicates()
    }

    fn put(&mut self, key: Vec<u8>, pos: LogRecordPos) -> (r: bool)
        ensures
            r,
    {
        let ghost old_entries = self.entries();
        match self.find(&key) {
            Some(i) => {
                self.positions.set(i, pos);
                proof {
                    assert forall|k: Seq<u8>| self.keys_view().contains(k) implies
                        self.keys_view().index_of(k) != i || k == key@ by {
                        lemma_index_of(self.keys_view(), k);
                    }
                    lemma_index_of(self.keys_view(), key@);
                }
                assert(self.entries() =~= old_entries.insert(key@, pos));
            },
            None => {
                let ghost kv = key@;
                let ghost old_keys = self.keys_view();
                let ghost old_pos = self.positions@;
                self.keys.push(key);
                self.positions.push(pos);
                proof {
                    let nk = self.keys_view();
                    assert(nk =~= old_keys.push(kv));
                    assert(nk.no_duplicates());
                    assert forall|k: Seq<u8>| old_keys.contains(k) implies nk.contains(k) && nk.index_of(k)
                        == old_keys.index_of(k) by {
                        lemma_index_of(old_keys, k);
                        assert(nk[old_keys.index_of(k)] == k);
                        lemma_index_of(nk, k);
                    }
                    assert(nk[old_keys.len() as int] == kv);
                    lemma_index_of(nk, kv);
                    assert(nk.contains(kv));
                    assert forall|k: Seq<u8>| nk.contains(k) implies old_keys.contains(k) || k == kv by {
                        lemma_index_of(nk, k);
                        if nk.index_of(k) < old_keys.len() {
                            assert(old_keys[nk.index_of(k)] == k);
                        }
                    }
                    assert(self.positions@ == old_pos.push(pos));
                    assert forall|k: Seq<u8>| #[trigger] nk.contains(k) implies self.positions@[nk.index_of(k)]
                        == (if k == kv { pos } else { old_pos[old_keys.index_of(k)] }) by {
                        lemma_index_of(nk, k);
                        if k != kv {
                            lemma_index_of(old_keys, k);
                        }
                    }
                }
                assert(self.entries() =~= old_entries.insert(kv, pos));
            },
        }
        true
    }

    fn get(&self, key: Vec<u8>) -> (r: Option<LogRecordPos>) {
        match self.find(&key) {
            Some(i) => {
                proof {
                    lemma_index_of(self.keys_view(), key@);
                }
                Some(self.positions[i])
            },
            None => None,
        }
    }

    fn delete(&mut self, key: Vec<u8>) -> (r: bool) {
        let ghost old_entries = self.entries();
        match self.find(&key) {
            Some(i) => {
                let ghost old_keys = self.keys_view();
                let ghost old_pos = self.positions@;
                proof {
                    lemma_index_of(old_keys, key@);
                }
                self.keys.remove(i);
                self.positions.remove(i);
                proof {
                    let nk = self.keys_view();
                    assert(nk =~= old_keys.remove(i as int));
                    assert forall|a: int, b: int| 0 <= a < nk.len() && 0 <= b < nk.len() && a != b
                        implies nk[a] != nk[b] by {
                        let oa = if a < i { a } else { a + 1 };
                        let ob = if b < i { b } else { b + 1 };
                        assert(nk[a] == old_keys[oa] && nk[b] == old_keys[ob]);
                    }
                    assert forall|k: Seq<u8>| old_keys.contains(k) && k != key@ implies nk.contains(k)
                        && self.positions@[nk.index_of(k)] == old_pos[old_keys.index_of(k)] by {
                        lemma_index_of(old_keys, k);
                        let j = old_keys.index_of(k);
                        let nj = if j < i { j } else { j - 1 };
                        assert(nk[nj] == k);
                        lemma_index_of(nk, k);
                    }
                    assert forall|k: Seq<u8>| nk.contains(k) implies old_keys.contains(k) && k != key@ by {
                        lemma_index_of(nk, k);
                        let nj = nk.index_of(k);
                        let j = if nj < i { nj } else { nj + 1 };
                        assert(old_keys[j] == k);
                    }
                }
                assert(self.entries() =~= old_entries.remove(key@));
                true
            },
            None => {
                assert(self.entries() =~= old_entries.remove(key@));
                false
            },
        }
    }
}

/// The index that `index_type` selects. Both kinds behave the same; this
/// store keeps one implementation for both.
pub fn new_index(index_type: IndexType) -> (r: MemIndex)
    ensures
        r.inv(),
        r.entries() == Map::<Seq<u8>, LogRecordPos>::empty(),
{
    MemIndex::new()
}

} // verus!
