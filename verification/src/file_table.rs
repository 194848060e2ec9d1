use vstd::prelude::*;
use std::collections::HashMap;
use crate::types::{FileEntry, FileId, Gen};

verus! {

broadcast use vstd::std_specs::hash::group_hash_axioms;

/// File ids strictly increase along `s`.
pub open spec fn ids_increase(s: Seq<FileEntry>) -> bool {
    forall|i: int, j: int| 0 <= i < j < s.len() ==> s[i].file_id < s[j].file_id
}

/// Whether some entry of `s` has the id `id`.
pub open spec fn has_id(s: Seq<FileEntry>, id: FileId) -> bool {
    exists|i: int| 0 <= i < s.len() && #[trigger] s[i].file_id == id
}

/// The index in `s` of an entry with the id `id`.
pub open spec fn index_of_id(s: Seq<FileEntry>, id: FileId) -> int {
    choose|i: int| 0 <= i < s.len() && #[trigger] s[i].file_id == id
}

/// The mapping from file id to entry that the entries of `s` make up.
pub open spec fn map_of_entries(s: Seq<FileEntry>) -> Map<FileId, FileEntry> {
    Map::new(|id: FileId| has_id(s, id), |id: FileId| s[index_of_id(s, id)])
}

/// What tombstoning does to an entry: it is marked deleted and its
/// generation moves on by one, wrapping.
pub open spec fn tombstoned(e: FileEntry) -> FileEntry {
    FileEntry { file_id: e.file_id, path: e.path, deleted: true, gen: e.gen.wrapping_add(1) }
}

/// The liveness rule: an occurrence of generation `occ_gen` in file
/// `file_id` is alive if and only if the file is known, is not deleted, and
/// its current generation is `occ_gen`.
pub open spec fn occ_alive(m: Map<FileId, FileEntry>, file_id: FileId, occ_gen: Gen) -> bool {
    m.contains_key(file_id) && !m[file_id].deleted && m[file_id].gen == occ_gen
}

proof fn lemma_index_unique(s: Seq<FileEntry>, i: int)
    requires
        ids_increase(s),
        0 <= i < s.len(),
    ensures
        has_id(s, s[i].file_id),
        index_of_id(s, s[i].file_id) == i,
        map_of_entries(s).contains_key(s[i].file_id),
        map_of_entries(s)[s[i].file_id] == s[i],
{
    let j = index_of_id(s, s[i].file_id);
    if j < i {
        assert(s[j].file_id < s[i].file_id);
    }
    if i < j {
        assert(s[i].file_id < s[j].file_id);
    }
}

/// A table of entries in ascending order of id knows as many files as it
/// has entries.
pub proof fn lemma_entries_count(s: Seq<FileEntry>)
    requires
        ids_increase(s),
    ensures
        map_of_entries(s).dom().finite(),
        map_of_entries(s).dom().len() == s.len(),
    decreases s.len(),
{
    if s.len() == 0 {
        assert(map_of_entries(s).dom() =~= Set::<FileId>::empty());
    } else {
        let t = s.drop_last();
        lemma_entries_count(t);
        let id = s.last().file_id;
        assert(!has_id(t, id)) by {
            if has_id(t, id) {
                let i = index_of_id(t, id);
                assert(s[i].file_id < s[s.len() - 1].file_id);
            }
        }
        assert(map_of_entries(s).dom() =~= map_of_entries(t).dom().insert(id)) by {
            assert forall|k: FileId| has_id(s, k) <==> (has_id(t, k) || k == id) by {
                if has_id(s, k) {
                    let i = index_of_id(s, k);
                    if i < t.len() {
                        assert(t[i].file_id == k);
                    }
                }
                if has_id(t, k) {
                    let i = index_of_id(t, k);
                    assert(s[i].file_id == k);
                }
                if k == id {
                    assert(s[s.len() - 1].file_id == k);
                }
            }
        }
    }
}

/// Every entry of `m` stands under its own file id.
pub open spec fn keyed(m: Map<FileId, FileEntry>) -> bool {
    forall|id: FileId| m.contains_key(id) ==> (#[trigger] m[id]).file_id == id
}

/// The entries of `m` whose id is below `n`, in ascending order of id.
pub open spec fn entries_below(m: Map<FileId, FileEntry>, n: int) -> Seq<FileEntry>
    decreases n,
{
    if n <= 0 {
        Seq::empty()
    } else if n - 1 <= u32::MAX && m.contains_key((n - 1) as u32) {
        entries_below(m, n - 1).push(m[(n - 1) as u32])
    } else {
        entries_below(m, n - 1)
    }
}

/// The entries below `n` are in ascending order of id, and they are those
/// of the table whose id is below `n`.
pub proof fn lemma_entries_below(m: Map<FileId, FileEntry>, n: int)
    requires
        keyed(m),
        0 <= n <= 0x1_0000_0000,
    ensures
        ids_increase(entries_below(m, n)),
        forall|i: int|
            0 <= i < entries_below(m, n).len() ==> (#[trigger] entries_below(m, n)[i]).file_id < n,
        forall|id: FileId| has_id(entries_below(m, n), id) <==> (m.contains_key(id) && id < n),
        forall|id: FileId|
            m.contains_key(id) && id < n ==> #[trigger] map_of_entries(entries_below(m, n))[id]
                == m[id],
    decreases n,
{
    let s = entries_below(m, n);
    if n > 0 {
        lemma_entries_below(m, n - 1);
        let t = entries_below(m, n - 1);
        let last = (n - 1) as u32;
        assert forall|id: FileId| has_id(s, id) <==> (m.contains_key(id) && id < n) by {
            if has_id(s, id) {
                let i = index_of_id(s, id);
                if i < t.len() {
                    assert(t[i].file_id == id);
                    assert(has_id(t, id));
                }
            }
            if m.contains_key(id) && id < n {
                if id == last {
                    assert(s[s.len() - 1].file_id == id);
                } else {
                    assert(has_id(t, id));
                    let i = index_of_id(t, id);
                    assert(s[i].file_id == id);
                }
            }
        }
        assert forall|id: FileId| m.contains_key(id) && id < n implies #[trigger] map_of_entries(
            s,
        )[id] == m[id] by {
            let i = index_of_id(s, id);
            assert(has_id(s, id));
            if i < t.len() {
                assert(t[i].file_id == id);
                assert(has_id(t, id));
                lemma_index_unique(t, i);
                assert(map_of_entries(t)[id] == t[i]);
            }
        }
    }
}

/// Per-file identity, deletion and generation records, keyed by file id.
#[derive(Debug)]
pub struct FileTable {
    by_id: HashMap<FileId, FileEntry>,
    /// One more than the highest file id the table has seen, or 0.
    bound: u64,
}

impl View for FileTable {
    type V = Map<FileId, FileEntry>;

    closed spec fn view(&self) -> Map<FileId, FileEntry> {
        self.by_id@
    }
}

impl Clone for FileTable {
    fn clone(&self) -> (t: Self)
        ensures
            t@ == self@,
            t.spec_entries() == self.spec_entries(),
            t.wf() == self.wf(),
    {
        FileTable { by_id: self.by_id.clone(), bound: self.bound }
    }
}

impl Default for FileTable {
    fn default() -> (t: Self)
        ensures
            t@ == Map::<FileId, FileEntry>::empty(),
            t.spec_entries().len() == 0,
            t.wf(),
    {
        FileTable::new()
    }
}

impl FileTable {
    /// Every entry stands under its own file id, and every id is below the
    /// table's bound.
    pub closed spec fn wf(&self) -> bool {
        &&& keyed(self.by_id@)
        &&& self.bound <= 0x1_0000_0000
        &&& forall|id: FileId| self.by_id@.contains_key(id) ==> id < self.bound
    }

    /// The entries in ascending order of file id.
    pub closed spec fn spec_entries(&self) -> Seq<FileEntry> {
        entries_below(self.by_id@, self.bound as int)
    }

    /// Whether an occurrence of generation `occ_gen` in file `file_id` is alive.
    pub open spec fn spec_alive(&self, file_id: FileId, occ_gen: Gen) -> bool {
        occ_alive(self@, file_id, occ_gen)
    }

    /// The entries of a table are in ascending order of id, and the table
    /// maps each id to its entry among them.
    pub proof fn lemma_entries(&self)
        requires
            self.wf(),
        ensures
            ids_increase(self.spec_entries()),
            self@ == map_of_entries(self.spec_entries()),
            keyed(self@),
    {
        lemma_entries_below(self.by_id@, self.bound as int);
        assert(self.by_id@ =~= map_of_entries(self.spec_entries()));
    }

    /// An empty table.
    pub fn new() -> (t: Self)
        ensures
            t@ == Map::<FileId, FileEntry>::empty(),
            t.spec_entries().len() == 0,
            t.wf(),
    {
        FileTable { by_id: HashMap::new(), bound: 0 }
    }

    /// The entry of file `file_id`, if the table has one.
    pub fn get(&self, file_id: FileId) -> (r: Option<&FileEntry>)
        ensures
            match r {
                Some(e) => self@.contains_key(file_id) && *e == self@[file_id],
                None => !self@.contains_key(file_id),
            },
    {
        self.by_id.get(&file_id)
    }

    /// Inserts `entry`, replacing what the table had for its file id.
    pub fn upsert(&mut self, entry: FileEntry)
        requires
            old(self).wf(),
        ensures
            final(self).wf(),
            final(self)@ == old(self)@.insert(entry.file_id, entry),
    {
        let id = entry.file_id;
        self.by_id.insert(id, entry);
        if self.bound <= id as u64 {
            self.bound = id as u64 + 1;
        }
    }

    /// Marks file `file_id` deleted and moves its generation on, so that
    /// none of its occurrences is alive any more. An unknown id changes nothing.
    pub fn tombstone(&mut self, file_id: FileId)
        requires
            old(self).wf(),
        ensures
            final(self).wf(),
            old(self)@.contains_key(file_id) ==> final(self)@ == old(self)@.insert(
                file_id,
                tombstoned(old(self)@[file_id]),
            ),
            !old(self)@.contains_key(file_id) ==> final(self)@ == old(self)@,
    {
        let found = match self.get(file_id) {
            Some(e) => Some(
                FileEntry {
                    file_id: e.file_id,
                    path: e.path.clone(),
                    deleted: true,
                    gen: e.gen.wrapping_add(1),
                },
            ),
            None => None,
        };
        match found {
            Some(e) => {
                self.upsert(e);
            },
            None => {},
        }
    }

    /// The liveness predicate for an occurrence of file `file_id` indexed at
    /// generation `occ_gen`.
    pub fn is_occ_alive(&self, file_id: FileId, occ_gen: Gen) -> (b: bool)
        ensures
            b == self.spec_alive(file_id, occ_gen),
    {
        match self.get(file_id) {
            Some(e) => !e.deleted && e.gen == occ_gen,
            None => false,
        }
    }

    /// The number of files the table knows, deleted ones included.
    pub fn len(&self) -> (n: usize)
        ensures
            n == self@.dom().len(),
            self.wf() ==> n == self.spec_entries().len(),
    {
        proof {
            if self.wf() {
                self.lemma_entries();
                lemma_entries_count(self.spec_entries());
            }
        }
        self.by_id.len()
    }

    /// All entries in ascending order of file id.
    pub fn entries(&self) -> (v: Vec<FileEntry>)
        requires
            self.wf(),
        ensures
            v@ == self.spec_entries(),
            ids_increase(v@),
            self@ == map_of_entries(v@),
    {
        let mut v: Vec<FileEntry> = Vec::new();
        let mut i: u64 = 0;
        while i < self.bound
            invariant
                i <= self.bound <= 0x1_0000_0000,
                v@ == entries_below(self.by_id@, i as int),
            decreases self.bound - i,
        {
            match self.by_id.get(&(i as u32)) {
                Some(e) => {
                    v.push(
                        FileEntry {
                            file_id: e.file_id,
                            path: e.path.clone(),
                            deleted: e.deleted,
                            gen: e.gen,
                        },
                    );
                },
                None => {},
            }
            i += 1;
        }
        proof {
            self.lemma_entries();
        }
        v
    }
}

} // verus!
