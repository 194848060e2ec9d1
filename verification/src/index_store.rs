use vstd::prelude::*;
use crate::file_table::{occ_alive, tombstoned, FileTable};
use crate::node_table::NodeTable;
use crate::position_key::PositionKey;
use crate::segment::{entries_with_key, has_key, Entry, Segment};
use crate::sorting::{
    is_sorted, lemma_sorted_by_rank_props, sort_by_rank, sorted_by_rank, Ranked,
};
use crate::types::{FileEntry, FileId, Occurrence};

verus! {

/// The number of shards the key space is split into.
pub const BUCKET_COUNT: usize = 256;

/// One list of entries per shard.
pub type BucketEntries = Vec<Vec<(PositionKey, Occurrence)>>;

/// What one file contributes to the index: its entry, its node table and
/// its entries by shard.
pub type FileBucketEntries = (FileEntry, NodeTable, BucketEntries);

#[derive(Debug, Clone, Copy, PartialEq, Eq, Structural)]
pub enum IndexState {
    Empty,
    Restoring,
    Building,
    Ready,
    Updating,
}

impl Ranked for Occurrence {
    /// Search results are ordered by file id, then by node id.
    open spec fn rank(self) -> int {
        self.file_id * 0x1_0000_0000 + self.node_id
    }

    fn rank_le(&self, other: &Self) -> (b: bool) {
        self.file_id < other.file_id || (self.file_id == other.file_id && self.node_id
            <= other.node_id)
    }
}

/// The node table slots after storing `nt` for file `file_id`.
pub open spec fn slots_with<T>(slots: Seq<Option<T>>, file_id: FileId, nt: T) -> Seq<Option<T>> {
    if file_id < slots.len() {
        slots.update(file_id as int, Some(nt))
    } else {
        Seq::new(
            (file_id + 1) as nat,
            |i: int|
                if i < slots.len() {
                    slots[i]
                } else if i == file_id {
                    Some(nt)
                } else {
                    None
                },
        )
    }
}

/// The node table of each file, addressed by file id.
#[derive(Debug, Clone)]
pub struct NodeTables {
    by_id: Vec<Option<NodeTable>>,
}

impl NodeTables {
    /// The slots by file id; a file without a table has `None` or no slot.
    pub closed spec fn slots(&self) -> Seq<Option<NodeTable>> {
        self.by_id@
    }

    /// The node table of file `file_id`, if one was stored.
    pub open spec fn spec_get(&self, file_id: FileId) -> Option<NodeTable> {
        if file_id < self.slots().len() {
            self.slots()[file_id as int]
        } else {
            None
        }
    }

    pub fn new() -> (t: Self)
        ensures
            t.slots().len() == 0,
    {
        NodeTables { by_id: Vec::new() }
    }

    pub fn get(&self, file_id: FileId) -> (r: Option<&NodeTable>)
        ensures
            match r {
                Some(t) => self.spec_get(file_id) == Some(*t),
                None => self.spec_get(file_id) is None,
            },
    {
        if (file_id as usize) < self.by_id.len() {
            self.by_id[file_id as usize].as_ref()
        } else {
            None
        }
    }

    /// Stores `nt` as the node table of file `file_id`; other files keep theirs.
    pub fn upsert(&mut self, file_id: FileId, nt: NodeTable)
        ensures
            final(self).slots() == slots_with(old(self).slots(), file_id, nt),
            final(self).spec_get(file_id) == Some(nt),
            forall|id: FileId|
                id != file_id ==> #[trigger] final(self).spec_get(id) == old(self).spec_get(id),
    {
        let idx = file_id as usize;
        while self.by_id.len() <= idx
            invariant
                idx == file_id,
                self.by_id@.len() >= old(self).by_id@.len(),
                self.by_id@.len() == old(self).by_id@.len() || self.by_id@.len() <= idx + 1,
                forall|i: int|
                    0 <= i < old(self).by_id@.len() ==> self.by_id@[i] == old(self).by_id@[i],
                forall|i: int|
                    old(self).by_id@.len() <= i < self.by_id@.len() ==> self.by_id@[i] is None,
            decreases idx + 1 - self.by_id@.len(),
        {
            self.by_id.push(None);
        }
        self.by_id.set(idx, Some(nt));
        proof {
            assert(self.by_id@ =~= slots_with(old(self).by_id@, file_id, nt));
        }
    }

    /// All slots in order of file id.
    pub fn by_id_iter(&self) -> (v: &Vec<Option<NodeTable>>)
        ensures
            v@ == self.slots(),
    {
        &self.by_id
    }
}

impl Default for NodeTables {
    fn default() -> (t: Self)
        ensures
            t.slots().len() == 0,
    {
        NodeTables::new()
    }
}

/// The test for an entry whose occurrence is alive by the file table `files`.
pub open spec fn is_alive(files: Map<FileId, FileEntry>) -> spec_fn(Entry) -> bool {
    |e: Entry| occ_alive(files, e.1.file_id, e.1.gen)
}

/// The occurrence of an entry.
pub open spec fn occ_of() -> spec_fn(Entry) -> Occurrence {
    |e: Entry| e.1
}

/// The live occurrences of `key` among `entries`, in their order.
pub open spec fn alive_hits(
    entries: Seq<Entry>,
    key: PositionKey,
    files: Map<FileId, FileEntry>,
) -> Seq<Occurrence> {
    entries_with_key(entries, key).filter(is_alive(files)).map_values(occ_of())
}

/// The live occurrences of `key` in the segments of one shard, segment by
/// segment.
pub open spec fn bucket_hits(
    segs: Seq<Seq<Entry>>,
    key: PositionKey,
    files: Map<FileId, FileEntry>,
) -> Seq<Occurrence>
    decreases segs.len(),
{
    if segs.len() == 0 {
        Seq::empty()
    } else {
        bucket_hits(segs.drop_last(), key, files) + alive_hits(segs.last(), key, files)
    }
}

/// Whether some segment of `segs` holds the entry `(key, occ)`.
pub open spec fn holds_entry(segs: Seq<Seq<Entry>>, key: PositionKey, occ: Occurrence) -> bool {
    exists|s: int, i: int|
        0 <= s < segs.len() && 0 <= i < segs[s].len() && #[trigger] segs[s][i] == (key, occ)
}

/// The result of searching `key` in the segments of its shard: the live
/// occurrences, ordered by file id and node id.
pub open spec fn search_result(
    segs: Seq<Seq<Entry>>,
    key: PositionKey,
    files: Map<FileId, FileEntry>,
) -> Seq<Occurrence> {
    sorted_by_rank(bucket_hits(segs, key, files))
}

/// The entries of each segment of `segs`.
pub open spec fn segment_views(segs: Seq<Segment>) -> Seq<Seq<Entry>> {
    segs.map_values(|s: Segment| s@)
}

/// The segments of each shard of `buckets`.
pub open spec fn shard_views(buckets: Seq<Vec<Segment>>) -> Seq<Seq<Seq<Entry>>> {
    buckets.map_values(|b: Vec<Segment>| segment_views(b@))
}

/// The entries of each list of `runs`.
pub open spec fn run_views(runs: Seq<Vec<(PositionKey, Occurrence)>>) -> Seq<Seq<Entry>> {
    runs.map_values(|r: Vec<(PositionKey, Occurrence)>| r@)
}

/// What a snapshot holds, as plain mathematical values.
pub struct IndexModel {
    pub state: IndexState,
    /// The file table: entry by file id.
    pub files: Map<FileId, FileEntry>,
    /// The node table slots by file id.
    pub tables: Seq<Option<NodeTable>>,
    /// For each shard, the entries of each of its segments, oldest first.
    pub shards: Seq<Seq<Seq<Entry>>>,
}

/// The segments of a shard after a run of new entries arrived: an empty run
/// adds nothing, any other becomes one new segment, sorted by key.
pub open spec fn with_run(segs: Seq<Seq<Entry>>, run: Seq<Entry>) -> Seq<Seq<Entry>> {
    if run.len() == 0 {
        segs
    } else {
        segs.push(sorted_by_rank(run))
    }
}

impl IndexModel {
    /// The model of a snapshot in state `state` that holds nothing.
    pub open spec fn empty_in(state: IndexState) -> IndexModel {
        IndexModel {
            state,
            files: Map::empty(),
            tables: Seq::empty(),
            shards: Seq::new(BUCKET_COUNT as nat, |b: int| Seq::empty()),
        }
    }

    /// The result of searching `key`.
    pub open spec fn search(self, key: PositionKey) -> Seq<Occurrence> {
        search_result(self.shards[key.spec_bucket() as int], key, self.files)
    }

    pub open spec fn with_state(self, state: IndexState) -> IndexModel {
        IndexModel { state, ..self }
    }

    /// The model after one file's entry, node table and runs were merged in.
    pub open spec fn with_file(
        self,
        entry: FileEntry,
        nt: NodeTable,
        runs: Seq<Seq<Entry>>,
    ) -> IndexModel {
        IndexModel {
            state: self.state,
            files: self.files.insert(entry.file_id, entry),
            tables: slots_with(self.tables, entry.file_id, nt),
            shards: Seq::new(
                self.shards.len(),
                |b: int| with_run(self.shards[b], runs[b]),
            ),
        }
    }

    /// The model after the files of `items` were merged in, one after another.
    pub open spec fn with_files(
        self,
        items: Seq<(FileEntry, NodeTable, Vec<Vec<(PositionKey, Occurrence)>>)>,
    ) -> IndexModel
        decreases items.len(),
    {
        if items.len() == 0 {
            self
        } else {
            let it = items.last();
            self.with_files(items.drop_last()).with_file(it.0, it.1, run_views(it.2@))
        }
    }

    /// The model after file `file_id` was tombstoned.
    pub open spec fn with_tombstone(self, file_id: FileId) -> IndexModel {
        if self.files.contains_key(file_id) {
            IndexModel {
                files: self.files.insert(file_id, tombstoned(self.files[file_id])),
                ..self
            }
        } else {
            self
        }
    }
}

/// One complete, immutable view of the index.
#[derive(Debug, Clone)]
pub struct IndexSnapshot {
    pub state: IndexState,
    pub file_table: FileTable,
    pub node_tables: NodeTables,
    pub buckets: Vec<Vec<Segment>>,
}

impl View for IndexSnapshot {
    type V = IndexModel;

    open spec fn view(&self) -> IndexModel {
        IndexModel {
            state: self.state,
            files: self.file_table@,
            tables: self.node_tables.slots(),
            shards: shard_views(self.buckets@),
        }
    }
}

impl Default for IndexSnapshot {
    fn default() -> (s: Self)
        ensures
            s.wf(),
            s@ == IndexModel::empty_in(IndexState::Empty),
    {
        IndexSnapshot::empty()
    }
}

impl IndexSnapshot {
    /// A snapshot has one segment list per shard and a well-formed file table.
    pub open spec fn wf(&self) -> bool {
        &&& self.buckets@.len() == BUCKET_COUNT
        &&& self.file_table.wf()
    }

    /// The segments of shard `b`.
    pub open spec fn segments(&self, b: int) -> Seq<Seq<Entry>> {
        segment_views(self.buckets@[b]@)
    }

    /// The result of searching `key`: its live occurrences in the key's
    /// shard, ordered by file id and node id.
    pub open spec fn spec_search(&self, key: PositionKey) -> Seq<Occurrence> {
        self@.search(key)
    }

    /// A snapshot in state `Empty` that holds nothing.
    pub fn empty() -> (s: Self)
        ensures
            s.wf(),
            s@ == IndexModel::empty_in(IndexState::Empty),
    {
        Self::empty_in(IndexState::Empty)
    }

    /// A snapshot in state `state` that holds nothing.
    pub fn empty_in(state: IndexState) -> (s: Self)
        ensures
            s.wf(),
            s@ == IndexModel::empty_in(state),
    {
        let mut buckets: Vec<Vec<Segment>> = Vec::with_capacity(BUCKET_COUNT);
        let mut i: usize = 0;
        while i < BUCKET_COUNT
            invariant
                i <= BUCKET_COUNT,
                buckets@.len() == i,
                forall|b: int| 0 <= b < i ==> #[trigger] buckets@[b]@.len() == 0,
            decreases BUCKET_COUNT - i,
        {
            buckets.push(Vec::new());
            i += 1;
        }
        let s = IndexSnapshot {
            state,
            file_table: FileTable::new(),
            node_tables: NodeTables::new(),
            buckets,
        };
        proof {
            assert forall|b: int| 0 <= b < BUCKET_COUNT implies #[trigger] s@.shards[b]
                == Seq::<Seq<Entry>>::empty() by {
                assert(s.buckets@[b]@.len() == 0);
                assert(segment_views(s.buckets@[b]@) =~= Seq::<Seq<Entry>>::empty());
            }
            assert(s@.shards =~= IndexModel::empty_in(state).shards);
            assert(s@.tables =~= IndexModel::empty_in(state).tables);
        }
        s
    }

    /// Exact-match search: every live occurrence of `key`, and no other, in
    /// the order of file id and node id.
    pub fn search_occurrences_by_key(&self, key: PositionKey) -> (out: Vec<Occurrence>)
        requires
            self.wf(),
        ensures
            out@ == self.spec_search(key),
            is_sorted(out@),
            forall|occ: Occurrence|
                out@.contains(occ) <==> (holds_entry(
                    self.segments(key.spec_bucket() as int),
                    key,
                    occ,
                ) && self.file_table.spec_alive(occ.file_id, occ.gen)),
    {
        let segs = &self.buckets[key.bucket() as usize];
        let ghost files = self.file_table@;
        let ghost alive = is_alive(files);
        let ghost pick = occ_of();
        let mut out: Vec<Occurrence> = Vec::new();
        let mut si: usize = 0;
        while si < segs.len()
            invariant
                si <= segs.len(),
                self.file_table.wf(),
                files == self.file_table@,
                alive == is_alive(files),
                pick == occ_of(),
                out@ == bucket_hits(segment_views(segs@.take(si as int)), key, files),
            decreases segs.len() - si,
        {
            let slice = segs[si].range_by_key(key);
            let ghost before = out@;
            let mut j: usize = 0;
            while j < slice.len()
                invariant
                    j <= slice.len(),
                    self.file_table.wf(),
                    files == self.file_table@,
                    alive == is_alive(files),
                    pick == occ_of(),
                    out@ == before + slice@.take(j as int).filter(alive).map_values(pick),
                decreases slice.len() - j,
            {
                let e = slice[j];
                proof {
                    let next = slice@.take(j + 1);
                    assert(next.drop_last() == slice@.take(j as int));
                    assert(next.last() == e);
                    reveal_with_fuel(Seq::filter, 2);
                    if alive(e) {
                        assert(next.filter(alive).map_values(pick) =~= slice@.take(
                            j as int,
                        ).filter(alive).map_values(pick).push(e.1));
                    }
                }
                if self.file_table.is_occ_alive(e.1.file_id, e.1.gen) {
                    out.push(e.1);
                }
                j += 1;
            }
            proof {
                assert(slice@.take(j as int) == slice@);
                let next = segment_views(segs@.take(si + 1));
                assert(next.drop_last() =~= segment_views(segs@.take(si as int)));
                assert(next.last() == segs@[si as int]@);
            }
            si += 1;
        }
        proof {
            assert(segs@.take(si as int) == segs@);
            lemma_sorted_by_rank_props(out@);
            lemma_bucket_hits_contains(segment_views(segs@), key, files);
        }
        sort_by_rank(&out)
    }
}

/// What `alive_hits` holds: the occurrences that stand with `key` in
/// `entries` and are alive.
pub proof fn lemma_alive_hits_contains(
    entries: Seq<Entry>,
    key: PositionKey,
    files: Map<FileId, FileEntry>,
)
    ensures
        forall|occ: Occurrence|
            #![trigger alive_hits(entries, key, files).contains(occ)]
            alive_hits(entries, key, files).contains(occ) <==> (entries.contains((key, occ))
                && occ_alive(files, occ.file_id, occ.gen)),
{
    let with_key = entries_with_key(entries, key);
    let alive = is_alive(files);
    let kept = with_key.filter(alive);
    let hits = alive_hits(entries, key, files);
    assert forall|occ: Occurrence| #![trigger hits.contains(occ)] hits.contains(occ) <==> (
    entries.contains((key, occ)) && occ_alive(files, occ.file_id, occ.gen)) by {
        let has_key = has_key(key);
        if hits.contains(occ) {
            let i = choose|i: int| 0 <= i < hits.len() && hits[i] == occ;
            let e = kept[i];
            assert(e.1 == occ);
            assert(kept.contains(e));
            lemma_filter_member(with_key, alive, e);
            lemma_filter_member(entries, has_key, e);
            assert(with_key.contains(e));
            assert(entries.contains(e) && has_key(e));
            assert(e == (key, occ));
        }
        if entries.contains((key, occ)) && occ_alive(files, occ.file_id, occ.gen) {
            let e: Entry = (key, occ);
            lemma_filter_member(entries, has_key, e);
            assert(has_key(e));
            assert(with_key.contains(e));
            lemma_filter_member(with_key, alive, e);
            assert(alive(e));
            assert(kept.contains(e));
            let i = choose|i: int| 0 <= i < kept.len() && kept[i] == e;
            assert(hits[i] == occ);
        }
    }
}

/// A filtered sequence holds exactly the members that meet the predicate.
pub proof fn lemma_filter_member<A>(s: Seq<A>, pred: spec_fn(A) -> bool, x: A)
    ensures
        s.filter(pred).contains(x) <==> (s.contains(x) && pred(x)),
    decreases s.len(),
{
    reveal_with_fuel(Seq::filter, 2);
    if s.len() == 0 {
    } else {
        let t = s.drop_last();
        lemma_filter_member(t, pred, x);
        let f = s.filter(pred);
        let ft = t.filter(pred);
        if s.contains(x) {
            let i = choose|i: int| 0 <= i < s.len() && s[i] == x;
            if i < t.len() {
                assert(t[i] == x);
                assert(t.contains(x));
            }
        }
        if t.contains(x) {
            let i = choose|i: int| 0 <= i < t.len() && t[i] == x;
            assert(s[i] == x);
        }
        if pred(s.last()) {
            assert(f == ft.push(s.last()));
            if ft.contains(x) {
                let i = choose|i: int| 0 <= i < ft.len() && ft[i] == x;
                assert(f[i] == x);
            }
            if s.last() == x {
                assert(f[f.len() - 1] == x);
                assert(s[s.len() - 1] == x);
            }
            if f.contains(x) {
                let i = choose|i: int| 0 <= i < f.len() && f[i] == x;
                if i < ft.len() {
                    assert(ft[i] == x);
                }
            }
        } else {
            assert(f == ft);
            if s.last() == x {
            }
        }
    }
}

/// What a shard's hits hold: the live occurrences that some segment holds
/// with `key`. This is the liveness rule of search.
pub proof fn lemma_bucket_hits_contains(
    segs: Seq<Seq<Entry>>,
    key: PositionKey,
    files: Map<FileId, FileEntry>,
)
    ensures
        forall|occ: Occurrence|
            #![trigger bucket_hits(segs, key, files).contains(occ)]
            bucket_hits(segs, key, files).contains(occ) <==> (holds_entry(segs, key, occ)
                && occ_alive(files, occ.file_id, occ.gen)),
    decreases segs.len(),
{
    let hits = bucket_hits(segs, key, files);
    if segs.len() == 0 {
        assert forall|occ: Occurrence| #![trigger hits.contains(occ)] hits.contains(occ) <==> (
        holds_entry(segs, key, occ) && occ_alive(files, occ.file_id, occ.gen)) by {}
    } else {
        let rest = segs.drop_last();
        let last = segs.last();
        lemma_bucket_hits_contains(rest, key, files);
        lemma_alive_hits_contains(last, key, files);
        let a = bucket_hits(rest, key, files);
        let b = alive_hits(last, key, files);
        assert forall|occ: Occurrence| #![trigger hits.contains(occ)] hits.contains(occ) <==> (
        holds_entry(segs, key, occ) && occ_alive(files, occ.file_id, occ.gen)) by {
            if hits.contains(occ) {
                let i = choose|i: int| 0 <= i < hits.len() && hits[i] == occ;
                if i < a.len() {
                    assert(a[i] == occ);
                    assert(a.contains(occ));
                    let (s, k) = choose|s: int, k: int|
                        0 <= s < rest.len() && 0 <= k < rest[s].len() && #[trigger] rest[s][k]
                            == (key, occ);
                    assert(segs[s][k] == (key, occ));
                } else {
                    assert(b[i - a.len()] == occ);
                    assert(b.contains(occ));
                    let k = choose|k: int| 0 <= k < last.len() && last[k] == (key, occ);
                    assert(segs[segs.len() - 1][k] == (key, occ));
                }
            }
            if holds_entry(segs, key, occ) && occ_alive(files, occ.file_id, occ.gen) {
                let (s, k) = choose|s: int, k: int|
                    0 <= s < segs.len() && 0 <= k < segs[s].len() && #[trigger] segs[s][k] == (
                        key,
                        occ,
                    );
                if s < rest.len() {
                    assert(rest[s][k] == (key, occ));
                    assert(holds_entry(rest, key, occ));
                    assert(a.contains(occ));
                    let i = choose|i: int| 0 <= i < a.len() && a[i] == occ;
                    assert(hits[i] == occ);
                } else {
                    assert(last[k] == (key, occ));
                    assert(last.contains((key, occ)));
                    assert(b.contains(occ));
                    let i = choose|i: int| 0 <= i < b.len() && b[i] == occ;
                    assert(hits[a.len() + i] == occ);
                }
            }
        }
    }
}

/// `v` in reverse order.
pub fn reversed<T>(v: Vec<T>) -> (r: Vec<T>)
    ensures
        r@ == v@.reverse(),
{
    let mut v = v;
    let ghost orig = v@;
    let mut r: Vec<T> = Vec::with_capacity(v.len());
    while v.len() > 0
        invariant
            v@.len() + r@.len() == orig.len(),
            v@ == orig.take(v@.len() as int),
            forall|i: int| 0 <= i < r@.len() ==> r@[i] == orig[orig.len() - 1 - i],
        decreases v@.len(),
    {
        let x = v.pop().unwrap();
        r.push(x);
    }
    proof {
        assert(r@ =~= orig.reverse());
    }
    r
}

/// Merges the runs of `by_bucket` into `buckets`, shard by shard.
fn push_runs(buckets: &mut Vec<Vec<Segment>>, by_bucket: Vec<Vec<(PositionKey, Occurrence)>>)
    requires
        old(buckets)@.len() == BUCKET_COUNT,
        by_bucket@.len() == BUCKET_COUNT,
    ensures
        final(buckets)@.len() == BUCKET_COUNT,
        forall|b: int|
            0 <= b < BUCKET_COUNT ==> #[trigger] shard_views(final(buckets)@)[b] == with_run(
                shard_views(old(buckets)@)[b],
                run_views(by_bucket@)[b],
            ),
{
    let mut rest = by_bucket;
    let mut k: usize = BUCKET_COUNT;
    while k > 0
        invariant
            k <= BUCKET_COUNT,
            buckets@.len() == BUCKET_COUNT,
            rest@ == by_bucket@.take(k as int),
            by_bucket@.len() == BUCKET_COUNT,
            forall|b: int| 0 <= b < k ==> #[trigger] buckets@[b] == old(buckets)@[b],
            forall|b: int|
                k <= b < BUCKET_COUNT ==> #[trigger] segment_views(buckets@[b]@) == with_run(
                    segment_views(old(buckets)@[b]@),
                    by_bucket@[b]@,
                ),
        decreases k,
    {
        let run = rest.pop().unwrap();
        k -= 1;
        assert(run == by_bucket@[k as int]);
        if run.len() > 0 {
            let seg = Segment::from_entries(run);
            let ghost before = buckets@;
            buckets[k].push(seg);
            proof {
                assert(buckets@[k as int]@ == before[k as int]@.push(seg));
                assert(segment_views(buckets@[k as int]@) =~= segment_views(
                    before[k as int]@,
                ).push(seg@));
                assert forall|b: int| 0 <= b < k implies #[trigger] buckets@[b] == old(
                    buckets,
                )@[b] by {
                    assert(buckets@[b] == before[b]);
                }
                assert forall|b: int| k < b < BUCKET_COUNT implies #[trigger] segment_views(
                    buckets@[b]@,
                ) == with_run(segment_views(old(buckets)@[b]@), by_bucket@[b]@) by {
                    assert(buckets@[b] == before[b]);
                }
            }
        }
    }
}

/// The one place where the index changes: it holds the current snapshot and
/// replaces it as a whole on every change.
#[derive(Debug)]
pub struct IndexStore {
    snap: IndexSnapshot,
}

impl View for IndexStore {
    type V = IndexModel;

    closed spec fn view(&self) -> IndexModel {
        self.snap@
    }
}

impl Default for IndexStore {
    fn default() -> (s: Self)
        ensures
            s.wf(),
            s@ == IndexModel::empty_in(IndexState::Empty),
    {
        IndexStore::new()
    }
}

impl IndexStore {
    pub closed spec fn wf(&self) -> bool {
        self.snap.wf()
    }

    /// A well-formed store has one segment list for each shard.
    pub proof fn lemma_shard_count(self)
        requires
            self.wf(),
        ensures
            self@.shards.len() == BUCKET_COUNT,
    {
    }

    /// A store whose snapshot is empty.
    pub fn new() -> (s: Self)
        ensures
            s.wf(),
            s@ == IndexModel::empty_in(IndexState::Empty),
    {
        IndexStore { snap: IndexSnapshot::empty() }
    }

    /// The current snapshot.
    pub fn snapshot(&self) -> (s: &IndexSnapshot)
        ensures
            s@ == self@,
            s.wf() == self.wf(),
    {
        &self.snap
    }

    /// Resets to an empty snapshot in state `Restoring`.
    pub fn start_restoring(&mut self)
        ensures
            final(self).wf(),
            final(self)@ == IndexModel::empty_in(IndexState::Restoring),
    {
        self.snap = IndexSnapshot::empty_in(IndexState::Restoring);
    }

    /// Installs what a checkpoint held: the tables as they are, and for each
    /// shard with entries one segment of them, sorted by key.
    pub fn install_restored(
        &mut self,
        state: IndexState,
        file_table: FileTable,
        node_tables: NodeTables,
        buckets_entries: Vec<Vec<(PositionKey, Occurrence)>>,
    )
        requires
            file_table.wf(),
            buckets_entries@.len() == BUCKET_COUNT,
        ensures
            final(self).wf(),
            final(self)@.state == state,
            final(self)@.files == file_table@,
            final(self)@.tables == node_tables.slots(),
            final(self)@.shards.len() == BUCKET_COUNT,
            forall|b: int|
                0 <= b < BUCKET_COUNT ==> #[trigger] final(self)@.shards[b] == with_run(
                    Seq::empty(),
                    run_views(buckets_entries@)[b],
                ),
    {
        let mut snap = IndexSnapshot::empty_in(state);
        push_runs(&mut snap.buckets, buckets_entries);
        snap.file_table = file_table;
        snap.node_tables = node_tables;
        self.snap = snap;
    }

    /// Resets to an empty snapshot in state `Building`.
    pub fn start_full_build(&mut self)
        ensures
            final(self).wf(),
            final(self)@ == IndexModel::empty_in(IndexState::Building),
    {
        self.snap = IndexSnapshot::empty_in(IndexState::Building);
    }

    /// Publishes a finished build as a whole, in state `Ready`.
    pub fn commit_full_build(
        &mut self,
        file_table: FileTable,
        node_table: NodeTables,
        buckets: Vec<Vec<Segment>>,
    )
        requires
            file_table.wf(),
            buckets@.len() == BUCKET_COUNT,
        ensures
            final(self).wf(),
            final(self)@ == (IndexModel {
                state: IndexState::Ready,
                files: file_table@,
                tables: node_table.slots(),
                shards: shard_views(buckets@),
            }),
    {
        self.snap = IndexSnapshot {
            state: IndexState::Ready,
            file_table,
            node_tables: node_table,
            buckets,
        };
    }

    /// Changes the state and nothing else.
    pub fn set_state(&mut self, state: IndexState)
        requires
            old(self).wf(),
        ensures
            final(self).wf(),
            final(self)@ == old(self)@.with_state(state),
    {
        self.snap.state = state;
    }

    /// Merges one file into the index: its entry replaces what the file table
    /// had for the id, its node table likewise, and each shard with new
    /// entries gets one more segment. The state stays.
    pub fn insert_file_segments(
        &mut self,
        file_entry: FileEntry,
        nt: NodeTable,
        by_bucket: Vec<Vec<(PositionKey, Occurrence)>>,
    )
        requires
            old(self).wf(),
            by_bucket@.len() == BUCKET_COUNT,
        ensures
            final(self).wf(),
            final(self)@ == old(self)@.with_file(file_entry, nt, run_views(by_bucket@)),
    {
        let file_id = file_entry.file_id;
        self.snap.file_table.upsert(file_entry);
        self.snap.node_tables.upsert(file_id, nt);
        push_runs(&mut self.snap.buckets, by_bucket);
        proof {
            let want = old(self)@.with_file(file_entry, nt, run_views(by_bucket@));
            assert(self@.shards =~= want.shards);
        }
    }

    /// Merges several files into the index at once, in their order.
    pub fn insert_many_file_segments(&mut self, items: Vec<FileBucketEntries>)
        requires
            old(self).wf(),
            forall|i: int| 0 <= i < items@.len() ==> (#[trigger] items@[i]).2@.len() == BUCKET_COUNT,
        ensures
            final(self).wf(),
            final(self)@ == old(self)@.with_files(items@),
    {
        let n = items.len();
        let mut rest = reversed(items);
        let mut done: usize = 0;
        while rest.len() > 0
            invariant
                self.wf(),
                n == items@.len(),
                done + rest@.len() == n,
                rest@ == items@.reverse().take(rest@.len() as int),
                self@ == old(self)@.with_files(items@.take(done as int)),
                forall|i: int|
                    0 <= i < items@.len() ==> (#[trigger] items@[i]).2@.len() == BUCKET_COUNT,
            decreases rest@.len(),
        {
            let (file_entry, nt, by_bucket) = rest.pop().unwrap();
            proof {
                let it = items@[done as int];
                assert(items@.reverse()[n - 1 - done] == it);
                assert(items@.take(done + 1).drop_last() == items@.take(done as int));
                assert(items@.take(done + 1).last() == it);
            }
            self.insert_file_segments(file_entry, nt, by_bucket);
            done += 1;
        }
        proof {
            assert(items@.take(done as int) == items@);
        }
    }

    /// Tombstones file `file_id`: its segments stay, and the liveness rule
    /// drops its occurrences from every search.
    pub fn tombstone_file(&mut self, file_id: FileId)
        requires
            old(self).wf(),
        ensures
            final(self).wf(),
            final(self)@ == old(self)@.with_tombstone(file_id),
    {
        self.snap.file_table.tombstone(file_id);
    }
}

/// The liveness rule of search, over the model: a search for `key` includes
/// an occurrence if and only if some segment of the key's shard holds it with
/// that key, its file is not deleted, and the file's current generation is
/// the occurrence's.
pub proof fn lemma_search_liveness(m: IndexModel, key: PositionKey, occ: Occurrence)
    ensures
        m.search(key).contains(occ) <==> (holds_entry(
            m.shards[key.spec_bucket() as int],
            key,
            occ,
        ) && occ_alive(m.files, occ.file_id, occ.gen)),
{
    let segs = m.shards[key.spec_bucket() as int];
    lemma_bucket_hits_contains(segs, key, m.files);
    lemma_sorted_by_rank_props(bucket_hits(segs, key, m.files));
}

/// Deletion: once a file is tombstoned, no search shows any of its
/// occurrences, and the occurrences of every other file show as before.
pub proof fn lemma_tombstone_hides_file(
    m: IndexModel,
    file_id: FileId,
    key: PositionKey,
    occ: Occurrence,
)
    ensures
        m.with_tombstone(file_id).search(key).contains(occ) <==> (m.search(key).contains(occ)
            && occ.file_id != file_id),
{
    lemma_search_liveness(m, key, occ);
    lemma_search_liveness(m.with_tombstone(file_id), key, occ);
}

/// Whether the entry `(key, occ)` stands in run `b` of `runs`.
pub open spec fn run_holds(runs: Seq<Seq<Entry>>, b: int, key: PositionKey, occ: Occurrence) -> bool {
    0 <= b < runs.len() && runs[b].contains((key, occ))
}

/// Incremental correctness: when a file is indexed again under its id at a
/// new generation, every search shows of that file exactly the newly indexed
/// entries, and of every other file what it showed before. It is assumed
/// that every new entry names the file and the new generation, and that no
/// entry stored earlier for the file carries the new generation.
pub proof fn lemma_reindex_replaces_file(
    m: IndexModel,
    entry: FileEntry,
    nt: NodeTable,
    runs: Seq<Seq<Entry>>,
    key: PositionKey,
    occ: Occurrence,
)
    requires
        m.shards.len() == BUCKET_COUNT,
        runs.len() == BUCKET_COUNT,
        !entry.deleted,
        forall|b: int, i: int|
            0 <= b < runs.len() && 0 <= i < runs[b].len() ==> (#[trigger] runs[b][i]).1.file_id
                == entry.file_id && runs[b][i].1.gen == entry.gen,
        forall|b: int, s: int, i: int|
            0 <= b < m.shards.len() && 0 <= s < m.shards[b].len() && 0 <= i < m.shards[b][s].len()
                && (#[trigger] m.shards[b][s][i]).1.file_id == entry.file_id
                ==> m.shards[b][s][i].1.gen != entry.gen,
    ensures
        m.with_file(entry, nt, runs).search(key).contains(occ) <==> (if occ.file_id
            == entry.file_id {
            run_holds(runs, key.spec_bucket() as int, key, occ)
        } else {
            m.search(key).contains(occ)
        }),
{
    let b = key.spec_bucket() as int;
    let after = m.with_file(entry, nt, runs);
    lemma_search_liveness(m, key, occ);
    lemma_search_liveness(after, key, occ);
    let old_segs = m.shards[b];
    let new_segs = after.shards[b];
    let run = runs[b];
    assert(new_segs == with_run(old_segs, run));
    lemma_sorted_by_rank_props(run);
    let e: Entry = (key, occ);
    if holds_entry(new_segs, key, occ) {
        let (s, i) = choose|s: int, i: int|
            0 <= s < new_segs.len() && 0 <= i < new_segs[s].len() && #[trigger] new_segs[s][i]
                == e;
        if s < old_segs.len() {
            assert(old_segs[s][i] == e);
        } else {
            assert(sorted_by_rank(run).contains(e));
            assert(run.contains(e));
        }
    }
    if holds_entry(old_segs, key, occ) {
        let (s, i) = choose|s: int, i: int|
            0 <= s < old_segs.len() && 0 <= i < old_segs[s].len() && #[trigger] old_segs[s][i]
                == e;
        assert(new_segs[s][i] == e);
        assert(m.shards[b][s][i].1 == occ);
    }
    if run.contains(e) {
        let i = choose|i: int| 0 <= i < run.len() && run[i] == e;
        assert(runs[b][i].1 == occ);
        assert(sorted_by_rank(run).contains(e));
        let j = choose|j: int| 0 <= j < sorted_by_rank(run).len() && sorted_by_rank(run)[j] == e;
        assert(new_segs[new_segs.len() - 1][j] == e);
    }
}

} // verus!
