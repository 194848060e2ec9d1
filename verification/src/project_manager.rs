use vstd::prelude::*;
use crate::file_table::FileTable;
use crate::fs_scan::{diff_snapshot, FileRecord, ScanDiff, ScanSnapshot};
use crate::index_builder::{bucketize_entries, in_bucket, FileIndexBuild};
use crate::index_store::{
    run_views, slots_with, IndexModel, IndexState, IndexStore, BUCKET_COUNT,
};
use crate::node_table::NodeTable;
use crate::path_ids::PathIds;
use crate::position_key::PositionKey;
use crate::sorting::sorted_by_rank;
use crate::types::{FileEntry, FileId, Gen, Occurrence};

verus! {

/// One file to index again: its scan record, the id it is indexed under,
/// and the generation its new entries get.
#[derive(Debug, Clone)]
pub struct ReindexJob {
    pub record: FileRecord,
    pub file_id: FileId,
    pub gen: Gen,
}

/// What a rescan asks for.
#[derive(Debug, Clone)]
pub struct RescanPlan {
    /// How many paths were added, modified or removed.
    pub dirty_count: usize,
    /// The files to tombstone, in the order their paths were found removed.
    pub tombstones: Vec<FileId>,
    /// The files to index: the modified ones, then the added ones.
    pub jobs: Vec<ReindexJob>,
    /// The path-to-id map once the plan is carried out.
    pub path_to_id: PathIds,
    /// The next file id to give out once the plan is carried out.
    pub next_file_id: FileId,
}

/// The generation that follows `old`: one more, and 1 after the highest.
/// Generation 0 is that of a file that was never indexed.
pub open spec fn spec_next_gen(old: Gen) -> Gen {
    if old == u32::MAX {
        1
    } else {
        (old + 1) as u32
    }
}

pub fn next_gen(old: Gen) -> (g: Gen)
    ensures
        g == spec_next_gen(old),
        g >= 1,
{
    if old == u32::MAX {
        1
    } else {
        old + 1
    }
}

/// The current generation of a file by the file table, 0 for a file it does
/// not know.
pub open spec fn current_gen(files: Map<FileId, FileEntry>, file_id: FileId) -> Gen {
    if files.contains_key(file_id) {
        files[file_id].gen
    } else {
        0
    }
}

/// The state of planning: the path-to-id map, the next id to give out, and
/// what was planned so far.
pub struct Planned {
    pub ids: Map<Seq<char>, FileId>,
    pub next: FileId,
    pub tombstones: Seq<FileId>,
    pub jobs: Seq<(FileRecord, FileId, Gen)>,
}

/// Planning the removal of the paths `removed`, one after another: a path
/// that has an id loses it, and the file of that id is to be tombstoned.
pub open spec fn plan_removed(start: Planned, removed: Seq<Seq<char>>) -> Planned
    decreases removed.len(),
{
    if removed.len() == 0 {
        start
    } else {
        let p = plan_removed(start, removed.drop_last());
        let path = removed.last();
        if p.ids.contains_key(path) {
            Planned {
                ids: p.ids.remove(path),
                tombstones: p.tombstones.push(p.ids[path]),
                ..p
            }
        } else {
            p
        }
    }
}

/// Planning the files `modified`, one after another: each is indexed again
/// under the id its path has, at the generation that follows the file's
/// current one. A path without an id is given the next one.
pub open spec fn plan_modified(
    start: Planned,
    modified: Seq<FileRecord>,
    files: Map<FileId, FileEntry>,
) -> Planned
    decreases modified.len(),
{
    if modified.len() == 0 {
        start
    } else {
        let p = plan_modified(start, modified.drop_last(), files);
        let rec = modified.last();
        if p.ids.contains_key(rec.path@) {
            let id = p.ids[rec.path@];
            Planned { jobs: p.jobs.push((rec, id, spec_next_gen(current_gen(files, id)))), ..p }
        } else {
            let id = p.next;
            Planned {
                ids: p.ids.insert(rec.path@, id),
                next: id.wrapping_add(1),
                jobs: p.jobs.push((rec, id, spec_next_gen(current_gen(files, id)))),
                ..p
            }
        }
    }
}

/// Planning the files `added`, one after another: each is given the next
/// file id and is indexed at generation 1.
pub open spec fn plan_added(start: Planned, added: Seq<FileRecord>) -> Planned
    decreases added.len(),
{
    if added.len() == 0 {
        start
    } else {
        let p = plan_added(start, added.drop_last());
        let rec = added.last();
        Planned {
            ids: p.ids.insert(rec.path@, p.next),
            next: p.next.wrapping_add(1),
            jobs: p.jobs.push((rec, p.next, 1u32)),
            ..p
        }
    }
}

/// A file that was modified is indexed again under its id at the generation
/// that is exactly one above its current one, as long as generations have
/// not run out; nothing else of the plan changes.
pub proof fn lemma_modified_file_generation(
    start: Planned,
    rec: FileRecord,
    files: Map<FileId, FileEntry>,
)
    requires
        start.ids.contains_key(rec.path@),
        files.contains_key(start.ids[rec.path@]),
        files[start.ids[rec.path@]].gen < u32::MAX,
    ensures
        plan_modified(start, seq![rec], files) == (Planned {
            jobs: start.jobs.push(
                (rec, start.ids[rec.path@], (files[start.ids[rec.path@]].gen + 1) as u32),
            ),
            ..start
        }),
{
    reveal_with_fuel(plan_modified, 2);
    assert(seq![rec].drop_last() =~= Seq::<FileRecord>::empty());
    assert(seq![rec].last() == rec);
}

/// The whole plan for a difference between two scans: removals first, then
/// modified files, then added files.
pub open spec fn spec_plan(
    diff: ScanDiff,
    ids: Map<Seq<char>, FileId>,
    next: FileId,
    files: Map<FileId, FileEntry>,
) -> Planned {
    let start = Planned { ids, next, tombstones: Seq::empty(), jobs: Seq::empty() };
    plan_added(
        plan_modified(
            plan_removed(start, crate::fs_scan::path_views(diff.removed@)),
            diff.modified@,
            files,
        ),
        diff.added@,
    )
}

/// How many paths a difference names, as far as a machine number can say.
pub open spec fn spec_dirty_count(diff: ScanDiff) -> usize {
    let n = diff.added@.len() + diff.modified@.len() + diff.removed@.len();
    if n > usize::MAX {
        usize::MAX
    } else {
        n as usize
    }
}

pub open spec fn job_model(j: ReindexJob) -> (FileRecord, FileId, Gen) {
    (j.record, j.file_id, j.gen)
}

pub open spec fn job_models(s: Seq<ReindexJob>) -> Seq<(FileRecord, FileId, Gen)> {
    s.map_values(|j: ReindexJob| job_model(j))
}

/// Plans what a difference between two scans asks of the index.
pub fn plan_changes(
    diff: &ScanDiff,
    path_to_id: PathIds,
    next_file_id: FileId,
    file_table: &FileTable,
) -> (plan: RescanPlan)
    requires
        path_to_id.wf(),
        file_table.wf(),
    ensures
        plan.path_to_id.wf(),
        plan.dirty_count == spec_dirty_count(*diff),
        ({
            let p = spec_plan(*diff, path_to_id@, next_file_id, file_table@);
            &&& plan.path_to_id@ == p.ids
            &&& plan.next_file_id == p.next
            &&& plan.tombstones@ == p.tombstones
            &&& job_models(plan.jobs@) == p.jobs
        }),
{
    let mut ids = path_to_id;
    let mut next = next_file_id;
    let mut tombstones: Vec<FileId> = Vec::new();
    let mut jobs: Vec<ReindexJob> = Vec::new();
    let ghost start = Planned {
        ids: path_to_id@,
        next: next_file_id,
        tombstones: Seq::empty(),
        jobs: Seq::empty(),
    };
    let ghost removed = crate::fs_scan::path_views(diff.removed@);
    let mut i: usize = 0;
    proof {
        assert(job_models(jobs@) =~= Seq::<(FileRecord, FileId, Gen)>::empty());
    }
    while i < diff.removed.len()
        invariant
            i <= diff.removed@.len(),
            removed == crate::fs_scan::path_views(diff.removed@),
            ids.wf(),
            jobs@.len() == 0,
            next == next_file_id,
            (Planned { ids: ids@, next, tombstones: tombstones@, jobs: job_models(jobs@) })
                == plan_removed(start, removed.take(i as int)),
        decreases diff.removed@.len() - i,
    {
        proof {
            assert(removed.take(i + 1).drop_last() == removed.take(i as int));
            assert(removed.take(i + 1).last() == diff.removed@[i as int]@);
        }
        let ghost before = ids@;
        match ids.remove(&diff.removed[i]) {
            Some(file_id) => {
                tombstones.push(file_id);
            },
            None => {
                proof {
                    assert(before.remove(diff.removed@[i as int]@) =~= before);
                }
            },
        }
        i += 1;
    }
    proof {
        assert(removed.take(i as int) == removed);
    }
    let ghost after_removed = plan_removed(start, removed);
    let mut i: usize = 0;
    while i < diff.modified.len()
        invariant
            i <= diff.modified@.len(),
            ids.wf(),
            file_table.wf(),
            (Planned { ids: ids@, next, tombstones: tombstones@, jobs: job_models(jobs@) })
                == plan_modified(after_removed, diff.modified@.take(i as int), file_table@),
        decreases diff.modified@.len() - i,
    {
        let rec = &diff.modified[i];
        proof {
            assert(diff.modified@.take(i + 1).drop_last() == diff.modified@.take(i as int));
            assert(diff.modified@.take(i + 1).last() == *rec);
        }
        let file_id = match ids.get(&rec.path) {
            Some(id) => id,
            None => {
                let id = next;
                next = next.wrapping_add(1);
                ids.insert(rec.path.clone(), id);
                id
            },
        };
        let old_gen = match file_table.get(file_id) {
            Some(e) => e.gen,
            None => 0,
        };
        let ghost before = jobs@;
        jobs.push(ReindexJob { record: rec.clone_record(), file_id, gen: next_gen(old_gen) });
        proof {
            assert(job_models(jobs@) =~= job_models(before).push(job_model(jobs@.last())));
        }
        i += 1;
    }
    proof {
        assert(diff.modified@.take(i as int) == diff.modified@);
    }
    let ghost after_modified = plan_modified(after_removed, diff.modified@, file_table@);
    let mut i: usize = 0;
    while i < diff.added.len()
        invariant
            i <= diff.added@.len(),
            ids.wf(),
            (Planned { ids: ids@, next, tombstones: tombstones@, jobs: job_models(jobs@) })
                == plan_added(after_modified, diff.added@.take(i as int)),
        decreases diff.added@.len() - i,
    {
        let rec = &diff.added[i];
        proof {
            assert(diff.added@.take(i + 1).drop_last() == diff.added@.take(i as int));
            assert(diff.added@.take(i + 1).last() == *rec);
        }
        let file_id = next;
        next = next.wrapping_add(1);
        ids.insert(rec.path.clone(), file_id);
        let ghost before = jobs@;
        jobs.push(ReindexJob { record: rec.clone_record(), file_id, gen: 1 });
        proof {
            assert(job_models(jobs@) =~= job_models(before).push(job_model(jobs@.last())));
        }
        i += 1;
    }
    proof {
        assert(diff.added@.take(i as int) == diff.added@);
    }
    RescanPlan {
        dirty_count: diff.added.len().saturating_add(diff.modified.len()).saturating_add(
            diff.removed.len(),
        ),
        tombstones,
        jobs,
        path_to_id: ids,
        next_file_id: next,
    }
}

/// The runs of a build by shard: the entries whose key lies in the shard,
/// sorted by key.
pub open spec fn bucketized(entries: Seq<(PositionKey, Occurrence)>) -> Seq<
    Seq<(PositionKey, Occurrence)>,
> {
    Seq::new(BUCKET_COUNT as nat, |b: int| sorted_by_rank(entries.filter(in_bucket(b))))
}

/// An entry stands in the run of its key's shard, and in no other.
pub proof fn lemma_bucketized_holds(
    entries: Seq<(PositionKey, Occurrence)>,
    key: PositionKey,
    occ: Occurrence,
)
    ensures
        crate::index_store::run_holds(bucketized(entries), key.spec_bucket() as int, key, occ)
            <==> entries.contains((key, occ)),
{
    let b = key.spec_bucket() as int;
    assert(0 <= b < 256) by {
        let z = key.z0;
        assert((z >> 56) < 256) by (bit_vector);
    }
    let run = entries.filter(in_bucket(b));
    crate::sorting::lemma_sorted_by_rank_props(run);
    crate::index_store::lemma_filter_member(entries, in_bucket(b), (key, occ));
}

/// Incremental correctness of search: once a file was indexed again, under
/// its id and at a new generation, every search shows of that file exactly
/// the newly indexed entries, and of every other file what it showed
/// before. It is assumed that every new entry names the file and the new
/// generation, as the entries of a build do, and that no entry stored
/// earlier for the file carries the new generation.
pub proof fn lemma_reindexed_file_search(
    m: IndexModel,
    entry: FileEntry,
    nt: NodeTable,
    entries: Seq<(PositionKey, Occurrence)>,
    key: PositionKey,
    occ: Occurrence,
)
    requires
        m.shards.len() == BUCKET_COUNT,
        !entry.deleted,
        forall|i: int|
            0 <= i < entries.len() ==> (#[trigger] entries[i]).1.file_id == entry.file_id
                && entries[i].1.gen == entry.gen,
        forall|b: int, s: int, i: int|
            0 <= b < m.shards.len() && 0 <= s < m.shards[b].len() && 0 <= i < m.shards[b][s].len()
                && (#[trigger] m.shards[b][s][i]).1.file_id == entry.file_id
                ==> m.shards[b][s][i].1.gen != entry.gen,
    ensures
        m.with_file(entry, nt, bucketized(entries)).search(key).contains(occ) <==> (if occ.file_id
            == entry.file_id {
            entries.contains((key, occ))
        } else {
            m.search(key).contains(occ)
        }),
{
    let runs = bucketized(entries);
    assert forall|b: int, i: int| 0 <= b < runs.len() && 0 <= i < runs[b].len() implies (
    #[trigger] runs[b][i]).1.file_id == entry.file_id && runs[b][i].1.gen == entry.gen by {
        let run = entries.filter(in_bucket(b));
        crate::sorting::lemma_sorted_by_rank_props(run);
        let e = runs[b][i];
        assert(sorted_by_rank(run).contains(e));
        assert(run.contains(e));
        crate::index_store::lemma_filter_member(entries, in_bucket(b), e);
        let k = choose|k: int| 0 <= k < entries.len() && entries[k] == e;
        assert(entries[k].1.file_id == entry.file_id);
    }
    crate::index_store::lemma_reindex_replaces_file(m, entry, nt, runs, key, occ);
    lemma_bucketized_holds(entries, key, occ);
}

/// The index model once the files `ids` were tombstoned, one after another.
pub open spec fn with_tombstones(m: IndexModel, ids: Seq<FileId>) -> IndexModel
    decreases ids.len(),
{
    if ids.len() == 0 {
        m
    } else {
        with_tombstones(m, ids.drop_last()).with_tombstone(ids.last())
    }
}

/// Begins to carry out a plan: the index goes to the state `Updating`, in
/// which searches report themselves stale, and the files of removed paths
/// are tombstoned.
pub fn start_update(store: &mut IndexStore, plan: &RescanPlan)
    requires
        old(store).wf(),
    ensures
        final(store).wf(),
        final(store)@ == with_tombstones(
            old(store)@.with_state(IndexState::Updating),
            plan.tombstones@,
        ),
{
    store.set_state(IndexState::Updating);
    let ghost start = store@;
    let mut i: usize = 0;
    while i < plan.tombstones.len()
        invariant
            i <= plan.tombstones@.len(),
            store.wf(),
            store@ == with_tombstones(start, plan.tombstones@.take(i as int)),
        decreases plan.tombstones@.len() - i,
    {
        proof {
            assert(plan.tombstones@.take(i + 1).drop_last() == plan.tombstones@.take(i as int));
            assert(plan.tombstones@.take(i + 1).last() == plan.tombstones@[i as int]);
        }
        store.tombstone_file(plan.tombstones[i]);
        i += 1;
    }
    proof {
        assert(plan.tombstones@.take(i as int) == plan.tombstones@);
    }
}

/// Ends carrying out a plan: the index is `Ready` again, and nothing else
/// of it changes.
pub fn finish_update(store: &mut IndexStore)
    requires
        old(store).wf(),
    ensures
        final(store).wf(),
        final(store)@ == old(store)@.with_state(IndexState::Ready),
{
    store.set_state(IndexState::Ready);
}

/// The entry a file gets in the file table when it is indexed.
pub open spec fn job_entry(job: ReindexJob) -> FileEntry {
    FileEntry { file_id: job.file_id, path: job.record.path, deleted: false, gen: job.gen }
}

/// Merges the outcome of one job into the index. A file that was indexed
/// brings its node table and its entries, split by shard. A file that could
/// not be read or indexed, `built` being `None`, is entered in the file
/// table all the same, with an empty node table and without entries, so
/// that its earlier entries are not alive any more.
pub fn apply_reindex(store: &mut IndexStore, job: &ReindexJob, built: Option<FileIndexBuild>)
    requires
        old(store).wf(),
    ensures
        final(store).wf(),
        match built {
            Some(b) => final(store)@ == old(store)@.with_file(
                job_entry(*job),
                b.node_table,
                bucketized(b.entries@),
            ),
            None => {
                &&& final(store)@.state == old(store)@.state
                &&& final(store)@.shards == old(store)@.shards
                &&& final(store)@.files == old(store)@.files.insert(job.file_id, job_entry(*job))
                &&& exists|t: NodeTable|
                    t.nodes@.len() == 0 && t.forks@.len() == 0 && final(store)@.tables
                        == #[trigger] slots_with(old(store)@.tables, job.file_id, t)
            },
        },
{
    let entry = FileEntry {
        file_id: job.file_id,
        path: job.record.path.clone(),
        deleted: false,
        gen: job.gen,
    };
    let ghost before = store@;
    match built {
        Some(b) => {
            let ghost entries = b.entries@;
            let by_bucket = bucketize_entries(b.entries);
            proof {
                assert(run_views(by_bucket@) =~= bucketized(entries));
            }
            store.insert_file_segments(entry, b.node_table, by_bucket);
        },
        None => {
            let by_bucket = empty_buckets();
            proof {
                store.lemma_shard_count();
            }
            let table = NodeTable::empty();
            store.insert_file_segments(entry, table, by_bucket);
            proof {
                assert(store@.tables == slots_with(before.tables, job.file_id, table));
                assert forall|b: int| 0 <= b < BUCKET_COUNT implies #[trigger] store@.shards[b]
                    == before.shards[b] by {
                    assert(run_views(by_bucket@)[b] == by_bucket@[b]@);
                }
                assert(store@.shards =~= before.shards);
            }
        },
    }
}

/// One empty run for each shard.
pub fn empty_buckets() -> (b: Vec<Vec<(PositionKey, Occurrence)>>)
    ensures
        b@.len() == BUCKET_COUNT,
        forall|k: int| 0 <= k < BUCKET_COUNT ==> (#[trigger] b@[k])@.len() == 0,
{
    let mut b: Vec<Vec<(PositionKey, Occurrence)>> = Vec::with_capacity(BUCKET_COUNT);
    let mut k: usize = 0;
    while k < BUCKET_COUNT
        invariant
            k <= BUCKET_COUNT,
            b@.len() == k,
            forall|j: int| 0 <= j < k ==> (#[trigger] b@[j])@.len() == 0,
        decreases BUCKET_COUNT - k,
    {
        b.push(Vec::new());
        k += 1;
    }
    b
}

/// What a project knows of its directory between rescans.
#[derive(Debug, Clone)]
pub struct ProjectManager {
    pub root_dir: Option<String>,
    pub scan: ScanSnapshot,
    pub path_to_id: PathIds,
    pub next_file_id: FileId,
}

impl ProjectManager {
    pub open spec fn wf(&self) -> bool {
        self.scan.wf() && self.path_to_id.wf()
    }

    /// A manager of no project.
    pub fn new() -> (m: Self)
        ensures
            m.wf(),
            m.root_dir is None,
            m.scan.by_path@.len() == 0,
            m.path_to_id@ == Map::<Seq<char>, FileId>::empty(),
            m.next_file_id == 0,
    {
        ProjectManager {
            root_dir: None,
            scan: ScanSnapshot::new(),
            path_to_id: PathIds::new(),
            next_file_id: 0,
        }
    }

    /// Takes over what a full build or a restore established.
    pub fn install_after_full_build(
        &mut self,
        root_dir: String,
        scan: ScanSnapshot,
        path_to_id: PathIds,
        next_file_id: FileId,
    )
        ensures
            final(self).root_dir == Some(root_dir),
            final(self).scan == scan,
            final(self).path_to_id == path_to_id,
            final(self).next_file_id == next_file_id,
    {
        self.root_dir = Some(root_dir);
        self.scan = scan;
        self.path_to_id = path_to_id;
        self.next_file_id = next_file_id;
    }

    /// Compares a fresh scan of the project directory with the scan the
    /// manager holds, and plans what the difference asks of the index. A
    /// manager without a project plans nothing.
    pub fn plan_rescan(&self, next_scan: &ScanSnapshot, file_table: &FileTable) -> (r: Option<
        RescanPlan,
    >)
        requires
            self.wf(),
            file_table.wf(),
        ensures
            r is None <==> self.root_dir is None,
            r matches Some(plan) ==> plan.path_to_id.wf() && exists|diff: ScanDiff|
                {
                    &&& diff.added@ == next_scan.by_path@.filter(
                        crate::fs_scan::is_added(self.scan.by_path@),
                    )
                    &&& diff.modified@ == next_scan.by_path@.filter(
                        crate::fs_scan::is_modified(self.scan.by_path@),
                    )
                    &&& crate::fs_scan::path_views(diff.removed@) == crate::fs_scan::record_paths(
                        self.scan.by_path@.filter(crate::fs_scan::is_added(next_scan.by_path@)),
                    )
                    &&& plan.dirty_count == spec_dirty_count(diff)
                    &&& plan.path_to_id@ == (#[trigger] spec_plan(
                        diff,
                        self.path_to_id@,
                        self.next_file_id,
                        file_table@,
                    )).ids
                    &&& plan.next_file_id == spec_plan(
                        diff,
                        self.path_to_id@,
                        self.next_file_id,
                        file_table@,
                    ).next
                    &&& plan.tombstones@ == spec_plan(
                        diff,
                        self.path_to_id@,
                        self.next_file_id,
                        file_table@,
                    ).tombstones
                    &&& job_models(plan.jobs@) == spec_plan(
                        diff,
                        self.path_to_id@,
                        self.next_file_id,
                        file_table@,
                    ).jobs
                },
    {
        if self.root_dir.is_none() {
            return None;
        }
        let diff = diff_snapshot(&self.scan, next_scan);
        let ids = self.path_to_id.clone_ids();
        let plan = plan_changes(&diff, ids, self.next_file_id, file_table);
        Some(plan)
    }

    /// Takes over the scan of a plan that was carried out, and its ids if
    /// the plan found anything changed.
    pub fn commit(&mut self, next_scan: ScanSnapshot, plan: RescanPlan)
        ensures
            final(self).root_dir == old(self).root_dir,
            final(self).scan == next_scan,
            plan.dirty_count != 0 ==> final(self).path_to_id == plan.path_to_id
                && final(self).next_file_id == plan.next_file_id,
            plan.dirty_count == 0 ==> final(self).path_to_id == old(self).path_to_id
                && final(self).next_file_id == old(self).next_file_id,
    {
        self.scan = next_scan;
        if plan.dirty_count != 0 {
            self.path_to_id = plan.path_to_id;
            self.next_file_id = plan.next_file_id;
        }
    }
}

/// What the watcher of a project directory reports.
#[derive(Debug, Clone, Copy, PartialEq, Eq, Structural)]
pub enum WatchEvent {
    /// Something changed below the project root.
    PathChanged,
    /// The timer ran out.
    TimerFired,
    /// The watcher is gone.
    Closed,
}

/// What to do next while watching.
#[derive(Debug, Clone, Copy, PartialEq, Eq, Structural)]
pub enum WatchAction {
    /// Set the timer to the quiet window from now.
    WaitQuiet,
    /// Set the timer far ahead: nothing is pending.
    WaitIdle,
    /// Rescan the directory and apply the difference, then set the timer far
    /// ahead.
    Rescan,
    /// Stop watching.
    Stop,
}

/// Collects change notices until the directory has been quiet for a while,
/// so that a burst of changes leads to one rescan.
#[derive(Debug, Clone, Copy, PartialEq, Eq, Structural)]
pub struct Debounce {
    /// Whether a change was reported since the last rescan.
    pub dirty: bool,
}

/// The next state and the action for an event. A change marks the state
/// dirty and starts the quiet window anew. When the timer fires, a dirty
/// state leads to a rescan and becomes clean; a clean state waits on.
pub open spec fn debounce_step(dirty: bool, event: WatchEvent) -> (bool, WatchAction) {
    match event {
        WatchEvent::PathChanged => (true, WatchAction::WaitQuiet),
        WatchEvent::TimerFired => if dirty {
            (false, WatchAction::Rescan)
        } else {
            (false, WatchAction::WaitIdle)
        },
        WatchEvent::Closed => (dirty, WatchAction::Stop),
    }
}

impl Debounce {
    pub fn new() -> (d: Self)
        ensures
            !d.dirty,
    {
        Debounce { dirty: false }
    }

    pub fn on_event(&mut self, event: WatchEvent) -> (action: WatchAction)
        ensures
            (final(self).dirty, action) == debounce_step(old(self).dirty, event),
    {
        match event {
            WatchEvent::PathChanged => {
                self.dirty = true;
                WatchAction::WaitQuiet
            },
            WatchEvent::TimerFired => {
                if self.dirty {
                    self.dirty = false;
                    WatchAction::Rescan
                } else {
                    WatchAction::WaitIdle
                }
            },
            WatchEvent::Closed => WatchAction::Stop,
        }
    }
}

} // verus!
