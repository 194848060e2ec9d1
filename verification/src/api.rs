use vstd::prelude::*;
use crate::fs_scan::{FileRecord, ScanSnapshot};
use crate::index_builder::{
    bucketize_entries, build_index_for_jkf, build_outcome, built_from, failure_text, stop_text,
    stop_texts, warn_model, warn_models, BuildOutcome, BuildPolicy, FileIndexBuild,
};
use crate::index_cache::RestoredCache;
use crate::index_store::{
    run_views, with_run, FileBucketEntries, IndexModel, IndexState, IndexStore, BUCKET_COUNT,
};
use crate::kifu_reader::KifuReadError;
use crate::node_table::NodeTable;
use crate::path_ids::PathIds;
use crate::position_key::PositionKey;
use crate::project_manager::{bucketized, empty_buckets, ProjectManager};
use crate::traverse::Jkf;
use crate::types::{
    FileEntry, FileId, Gen, IndexProgressPayload, IndexStatePayload, IndexWarnPayload, Occurrence,
    OpenProjectOutput,
};

verus! {

/// How many finished files are merged into the index at once.
pub const COMMIT_BATCH: usize = 64;

/// The shortest time between two progress notices, in milliseconds.
pub const EMIT_INTERVAL_MS: u64 = 100;

/// How long the directory must be quiet before a rescan, in milliseconds.
pub const QUIET_WINDOW_MS: u64 = 800;

/// The number of files that are read and indexed at the same time: the
/// parallelism that the machine offers, 4 where it does not say, but at
/// least 2 and at most 8.
pub open spec fn spec_worker_budget(available: Option<usize>) -> usize {
    let n = match available {
        Some(n) => n,
        None => 4,
    };
    if n < 2 {
        2
    } else if n > 8 {
        8
    } else {
        n
    }
}

pub fn worker_budget(available: Option<usize>) -> (n: usize)
    ensures
        n == spec_worker_budget(available),
        2 <= n <= 8,
{
    let n = match available {
        Some(n) => n,
        None => 4,
    };
    if n < 2 {
        2
    } else if n > 8 {
        8
    } else {
        n
    }
}

/// The number of files of a scan as the notices give it: cut to 32 bits.
pub open spec fn spec_file_count(n: int) -> u32 {
    (n % 0x1_0000_0000) as u32
}

pub fn file_count(n: usize) -> (c: u32)
    ensures
        c == spec_file_count(n as int),
{
    ((n as u64) % 0x1_0000_0000) as u32
}

/// The file id of the `i`-th file of a full build: ids are given out from 1
/// in the order of the files.
pub open spec fn spec_build_id(i: int) -> FileId {
    spec_file_count(i).wrapping_add(1)
}

/// The path-to-id map of a full build of the files `records`.
pub open spec fn build_ids(records: Seq<FileRecord>) -> Map<Seq<char>, FileId>
    decreases records.len(),
{
    if records.len() == 0 {
        Map::empty()
    } else {
        build_ids(records.drop_last()).insert(
            records.last().path@,
            spec_build_id(records.len() - 1),
        )
    }
}

/// The next file id to give out after a full build of `n` files: one past
/// the count, and never 0.
pub open spec fn spec_next_id_after(n: int) -> FileId {
    let next = spec_file_count(n).wrapping_add(1);
    if next < 1 {
        1
    } else {
        next
    }
}

/// Gives each file of a full build its id: the `i`-th file gets the id
/// `i + 1`. Returns the path-to-id map and the next id to give out.
pub fn assign_file_ids(records: &Vec<FileRecord>) -> (r: (PathIds, FileId))
    ensures
        r.0.wf(),
        r.0@ == build_ids(records@),
        r.1 == spec_next_id_after(records@.len() as int),
{
    let mut ids = PathIds::new();
    let mut i: usize = 0;
    while i < records.len()
        invariant
            i <= records@.len(),
            ids.wf(),
            ids@ == build_ids(records@.take(i as int)),
        decreases records@.len() - i,
    {
        proof {
            assert(records@.take(i + 1).drop_last() == records@.take(i as int));
            assert(records@.take(i + 1).last() == records@[i as int]);
        }
        ids.insert(records[i].path.clone(), file_count(i).wrapping_add(1));
        i += 1;
    }
    proof {
        assert(records@.take(i as int) == records@);
    }
    let next = file_count(records.len()).wrapping_add(1);
    (ids, if next < 1 { 1 } else { next })
}

/// What a worker hands back for one file of a full build.
#[derive(Debug)]
pub struct BuildItem {
    pub file_id: FileId,
    pub gen: Gen,
    pub path: String,
    /// The file's entries by shard; empty where the file gave none.
    pub by_bucket: Vec<Vec<(PositionKey, Occurrence)>>,
    pub node_table: NodeTable,
    /// What to warn of: the lines given up, or why the file was not indexed.
    pub warns: Vec<String>,
    /// Whether the file was read and indexed.
    pub ok: bool,
}

/// The progress of a full build.
#[derive(Debug)]
pub struct FullBuild {
    /// The finished files that are not merged into the index yet.
    pub batch: Vec<FileBucketEntries>,
    pub done_files: u32,
    pub indexed_ok: u32,
    pub total_files: u32,
    /// When progress was last reported, in milliseconds.
    pub last_emit_ms: u64,
}

/// What to tell the interface once a file is done.
#[derive(Debug)]
pub struct FileDoneNotices {
    /// One warning for each thing the file's worker warned of.
    pub warns: Vec<IndexWarnPayload>,
    /// The progress of the build, where it is time to report it.
    pub progress: Option<(IndexProgressPayload, IndexStatePayload)>,
}

/// The entry of a file of a full build in the file table.
pub open spec fn item_entry(item: BuildItem) -> FileEntry {
    FileEntry { file_id: item.file_id, path: item.path, deleted: false, gen: item.gen }
}

impl FullBuild {
    /// Every file waiting in the batch has a run for each shard, and the
    /// batch is shorter than what is merged at once.
    pub open spec fn wf(&self) -> bool {
        &&& self.batch@.len() < COMMIT_BATCH
        &&& forall|i: int|
            0 <= i < self.batch@.len() ==> (#[trigger] self.batch@[i]).2@.len() == BUCKET_COUNT
    }

    /// The index as it will be once the batch is merged in.
    pub open spec fn pending(&self, store: IndexModel) -> IndexModel {
        store.with_files(self.batch@)
    }

    /// Begins a full build of `total_files` files at the time `now_ms`.
    pub fn new(total_files: u32, now_ms: u64) -> (b: Self)
        ensures
            b.wf(),
            b.batch@.len() == 0,
            b.done_files == 0,
            b.indexed_ok == 0,
            b.total_files == total_files,
            b.last_emit_ms == now_ms,
    {
        FullBuild {
            batch: Vec::new(),
            done_files: 0,
            indexed_ok: 0,
            total_files,
            last_emit_ms: now_ms,
        }
    }

    /// Counts a file whose worker was lost: it is done, and nothing of it
    /// is indexed.
    pub fn on_file_lost(&mut self)
        ensures
            final(self).done_files == old(self).done_files.saturating_add(1),
            final(self).indexed_ok == old(self).indexed_ok,
            final(self).batch == old(self).batch,
            final(self).total_files == old(self).total_files,
            final(self).last_emit_ms == old(self).last_emit_ms,
    {
        self.done_files = self.done_files.saturating_add(1);
    }

    /// Takes the result of one file at the time `now_ms`. The file joins
    /// the batch, and a batch of `COMMIT_BATCH` files is merged into the
    /// index at once; either way the index with its batch grows by exactly
    /// this file. The notices hold a warning for each thing the worker
    /// warned of, and the progress if none was reported for
    /// `EMIT_INTERVAL_MS`.
    pub fn on_file_done(&mut self, store: &mut IndexStore, item: BuildItem, now_ms: u64) -> (notices:
        FileDoneNotices)
        requires
            old(self).wf(),
            old(store).wf(),
            item.by_bucket@.len() == BUCKET_COUNT,
        ensures
            final(self).wf(),
            final(store).wf(),
            final(self).pending(final(store)@) == old(self).pending(old(store)@).with_file(
                item_entry(item),
                item.node_table,
                run_views(item.by_bucket@),
            ),
            old(self).batch@.len() + 1 < COMMIT_BATCH ==> final(store)@ == old(store)@
                && final(self).batch@.len() == old(self).batch@.len() + 1,
            old(self).batch@.len() + 1 >= COMMIT_BATCH ==> final(self).batch@.len() == 0,
            final(self).done_files == old(self).done_files.saturating_add(1),
            final(self).indexed_ok == if item.ok {
                old(self).indexed_ok.saturating_add(1)
            } else {
                old(self).indexed_ok
            },
            final(self).total_files == old(self).total_files,
            notices.warns@.len() == item.warns@.len(),
            forall|i: int|
                0 <= i < item.warns@.len() ==> (#[trigger] notices.warns@[i]).path@ == item.path@
                    && notices.warns@[i].message@ == item.warns@[i]@,
            notices.progress is Some <==> now_ms - old(self).last_emit_ms >= EMIT_INTERVAL_MS,
            notices.progress is Some ==> final(self).last_emit_ms == now_ms,
            notices.progress is None ==> final(self).last_emit_ms == old(self).last_emit_ms,
            notices.progress matches Some((p, s)) ==> p.current_path@ == item.path@ && p.done_files
                == final(self).done_files && p.total_files == final(self).total_files && s.state
                == crate::types::IndexState::Building && s.dirty_count == 0 && s.indexed_files
                == final(self).indexed_ok && s.total_files == final(self).total_files,
    {
        self.done_files = self.done_files.saturating_add(1);
        if item.ok {
            self.indexed_ok = self.indexed_ok.saturating_add(1);
        }
        let mut warns: Vec<IndexWarnPayload> = Vec::with_capacity(item.warns.len());
        let mut i: usize = 0;
        while i < item.warns.len()
            invariant
                i <= item.warns@.len(),
                warns@.len() == i,
                forall|k: int|
                    0 <= k < i ==> (#[trigger] warns@[k]).path@ == item.path@ && warns@[k].message@
                        == item.warns@[k]@,
            decreases item.warns@.len() - i,
        {
            warns.push(
                IndexWarnPayload { path: item.path.clone(), message: item.warns[i].clone() },
            );
            i += 1;
        }
        let progress = if now_ms >= self.last_emit_ms && now_ms - self.last_emit_ms
            >= EMIT_INTERVAL_MS {
            self.last_emit_ms = now_ms;
            Some(
                (
                    IndexProgressPayload {
                        current_path: item.path.clone(),
                        done_files: self.done_files,
                        total_files: self.total_files,
                    },
                    IndexStatePayload {
                        state: crate::types::IndexState::Building,
                        dirty_count: 0,
                        indexed_files: self.indexed_ok,
                        total_files: self.total_files,
                    },
                ),
            )
        } else {
            None
        };
        let entry = FileEntry {
            file_id: item.file_id,
            path: item.path,
            deleted: false,
            gen: item.gen,
        };
        let ghost before = self.batch@;
        self.batch.push((entry, item.node_table, item.by_bucket));
        proof {
            assert(self.batch@.drop_last() == before);
        }
        if self.batch.len() >= COMMIT_BATCH {
            let mut full: Vec<FileBucketEntries> = Vec::new();
            std::mem::swap(&mut self.batch, &mut full);
            store.insert_many_file_segments(full);
            proof {
                assert(self.batch@ =~= Seq::<FileBucketEntries>::empty());
            }
        }
        FileDoneNotices { warns, progress }
    }

    /// Ends the build: what is left of the batch is merged into the index,
    /// and the index becomes `Ready`.
    pub fn finish(&mut self, store: &mut IndexStore) -> (notice: IndexStatePayload)
        requires
            old(self).wf(),
            old(store).wf(),
        ensures
            final(self).wf(),
            final(store).wf(),
            final(self).batch@.len() == 0,
            final(store)@ == old(self).pending(old(store)@).with_state(IndexState::Ready),
            notice.state == crate::types::IndexState::Ready,
            notice.dirty_count == 0,
            notice.indexed_files == old(self).indexed_ok,
            notice.total_files == old(self).total_files,
    {
        let mut rest: Vec<FileBucketEntries> = Vec::new();
        std::mem::swap(&mut self.batch, &mut rest);
        if rest.len() > 0 {
            store.insert_many_file_segments(rest);
        }
        store.set_state(IndexState::Ready);
        IndexStatePayload {
            state: crate::types::IndexState::Ready,
            dirty_count: 0,
            indexed_files: self.indexed_ok,
            total_files: self.total_files,
        }
    }
}

/// Opens a project from its checkpoint: the index takes over what was
/// restored and is `Ready` at once, and the project manager takes over the
/// scan and the file ids. The count of the scan's files is returned and
/// reported.
pub fn open_from_restore(
    store: &mut IndexStore,
    project: &mut ProjectManager,
    root_dir: &str,
    restored: RestoredCache,
) -> (r: (OpenProjectOutput, IndexStatePayload))
    requires
        restored.file_table.wf(),
        restored.buckets@.len() == BUCKET_COUNT,
    ensures
        final(store).wf(),
        final(store)@.state == IndexState::Ready,
        final(store)@.files == restored.file_table@,
        final(store)@.tables == restored.node_tables.slots(),
        final(store)@.shards.len() == BUCKET_COUNT,
        forall|b: int|
            0 <= b < BUCKET_COUNT ==> #[trigger] final(store)@.shards[b] == with_run(
                Seq::empty(),
                run_views(restored.buckets@)[b],
            ),
        final(project).root_dir is Some && final(project).root_dir->Some_0@ == root_dir@,
        final(project).scan.by_path == restored.scan.by_path,
        final(project).scan.root_dir@ == root_dir@,
        final(project).path_to_id == restored.path_to_id,
        final(project).next_file_id == restored.next_file_id,
        r.0.total_files == spec_file_count(restored.scan.by_path@.len() as int),
        r.1.state == crate::types::IndexState::Ready,
        r.1.dirty_count == 0,
        r.1.indexed_files == r.0.total_files,
        r.1.total_files == r.0.total_files,
{
    let total_files = file_count(restored.scan.by_path.len());
    store.install_restored(
        IndexState::Ready,
        restored.file_table,
        restored.node_tables,
        restored.buckets,
    );
    let scan = ScanSnapshot { by_path: restored.scan.by_path, root_dir: root_dir.to_owned() };
    project.install_after_full_build(
        root_dir.to_owned(),
        scan,
        restored.path_to_id,
        restored.next_file_id,
    );
    (
        OpenProjectOutput { total_files },
        IndexStatePayload {
            state: crate::types::IndexState::Ready,
            dirty_count: 0,
            indexed_files: total_files,
            total_files,
        },
    )
}

/// Opens a project without a usable checkpoint: the index is emptied and
/// goes to the state `Building`. The count of the scanned files is returned
/// and reported.
pub fn begin_full_build(store: &mut IndexStore, scanned_files: usize) -> (r: (
    OpenProjectOutput,
    IndexStatePayload,
))
    ensures
        final(store).wf(),
        final(store)@ == IndexModel::empty_in(IndexState::Building),
        r.0.total_files == spec_file_count(scanned_files as int),
        r.1.state == crate::types::IndexState::Building,
        r.1.dirty_count == 0,
        r.1.indexed_files == 0,
        r.1.total_files == r.0.total_files,
{
    store.start_full_build();
    let total_files = file_count(scanned_files);
    (
        OpenProjectOutput { total_files },
        IndexStatePayload {
            state: crate::types::IndexState::Building,
            dirty_count: 0,
            indexed_files: 0,
            total_files,
        },
    )
}

/// What reading and indexing one file came to: the build, if the file was
/// read and indexed, and what to warn of.
#[derive(Debug)]
pub struct FileOutcome {
    pub built: Option<FileIndexBuild>,
    pub warns: Vec<String>,
}

/// The texts of warnings.
pub open spec fn warn_texts(warns: Seq<String>) -> Seq<Seq<char>> {
    warns.map_values(|w: String| w@)
}

/// Whether `out` is what a file comes to whose reading gave `read`. A file
/// that is read and indexed gives its build, and a warning for each move
/// that could not be applied, which says where the move stands and why it
/// failed. Any other file gives no build and one warning, which says why
/// the file could not be read or indexed.
pub open spec fn outcome_of(
    out: FileOutcome,
    read: Result<Jkf, KifuReadError>,
    file_id: FileId,
    gen: Gen,
) -> bool {
    match read {
        Err(e) => out.built is None && warn_texts(out.warns@) == seq![e.spec_message()],
        Ok(jkf) => match build_outcome(jkf, BuildPolicy::Loose) {
            BuildOutcome::Built(w) => out.built is Some && built_from(
                out.built->Some_0,
                w,
                file_id,
                gen,
            ) && warn_texts(out.warns@) == stop_texts(w.warns),
            other => out.built is None && warn_texts(out.warns@) == seq![failure_text(other)],
        },
    }
}

/// Indexes one file under the loose policy, given what reading it gave.
pub fn index_file(read: Result<Jkf, KifuReadError>, file_id: FileId, gen: Gen) -> (out:
    FileOutcome)
    ensures
        outcome_of(out, read, file_id, gen),
{
    let jkf = match read {
        Ok(j) => j,
        Err(e) => {
            let mut warns: Vec<String> = Vec::new();
            warns.push(e.message());
            proof {
                assert(warn_texts(warns@) =~= seq![e.spec_message()]);
            }
            return FileOutcome { built: None, warns };
        },
    };
    match build_index_for_jkf(file_id, gen, &jkf, BuildPolicy::Loose) {
        Ok(b) => {
            let mut warns: Vec<String> = Vec::with_capacity(b.warns.len());
            let mut i: usize = 0;
            while i < b.warns.len()
                invariant
                    i <= b.warns@.len(),
                    warns@.len() == i,
                    forall|k: int|
                        0 <= k < i ==> (#[trigger] warns@[k])@ == stop_text(
                            warn_model(b.warns@[k]),
                        ),
                decreases b.warns@.len() - i,
            {
                warns.push(b.warns[i].message());
                i += 1;
            }
            proof {
                assert(warn_texts(warns@) =~= stop_texts(warn_models(b.warns@)));
            }
            FileOutcome { built: Some(b), warns }
        },
        Err(e) => {
            let mut warns: Vec<String> = Vec::new();
            warns.push(e.message());
            proof {
                assert(warn_texts(warns@) =~= seq![
                    failure_text(build_outcome(jkf, BuildPolicy::Loose)),
                ]);
            }
            FileOutcome { built: None, warns }
        },
    }
}

impl BuildItem {
    /// What a worker hands back for a file: its entries split by shard and
    /// its node table if it was indexed, and else nothing but the warning.
    pub fn from_outcome(file_id: FileId, gen: Gen, path: String, outcome: FileOutcome) -> (item:
        BuildItem)
        ensures
            item.file_id == file_id,
            item.gen == gen,
            item.path == path,
            item.warns == outcome.warns,
            item.ok == outcome.built is Some,
            item.by_bucket@.len() == BUCKET_COUNT,
            match outcome.built {
                Some(b) => item.node_table == b.node_table && run_views(item.by_bucket@)
                    == bucketized(b.entries@),
                None => item.node_table.nodes@.len() == 0 && item.node_table.forks@.len() == 0
                    && forall|k: int|
                    0 <= k < BUCKET_COUNT ==> (#[trigger] item.by_bucket@[k])@.len() == 0,
            },
    {
        match outcome.built {
            Some(b) => {
                let ghost entries = b.entries@;
                let by_bucket = bucketize_entries(b.entries);
                proof {
                    assert(run_views(by_bucket@) =~= bucketized(entries));
                }
                BuildItem {
                    file_id,
                    gen,
                    path,
                    by_bucket,
                    node_table: b.node_table,
                    warns: outcome.warns,
                    ok: true,
                }
            },
            None => BuildItem {
                file_id,
                gen,
                path,
                by_bucket: empty_buckets(),
                node_table: NodeTable::empty(),
                warns: outcome.warns,
                ok: false,
            },
        }
    }
}

/// What a full build may merge: every file has a run for each shard, is
/// not deleted, has an id of its own, and its entries name that id and the
/// file's generation.
pub open spec fn build_items_wf(items: Seq<FileBucketEntries>) -> bool {
    &&& forall|j: int|
        0 <= j < items.len() ==> (#[trigger] items[j]).2@.len() == BUCKET_COUNT && !items[j].0.deleted
    &&& forall|i: int, j: int|
        0 <= i < j < items.len() ==> (#[trigger] items[i]).0.file_id != (
        #[trigger] items[j]).0.file_id
    &&& forall|j: int, b: int, e: int|
        0 <= j < items.len() && 0 <= b < BUCKET_COUNT && 0 <= e < items[j].2@[b]@.len() ==> (
        #[trigger] items[j].2@[b]@[e]).1.file_id == items[j].0.file_id && items[j].2@[b]@[e].1.gen
            == items[j].0.gen
}

/// Whether the file `j` of `items` holds the entry `(key, occ)` in the run
/// of the key's shard.
pub open spec fn item_holds(
    items: Seq<FileBucketEntries>,
    j: int,
    key: PositionKey,
    occ: Occurrence,
) -> bool {
    0 <= j < items.len() && items[j].0.file_id == occ.file_id && crate::index_store::run_holds(
        run_views(items[j].2@),
        key.spec_bucket() as int,
        key,
        occ,
    )
}

proof fn lemma_built_entries(state: IndexState, items: Seq<FileBucketEntries>)
    requires
        build_items_wf(items),
    ensures
        IndexModel::empty_in(state).with_files(items).shards.len() == BUCKET_COUNT,
        forall|b: int, s: int, e: int|
            #![trigger IndexModel::empty_in(state).with_files(items).shards[b][s][e]]
            0 <= b < BUCKET_COUNT && 0 <= s < IndexModel::empty_in(state).with_files(
                items,
            ).shards[b].len() && 0 <= e < IndexModel::empty_in(state).with_files(
                items,
            ).shards[b][s].len() ==> exists|j: int|
                0 <= j < items.len() && (#[trigger] items[j]).0.file_id == IndexModel::empty_in(
                    state,
                ).with_files(items).shards[b][s][e].1.file_id,
    decreases items.len(),
{
    let m = IndexModel::empty_in(state).with_files(items);
    if items.len() > 0 {
        let rest = items.drop_last();
        let last = items.last();
        let prev = IndexModel::empty_in(state).with_files(rest);
        let runs = run_views(last.2@);
        assert(build_items_wf(rest)) by {
            assert forall|j: int| 0 <= j < rest.len() implies rest[j] == items[j] by {}
        }
        lemma_built_entries(state, rest);
        assert forall|b: int, s: int, e: int|
            #![trigger m.shards[b][s][e]]
            0 <= b < BUCKET_COUNT && 0 <= s < m.shards[b].len() && 0 <= e
                < m.shards[b][s].len() implies exists|j: int|
            0 <= j < items.len() && (#[trigger] items[j]).0.file_id
                == m.shards[b][s][e].1.file_id by {
            let x = m.shards[b][s][e];
            if s < prev.shards[b].len() {
                assert(m.shards[b][s] == prev.shards[b][s]);
                let j = choose|j: int|
                    0 <= j < rest.len() && (#[trigger] rest[j]).0.file_id
                        == prev.shards[b][s][e].1.file_id;
                assert(items[j] == rest[j]);
            } else {
                crate::sorting::lemma_sorted_by_rank_props(runs[b]);
                assert(m.shards[b][s] == crate::sorting::sorted_by_rank(runs[b]));
                assert(crate::sorting::sorted_by_rank(runs[b]).contains(x));
                assert(runs[b].contains(x));
                let i = choose|i: int| 0 <= i < runs[b].len() && runs[b][i] == x;
                assert(last.2@[b]@[i] == x);
                assert(items[items.len() - 1].2@[b]@[i].1.file_id == items[items.len()
                    - 1].0.file_id);
            }
        }
    }
}

/// A full build from nothing: once the files `items` are merged into an
/// empty index, a search shows an occurrence if and only if the file that
/// the occurrence names is among them and holds it with the key that is
/// searched. A file that was not indexed has no entries, so that no search
/// shows any occurrence of it, and it takes nothing away from the others.
pub proof fn lemma_full_build_search(
    state: IndexState,
    items: Seq<FileBucketEntries>,
    key: PositionKey,
    occ: Occurrence,
)
    requires
        build_items_wf(items),
    ensures
        IndexModel::empty_in(state).with_files(items).search(key).contains(occ) <==> exists|j: int|
            #[trigger] item_holds(items, j, key, occ),
    decreases items.len(),
{
    let m = IndexModel::empty_in(state).with_files(items);
    let b = key.spec_bucket() as int;
    assert(0 <= b < 256) by {
        let z = key.z0;
        assert((z >> 56) < 256) by (bit_vector);
    }
    if items.len() == 0 {
        crate::index_store::lemma_search_liveness(m, key, occ);
        assert(m.shards[b].len() == 0);
    } else {
        let rest = items.drop_last();
        let last = items.last();
        let n = items.len() - 1;
        let prev = IndexModel::empty_in(state).with_files(rest);
        let runs = run_views(last.2@);
        assert(build_items_wf(rest)) by {
            assert forall|j: int| 0 <= j < rest.len() implies rest[j] == items[j] by {}
        }
        lemma_built_entries(state, rest);
        lemma_full_build_search(state, rest, key, occ);
        assert forall|bb: int, i: int| 0 <= bb < runs.len() && 0 <= i < runs[bb].len() implies (
        #[trigger] runs[bb][i]).1.file_id == last.0.file_id && runs[bb][i].1.gen
            == last.0.gen by {
            assert(items[n].2@[bb]@[i].1.file_id == items[n].0.file_id);
        }
        assert forall|bb: int, s: int, i: int|
            0 <= bb < prev.shards.len() && 0 <= s < prev.shards[bb].len() && 0 <= i
                < prev.shards[bb][s].len() && (#[trigger] prev.shards[bb][s][i]).1.file_id
                == last.0.file_id implies prev.shards[bb][s][i].1.gen != last.0.gen by {
            let j = choose|j: int|
                0 <= j < rest.len() && (#[trigger] rest[j]).0.file_id
                    == prev.shards[bb][s][i].1.file_id;
            assert(items[j] == rest[j]);
            assert(items[j].0.file_id != items[n].0.file_id);
        }
        crate::index_store::lemma_reindex_replaces_file(prev, last.0, last.1, runs, key, occ);
        if occ.file_id == last.0.file_id {
            if crate::index_store::run_holds(runs, b, key, occ) {
                assert(item_holds(items, n, key, occ));
            }
            if exists|j: int| #[trigger] item_holds(items, j, key, occ) {
                let j = choose|j: int| #[trigger] item_holds(items, j, key, occ);
                if j < n {
                    assert(items[j].0.file_id != items[n].0.file_id);
                }
            }
        } else {
            if exists|j: int| #[trigger] item_holds(rest, j, key, occ) {
                let j = choose|j: int| #[trigger] item_holds(rest, j, key, occ);
                assert(rest[j] == items[j]);
                assert(item_holds(items, j, key, occ));
            }
            if exists|j: int| #[trigger] item_holds(items, j, key, occ) {
                let j = choose|j: int| #[trigger] item_holds(items, j, key, occ);
                assert(j < n);
                assert(rest[j] == items[j]);
                assert(item_holds(rest, j, key, occ));
            }
        }
    }
}

} // verus!
