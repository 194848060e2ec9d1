use obs_shogi::compaction::{compact_all_buckets, compact_bucket, merge_two};
use obs_shogi::file_table::FileTable;
use obs_shogi::index_store::{IndexSnapshot, IndexState, IndexStore, NodeTables, reversed};
use obs_shogi::node_table::NodeTable;
use obs_shogi::position_key::PositionKey;
use obs_shogi::segment::Segment;
use obs_shogi::types::{FileEntry, Occurrence};

fn key(bucket: u8, low: u64) -> PositionKey {
    PositionKey { z0: ((bucket as u64) << 56) | low, z1: low }
}

fn occ(file_id: u32, gen: u32, node_id: u32) -> Occurrence {
    Occurrence { file_id, gen, node_id }
}

fn entry(file_id: u32, gen: u32) -> FileEntry {
    FileEntry { file_id, path: format!("/lib/{file_id}.kif"), deleted: false, gen }
}

fn buckets(entries: Vec<(PositionKey, Occurrence)>) -> Vec<Vec<(PositionKey, Occurrence)>> {
    obs_shogi::index_builder::bucketize_entries(entries)
}

#[test]
fn new_store_is_empty_and_in_state_empty() {
    let store = IndexStore::new();
    let snap = store.snapshot();
    assert_eq!(snap.state, IndexState::Empty);
    assert_eq!(snap.buckets.len(), 256);
    assert!(snap.buckets.iter().all(|b| b.is_empty()));
    assert_eq!(snap.file_table.len(), 0);
    assert!(snap.search_occurrences_by_key(key(3, 1)).is_empty());
    let e = IndexSnapshot::empty();
    assert_eq!(e.state, IndexState::Empty);
    assert_eq!(e.buckets.len(), 256);
}

#[test]
fn state_transitions_reset_or_keep_content() {
    let mut store = IndexStore::new();
    store.insert_file_segments(entry(1, 1), NodeTable::empty(), buckets(vec![(key(1, 1), occ(1, 1, 0))]));
    store.set_state(IndexState::Updating);
    assert_eq!(store.snapshot().state, IndexState::Updating);
    assert_eq!(store.snapshot().search_occurrences_by_key(key(1, 1)), vec![occ(1, 1, 0)]);
    store.start_restoring();
    assert_eq!(store.snapshot().state, IndexState::Restoring);
    assert!(store.snapshot().search_occurrences_by_key(key(1, 1)).is_empty());
    assert_eq!(store.snapshot().file_table.len(), 0);
    store.start_full_build();
    assert_eq!(store.snapshot().state, IndexState::Building);
}

#[test]
fn search_results_are_sorted_by_file_and_node() {
    let mut store = IndexStore::new();
    let k = key(7, 42);
    store.insert_file_segments(
        entry(2, 1),
        NodeTable::empty(),
        buckets(vec![(k, occ(2, 1, 9)), (k, occ(2, 1, 3)), (key(7, 43), occ(2, 1, 4))]),
    );
    store.insert_file_segments(
        entry(1, 1),
        NodeTable::empty(),
        buckets(vec![(k, occ(1, 1, 5)), (key(8, 42), occ(1, 1, 6))]),
    );
    assert_eq!(
        store.snapshot().search_occurrences_by_key(k),
        vec![occ(1, 1, 5), occ(2, 1, 3), occ(2, 1, 9)]
    );
    assert_eq!(store.snapshot().search_occurrences_by_key(key(8, 42)), vec![occ(1, 1, 6)]);
    assert!(store.snapshot().search_occurrences_by_key(key(9, 42)).is_empty());
}

#[test]
fn search_shows_an_occurrence_iff_it_is_alive() {
    let mut store = IndexStore::new();
    let k = key(1, 1);
    // entries of three generations of file 1 and one of file 2
    store.insert_file_segments(entry(1, 1), NodeTable::empty(), buckets(vec![(k, occ(1, 1, 0))]));
    store.insert_file_segments(entry(1, 2), NodeTable::empty(), buckets(vec![(k, occ(1, 2, 0))]));
    store.insert_file_segments(entry(2, 1), NodeTable::empty(), buckets(vec![(k, occ(2, 1, 0))]));
    let snap = store.snapshot();
    let found = snap.search_occurrences_by_key(k);
    assert_eq!(found, vec![occ(1, 2, 0), occ(2, 1, 0)]);
    for o in [occ(1, 1, 0), occ(1, 2, 0), occ(2, 1, 0), occ(3, 1, 0)] {
        let e = snap.file_table.get(o.file_id);
        let alive = e.map(|e| e.gen == o.gen && !e.deleted).unwrap_or(false);
        assert_eq!(found.contains(&o), alive);
    }
}

#[test]
fn reindexing_a_file_hides_its_old_entries_and_shows_the_new() {
    let mut store = IndexStore::new();
    let k_old = key(1, 1);
    let k_new = key(1, 2);
    let k_both = key(2, 1);
    store.insert_file_segments(
        entry(1, 1),
        NodeTable::empty(),
        buckets(vec![(k_old, occ(1, 1, 0)), (k_both, occ(1, 1, 1))]),
    );
    store.insert_file_segments(entry(2, 1), NodeTable::empty(), buckets(vec![(k_both, occ(2, 1, 0))]));
    store.insert_file_segments(
        entry(1, 2),
        NodeTable::empty(),
        buckets(vec![(k_new, occ(1, 2, 0)), (k_both, occ(1, 2, 1))]),
    );
    let snap = store.snapshot();
    assert_eq!(snap.file_table.get(1).unwrap().gen, 2);
    assert!(snap.search_occurrences_by_key(k_old).is_empty());
    assert_eq!(snap.search_occurrences_by_key(k_new), vec![occ(1, 2, 0)]);
    assert_eq!(snap.search_occurrences_by_key(k_both), vec![occ(1, 2, 1), occ(2, 1, 0)]);
}

#[test]
fn tombstoning_a_file_hides_its_entries_and_no_others() {
    let mut store = IndexStore::new();
    let k = key(200, 5);
    store.insert_file_segments(entry(1, 1), NodeTable::empty(), buckets(vec![(k, occ(1, 1, 0))]));
    store.insert_file_segments(entry(2, 1), NodeTable::empty(), buckets(vec![(k, occ(2, 1, 0))]));
    store.tombstone_file(1);
    let snap = store.snapshot();
    assert_eq!(snap.search_occurrences_by_key(k), vec![occ(2, 1, 0)]);
    assert!(snap.file_table.get(1).unwrap().deleted);
    assert_eq!(snap.file_table.get(1).unwrap().gen, 2);
    assert_eq!(snap.file_table.get(2).unwrap().gen, 1);
    // the segment is still there: removal is logical
    assert_eq!(snap.buckets[200].len(), 2);
    store.tombstone_file(99);
    assert_eq!(store.snapshot().search_occurrences_by_key(k), vec![occ(2, 1, 0)]);
}

#[test]
fn empty_runs_add_no_segment() {
    let mut store = IndexStore::new();
    store.insert_file_segments(entry(1, 1), NodeTable::empty(), buckets(vec![(key(3, 1), occ(1, 1, 0))]));
    let snap = store.snapshot();
    assert_eq!(snap.buckets[3].len(), 1);
    assert!(snap.buckets[4].is_empty());
    assert_eq!(snap.file_table.len(), 1);
}

#[test]
fn insert_many_merges_files_in_order() {
    let mut store = IndexStore::new();
    let k = key(9, 9);
    let items = vec![
        (entry(1, 1), NodeTable::empty(), buckets(vec![(k, occ(1, 1, 0))])),
        (entry(2, 1), NodeTable::empty(), buckets(vec![(k, occ(2, 1, 0))])),
        (entry(1, 2), NodeTable::empty(), buckets(vec![(k, occ(1, 2, 3))])),
    ];
    store.insert_many_file_segments(items);
    let snap = store.snapshot();
    assert_eq!(snap.file_table.get(1).unwrap().gen, 2);
    assert_eq!(snap.search_occurrences_by_key(k), vec![occ(1, 2, 3), occ(2, 1, 0)]);
    assert_eq!(snap.buckets[9].len(), 3);
}

#[test]
fn install_restored_sorts_and_makes_one_segment_per_shard() {
    let mut store = IndexStore::new();
    let mut ft = FileTable::new();
    ft.upsert(entry(1, 1));
    let mut runs: Vec<Vec<(PositionKey, Occurrence)>> = (0..256).map(|_| Vec::new()).collect();
    runs[5] = vec![(key(5, 9), occ(1, 1, 1)), (key(5, 2), occ(1, 1, 0))];
    store.install_restored(IndexState::Ready, ft, NodeTables::new(), runs);
    let snap = store.snapshot();
    assert_eq!(snap.state, IndexState::Ready);
    assert_eq!(snap.buckets[5].len(), 1);
    assert_eq!(
        snap.buckets[5][0].entries(),
        &vec![(key(5, 2), occ(1, 1, 0)), (key(5, 9), occ(1, 1, 1))]
    );
    assert!(snap.buckets[6].is_empty());
    assert_eq!(snap.search_occurrences_by_key(key(5, 9)), vec![occ(1, 1, 1)]);
}

#[test]
fn commit_full_build_publishes_ready() {
    let mut store = IndexStore::new();
    let mut ft = FileTable::new();
    ft.upsert(entry(4, 1));
    let mut b: Vec<Vec<Segment>> = (0..256).map(|_| Vec::new()).collect();
    b[1].push(Segment::new_sorted(vec![(key(1, 1), occ(4, 1, 0))]));
    store.commit_full_build(ft, NodeTables::new(), b);
    assert_eq!(store.snapshot().state, IndexState::Ready);
    assert_eq!(store.snapshot().search_occurrences_by_key(key(1, 1)), vec![occ(4, 1, 0)]);
}

#[test]
fn node_tables_are_kept_by_file_id() {
    let mut nts = NodeTables::new();
    assert!(nts.get(0).is_none());
    let mut t = NodeTable::empty();
    t.nodes.push(obs_shogi::node_table::NodeCursor { tesuu: 3, fork_off: 0, fork_len: 0 });
    nts.upsert(4, t);
    assert!(nts.get(3).is_none());
    assert_eq!(nts.get(4).unwrap().nodes.len(), 1);
    assert!(nts.get(5).is_none());
    assert_eq!(nts.by_id_iter().len(), 5);
    nts.upsert(1, NodeTable::empty());
    assert_eq!(nts.get(1).unwrap().nodes.len(), 0);
    assert_eq!(nts.get(4).unwrap().nodes.len(), 1);
    assert_eq!(nts.by_id_iter().len(), 5);
}

#[test]
fn reversed_reverses() {
    assert_eq!(reversed(vec![1, 2, 3]), vec![3, 2, 1]);
    assert_eq!(reversed(Vec::<u8>::new()), Vec::<u8>::new());
}

#[test]
fn merge_two_takes_the_lower_head_and_prefers_the_first_run() {
    let a = vec![(key(1, 1), occ(2, 1, 0)), (key(1, 5), occ(1, 1, 0))];
    let b = vec![(key(1, 1), occ(1, 1, 7)), (key(1, 1), occ(2, 1, 0)), (key(1, 9), occ(1, 1, 1))];
    let m = merge_two(&a, &b);
    assert_eq!(
        m,
        vec![
            (key(1, 1), occ(1, 1, 7)),
            (key(1, 1), occ(2, 1, 0)),
            (key(1, 1), occ(2, 1, 0)),
            (key(1, 5), occ(1, 1, 0)),
            (key(1, 9), occ(1, 1, 1)),
        ]
    );
    assert_eq!(merge_two(&a, &vec![]), a);
    assert_eq!(merge_two(&vec![], &b), b);
}

#[test]
fn compaction_merges_segments_and_drops_dead_entries() {
    let mut ft = FileTable::new();
    ft.upsert(entry(1, 2));
    ft.upsert(entry(2, 1));
    ft.upsert(FileEntry { file_id: 3, path: "/gone".to_string(), deleted: true, gen: 4 });
    let segs = vec![
        Segment::new_sorted(vec![(key(1, 1), occ(1, 1, 0)), (key(1, 3), occ(1, 1, 1))]),
        Segment::new_sorted(vec![(key(1, 2), occ(2, 1, 0)), (key(1, 3), occ(3, 4, 0))]),
        Segment::new_sorted(vec![(key(1, 1), occ(1, 2, 0)), (key(1, 3), occ(1, 2, 1))]),
    ];
    let out = compact_bucket(1, &segs, &ft);
    assert_eq!(
        out,
        vec![(key(1, 1), occ(1, 2, 0)), (key(1, 2), occ(2, 1, 0)), (key(1, 3), occ(1, 2, 1))]
    );
    assert!(compact_bucket(1, &vec![], &ft).is_empty());
}

#[test]
fn compacting_twice_gives_identical_output() {
    let mut store = IndexStore::new();
    let k = key(17, 0);
    store.insert_file_segments(
        entry(1, 1),
        NodeTable::empty(),
        buckets(vec![(k, occ(1, 1, 1)), (key(17, 3), occ(1, 1, 0)), (key(18, 3), occ(1, 1, 2))]),
    );
    store.insert_file_segments(entry(2, 1), NodeTable::empty(), buckets(vec![(k, occ(2, 1, 0))]));
    store.insert_file_segments(entry(1, 2), NodeTable::empty(), buckets(vec![(k, occ(1, 2, 0))]));
    let snap = store.snapshot();
    let once = compact_all_buckets(snap);
    assert_eq!(once.len(), 256);
    assert_eq!(once[17], vec![(k, occ(1, 2, 0)), (k, occ(2, 1, 0))]);
    assert!(once[18].is_empty());
    // compact what the first compaction left
    let again: Vec<Vec<(PositionKey, Occurrence)>> = once
        .iter()
        .map(|run| compact_bucket(0, &vec![Segment::new_sorted(run.clone())], &snap.file_table))
        .collect();
    assert_eq!(once, again);
    assert_eq!(compact_all_buckets(snap), once);
}
