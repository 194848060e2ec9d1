use obs_shogi::file_table::FileTable;
use obs_shogi::node_table::{NodeTable, NodeTableBuilder};
use obs_shogi::path_ids::PathIds;
use obs_shogi::position_key::PositionKey;
use obs_shogi::segment::Segment;
use obs_shogi::sorting::{check_sorted, sort_by_rank};
use obs_shogi::traverse::push_or_replace_fork;
use obs_shogi::types::{
    CursorLite, FileEntry, ForkPointer, Occurrence, EVT_INDEX_PROGRESS, EVT_INDEX_STATE,
    EVT_INDEX_WARN, EVT_SEARCH_BEGIN, EVT_SEARCH_CHUNK, EVT_SEARCH_END, EVT_SEARCH_ERROR,
};

fn key(z0: u64, z1: u64) -> PositionKey {
    PositionKey { z0, z1 }
}

fn occ(file_id: u32, gen: u32, node_id: u32) -> Occurrence {
    Occurrence { file_id, gen, node_id }
}

fn fp(te: u32, fork_index: u32) -> ForkPointer {
    ForkPointer { te, fork_index }
}

fn entry(file_id: u32, gen: u32, deleted: bool) -> FileEntry {
    FileEntry { file_id, path: format!("/lib/{file_id}.kif"), deleted, gen }
}

#[test]
fn cursor_root_is_move_zero_without_forks() {
    let c = CursorLite::root();
    assert_eq!(c.tesuu, 0);
    assert!(c.fork_pointers.is_empty());
}

#[test]
fn filtered_for_tesuu_keeps_forks_up_to_the_move() {
    let c = CursorLite { tesuu: 9, fork_pointers: vec![fp(2, 0), fp(5, 1), fp(7, 3)] };
    let f = c.filtered_for_tesuu(5);
    assert_eq!(f.tesuu, 5);
    assert_eq!(f.fork_pointers, vec![fp(2, 0), fp(5, 1)]);
    let g = c.filtered_for_tesuu(1);
    assert_eq!(g.tesuu, 1);
    assert!(g.fork_pointers.is_empty());
}

#[test]
fn node_table_builder_gives_dense_ids_and_restores_cursors() {
    let mut b = NodeTableBuilder::new();
    assert_eq!(b.len_nodes(), 0);
    assert_eq!(b.push_node(0, &vec![]), 0);
    assert_eq!(b.push_node(6, &vec![fp(5, 0)]), 1);
    assert_eq!(b.push_node(8, &vec![fp(5, 1), fp(7, 2)]), 2);
    assert_eq!(b.len_nodes(), 3);
    assert_eq!(b.len_forks(), 3);
    let t = b.finish();
    let c0 = t.cursor_lite(0).unwrap();
    assert_eq!((c0.tesuu, c0.fork_pointers), (0, vec![]));
    let c1 = t.cursor_lite(1).unwrap();
    assert_eq!((c1.tesuu, c1.fork_pointers), (6, vec![fp(5, 0)]));
    let c2 = t.cursor_lite(2).unwrap();
    assert_eq!((c2.tesuu, c2.fork_pointers), (8, vec![fp(5, 1), fp(7, 2)]));
    assert!(t.cursor_lite(3).is_none());
}

#[test]
fn node_table_rejects_a_fork_slice_out_of_range() {
    let mut t = NodeTable::empty();
    assert!(t.cursor_lite(0).is_none());
    t.nodes.push(obs_shogi::node_table::NodeCursor { tesuu: 1, fork_off: 0, fork_len: 2 });
    t.forks.push(obs_shogi::node_table::ForkPtr { te: 1, fork_index: 0 });
    assert!(t.cursor_lite(0).is_none());
    t.forks.push(obs_shogi::node_table::ForkPtr { te: 2, fork_index: 4 });
    let c = t.cursor_lite(0).unwrap();
    assert_eq!(c.fork_pointers, vec![fp(1, 0), fp(2, 4)]);
}

#[test]
fn push_or_replace_fork_overwrites_and_keeps_order() {
    let mut p: Vec<ForkPointer> = vec![];
    push_or_replace_fork(&mut p, 5, 1);
    assert_eq!(p, vec![fp(5, 1)]);
    push_or_replace_fork(&mut p, 3, 0);
    assert_eq!(p, vec![fp(3, 0), fp(5, 1)]);
    push_or_replace_fork(&mut p, 9, 2);
    assert_eq!(p, vec![fp(3, 0), fp(5, 1), fp(9, 2)]);
    push_or_replace_fork(&mut p, 5, 7);
    assert_eq!(p, vec![fp(3, 0), fp(5, 7), fp(9, 2)]);
    push_or_replace_fork(&mut p, 4, 4);
    assert_eq!(p, vec![fp(3, 0), fp(4, 4), fp(5, 7), fp(9, 2)]);
}

#[test]
fn sort_by_rank_is_stable() {
    let v = vec![
        (key(5, 0), occ(1, 1, 0)),
        (key(1, 9), occ(1, 1, 1)),
        (key(5, 0), occ(1, 1, 2)),
        (key(1, 2), occ(1, 1, 3)),
        (key(5, 0), occ(1, 1, 4)),
    ];
    assert!(!check_sorted(&v));
    let s = sort_by_rank(&v);
    assert!(check_sorted(&s));
    assert_eq!(
        s,
        vec![
            (key(1, 2), occ(1, 1, 3)),
            (key(1, 9), occ(1, 1, 1)),
            (key(5, 0), occ(1, 1, 0)),
            (key(5, 0), occ(1, 1, 2)),
            (key(5, 0), occ(1, 1, 4)),
        ]
    );
    assert!(check_sorted(&Vec::<Occurrence>::new()));
}

#[test]
fn segment_range_by_key_finds_exactly_the_key() {
    let seg = Segment::new_sorted(vec![
        (key(1, 1), occ(1, 1, 0)),
        (key(2, 0), occ(1, 1, 1)),
        (key(2, 0), occ(2, 1, 5)),
        (key(2, 1), occ(1, 1, 2)),
        (key(9, 9), occ(3, 1, 0)),
    ]);
    assert_eq!(seg.len(), 5);
    assert!(!seg.is_empty());
    assert_eq!(seg.range_by_key(key(2, 0)), &[(key(2, 0), occ(1, 1, 1)), (key(2, 0), occ(2, 1, 5))]);
    assert_eq!(seg.range_by_key(key(1, 1)), &[(key(1, 1), occ(1, 1, 0))]);
    assert_eq!(seg.range_by_key(key(9, 9)), &[(key(9, 9), occ(3, 1, 0))]);
    assert!(seg.range_by_key(key(2, 2)).is_empty());
    assert!(seg.range_by_key(key(0, 0)).is_empty());
    assert!(seg.range_by_key(key(10, 0)).is_empty());
    assert_eq!(seg.entries().len(), 5);
}

#[test]
fn segment_from_entries_sorts_by_key() {
    let seg = Segment::from_entries(vec![
        (key(3, 0), occ(1, 1, 0)),
        (key(1, 0), occ(1, 1, 1)),
        (key(2, 0), occ(1, 1, 2)),
    ]);
    assert_eq!(
        seg.entries(),
        &vec![(key(1, 0), occ(1, 1, 1)), (key(2, 0), occ(1, 1, 2)), (key(3, 0), occ(1, 1, 0))]
    );
    let empty = Segment::from_entries(vec![]);
    assert!(empty.is_empty());
    assert!(empty.range_by_key(key(1, 0)).is_empty());
    let copy = seg.clone();
    assert_eq!(copy.entries(), seg.entries());
}

#[test]
fn file_table_upsert_get_and_len() {
    let mut t = FileTable::new();
    assert_eq!(t.len(), 0);
    assert!(t.get(1).is_none());
    t.upsert(entry(5, 1, false));
    t.upsert(entry(2, 1, false));
    t.upsert(entry(9, 3, false));
    assert_eq!(t.len(), 3);
    assert_eq!(t.get(2).unwrap().path, "/lib/2.kif");
    assert_eq!(t.get(9).unwrap().gen, 3);
    assert!(t.get(3).is_none());
    t.upsert(entry(5, 2, false));
    assert_eq!(t.len(), 3);
    assert_eq!(t.get(5).unwrap().gen, 2);
    let ids: Vec<u32> = t.entries().iter().map(|e| e.file_id).collect();
    assert_eq!(ids, vec![2, 5, 9]);
    let copy = t.clone();
    assert_eq!(copy.len(), 3);
    assert_eq!(copy.get(5).unwrap().gen, 2);
}

#[test]
fn occurrence_is_alive_iff_generation_matches_and_not_deleted() {
    let mut t = FileTable::new();
    t.upsert(entry(1, 4, false));
    t.upsert(entry(2, 7, true));
    assert!(t.is_occ_alive(1, 4));
    assert!(!t.is_occ_alive(1, 3));
    assert!(!t.is_occ_alive(1, 5));
    assert!(!t.is_occ_alive(2, 7));
    assert!(!t.is_occ_alive(3, 0));
}

#[test]
fn tombstone_marks_deleted_and_bumps_generation() {
    let mut t = FileTable::new();
    t.upsert(entry(1, 4, false));
    t.upsert(entry(2, u32::MAX, false));
    t.tombstone(1);
    let e = t.get(1).unwrap();
    assert!(e.deleted);
    assert_eq!(e.gen, 5);
    assert_eq!(e.path, "/lib/1.kif");
    assert!(!t.is_occ_alive(1, 4));
    assert!(!t.is_occ_alive(1, 5));
    t.tombstone(2);
    assert_eq!(t.get(2).unwrap().gen, 0);
    t.tombstone(77);
    assert_eq!(t.len(), 2);
}

#[test]
fn path_ids_map_paths_to_ids() {
    let mut m = PathIds::new();
    assert_eq!(m.len(), 0);
    assert_eq!(m.get(&"a".to_string()), None);
    m.insert("a".to_string(), 1);
    m.insert("b".to_string(), 2);
    m.insert("a".to_string(), 7);
    assert_eq!(m.len(), 2);
    assert_eq!(m.get(&"a".to_string()), Some(7));
    assert_eq!(m.get(&"b".to_string()), Some(2));
    let copy = m.clone_ids();
    assert_eq!(m.remove(&"a".to_string()), Some(7));
    assert_eq!(m.remove(&"a".to_string()), None);
    assert_eq!(m.get(&"a".to_string()), None);
    assert_eq!(m.get(&"b".to_string()), Some(2));
    assert_eq!(m.len(), 1);
    assert_eq!(copy.get(&"a".to_string()), Some(7));
    assert_eq!(copy.len(), 2);
}

#[test]
fn event_names() {
    assert_eq!(EVT_INDEX_STATE, "position-index-state");
    assert_eq!(EVT_INDEX_PROGRESS, "position-index-progress");
    assert_eq!(EVT_INDEX_WARN, "position-index-warn");
    assert_eq!(EVT_SEARCH_BEGIN, "position-search-begin");
    assert_eq!(EVT_SEARCH_CHUNK, "position-search-chunk");
    assert_eq!(EVT_SEARCH_END, "position-search-end");
    assert_eq!(EVT_SEARCH_ERROR, "position-search-error");
}
