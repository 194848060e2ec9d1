use obs_shogi::api::{
    assign_file_ids, begin_full_build, file_count, index_file, open_from_restore,
    worker_budget, BuildItem, FullBuild, COMMIT_BATCH, EMIT_INTERVAL_MS, QUIET_WINDOW_MS,
};
use obs_shogi::fs_scan::{diff_snapshot, snapshot_from_records, FileRecord, KifuKind};
use obs_shogi::index_builder::{build_index_for_jkf, BuildPolicy};
use obs_shogi::index_cache::{build_checkpoint, restore_checkpoint};
use obs_shogi::index_store::{IndexState, IndexStore};
use obs_shogi::kifu_reader::{
    read_path_to_jkf, read_to_jkf, try_parse_text_with_fallback, KifuReadError, ReadStep,
};
use obs_shogi::path_ids::PathIds;
use obs_shogi::position_key::PositionKey;
use obs_shogi::project_manager::{
    apply_reindex, empty_buckets, finish_update, next_gen, plan_changes, start_update, Debounce,
    ProjectManager, WatchAction, WatchEvent,
};
use obs_shogi::query_service::{
    begin_payload, chunk_files, chunk_hits, clamp_chunk_size, hit_for, is_stale,
    search_position_impl, MAX_CHUNK,
};
use obs_shogi::sfen_position::{position_key_from_sfen, SfenParseError};
use obs_shogi::traverse::{Initial, Jkf, MoveData, MoveNode, Place, SquareData, StateData};
use obs_shogi::types::{Consistency, Occurrence, PositionHit, SearchPositionInput};
use shogi_kifu_converter::jkf::{Color, JsonKifuFormat, MoveFormat, StateFormat};
use shogi_kifu_converter::parser::{parse_csa_str, parse_jkf_str, parse_ki2_str, parse_kif_str};

const START: &str = "lnsgkgsnl/1r5b1/ppppppppp/9/9/9/PPPPPPPPP/1B5R1/LNSGKGSNL b - 1";
const AFTER_76: &str = "lnsgkgsnl/1r5b1/ppppppppp/9/9/2P6/PP1PPPPPP/1B5R1/LNSGKGSNL w - 2";
const AFTER_26: &str = "lnsgkgsnl/1r5b1/ppppppppp/9/9/7P1/PPPPPPP1P/1B5R1/LNSGKGSNL w - 2";

fn node_from_outside(m: &MoveFormat) -> MoveNode {
    let mv = m.move_.map(|v| MoveData {
        white: v.color == Color::White,
        from: v.from.map(|p| Place { x: p.x, y: p.y }),
        to: Place { x: v.to.x, y: v.to.y },
        piece: v.piece as u8,
        promote: v.promote,
    });
    let forks = m.forks.iter().flatten().map(|l| l.iter().map(node_from_outside).collect());
    MoveNode { mv, special: m.special.is_some(), forks: forks.collect() }
}

fn state_from_outside(s: &StateFormat) -> StateData {
    let board = s.board.iter().flatten().map(|p| SquareData {
        white: p.color.map(|c| c == Color::White),
        kind: p.kind.map(|k| k as u8),
    });
    let hands = s.hands.iter().flat_map(|h| [h.FU, h.KY, h.KE, h.GI, h.KI, h.KA, h.HI]);
    StateData { white_to_move: s.color == Color::White, board: board.collect(), hands: hands.collect() }
}

fn record_from_outside(j: &JsonKifuFormat) -> Jkf {
    let initial = j.initial.map(|i| Initial {
        preset: i.preset as u8,
        data: i.data.map(|s| state_from_outside(&s)),
    });
    Jkf { initial, moves: j.moves.iter().map(node_from_outside).collect() }
}

fn parse_text(kind: KifuKind, text: &str) -> Result<Jkf, String> {
    let parsed = match kind {
        KifuKind::Kif => parse_kif_str(text),
        KifuKind::Ki2 => parse_ki2_str(text),
        KifuKind::Csa => parse_csa_str(text),
        KifuKind::Jkf => parse_jkf_str(text),
    };
    match parsed {
        Ok(j) => Ok(record_from_outside(&j)),
        Err(e) => Err(format!("{e:?}")),
    }
}

fn drive(first: ReadStep, path: &str, bytes: &[u8]) -> Result<Jkf, KifuReadError> {
    let mut step = first;
    loop {
        match step {
            ReadStep::Done(r) => return r,
            ReadStep::Parse(st, text) => {
                let outcome = parse_text(st.kind, &text);
                step = try_parse_text_with_fallback(st, path, bytes, outcome);
            }
        }
    }
}

fn read(path: &str, kind: KifuKind, bytes: &[u8]) -> Result<Jkf, KifuReadError> {
    drive(read_path_to_jkf(path, kind, bytes), path, bytes)
}

fn csa(first: &str) -> Vec<u8> {
    format!("V2.2\nPI\n+\n{first}\n-3334FU\n").into_bytes()
}

fn rec(path: &str, size: u64, mtime_ms: u128) -> FileRecord {
    FileRecord { path: path.to_string(), kind: KifuKind::Csa, size, mtime_ms }
}

fn key(sfen: &str) -> PositionKey {
    position_key_from_sfen(sfen).unwrap()
}

fn files_of(store: &IndexStore, sfen: &str) -> Vec<u32> {
    store.snapshot().search_occurrences_by_key(key(sfen)).iter().map(|o| o.file_id).collect()
}

#[test]
fn next_generation_is_one_more_and_never_zero() {
    assert_eq!(next_gen(0), 1);
    assert_eq!(next_gen(1), 2);
    assert_eq!(next_gen(u32::MAX - 1), u32::MAX);
    assert_eq!(next_gen(u32::MAX), 1);
}

#[test]
fn plan_gives_ids_and_generations() {
    let mut store = IndexStore::new();
    let mut ids = PathIds::new();
    ids.insert("/r/old.csa".to_string(), 1);
    ids.insert("/r/gone.csa".to_string(), 2);
    for (id, gen) in [(1u32, 4u32), (2, 1)] {
        store.insert_file_segments(
            obs_shogi::types::FileEntry { file_id: id, path: String::new(), deleted: false, gen },
            obs_shogi::node_table::NodeTable::empty(),
            empty_buckets(),
        );
    }
    let prev = snapshot_from_records(
        "/r",
        vec![rec("/r/old.csa", 1, 1), rec("/r/gone.csa", 1, 1), rec("/r/lost.csa", 1, 1)],
    );
    let next = snapshot_from_records(
        "/r",
        vec![rec("/r/new.csa", 1, 1), rec("/r/old.csa", 2, 1), rec("/r/lost.csa", 1, 9), rec("/r/b.csa", 1, 1)],
    );
    let diff = diff_snapshot(&prev, &next);
    let plan = plan_changes(&diff, ids, 3, &store.snapshot().file_table);
    assert_eq!(plan.dirty_count, 5);
    assert_eq!(plan.tombstones, vec![2]);
    let jobs: Vec<(&str, u32, u32)> =
        plan.jobs.iter().map(|j| (j.record.path.as_str(), j.file_id, j.gen)).collect();
    assert_eq!(
        jobs,
        vec![
            ("/r/old.csa", 1, 5),
            ("/r/lost.csa", 3, 1),
            ("/r/new.csa", 4, 1),
            ("/r/b.csa", 5, 1)
        ]
    );
    assert_eq!(plan.next_file_id, 6);
    assert_eq!(plan.path_to_id.get(&"/r/gone.csa".to_string()), None);
    assert_eq!(plan.path_to_id.get(&"/r/old.csa".to_string()), Some(1));
    assert_eq!(plan.path_to_id.get(&"/r/lost.csa".to_string()), Some(3));
    assert_eq!(plan.path_to_id.get(&"/r/b.csa".to_string()), Some(5));
    assert_eq!(plan.path_to_id.len(), 4);
}

/// Runs one rescan cycle on files given as (record, content).
fn rescan(store: &mut IndexStore, pm: &mut ProjectManager, files: &[(FileRecord, Vec<u8>)]) -> usize {
    let next = snapshot_from_records("/r", files.iter().map(|f| f.0.clone_record()).collect());
    let plan = pm.plan_rescan(&next, &store.snapshot().file_table).unwrap();
    let dirty = plan.dirty_count;
    if dirty != 0 {
        start_update(store, &plan);
        assert_eq!(store.snapshot().state, IndexState::Updating);
        for job in &plan.jobs {
            let bytes = &files.iter().find(|f| f.0.path == job.record.path).unwrap().1;
            let read = drive(read_to_jkf(&job.record, bytes), &job.record.path, bytes);
            let out = index_file(read, job.file_id, job.gen);
            apply_reindex(store, job, out.built);
        }
        finish_update(store);
    }
    pm.commit(next, plan);
    dirty
}

fn opened() -> (IndexStore, ProjectManager) {
    let mut pm = ProjectManager::new();
    pm.install_after_full_build(
        "/r".to_string(),
        snapshot_from_records("/r", vec![]),
        PathIds::new(),
        1,
    );
    (IndexStore::new(), pm)
}

#[test]
fn editing_a_file_raises_its_generation_by_one_and_replaces_its_positions() {
    let (mut store, mut pm) = opened();
    let a1 = (rec("/r/a.csa", 10, 100), csa("+7776FU"));
    let b = (rec("/r/b.csa", 10, 100), csa("+7776FU"));
    assert_eq!(rescan(&mut store, &mut pm, &[a1, b]), 2);
    assert_eq!(files_of(&store, AFTER_76), vec![1, 2]);
    assert_eq!(store.snapshot().file_table.get(1).unwrap().gen, 1);
    // file a is edited: another first move, another size
    let a2 = (rec("/r/a.csa", 11, 200), csa("+2726FU"));
    let b = (rec("/r/b.csa", 10, 100), csa("+7776FU"));
    assert_eq!(rescan(&mut store, &mut pm, &[a2, b]), 1);
    assert_eq!(store.snapshot().state, IndexState::Ready);
    assert_eq!(store.snapshot().file_table.get(1).unwrap().gen, 2);
    assert_eq!(store.snapshot().file_table.get(2).unwrap().gen, 1);
    assert_eq!(files_of(&store, AFTER_76), vec![2]);
    assert_eq!(files_of(&store, AFTER_26), vec![1]);
    assert_eq!(files_of(&store, START), vec![1, 2]);
    let occs = store.snapshot().search_occurrences_by_key(key(START));
    assert_eq!(occs[0], Occurrence { file_id: 1, gen: 2, node_id: 0 });
}

#[test]
fn removing_a_file_hides_its_positions_only() {
    let (mut store, mut pm) = opened();
    let a = (rec("/r/a.csa", 10, 100), csa("+7776FU"));
    let b = (rec("/r/b.csa", 10, 100), csa("+2726FU"));
    rescan(&mut store, &mut pm, &[a, b]);
    assert_eq!(files_of(&store, START), vec![1, 2]);
    let b = (rec("/r/b.csa", 10, 100), csa("+2726FU"));
    assert_eq!(rescan(&mut store, &mut pm, &[b]), 1);
    assert_eq!(files_of(&store, START), vec![2]);
    assert!(files_of(&store, AFTER_76).is_empty());
    assert_eq!(files_of(&store, AFTER_26), vec![2]);
    assert!(store.snapshot().file_table.get(1).unwrap().deleted);
    assert_eq!(pm.path_to_id.get(&"/r/a.csa".to_string()), None);
    // a file of the same path that comes back is a new file
    let a = (rec("/r/a.csa", 10, 100), csa("+7776FU"));
    let b = (rec("/r/b.csa", 10, 100), csa("+2726FU"));
    assert_eq!(rescan(&mut store, &mut pm, &[a, b]), 1);
    assert_eq!(files_of(&store, AFTER_76), vec![3]);
}

#[test]
fn a_rescan_without_changes_touches_nothing() {
    let (mut store, mut pm) = opened();
    let a = (rec("/r/a.csa", 10, 100), csa("+7776FU"));
    rescan(&mut store, &mut pm, &[a]);
    let segments = store.snapshot().buckets.iter().map(|b| b.len()).sum::<usize>();
    let a = (rec("/r/a.csa", 10, 100), csa("+7776FU"));
    assert_eq!(rescan(&mut store, &mut pm, &[a]), 0);
    assert_eq!(store.snapshot().buckets.iter().map(|b| b.len()).sum::<usize>(), segments);
    assert_eq!(pm.next_file_id, 2);
    assert!(ProjectManager::new().plan_rescan(&snapshot_from_records("/r", vec![]), &store.snapshot().file_table).is_none());
}

#[test]
fn a_file_that_cannot_be_read_loses_its_old_positions() {
    let (mut store, mut pm) = opened();
    let a = (rec("/r/a.csa", 10, 100), csa("+7776FU"));
    rescan(&mut store, &mut pm, &[a]);
    let broken = (rec("/r/a.csa", 11, 101), vec![0xFF, 0xFE]);
    assert_eq!(rescan(&mut store, &mut pm, &[broken]), 1);
    assert!(files_of(&store, START).is_empty());
    let e = store.snapshot().file_table.get(1).unwrap();
    assert_eq!((e.gen, e.deleted), (2, false));
}

#[test]
fn debounce_runs_one_rescan_after_a_burst() {
    let mut d = Debounce::new();
    assert_eq!(d.on_event(WatchEvent::TimerFired), WatchAction::WaitIdle);
    assert_eq!(d.on_event(WatchEvent::PathChanged), WatchAction::WaitQuiet);
    assert_eq!(d.on_event(WatchEvent::PathChanged), WatchAction::WaitQuiet);
    assert!(d.dirty);
    assert_eq!(d.on_event(WatchEvent::TimerFired), WatchAction::Rescan);
    assert!(!d.dirty);
    assert_eq!(d.on_event(WatchEvent::TimerFired), WatchAction::WaitIdle);
    assert_eq!(d.on_event(WatchEvent::Closed), WatchAction::Stop);
    assert_eq!(QUIET_WINDOW_MS, 800);
}

#[test]
fn chunk_size_is_clamped() {
    assert_eq!(clamp_chunk_size(0), 1);
    assert_eq!(clamp_chunk_size(1), 1);
    assert_eq!(clamp_chunk_size(2000), 2000);
    assert_eq!(clamp_chunk_size(10_000), 10_000);
    assert_eq!(clamp_chunk_size(10_001), 10_000);
    assert_eq!(clamp_chunk_size(u32::MAX), MAX_CHUNK as usize);
}

#[test]
fn every_state_but_ready_is_stale() {
    assert!(!is_stale(IndexState::Ready));
    for s in [IndexState::Empty, IndexState::Restoring, IndexState::Building, IndexState::Updating] {
        assert!(is_stale(s));
    }
    let mut store = IndexStore::new();
    assert!(begin_payload(store.snapshot(), 7).stale);
    store.set_state(IndexState::Ready);
    let b = begin_payload(store.snapshot(), 8);
    assert_eq!((b.request_id, b.stale), (8, false));
}

fn two_files() -> IndexStore {
    let (mut store, mut pm) = opened();
    let a = (rec("/r/a.csa", 10, 100), csa("+7776FU"));
    let b = (rec("/r/b.csa", 10, 100), csa("+7776FU"));
    rescan(&mut store, &mut pm, &[a, b]);
    store
}

#[test]
fn search_reports_hits_in_chunks_with_paths_and_cursors() {
    let store = two_files();
    let input = SearchPositionInput {
        sfen: format!("sfen {AFTER_76}"),
        consistency: Consistency::BestEffort,
        chunk_size: 1,
    };
    let reply = search_position_impl(store.snapshot(), &input, 42);
    assert_eq!(reply.output.request_id, 42);
    assert_eq!(reply.begin.request_id, 42);
    assert!(!reply.begin.stale);
    let chunks = reply.result.unwrap();
    assert_eq!(chunks.len(), 2);
    for (i, c) in chunks.iter().enumerate() {
        assert_eq!(c.request_id, 42);
        assert_eq!(c.chunk.len(), 1);
        assert_eq!(c.chunk[0].occ, Occurrence { file_id: i as u32 + 1, gen: 1, node_id: 1 });
        assert_eq!(c.chunk[0].cursor.tesuu, 1);
        assert!(c.chunk[0].cursor.fork_pointers.is_empty());
        assert_eq!(c.files.len(), 1);
        assert_eq!(c.files[0].file_id, i as u32 + 1);
    }
    assert_eq!(chunks[0].files[0].abs_path, "/r/a.csa");
    assert_eq!(chunks[1].files[0].abs_path, "/r/b.csa");
    let all = SearchPositionInput { sfen: START.to_string(), consistency: Consistency::WaitForClean, chunk_size: 0 };
    assert_eq!(search_position_impl(store.snapshot(), &all, 1).result.unwrap().len(), 2);
    let big = SearchPositionInput { sfen: START.to_string(), consistency: Consistency::BestEffort, chunk_size: 5000 };
    let one = search_position_impl(store.snapshot(), &big, 1).result.unwrap();
    assert_eq!(one.len(), 1);
    assert_eq!(one[0].chunk.len(), 2);
    assert_eq!(one[0].files.len(), 2);
}

#[test]
fn search_for_an_unknown_position_gives_no_chunk() {
    let store = two_files();
    let input = SearchPositionInput {
        sfen: "4k4/9/9/9/9/9/9/9/4K4 b - 1".to_string(),
        consistency: Consistency::BestEffort,
        chunk_size: 100,
    };
    assert!(search_position_impl(store.snapshot(), &input, 1).result.unwrap().is_empty());
}

#[test]
fn search_with_unreadable_notation_reports_the_error() {
    let store = IndexStore::new();
    let input = SearchPositionInput {
        sfen: "what".to_string(),
        consistency: Consistency::BestEffort,
        chunk_size: 100,
    };
    let reply = search_position_impl(store.snapshot(), &input, 5);
    assert!(reply.begin.stale);
    assert_eq!(reply.result.unwrap_err(), SfenParseError::Unsupported);
}

#[test]
fn chunks_split_hits_evenly_with_a_rest() {
    let store = two_files();
    let occs: Vec<Occurrence> =
        (0..7).map(|n| Occurrence { file_id: 1 + n % 2, gen: 1, node_id: n % 3 }).collect();
    let chunks = chunk_hits(store.snapshot(), &occs, 3, 9);
    assert_eq!(chunks.iter().map(|c| c.chunk.len()).collect::<Vec<_>>(), vec![3, 3, 1]);
    let flat: Vec<Occurrence> = chunks.iter().flat_map(|c| c.chunk.iter().map(|h| h.occ)).collect();
    assert_eq!(flat, occs);
    assert_eq!(chunks[0].files.iter().map(|f| f.file_id).collect::<Vec<_>>(), vec![1, 2]);
    assert_eq!(chunks[2].files.iter().map(|f| f.file_id).collect::<Vec<_>>(), vec![1]);
    assert!(chunk_hits(store.snapshot(), &vec![], 3, 9).is_empty());
    assert_eq!(chunk_hits(store.snapshot(), &occs, 7, 9).len(), 1);
    assert_eq!(chunk_hits(store.snapshot(), &occs, 8, 9).len(), 1);
    assert_eq!(chunk_hits(store.snapshot(), &occs, 1, 9).len(), 7);
}

#[test]
fn hits_of_unknown_nodes_or_files_point_at_the_root() {
    let store = two_files();
    let h = hit_for(store.snapshot(), Occurrence { file_id: 1, gen: 1, node_id: 2 });
    assert_eq!(h.cursor.tesuu, 2);
    let unknown_node = hit_for(store.snapshot(), Occurrence { file_id: 1, gen: 1, node_id: 999 });
    assert_eq!(unknown_node.cursor.tesuu, 0);
    let unknown_file = hit_for(store.snapshot(), Occurrence { file_id: 77, gen: 1, node_id: 0 });
    assert_eq!(unknown_file.cursor.tesuu, 0);
    let hits: Vec<PositionHit> = vec![unknown_file, h];
    let files = chunk_files(&store.snapshot().file_table, &hits);
    assert_eq!(files.len(), 2);
    assert_eq!((files[0].file_id, files[0].abs_path.as_str()), (77, ""));
    assert_eq!((files[1].file_id, files[1].abs_path.as_str()), (1, "/r/a.csa"));
}

#[test]
fn worker_budget_is_between_two_and_eight() {
    assert_eq!(worker_budget(None), 4);
    assert_eq!(worker_budget(Some(1)), 2);
    assert_eq!(worker_budget(Some(2)), 2);
    assert_eq!(worker_budget(Some(6)), 6);
    assert_eq!(worker_budget(Some(8)), 8);
    assert_eq!(worker_budget(Some(64)), 8);
    assert_eq!(worker_budget(Some(0)), 2);
}

#[test]
fn full_build_ids_count_from_one() {
    let records = vec![rec("/r/a.csa", 1, 1), rec("/r/b.csa", 1, 1), rec("/r/c.csa", 1, 1)];
    let (ids, next) = assign_file_ids(&records);
    assert_eq!(ids.get(&"/r/a.csa".to_string()), Some(1));
    assert_eq!(ids.get(&"/r/b.csa".to_string()), Some(2));
    assert_eq!(ids.get(&"/r/c.csa".to_string()), Some(3));
    assert_eq!(next, 4);
    let (none, first) = assign_file_ids(&vec![]);
    assert_eq!(none.len(), 0);
    assert_eq!(first, 1);
    assert_eq!(file_count(5), 5);
    assert_eq!(file_count(0), 0);
}

fn item(file_id: u32, content: &[u8]) -> BuildItem {
    let r = rec(&format!("/r/{file_id}.csa"), 1, 1);
    let out = index_file(read(&r.path, r.kind, content), file_id, 1);
    BuildItem::from_outcome(file_id, 1, r.path.clone(), out)
}

#[test]
fn fresh_open_with_one_malformed_file() {
    // three good files and one that is no game record
    let n = 3u32;
    let mut store = IndexStore::new();
    let (out, notice) = begin_full_build(&mut store, (n + 1) as usize);
    assert_eq!(out.total_files, n + 1);
    assert_eq!(notice.state, obs_shogi::types::IndexState::Building);
    assert_eq!(store.snapshot().state, IndexState::Building);
    let mut build = FullBuild::new(out.total_files, 0);
    let mut warnings = Vec::new();
    for id in 1..=n {
        let notices = build.on_file_done(&mut store, item(id, &csa("+7776FU")), 10);
        warnings.extend(notices.warns);
    }
    let notices = build.on_file_done(&mut store, item(n + 1, b"\xFF\xFE no record"), 20);
    warnings.extend(notices.warns);
    let ready = build.finish(&mut store);
    assert_eq!(warnings.len(), 1);
    assert_eq!(warnings[0].path, "/r/4.csa");
    assert!(warnings[0].message.starts_with("parse failed: /r/4.csa: "));
    assert_eq!(ready.state, obs_shogi::types::IndexState::Ready);
    assert_eq!(ready.total_files, n + 1);
    assert_eq!(ready.indexed_files, n);
    assert_eq!(build.done_files, n + 1);
    assert_eq!(store.snapshot().state, IndexState::Ready);
    assert_eq!(files_of(&store, START), vec![1, 2, 3]);
    assert_eq!(files_of(&store, AFTER_76), vec![1, 2, 3]);
    assert_eq!(store.snapshot().file_table.len(), 4);
}

#[test]
fn full_build_merges_in_batches_and_reports_progress_at_intervals() {
    let mut store = IndexStore::new();
    store.start_full_build();
    let mut build = FullBuild::new(100, 1_000);
    assert_eq!(COMMIT_BATCH, 64);
    assert_eq!(EMIT_INTERVAL_MS, 100);
    for id in 1..=63u32 {
        let n = build.on_file_done(&mut store, item(id, &csa("+7776FU")), 1_000 + id as u64);
        assert_eq!(n.progress.is_some(), false);
        assert_eq!(store.snapshot().file_table.len(), 0);
    }
    assert_eq!(build.batch.len(), 63);
    let n = build.on_file_done(&mut store, item(64, &csa("+7776FU")), 1_100);
    let (p, s) = n.progress.unwrap();
    assert_eq!((p.done_files, p.total_files, p.current_path.as_str()), (64, 100, "/r/64.csa"));
    assert_eq!((s.indexed_files, s.total_files, s.dirty_count), (64, 100, 0));
    assert_eq!(build.last_emit_ms, 1_100);
    assert_eq!(build.batch.len(), 0);
    assert_eq!(store.snapshot().file_table.len(), 64);
    assert_eq!(store.snapshot().state, IndexState::Building);
    let n = build.on_file_done(&mut store, item(65, &csa("+7776FU")), 1_199);
    assert!(n.progress.is_none());
    let n = build.on_file_done(&mut store, item(66, &csa("+7776FU")), 1_200);
    assert!(n.progress.is_some());
    build.on_file_lost();
    assert_eq!(build.done_files, 67);
    assert_eq!(build.indexed_ok, 66);
    build.finish(&mut store);
    assert_eq!(store.snapshot().file_table.len(), 66);
    assert_eq!(files_of(&store, START).len(), 66);
}

#[test]
fn opening_from_a_checkpoint_is_ready_at_once() {
    let (mut store, mut pm) = opened();
    let a = (rec("/r/a.csa", 10, 100), csa("+7776FU"));
    let b = (rec("/r/b.csa", 10, 100), csa("+2726FU"));
    rescan(&mut store, &mut pm, &[a, b]);
    let bytes =
        build_checkpoint("/r", 5, store.snapshot(), &pm.scan, &pm.path_to_id, pm.next_file_id).unwrap();
    let restored = restore_checkpoint(&bytes, "/r").unwrap();
    let mut store2 = IndexStore::new();
    store2.start_restoring();
    let mut pm2 = ProjectManager::new();
    let (out, notice) = open_from_restore(&mut store2, &mut pm2, "/r", restored);
    assert_eq!(out.total_files, 2);
    assert_eq!(notice.state, obs_shogi::types::IndexState::Ready);
    assert_eq!((notice.indexed_files, notice.total_files), (2, 2));
    assert_eq!(store2.snapshot().state, IndexState::Ready);
    assert_eq!(pm2.root_dir.as_deref(), Some("/r"));
    assert_eq!(pm2.next_file_id, 3);
    for sfen in [START, AFTER_76, AFTER_26] {
        assert_eq!(
            store2.snapshot().search_occurrences_by_key(key(sfen)),
            store.snapshot().search_occurrences_by_key(key(sfen))
        );
    }
    // the restored project goes on: an edit is picked up
    let a = (rec("/r/a.csa", 11, 100), csa("+2726FU"));
    let b = (rec("/r/b.csa", 10, 100), csa("+2726FU"));
    assert_eq!(rescan(&mut store2, &mut pm2, &[a, b]), 1);
    assert_eq!(files_of(&store2, AFTER_26), vec![1, 2]);
    let _ = build_index_for_jkf;
    let _ = BuildPolicy::Loose;
}
