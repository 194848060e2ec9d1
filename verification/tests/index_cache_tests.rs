use obs_shogi::file_table::FileTable;
use obs_shogi::fs_scan::{snapshot_from_records, FileRecord, KifuKind, ScanSnapshot};
use obs_shogi::index_builder::bucketize_entries;
use obs_shogi::index_cache::{
    build_checkpoint, decode_all, decode_with_hash, encode_all, hex32, kind_to_u8,
    restore_checkpoint, root_hash, save_plan, try_restore, u8_to_kind, write_string, write_u16,
    write_u32, write_u64, write_u8, CheckpointError, DecodeError, EncodeCtx, Reader, RestoreError,
    SaveStep,
};
use obs_shogi::index_store::{IndexState, IndexStore, NodeTables};
use obs_shogi::node_table::{NodeTable, NodeTableBuilder};
use obs_shogi::path_ids::PathIds;
use obs_shogi::position_key::PositionKey;
use obs_shogi::types::{FileEntry, ForkPointer, Occurrence};

fn key(bucket: u8, low: u64) -> PositionKey {
    PositionKey { z0: ((bucket as u64) << 56) | low, z1: low.wrapping_mul(3) }
}

fn occ(file_id: u32, gen: u32, node_id: u32) -> Occurrence {
    Occurrence { file_id, gen, node_id }
}

fn rec(path: &str, kind: KifuKind, size: u64, mtime_ms: u128) -> FileRecord {
    FileRecord { path: path.to_string(), kind, size, mtime_ms }
}

/// A store with three files, one of them indexed twice and one tombstoned.
fn fixture() -> (IndexStore, ScanSnapshot, PathIds, u32) {
    let mut store = IndexStore::new();
    let mut nt = NodeTableBuilder::new();
    nt.push_node(0, &vec![]);
    nt.push_node(6, &vec![ForkPointer { te: 5, fork_index: 1 }]);
    store.insert_file_segments(
        FileEntry { file_id: 1, path: "/lib/a.kif".into(), deleted: false, gen: 1 },
        nt.finish(),
        bucketize_entries(vec![(key(3, 1), occ(1, 1, 0)), (key(3, 2), occ(1, 1, 1))]),
    );
    store.insert_file_segments(
        FileEntry { file_id: 2, path: "/lib/日本語.csa".into(), deleted: false, gen: 1 },
        NodeTable::empty(),
        bucketize_entries(vec![(key(3, 1), occ(2, 1, 0)), (key(200, 7), occ(2, 1, 1))]),
    );
    store.insert_file_segments(
        FileEntry { file_id: 4, path: "/lib/c.jkf".into(), deleted: false, gen: 1 },
        NodeTable::empty(),
        bucketize_entries(vec![(key(3, 1), occ(4, 1, 0))]),
    );
    store.insert_file_segments(
        FileEntry { file_id: 1, path: "/lib/a.kif".into(), deleted: false, gen: 2 },
        NodeTable::empty(),
        bucketize_entries(vec![(key(3, 1), occ(1, 2, 0)), (key(3, 9), occ(1, 2, 1))]),
    );
    store.tombstone_file(4);
    store.set_state(IndexState::Ready);
    let scan = snapshot_from_records(
        "/lib",
        vec![
            rec("/lib/a.kif", KifuKind::Kif, 10, 1_700_000_000_123),
            rec("/lib/日本語.csa", KifuKind::Csa, 20, 5),
        ],
    );
    let mut ids = PathIds::new();
    ids.insert("/lib/a.kif".to_string(), 1);
    ids.insert("/lib/日本語.csa".to_string(), 2);
    (store, scan, ids, 5)
}

#[test]
fn little_endian_writers() {
    let mut w = vec![0xAAu8];
    write_u8(&mut w, 7);
    write_u16(&mut w, 0x0102);
    write_u32(&mut w, 0x0A0B0C0D);
    write_u64(&mut w, 0x1122334455667788);
    assert_eq!(
        w,
        vec![
            0xAA, 7, 0x02, 0x01, 0x0D, 0x0C, 0x0B, 0x0A, 0x88, 0x77, 0x66, 0x55, 0x44, 0x33,
            0x22, 0x11
        ]
    );
}

#[test]
fn strings_are_length_prefixed_utf8() {
    let mut w = Vec::new();
    write_string(&mut w, "aé");
    assert_eq!(w, vec![3, 0, 0, 0, b'a', 0xC3, 0xA9]);
    let mut r = Reader::new(&w);
    assert_eq!(r.read_string().unwrap(), "aé");
    assert_eq!(r.read_u8(), Err(DecodeError::UnexpectedEof));
}

#[test]
fn reader_reads_back_what_the_writers_wrote() {
    let mut w = Vec::new();
    write_u8(&mut w, 200);
    write_u16(&mut w, 65535);
    write_u32(&mut w, 4_000_000_000);
    write_u64(&mut w, u64::MAX - 1);
    write_string(&mut w, "");
    let mut r = Reader::new(&w);
    assert_eq!(r.read_u8(), Ok(200));
    assert_eq!(r.read_u16(), Ok(65535));
    assert_eq!(r.read_u32(), Ok(4_000_000_000));
    assert_eq!(r.read_u64(), Ok(u64::MAX - 1));
    assert_eq!(r.read_string().unwrap(), "");
    assert_eq!(r.read_u32(), Err(DecodeError::UnexpectedEof));
}

#[test]
fn reader_errors_on_short_or_invalid_input() {
    let bytes = [1u8, 2, 3];
    assert_eq!(Reader::new(&bytes).read_u32(), Err(DecodeError::UnexpectedEof));
    assert_eq!(Reader::new(&bytes).read_u64(), Err(DecodeError::UnexpectedEof));
    assert_eq!(Reader::new(&bytes).read_fixed(4).unwrap_err(), DecodeError::UnexpectedEof);
    assert_eq!(Reader::new(&bytes).read_fixed(3).unwrap(), &[1, 2, 3]);
    // a string that claims more bytes than there are
    let short = [5u8, 0, 0, 0, b'a'];
    assert_eq!(Reader::new(&short).read_string().unwrap_err(), DecodeError::UnexpectedEof);
    // a string that is not UTF-8
    let bad = [2u8, 0, 0, 0, 0xFF, 0xFE];
    assert_eq!(Reader::new(&bad).read_string().unwrap_err(), DecodeError::BadUtf8);
}

#[test]
fn kind_codes() {
    assert_eq!(kind_to_u8(KifuKind::Kif), 1);
    assert_eq!(kind_to_u8(KifuKind::Ki2), 2);
    assert_eq!(kind_to_u8(KifuKind::Csa), 3);
    assert_eq!(kind_to_u8(KifuKind::Jkf), 4);
    assert_eq!(u8_to_kind(1), Ok(KifuKind::Kif));
    assert_eq!(u8_to_kind(4), Ok(KifuKind::Jkf));
    assert_eq!(u8_to_kind(0), Err(DecodeError::BadKind(0)));
    assert_eq!(u8_to_kind(5), Err(DecodeError::BadKind(5)));
}

#[test]
fn hex32_is_lowercase_hex() {
    assert_eq!(hex32(&[0x00, 0x0f, 0xa5, 0xff]), "000fa5ff");
    assert_eq!(hex32(&[]), "");
    let h = root_hash("/some/root");
    assert_eq!(hex32(&h).len(), 64);
}

#[test]
fn root_hash_is_the_blake3_digest_of_the_path() {
    let h = root_hash("");
    assert_eq!(h.len(), 32);
    assert_eq!(
        hex32(&h),
        "af1349b9f5f9a1a6a0404dea36dcc9499bcb25c9adc112b7cc9a93cae41f3262"
    );
    assert_ne!(root_hash("/a"), root_hash("/b"));
    assert_eq!(root_hash("/a"), root_hash("/a"));
}

fn encode_fixture(created_ms: u64) -> Vec<u8> {
    let (store, scan, ids, next) = fixture();
    let snap = store.snapshot();
    let buckets = obs_shogi::compaction::compact_all_buckets(snap);
    let h = root_hash("/lib");
    let ctx = EncodeCtx {
        created_ms,
        root_hash: &h,
        scan: &scan,
        path_to_id: &ids,
        next_file_id: next,
        ft: &snap.file_table,
        nts: &snap.node_tables,
    };
    let mut w = Vec::new();
    encode_all(&mut w, &ctx, &buckets).unwrap();
    w
}

#[test]
fn checkpoint_starts_with_magic_version_time_and_root_hash() {
    let w = encode_fixture(0x0102030405060708);
    assert_eq!(&w[0..8], b"OBSIXv01");
    assert_eq!(&w[8..12], &[1, 0, 0, 0]);
    assert_eq!(&w[12..20], &[8, 7, 6, 5, 4, 3, 2, 1]);
    assert_eq!(&w[20..52], root_hash("/lib").as_slice());
    // the file table has three entries, in order of id
    assert_eq!(&w[52..56], &[3, 0, 0, 0]);
    assert_eq!(&w[56..60], &[1, 0, 0, 0]);
    assert_eq!(&w[60..64], &[2, 0, 0, 0]);
    assert_eq!(w[64], 0);
}

#[test]
fn decode_reads_back_what_encode_wrote() {
    let w = encode_fixture(99);
    let r = decode_all(&w, "/lib").unwrap();
    let (store, scan, _ids, next) = fixture();
    let snap = store.snapshot();
    assert_eq!(r.next_file_id, next);
    assert_eq!(r.file_table.len(), 3);
    for id in [1u32, 2, 4] {
        let a = r.file_table.get(id).unwrap();
        let b = snap.file_table.get(id).unwrap();
        assert_eq!((a.file_id, a.gen, a.deleted, &a.path), (b.file_id, b.gen, b.deleted, &b.path));
    }
    assert_eq!(r.scan.root_dir, "/lib");
    assert_eq!(r.scan.by_path.len(), scan.by_path.len());
    for (a, b) in r.scan.by_path.iter().zip(scan.by_path.iter()) {
        assert_eq!((&a.path, a.kind, a.size, a.mtime_ms), (&b.path, b.kind, b.size, b.mtime_ms));
    }
    assert_eq!(r.path_to_id.get(&"/lib/a.kif".to_string()), Some(1));
    assert_eq!(r.path_to_id.get(&"/lib/日本語.csa".to_string()), Some(2));
    assert_eq!(r.path_to_id.len(), 2);
    assert_eq!(r.buckets, obs_shogi::compaction::compact_all_buckets(snap));
    assert_eq!(r.buckets[3], vec![(key(3, 1), occ(1, 2, 0)), (key(3, 1), occ(2, 1, 0)), (key(3, 9), occ(1, 2, 1))]);
    // node tables: file 1 has an empty one (its second build), file 2 and 4 too
    assert_eq!(r.node_tables.get(1).unwrap().nodes.len(), 0);
    assert!(r.node_tables.get(0).is_none());
    assert!(r.node_tables.get(3).is_none());
}

#[test]
fn trailing_bytes_are_ignored() {
    let mut w = encode_fixture(1);
    w.extend_from_slice(&[1, 2, 3]);
    assert!(decode_all(&w, "/lib").is_ok());
}

#[test]
fn decode_rejects_wrong_magic_version_root_and_truncation() {
    let w = encode_fixture(1);
    let mut bad = w.clone();
    bad[0] = b'X';
    assert_eq!(decode_all(&bad, "/lib").unwrap_err(), DecodeError::BadMagic);
    let mut ver = w.clone();
    ver[8] = 2;
    assert_eq!(decode_all(&ver, "/lib").unwrap_err(), DecodeError::BadVersion(2));
    assert_eq!(decode_all(&w, "/other").unwrap_err(), DecodeError::RootMismatch);
    assert_eq!(decode_with_hash(&w, "/lib", &[0u8; 32]).unwrap_err(), DecodeError::RootMismatch);
    assert_eq!(decode_all(&w[..w.len() - 1], "/lib").unwrap_err(), DecodeError::UnexpectedEof);
    assert_eq!(decode_all(&w[..30], "/lib").unwrap_err(), DecodeError::UnexpectedEof);
    assert_eq!(decode_all(&[], "/lib").unwrap_err(), DecodeError::UnexpectedEof);
    assert_eq!(decode_all(b"OBSIX", "/lib").unwrap_err(), DecodeError::UnexpectedEof);
}

#[test]
fn decode_rejects_a_bad_kind_code_and_bad_utf8() {
    let w = encode_fixture(1);
    // the first scan record follows the file table; find its kind byte
    let path = "/lib/a.kif".as_bytes();
    let mut at = None;
    for i in 56..w.len() - path.len() {
        if &w[i..i + path.len()] == path {
            at = Some(i);
        }
    }
    // the last occurrence of the path before the path ids is the scan record
    let first = (56..w.len() - path.len()).find(|&i| &w[i..i + path.len()] == path).unwrap();
    let second = (first + 1..w.len() - path.len())
        .find(|&i| &w[i..i + path.len()] == path)
        .unwrap();
    assert!(at.is_some());
    let mut bad_kind = w.clone();
    bad_kind[second + path.len()] = 9;
    assert_eq!(decode_all(&bad_kind, "/lib").unwrap_err(), DecodeError::BadKind(9));
    let mut bad_text = w.clone();
    bad_text[first] = 0xFF;
    assert_eq!(decode_all(&bad_text, "/lib").unwrap_err(), DecodeError::BadUtf8);
}

#[test]
fn save_then_restore_keeps_search_results() {
    let (store, scan, ids, next) = fixture();
    let snap = store.snapshot();
    let bytes = build_checkpoint("/lib", 1234, snap, &scan, &ids, next).unwrap();
    let restored = restore_checkpoint(&bytes, "/lib").unwrap();
    let mut fresh = IndexStore::new();
    fresh.start_restoring();
    fresh.install_restored(
        IndexState::Ready,
        restored.file_table,
        restored.node_tables,
        restored.buckets,
    );
    for k in [key(3, 1), key(3, 2), key(3, 9), key(200, 7), key(4, 4)] {
        assert_eq!(
            fresh.snapshot().search_occurrences_by_key(k),
            snap.search_occurrences_by_key(k)
        );
    }
    assert_eq!(fresh.snapshot().search_occurrences_by_key(key(3, 1)), vec![occ(1, 2, 0), occ(2, 1, 0)]);
}

#[test]
fn checkpoint_is_compressed_and_not_the_plain_encoding() {
    let (store, scan, ids, next) = fixture();
    let bytes = build_checkpoint("/lib", 1234, store.snapshot(), &scan, &ids, next).unwrap();
    // a zstd frame starts with its magic number
    assert_eq!(&bytes[0..4], &[0x28, 0xB5, 0x2F, 0xFD]);
    assert!(decode_all(&bytes, "/lib").is_err());
}

#[test]
fn restore_rejects_garbage_and_another_root() {
    let (store, scan, ids, next) = fixture();
    let bytes = build_checkpoint("/lib", 1, store.snapshot(), &scan, &ids, next).unwrap();
    assert!(matches!(
        restore_checkpoint(b"not a frame", "/lib").unwrap_err(),
        RestoreError::Decompress(_)
    ));
    assert!(matches!(
        restore_checkpoint(&bytes, "/elsewhere").unwrap_err(),
        RestoreError::Decode(DecodeError::RootMismatch)
    ));
}

#[test]
fn try_restore_falls_back_to_the_backup() {
    let (store, scan, ids, next) = fixture();
    let good = build_checkpoint("/lib", 1, store.snapshot(), &scan, &ids, next).unwrap();
    let bad = b"garbage".to_vec();
    assert!(try_restore(Some(&good), None, "/lib").is_ok());
    assert!(try_restore(Some(&good), Some(&bad), "/lib").is_ok());
    assert!(try_restore(Some(&bad), Some(&good), "/lib").is_ok());
    assert!(try_restore(None, Some(&good), "/lib").is_ok());
    let both = try_restore(Some(&bad), Some(&bad), "/lib").unwrap_err();
    assert!(matches!(both.primary, RestoreError::Decompress(_)));
    assert!(matches!(both.backup, Some(RestoreError::Decompress(_))));
    let alone = try_restore(Some(&bad), None, "/lib").unwrap_err();
    assert!(alone.backup.is_none());
    let missing = try_restore(None, None, "/lib").unwrap_err();
    assert!(matches!(missing.primary, RestoreError::Unreadable));
    let other_root = try_restore(Some(&good), None, "/other").unwrap_err();
    assert!(matches!(other_root.primary, RestoreError::Decode(DecodeError::RootMismatch)));
}

#[test]
fn save_plan_keeps_one_complete_file_on_disk() {
    assert_eq!(
        save_plan(false),
        vec![SaveStep::WriteTemp, SaveStep::MoveTempToFinal, SaveStep::RemoveBackup]
    );
    assert_eq!(
        save_plan(true),
        vec![
            SaveStep::WriteTemp,
            SaveStep::RemoveBackup,
            SaveStep::MoveFinalToBackup,
            SaveStep::MoveTempToFinal,
            SaveStep::RemoveBackup
        ]
    );
}

#[test]
fn empty_index_round_trips() {
    let store = IndexStore::new();
    let scan = ScanSnapshot::new();
    let ids = PathIds::new();
    let bytes = build_checkpoint("/r", 0, store.snapshot(), &scan, &ids, 1).unwrap();
    let r = restore_checkpoint(&bytes, "/r").unwrap();
    assert_eq!(r.file_table.len(), 0);
    assert_eq!(r.next_file_id, 1);
    assert!(r.buckets.iter().all(|b| b.is_empty()));
    assert_eq!(r.buckets.len(), 256);
    let _ = FileTable::new();
    let _ = NodeTables::new();
    let e: Result<Vec<u8>, CheckpointError> = Ok(bytes);
    assert!(e.is_ok());
}

#[test]
fn checkpoints_of_a_compacted_index_are_byte_identical() {
    let (store, scan, ids, next) = fixture();
    let snap = store.snapshot();
    let h = root_hash("/lib");
    let once = obs_shogi::compaction::compact_all_buckets(snap);
    // install what the first compaction left and compact again
    let mut second = IndexStore::new();
    let mut ft = FileTable::new();
    for e in snap.file_table.entries() {
        ft.upsert(e.clone());
    }
    second.install_restored(IndexState::Ready, ft, snap.node_tables.clone(), once.clone());
    let twice = obs_shogi::compaction::compact_all_buckets(second.snapshot());
    assert_eq!(once, twice);
    let encode = |buckets: &Vec<Vec<(PositionKey, Occurrence)>>| {
        let ctx = EncodeCtx {
            created_ms: 7,
            root_hash: &h,
            scan: &scan,
            path_to_id: &ids,
            next_file_id: next,
            ft: &snap.file_table,
            nts: &snap.node_tables,
        };
        let mut w = Vec::new();
        encode_all(&mut w, &ctx, buckets).unwrap();
        w
    };
    assert_eq!(encode(&once), encode(&twice));
}
