use vstd::prelude::*;
use vstd::bytes::*;
use vstd::slice::slice_subrange;
use vstd::string::*;
use vstd::utf8::*;
use crate::compaction::{compact_all_buckets, compacted, lemma_compacted_holds};
use crate::text::text_from_utf8;
use crate::file_table::{has_id, ids_increase, index_of_id, map_of_entries, occ_alive, FileTable};
use crate::fs_scan::{keyed_by_path, snapshot_from_records, FileRecord, KifuKind, ScanSnapshot};
use crate::index_store::{
    holds_entry, lemma_search_liveness, slots_with, with_run, IndexModel, IndexSnapshot,
    IndexState, NodeTables, BUCKET_COUNT,
};
use crate::sorting::{lemma_sorted_by_rank_props, sorted_by_rank};
use crate::node_table::{ForkPtr, NodeCursor, NodeTable};
use crate::path_ids::{PathId, PathIds};
use crate::position_key::PositionKey;
use crate::segment::Entry;
use crate::types::{FileEntry, FileId, Occurrence};

verus! {

/// The format version that is written and the only one that is read.
pub const VERSION: u32 = 1;

/// The eight bytes a checkpoint starts with.
pub open spec fn magic() -> Seq<u8> {
    seq![0x4fu8, 0x42u8, 0x53u8, 0x49u8, 0x58u8, 0x76u8, 0x30u8, 0x31u8]
}

/// Why bytes are not a checkpoint of this project.
#[derive(Debug, Clone, Copy, PartialEq, Eq, Structural)]
pub enum DecodeError {
    /// The bytes do not start with the magic marker.
    BadMagic,
    /// The format version is not the one this library reads.
    BadVersion(u32),
    /// The checkpoint belongs to another project root.
    RootMismatch,
    /// The bytes end before the checkpoint does.
    UnexpectedEof,
    /// A file kind code is none of the known ones.
    BadKind(u8),
    /// A string is not valid UTF-8.
    BadUtf8,
}

/// Why a snapshot cannot be written as a checkpoint.
#[derive(Debug, Clone, Copy, PartialEq, Eq, Structural)]
pub enum EncodeError {
    /// A list or a string is longer than the format's 32-bit counters can say.
    TooLong,
}

/// A file table entry as the format holds it.
pub struct FileEntryModel {
    pub file_id: u32,
    pub gen: u32,
    pub deleted: bool,
    pub path: Seq<char>,
}

/// A scan record as the format holds it.
pub struct FileRecordModel {
    pub path: Seq<char>,
    pub kind: KifuKind,
    pub size: u64,
    pub mtime_ms: u64,
}

/// A node table with its file id as the format holds it.
pub struct NodeTableModel {
    pub file_id: u32,
    pub nodes: Seq<NodeCursor>,
    pub forks: Seq<ForkPtr>,
}

/// Everything a checkpoint holds, in the order of the format.
pub struct CacheModel {
    pub created_ms: u64,
    pub root_hash: Seq<u8>,
    pub files: Seq<FileEntryModel>,
    pub scan: Seq<FileRecordModel>,
    pub next_file_id: u32,
    pub path_ids: Seq<(Seq<char>, u32)>,
    pub node_tables: Seq<NodeTableModel>,
    pub buckets: Seq<Seq<Entry>>,
}

pub type Parsed<T> = Result<(T, Seq<u8>), DecodeError>;

pub open spec fn spec_kind_code(k: KifuKind) -> u8 {
    match k {
        KifuKind::Kif => 1,
        KifuKind::Ki2 => 2,
        KifuKind::Csa => 3,
        KifuKind::Jkf => 4,
    }
}

pub open spec fn spec_kind_of_code(v: u8) -> Option<KifuKind> {
    if v == 1 {
        Some(KifuKind::Kif)
    } else if v == 2 {
        Some(KifuKind::Ki2)
    } else if v == 3 {
        Some(KifuKind::Csa)
    } else if v == 4 {
        Some(KifuKind::Jkf)
    } else {
        None
    }
}

// ---- what is written ----

pub open spec fn enc_u8(v: u8) -> Seq<u8> {
    seq![v]
}

pub open spec fn enc_u16(v: u16) -> Seq<u8> {
    spec_u16_to_le_bytes(v)
}

pub open spec fn enc_u32(v: u32) -> Seq<u8> {
    spec_u32_to_le_bytes(v)
}

pub open spec fn enc_u64(v: u64) -> Seq<u8> {
    spec_u64_to_le_bytes(v)
}

/// A string: the length of its UTF-8 form as a 32-bit number, then that form.
pub open spec fn enc_str(s: Seq<char>) -> Seq<u8> {
    enc_u32(encode_utf8(s).len() as u32) + encode_utf8(s)
}

pub open spec fn enc_file_entry(e: FileEntryModel) -> Seq<u8> {
    enc_u32(e.file_id) + enc_u32(e.gen) + enc_u8(if e.deleted { 1 } else { 0 }) + enc_str(e.path)
}

pub open spec fn enc_record(r: FileRecordModel) -> Seq<u8> {
    enc_str(r.path) + enc_u8(spec_kind_code(r.kind)) + enc_u64(r.size) + enc_u64(r.mtime_ms)
}

pub open spec fn enc_path_id(p: (Seq<char>, u32)) -> Seq<u8> {
    enc_str(p.0) + enc_u32(p.1)
}

pub open spec fn enc_node(n: NodeCursor) -> Seq<u8> {
    enc_u32(n.tesuu) + enc_u32(n.fork_off) + enc_u16(n.fork_len) + enc_u16(0)
}

pub open spec fn enc_fork(f: ForkPtr) -> Seq<u8> {
    enc_u32(f.te) + enc_u32(f.fork_index)
}

pub open spec fn enc_entry(e: Entry) -> Seq<u8> {
    enc_u64(e.0.z0) + enc_u64(e.0.z1) + enc_u32(e.1.file_id) + enc_u32(e.1.gen) + enc_u32(
        e.1.node_id,
    )
}

/// The items of a list one after another.
pub open spec fn enc_many<T>(items: Seq<T>, enc: spec_fn(T) -> Seq<u8>) -> Seq<u8>
    decreases items.len(),
{
    if items.len() == 0 {
        Seq::empty()
    } else {
        enc(items[0]) + enc_many(items.skip(1), enc)
    }
}

pub open spec fn enc_node_table(t: NodeTableModel) -> Seq<u8> {
    enc_u32(t.file_id) + enc_u32(t.nodes.len() as u32) + enc_u32(t.forks.len() as u32) + enc_many(
        t.nodes,
        enc_node_fn(),
    ) + enc_many(t.forks, enc_fork_fn())
}

pub open spec fn enc_bucket(b: Seq<Entry>) -> Seq<u8> {
    enc_u32(b.len() as u32) + enc_many(b, enc_entry_fn())
}

/// What a checkpoint holds behind its header: the file table, the scan
/// records, the next file id and the path ids, the node tables, and the
/// entry list of each shard.
pub open spec fn enc_tables(m: CacheModel) -> Seq<u8> {
    enc_u32(m.files.len() as u32) + enc_many(m.files, enc_file_entry_fn()) + (enc_u32(
        m.scan.len() as u32,
    ) + enc_many(m.scan, enc_record_fn()) + (enc_u32(m.next_file_id) + (enc_u32(
        m.path_ids.len() as u32,
    ) + enc_many(m.path_ids, enc_path_id_fn()) + (enc_u32(m.node_tables.len() as u32) + enc_many(
        m.node_tables,
        enc_node_table_fn(),
    ) + enc_many(m.buckets, enc_bucket_fn())))))
}

/// The whole checkpoint: magic marker, version, creation time and root
/// hash, then the tables.
pub open spec fn enc_cache(m: CacheModel) -> Seq<u8> {
    magic() + (enc_u32(VERSION) + (enc_u64(m.created_ms) + (m.root_hash + enc_tables(m))))
}

// ---- what is read ----

pub open spec fn take_u8(r: Seq<u8>) -> Parsed<u8> {
    if r.len() >= 1 {
        Ok((r[0], r.skip(1)))
    } else {
        Err(DecodeError::UnexpectedEof)
    }
}

pub open spec fn take_u16(r: Seq<u8>) -> Parsed<u16> {
    if r.len() >= 2 {
        Ok((spec_u16_from_le_bytes(r.take(2)), r.skip(2)))
    } else {
        Err(DecodeError::UnexpectedEof)
    }
}

pub open spec fn take_u32(r: Seq<u8>) -> Parsed<u32> {
    if r.len() >= 4 {
        Ok((spec_u32_from_le_bytes(r.take(4)), r.skip(4)))
    } else {
        Err(DecodeError::UnexpectedEof)
    }
}

pub open spec fn take_u64(r: Seq<u8>) -> Parsed<u64> {
    if r.len() >= 8 {
        Ok((spec_u64_from_le_bytes(r.take(8)), r.skip(8)))
    } else {
        Err(DecodeError::UnexpectedEof)
    }
}

pub open spec fn take_fixed(r: Seq<u8>, n: int) -> Parsed<Seq<u8>> {
    if r.len() >= n {
        Ok((r.take(n), r.skip(n)))
    } else {
        Err(DecodeError::UnexpectedEof)
    }
}

pub open spec fn take_str(r: Seq<u8>) -> Parsed<Seq<char>> {
    match take_u32(r) {
        Err(e) => Err(e),
        Ok((n, r1)) => if r1.len() < n {
            Err(DecodeError::UnexpectedEof)
        } else if !valid_utf8(r1.take(n as int)) {
            Err(DecodeError::BadUtf8)
        } else {
            Ok((decode_utf8(r1.take(n as int)), r1.skip(n as int)))
        },
    }
}

pub open spec fn take_file_entry(r: Seq<u8>) -> Parsed<FileEntryModel> {
    match take_u32(r) {
        Err(e) => Err(e),
        Ok((file_id, r1)) => match take_u32(r1) {
            Err(e) => Err(e),
            Ok((gen, r2)) => match take_u8(r2) {
                Err(e) => Err(e),
                Ok((d, r3)) => match take_str(r3) {
                    Err(e) => Err(e),
                    Ok((path, r4)) => Ok(
                        (FileEntryModel { file_id, gen, deleted: d != 0, path }, r4),
                    ),
                },
            },
        },
    }
}

pub open spec fn take_record(r: Seq<u8>) -> Parsed<FileRecordModel> {
    match take_str(r) {
        Err(e) => Err(e),
        Ok((path, r1)) => match take_u8(r1) {
            Err(e) => Err(e),
            Ok((code, r2)) => match spec_kind_of_code(code) {
                None => Err(DecodeError::BadKind(code)),
                Some(kind) => match take_u64(r2) {
                    Err(e) => Err(e),
                    Ok((size, r3)) => match take_u64(r3) {
                        Err(e) => Err(e),
                        Ok((mtime_ms, r4)) => Ok(
                            (FileRecordModel { path, kind, size, mtime_ms }, r4),
                        ),
                    },
                },
            },
        },
    }
}

pub open spec fn take_path_id(r: Seq<u8>) -> Parsed<(Seq<char>, u32)> {
    match take_str(r) {
        Err(e) => Err(e),
        Ok((path, r1)) => match take_u32(r1) {
            Err(e) => Err(e),
            Ok((id, r2)) => Ok(((path, id), r2)),
        },
    }
}

pub open spec fn take_node(r: Seq<u8>) -> Parsed<NodeCursor> {
    match take_u32(r) {
        Err(e) => Err(e),
        Ok((tesuu, r1)) => match take_u32(r1) {
            Err(e) => Err(e),
            Ok((fork_off, r2)) => match take_u16(r2) {
                Err(e) => Err(e),
                Ok((fork_len, r3)) => match take_u16(r3) {
                    Err(e) => Err(e),
                    Ok((pad, r4)) => Ok((NodeCursor { tesuu, fork_off, fork_len }, r4)),
                },
            },
        },
    }
}

pub open spec fn take_fork(r: Seq<u8>) -> Parsed<ForkPtr> {
    match take_u32(r) {
        Err(e) => Err(e),
        Ok((te, r1)) => match take_u32(r1) {
            Err(e) => Err(e),
            Ok((fork_index, r2)) => Ok((ForkPtr { te, fork_index }, r2)),
        },
    }
}

pub open spec fn take_entry(r: Seq<u8>) -> Parsed<Entry> {
    match take_u64(r) {
        Err(e) => Err(e),
        Ok((z0, r1)) => match take_u64(r1) {
            Err(e) => Err(e),
            Ok((z1, r2)) => match take_u32(r2) {
                Err(e) => Err(e),
                Ok((file_id, r3)) => match take_u32(r3) {
                    Err(e) => Err(e),
                    Ok((gen, r4)) => match take_u32(r4) {
                        Err(e) => Err(e),
                        Ok((node_id, r5)) => Ok(
                            ((PositionKey { z0, z1 }, Occurrence { file_id, gen, node_id }), r5),
                        ),
                    },
                },
            },
        },
    }
}

/// Reads `n` items one after another; the first failure is the result.
pub open spec fn take_many<T>(r: Seq<u8>, n: nat, one: spec_fn(Seq<u8>) -> Parsed<T>) -> Parsed<
    Seq<T>,
>
    decreases n,
{
    if n == 0 {
        Ok((Seq::empty(), r))
    } else {
        match one(r) {
            Err(e) => Err(e),
            Ok((x, r1)) => match take_many(r1, (n - 1) as nat, one) {
                Err(e) => Err(e),
                Ok((xs, r2)) => Ok((seq![x] + xs, r2)),
            },
        }
    }
}

/// Reads a 32-bit count and then that many items.
pub open spec fn take_counted<T>(r: Seq<u8>, one: spec_fn(Seq<u8>) -> Parsed<T>) -> Parsed<Seq<T>> {
    match take_u32(r) {
        Err(e) => Err(e),
        Ok((n, r1)) => take_many(r1, n as nat, one),
    }
}

pub open spec fn take_node_table(r: Seq<u8>) -> Parsed<NodeTableModel> {
    match take_u32(r) {
        Err(e) => Err(e),
        Ok((file_id, r1)) => match take_u32(r1) {
            Err(e) => Err(e),
            Ok((nodes_len, r2)) => match take_u32(r2) {
                Err(e) => Err(e),
                Ok((forks_len, r3)) => match take_many(
                    r3,
                    nodes_len as nat,
                    take_node_fn(),
                ) {
                    Err(e) => Err(e),
                    Ok((nodes, r4)) => match take_many(
                        r4,
                        forks_len as nat,
                        take_fork_fn(),
                    ) {
                        Err(e) => Err(e),
                        Ok((forks, r5)) => Ok((NodeTableModel { file_id, nodes, forks }, r5)),
                    },
                },
            },
        },
    }
}

pub open spec fn take_bucket(r: Seq<u8>) -> Parsed<Seq<Entry>> {
    take_counted(r, take_entry_fn())
}

/// Reads a whole checkpoint for the project whose root has the hash
/// `root_hash`. Bytes behind the last shard are not looked at.
pub open spec fn take_cache(r: Seq<u8>, root_hash: Seq<u8>) -> Result<CacheModel, DecodeError> {
    match take_fixed(r, 8) {
        Err(e) => Err(e),
        Ok((m, r1)) => if m != magic() {
            Err(DecodeError::BadMagic)
        } else {
            match take_u32(r1) {
                Err(e) => Err(e),
                Ok((ver, r2)) => if ver != VERSION {
                    Err(DecodeError::BadVersion(ver))
                } else {
                    match take_u64(r2) {
                        Err(e) => Err(e),
                        Ok((created_ms, r3)) => match take_fixed(r3, 32) {
                            Err(e) => Err(e),
                            Ok((saved, r4)) => if saved != root_hash {
                                Err(DecodeError::RootMismatch)
                            } else {
                                take_tables(r4, created_ms, saved)
                            },
                        },
                    }
                },
            }
        },
    }
}

/// Reads what follows the header of a checkpoint.
pub open spec fn take_tables(r: Seq<u8>, created_ms: u64, root_hash: Seq<u8>) -> Result<
    CacheModel,
    DecodeError,
> {
    match take_counted(r, take_file_entry_fn()) {
        Err(e) => Err(e),
        Ok((files, r1)) => match take_counted(r1, take_record_fn()) {
            Err(e) => Err(e),
            Ok((scan, r2)) => match take_u32(r2) {
                Err(e) => Err(e),
                Ok((next_file_id, r3)) => match take_counted(r3, take_path_id_fn()) {
                    Err(e) => Err(e),
                    Ok((path_ids, r4)) => match take_counted(
                        r4,
                        take_node_table_fn(),
                    ) {
                        Err(e) => Err(e),
                        Ok((node_tables, r5)) => match take_many(
                            r5,
                            BUCKET_COUNT as nat,
                            take_bucket_fn(),
                        ) {
                            Err(e) => Err(e),
                            Ok((buckets, r6)) => Ok(
                                CacheModel {
                                    created_ms,
                                    root_hash,
                                    files,
                                    scan,
                                    next_file_id,
                                    path_ids,
                                    node_tables,
                                    buckets,
                                },
                            ),
                        },
                    },
                },
            },
        },
    }
}

// ---- the formats as functions, for lists ----

pub open spec fn enc_file_entry_fn() -> spec_fn(FileEntryModel) -> Seq<u8> {
    |x: FileEntryModel| enc_file_entry(x)
}

pub open spec fn take_file_entry_fn() -> spec_fn(Seq<u8>) -> Parsed<FileEntryModel> {
    |r: Seq<u8>| take_file_entry(r)
}

pub open spec fn enc_record_fn() -> spec_fn(FileRecordModel) -> Seq<u8> {
    |x: FileRecordModel| enc_record(x)
}

pub open spec fn take_record_fn() -> spec_fn(Seq<u8>) -> Parsed<FileRecordModel> {
    |r: Seq<u8>| take_record(r)
}

pub open spec fn enc_path_id_fn() -> spec_fn((Seq<char>, u32)) -> Seq<u8> {
    |x: (Seq<char>, u32)| enc_path_id(x)
}

pub open spec fn take_path_id_fn() -> spec_fn(Seq<u8>) -> Parsed<(Seq<char>, u32)> {
    |r: Seq<u8>| take_path_id(r)
}

pub open spec fn enc_node_fn() -> spec_fn(NodeCursor) -> Seq<u8> {
    |x: NodeCursor| enc_node(x)
}

pub open spec fn take_node_fn() -> spec_fn(Seq<u8>) -> Parsed<NodeCursor> {
    |r: Seq<u8>| take_node(r)
}

pub open spec fn enc_fork_fn() -> spec_fn(ForkPtr) -> Seq<u8> {
    |x: ForkPtr| enc_fork(x)
}

pub open spec fn take_fork_fn() -> spec_fn(Seq<u8>) -> Parsed<ForkPtr> {
    |r: Seq<u8>| take_fork(r)
}

pub open spec fn enc_entry_fn() -> spec_fn(Entry) -> Seq<u8> {
    |x: Entry| enc_entry(x)
}

pub open spec fn take_entry_fn() -> spec_fn(Seq<u8>) -> Parsed<Entry> {
    |r: Seq<u8>| take_entry(r)
}

pub open spec fn enc_node_table_fn() -> spec_fn(NodeTableModel) -> Seq<u8> {
    |x: NodeTableModel| enc_node_table(x)
}

pub open spec fn take_node_table_fn() -> spec_fn(Seq<u8>) -> Parsed<NodeTableModel> {
    |r: Seq<u8>| take_node_table(r)
}

pub open spec fn enc_bucket_fn() -> spec_fn(Seq<Entry>) -> Seq<u8> {
    |x: Seq<Entry>| enc_bucket(x)
}

pub open spec fn take_bucket_fn() -> spec_fn(Seq<u8>) -> Parsed<Seq<Entry>> {
    |r: Seq<u8>| take_bucket(r)
}

/// Appends `bytes` to `w`.
pub fn append_bytes(w: &mut Vec<u8>, bytes: &[u8])
    ensures
        final(w)@ == old(w)@ + bytes@,
{
    let mut i: usize = 0;
    while i < bytes.len()
        invariant
            i <= bytes@.len(),
            w@ == old(w)@ + bytes@.take(i as int),
        decreases bytes@.len() - i,
    {
        w.push(bytes[i]);
        proof {
            assert(bytes@.take(i + 1) =~= bytes@.take(i as int).push(bytes@[i as int]));
            assert(w@ =~= old(w)@ + bytes@.take(i + 1));
        }
        i += 1;
    }
    proof {
        assert(bytes@.take(i as int) == bytes@);
    }
}

pub fn kind_to_u8(k: KifuKind) -> (v: u8)
    ensures
        v == spec_kind_code(k),
{
    match k {
        KifuKind::Kif => 1,
        KifuKind::Ki2 => 2,
        KifuKind::Csa => 3,
        KifuKind::Jkf => 4,
    }
}

pub fn u8_to_kind(v: u8) -> (r: Result<KifuKind, DecodeError>)
    ensures
        match spec_kind_of_code(v) {
            Some(k) => r == Ok::<KifuKind, DecodeError>(k),
            None => r == Err::<KifuKind, DecodeError>(DecodeError::BadKind(v)),
        },
{
    if v == 1 {
        Ok(KifuKind::Kif)
    } else if v == 2 {
        Ok(KifuKind::Ki2)
    } else if v == 3 {
        Ok(KifuKind::Csa)
    } else if v == 4 {
        Ok(KifuKind::Jkf)
    } else {
        Err(DecodeError::BadKind(v))
    }
}

pub fn write_u8(w: &mut Vec<u8>, v: u8)
    ensures
        final(w)@ == old(w)@ + enc_u8(v),
{
    w.push(v);
    proof {
        assert(w@ =~= old(w)@ + enc_u8(v));
    }
}

pub fn write_u16(w: &mut Vec<u8>, v: u16)
    ensures
        final(w)@ == old(w)@ + enc_u16(v),
{
    let b = u16_to_le_bytes(v);
    append_bytes(w, b.as_slice());
}

pub fn write_u32(w: &mut Vec<u8>, v: u32)
    ensures
        final(w)@ == old(w)@ + enc_u32(v),
{
    let b = u32_to_le_bytes(v);
    append_bytes(w, b.as_slice());
}

pub fn write_u64(w: &mut Vec<u8>, v: u64)
    ensures
        final(w)@ == old(w)@ + enc_u64(v),
{
    let b = u64_to_le_bytes(v);
    append_bytes(w, b.as_slice());
}

/// Whether the UTF-8 form of `s` is short enough for a 32-bit length.
pub open spec fn str_fits(s: Seq<char>) -> bool {
    encode_utf8(s).len() <= u32::MAX
}

/// Writes a string as its length and its UTF-8 form.
pub fn write_string(w: &mut Vec<u8>, s: &str)
    requires
        str_fits(s@),
    ensures
        final(w)@ == old(w)@ + enc_str(s@),
{
    let b = s.as_bytes();
    write_u32(w, b.len() as u32);
    append_bytes(w, b);
    proof {
        assert(w@ =~= old(w)@ + enc_str(s@));
    }
}

/// A cursor over the bytes of a checkpoint.
pub struct Reader<'a> {
    b: &'a [u8],
    i: usize,
}

impl<'a> Reader<'a> {
    /// The bytes not read yet.
    pub closed spec fn rest(&self) -> Seq<u8> {
        self.b@.skip(self.i as int)
    }

    pub closed spec fn wf(&self) -> bool {
        self.i <= self.b@.len()
    }

    pub fn new(b: &'a [u8]) -> (r: Self)
        ensures
            r.wf(),
            r.rest() == b@,
    {
        let r = Reader { b, i: 0 };
        proof {
            assert(b@.skip(0) =~= b@);
        }
        r
    }

    pub fn read_u8(&mut self) -> (r: Result<u8, DecodeError>)
        requires
            old(self).wf(),
        ensures
            final(self).wf(),
            match take_u8(old(self).rest()) {
                Ok((v, rest)) => r == Ok::<u8, DecodeError>(v) && final(self).rest() == rest,
                Err(e) => r == Err::<u8, DecodeError>(e),
            },
    {
        if self.b.len() - self.i < 1 {
            return Err(DecodeError::UnexpectedEof);
        }
        let v = self.b[self.i];
        self.i += 1;
        proof {
            assert(self.rest() =~= old(self).rest().skip(1));
        }
        Ok(v)
    }

    /// Reads exactly `n` bytes.
    pub fn read_fixed(&mut self, n: usize) -> (r: Result<&'a [u8], DecodeError>)
        requires
            old(self).wf(),
        ensures
            final(self).wf(),
            match take_fixed(old(self).rest(), n as int) {
                Ok((v, rest)) => r is Ok && r.unwrap()@ == v && final(self).rest() == rest,
                Err(e) => r is Err && r.unwrap_err() == e,
            },
    {
        if self.b.len() - self.i < n {
            return Err(DecodeError::UnexpectedEof);
        }
        let out = slice_subrange(self.b, self.i, self.i + n);
        proof {
            assert(out@ =~= old(self).rest().take(n as int));
        }
        self.i += n;
        proof {
            assert(self.rest() =~= old(self).rest().skip(n as int));
        }
        Ok(out)
    }

    pub fn read_u16(&mut self) -> (r: Result<u16, DecodeError>)
        requires
            old(self).wf(),
        ensures
            final(self).wf(),
            match take_u16(old(self).rest()) {
                Ok((v, rest)) => r == Ok::<u16, DecodeError>(v) && final(self).rest() == rest,
                Err(e) => r == Err::<u16, DecodeError>(e),
            },
    {
        match self.read_fixed(2) {
            Ok(a) => Ok(u16_from_le_bytes(a)),
            Err(e) => Err(e),
        }
    }

    pub fn read_u32(&mut self) -> (r: Result<u32, DecodeError>)
        requires
            old(self).wf(),
        ensures
            final(self).wf(),
            match take_u32(old(self).rest()) {
                Ok((v, rest)) => r == Ok::<u32, DecodeError>(v) && final(self).rest() == rest,
                Err(e) => r == Err::<u32, DecodeError>(e),
            },
    {
        match self.read_fixed(4) {
            Ok(a) => Ok(u32_from_le_bytes(a)),
            Err(e) => Err(e),
        }
    }

    pub fn read_u64(&mut self) -> (r: Result<u64, DecodeError>)
        requires
            old(self).wf(),
        ensures
            final(self).wf(),
            match take_u64(old(self).rest()) {
                Ok((v, rest)) => r == Ok::<u64, DecodeError>(v) && final(self).rest() == rest,
                Err(e) => r == Err::<u64, DecodeError>(e),
            },
    {
        match self.read_fixed(8) {
            Ok(a) => Ok(u64_from_le_bytes(a)),
            Err(e) => Err(e),
        }
    }

    /// Reads a string: its length, then that many bytes of UTF-8.
    pub fn read_string(&mut self) -> (r: Result<String, DecodeError>)
        requires
            old(self).wf(),
        ensures
            final(self).wf(),
            match take_str(old(self).rest()) {
                Ok((v, rest)) => r is Ok && r.unwrap()@ == v && final(self).rest() == rest,
                Err(e) => r is Err && r.unwrap_err() == e,
            },
    {
        let n = match self.read_u32() {
            Ok(n) => n as usize,
            Err(e) => {
                return Err(e);
            },
        };
        let bytes = match self.read_fixed(n) {
            Ok(b) => b,
            Err(e) => {
                return Err(e);
            },
        };
        match text_from_utf8(bytes) {
            Some(s) => Ok(s),
            None => Err(DecodeError::BadUtf8),
        }
    }
}

pub open spec fn entry_model(e: FileEntry) -> FileEntryModel {
    FileEntryModel { file_id: e.file_id, gen: e.gen, deleted: e.deleted, path: e.path@ }
}

/// A scan record as it is written: the modification time is cut to 64 bits.
pub open spec fn record_model(r: FileRecord) -> FileRecordModel {
    FileRecordModel {
        path: r.path@,
        kind: r.kind,
        size: r.size,
        mtime_ms: (r.mtime_ms % 0x1_0000_0000_0000_0000) as u64,
    }
}

pub open spec fn pair_model(p: PathId) -> (Seq<char>, u32) {
    (p.path@, p.file_id)
}

pub open spec fn entry_models(s: Seq<FileEntry>) -> Seq<FileEntryModel> {
    s.map_values(|e: FileEntry| entry_model(e))
}

pub open spec fn record_models(s: Seq<FileRecord>) -> Seq<FileRecordModel> {
    s.map_values(|r: FileRecord| record_model(r))
}

pub open spec fn pair_models(s: Seq<PathId>) -> Seq<(Seq<char>, u32)> {
    s.map_values(|p: PathId| pair_model(p))
}

/// The node tables that are stored, each with its file id, in order of id.
pub open spec fn table_models(slots: Seq<Option<NodeTable>>) -> Seq<NodeTableModel>
    decreases slots.len(),
{
    if slots.len() == 0 {
        Seq::empty()
    } else {
        let rest = table_models(slots.drop_last());
        match slots.last() {
            Some(t) => rest.push(
                NodeTableModel {
                    file_id: (slots.len() - 1) as u32,
                    nodes: t.nodes@,
                    forks: t.forks@,
                },
            ),
            None => rest,
        }
    }
}

pub open spec fn files_fit(m: Seq<FileEntryModel>) -> bool {
    m.len() <= u32::MAX && forall|i: int| 0 <= i < m.len() ==> str_fits((#[trigger] m[i]).path)
}

pub open spec fn records_fit(m: Seq<FileRecordModel>) -> bool {
    m.len() <= u32::MAX && forall|i: int| 0 <= i < m.len() ==> str_fits((#[trigger] m[i]).path)
}

pub open spec fn path_ids_fit(m: Seq<(Seq<char>, u32)>) -> bool {
    m.len() <= u32::MAX && forall|i: int| 0 <= i < m.len() ==> str_fits((#[trigger] m[i]).0)
}

pub open spec fn tables_fit(m: Seq<NodeTableModel>) -> bool {
    m.len() <= u32::MAX && forall|i: int|
        0 <= i < m.len() ==> (#[trigger] m[i]).nodes.len() <= u32::MAX && m[i].forks.len()
            <= u32::MAX
}

pub open spec fn buckets_fit(m: Seq<Seq<Entry>>) -> bool {
    forall|i: int| 0 <= i < m.len() ==> (#[trigger] m[i]).len() <= u32::MAX
}

/// Whether every count and every string of `m` can be written: counts and
/// string lengths are 32-bit numbers in the format.
pub open spec fn model_fits(m: CacheModel) -> bool {
    &&& files_fit(m.files)
    &&& records_fit(m.scan)
    &&& path_ids_fit(m.path_ids)
    &&& tables_fit(m.node_tables)
    &&& buckets_fit(m.buckets)
}

/// `pre` and behind it the checkpoint of `m`, section by section.
pub open spec fn enc_cache_onto(pre: Seq<u8>, m: CacheModel) -> Seq<u8> {
    pre + magic() + enc_u32(VERSION) + enc_u64(m.created_ms) + m.root_hash + enc_u32(
        m.files.len() as u32,
    ) + enc_many(m.files, enc_file_entry_fn()) + enc_u32(m.scan.len() as u32) + enc_many(
        m.scan,
        enc_record_fn(),
    ) + enc_u32(m.next_file_id) + enc_u32(m.path_ids.len() as u32) + enc_many(
        m.path_ids,
        enc_path_id_fn(),
    ) + enc_u32(m.node_tables.len() as u32) + enc_many(m.node_tables, enc_node_table_fn())
        + enc_many(m.buckets, enc_bucket_fn())
}

/// Concatenation may be bracketed either way.
pub proof fn lemma_assoc(a: Seq<u8>, b: Seq<u8>, c: Seq<u8>)
    ensures
        (a + b) + c == a + (b + c),
{
    assert((a + b) + c =~= a + (b + c));
}

pub proof fn lemma_enc_cache_onto(pre: Seq<u8>, m: CacheModel)
    ensures
        enc_cache_onto(pre, m) == pre + enc_cache(m),
{
    let mg = magic();
    let ver = enc_u32(VERSION);
    let cr = enc_u64(m.created_ms);
    let rh = m.root_hash;
    let fl = enc_u32(m.files.len() as u32);
    let fs = enc_many(m.files, enc_file_entry_fn());
    let sl = enc_u32(m.scan.len() as u32);
    let ss = enc_many(m.scan, enc_record_fn());
    let nx = enc_u32(m.next_file_id);
    let pl = enc_u32(m.path_ids.len() as u32);
    let ps = enc_many(m.path_ids, enc_path_id_fn());
    let tl = enc_u32(m.node_tables.len() as u32);
    let ts = enc_many(m.node_tables, enc_node_table_fn());
    let bs = enc_many(m.buckets, enc_bucket_fn());
    let t5 = tl + ts + bs;
    let t4 = pl + ps + t5;
    let t3 = nx + t4;
    let t2 = sl + ss + t3;
    let t1 = fl + fs + t2;
    let a = pre + mg + ver + cr + rh;
    let b1 = a + fl + fs;
    let b2 = b1 + sl + ss;
    let b3 = b2 + nx;
    let b4 = b3 + pl + ps;
    assert(enc_cache_onto(pre, m) == b4 + tl + ts + bs);
    assert(b4 + tl + ts + bs == b4 + t5) by {
        lemma_assoc(b4, tl, ts);
        lemma_assoc(b4, tl + ts, bs);
    }
    assert(b4 + t5 == b3 + t4) by {
        lemma_assoc(b3, pl, ps);
        lemma_assoc(b3, pl + ps, t5);
    }
    assert(b3 + t4 == b2 + t3) by {
        lemma_assoc(b2, nx, t4);
    }
    assert(b2 + t3 == b1 + t2) by {
        lemma_assoc(b1, sl, ss);
        lemma_assoc(b1, sl + ss, t3);
    }
    assert(b1 + t2 == a + t1) by {
        lemma_assoc(a, fl, fs);
        lemma_assoc(a, fl + fs, t2);
    }
    assert(enc_tables(m) == t1);
    assert(a + t1 == pre + enc_cache(m)) by {
        lemma_assoc(pre + mg + ver + cr, rh, t1);
        lemma_assoc(pre + mg + ver, cr, rh + t1);
        lemma_assoc(pre + mg, ver, cr + (rh + t1));
        lemma_assoc(pre, mg, ver + (cr + (rh + t1)));
    }
}

/// Writing a list and then one more item writes the longer list.
pub proof fn lemma_enc_many_push<T>(items: Seq<T>, x: T, enc: spec_fn(T) -> Seq<u8>)
    ensures
        enc_many(items.push(x), enc) == enc_many(items, enc) + enc(x),
    decreases items.len(),
{
    reveal_with_fuel(enc_many, 2);
    if items.len() == 0 {
        assert(items.push(x).skip(1) =~= Seq::<T>::empty());
        assert(enc_many(items.push(x), enc) =~= enc(x));
        assert(enc_many(items, enc) + enc(x) =~= enc(x));
    } else {
        lemma_enc_many_push(items.skip(1), x, enc);
        assert(items.push(x).skip(1) =~= items.skip(1).push(x));
        assert(enc(items[0]) + (enc_many(items.skip(1), enc) + enc(x)) =~= (enc(items[0])
            + enc_many(items.skip(1), enc)) + enc(x));
    }
}

/// What a checkpoint is written from.
pub struct EncodeCtx<'a> {
    /// When the checkpoint is made, in milliseconds since the Unix epoch.
    pub created_ms: u64,
    /// The hash of the project root's path.
    pub root_hash: &'a Vec<u8>,
    pub scan: &'a ScanSnapshot,
    pub path_to_id: &'a PathIds,
    pub next_file_id: FileId,
    pub ft: &'a FileTable,
    pub nts: &'a NodeTables,
}

/// The entries of each list of `runs`.
pub open spec fn bucket_models(runs: Seq<Vec<(PositionKey, Occurrence)>>) -> Seq<Seq<Entry>> {
    runs.map_values(|r: Vec<(PositionKey, Occurrence)>| r@)
}

impl<'a> EncodeCtx<'a> {
    /// What a checkpoint of this context and of `buckets` holds.
    pub open spec fn model(&self, buckets: Seq<Vec<(PositionKey, Occurrence)>>) -> CacheModel {
        CacheModel {
            created_ms: self.created_ms,
            root_hash: self.root_hash@,
            files: entry_models(self.ft.spec_entries()),
            scan: record_models(self.scan.by_path@),
            next_file_id: self.next_file_id,
            path_ids: pair_models(self.path_to_id.entries@),
            node_tables: table_models(self.nts.slots()),
            buckets: bucket_models(buckets),
        }
    }
}

fn fits_u32(n: usize) -> (r: Result<u32, EncodeError>)
    ensures
        n <= u32::MAX ==> r == Ok::<u32, EncodeError>(n as u32),
        n > u32::MAX ==> r is Err,
{
    if n > 0xffff_ffff {
        Err(EncodeError::TooLong)
    } else {
        Ok(n as u32)
    }
}

fn write_text(w: &mut Vec<u8>, s: &String) -> (r: Result<(), EncodeError>)
    ensures
        str_fits(s@) ==> r is Ok && final(w)@ == old(w)@ + enc_str(s@),
        !str_fits(s@) ==> r is Err,
{
    let n = s.as_str().as_bytes().len();
    if n > 0xffff_ffff {
        return Err(EncodeError::TooLong);
    }
    write_string(w, s.as_str());
    Ok(())
}

fn write_file_entries(w: &mut Vec<u8>, entries: &Vec<FileEntry>) -> (r: Result<(), EncodeError>)
    ensures
        ({
            let m = entry_models(entries@);
            let fits = files_fit(m);
            &&& fits ==> r is Ok && final(w)@ == old(w)@ + enc_u32(m.len() as u32) + enc_many(
                m,
                enc_file_entry_fn(),
            )
            &&& !fits ==> r is Err
        }),
{
    let ghost m = entry_models(entries@);
    let n = match fits_u32(entries.len()) {
        Ok(n) => n,
        Err(e) => {
            return Err(e);
        },
    };
    write_u32(w, n);
    let mut i: usize = 0;
    while i < entries.len()
        invariant
            i <= entries@.len(),
            m == entry_models(entries@),
            m.len() <= u32::MAX,
            n == m.len(),
            forall|k: int| 0 <= k < i ==> str_fits((#[trigger] m[k]).path),
            w@ == old(w)@ + enc_u32(n) + enc_many(m.take(i as int), enc_file_entry_fn()),
        decreases entries@.len() - i,
    {
        let e = &entries[i];
        let ghost before = w@;
        write_u32(w, e.file_id);
        write_u32(w, e.gen);
        write_u8(w, if e.deleted { 1 } else { 0 });
        match write_text(w, &e.path) {
            Ok(()) => {},
            Err(err) => {
                proof {
                    assert(!str_fits(m[i as int].path));
                }
                return Err(err);
            },
        }
        proof {
            assert(m[i as int] == entry_model(*e));
            assert(w@ =~= before + enc_file_entry(m[i as int]));
            lemma_enc_many_push(m.take(i as int), m[i as int], enc_file_entry_fn());
            assert(m.take(i + 1) =~= m.take(i as int).push(m[i as int]));
            assert(w@ =~= old(w)@ + enc_u32(n) + enc_many(m.take(i + 1), enc_file_entry_fn()));
        }
        i += 1;
    }
    proof {
        assert(m.take(i as int) == m);
    }
    Ok(())
}

fn write_records(w: &mut Vec<u8>, recs: &Vec<FileRecord>) -> (r: Result<(), EncodeError>)
    ensures
        ({
            let m = record_models(recs@);
            let fits = records_fit(m);
            &&& fits ==> r is Ok && final(w)@ == old(w)@ + enc_u32(m.len() as u32) + enc_many(
                m,
                enc_record_fn(),
            )
            &&& !fits ==> r is Err
        }),
{
    let ghost m = record_models(recs@);
    let n = match fits_u32(recs.len()) {
        Ok(n) => n,
        Err(e) => {
            return Err(e);
        },
    };
    write_u32(w, n);
    let mut i: usize = 0;
    while i < recs.len()
        invariant
            i <= recs@.len(),
            m == record_models(recs@),
            m.len() <= u32::MAX,
            n == m.len(),
            forall|k: int| 0 <= k < i ==> str_fits((#[trigger] m[k]).path),
            w@ == old(w)@ + enc_u32(n) + enc_many(m.take(i as int), enc_record_fn()),
        decreases recs@.len() - i,
    {
        let r = &recs[i];
        let ghost before = w@;
        match write_text(w, &r.path) {
            Ok(()) => {},
            Err(err) => {
                proof {
                    assert(!str_fits(m[i as int].path));
                }
                return Err(err);
            },
        }
        write_u8(w, kind_to_u8(r.kind));
        write_u64(w, r.size);
        write_u64(w, (r.mtime_ms % 0x1_0000_0000_0000_0000) as u64);
        proof {
            assert(m[i as int] == record_model(*r));
            assert(w@ =~= before + enc_record(m[i as int]));
            lemma_enc_many_push(m.take(i as int), m[i as int], enc_record_fn());
            assert(m.take(i + 1) =~= m.take(i as int).push(m[i as int]));
            assert(w@ =~= old(w)@ + enc_u32(n) + enc_many(m.take(i + 1), enc_record_fn()));
        }
        i += 1;
    }
    proof {
        assert(m.take(i as int) == m);
    }
    Ok(())
}

fn write_path_ids(w: &mut Vec<u8>, pairs: &Vec<PathId>) -> (r: Result<(), EncodeError>)
    ensures
        ({
            let m = pair_models(pairs@);
            let fits = path_ids_fit(m);
            &&& fits ==> r is Ok && final(w)@ == old(w)@ + enc_u32(m.len() as u32) + enc_many(
                m,
                enc_path_id_fn(),
            )
            &&& !fits ==> r is Err
        }),
{
    let ghost m = pair_models(pairs@);
    let n = match fits_u32(pairs.len()) {
        Ok(n) => n,
        Err(e) => {
            return Err(e);
        },
    };
    write_u32(w, n);
    let mut i: usize = 0;
    while i < pairs.len()
        invariant
            i <= pairs@.len(),
            m == pair_models(pairs@),
            m.len() <= u32::MAX,
            n == m.len(),
            forall|k: int| 0 <= k < i ==> str_fits((#[trigger] m[k]).0),
            w@ == old(w)@ + enc_u32(n) + enc_many(m.take(i as int), enc_path_id_fn()),
        decreases pairs@.len() - i,
    {
        let p = &pairs[i];
        let ghost before = w@;
        match write_text(w, &p.path) {
            Ok(()) => {},
            Err(err) => {
                proof {
                    assert(!str_fits(m[i as int].0));
                }
                return Err(err);
            },
        }
        write_u32(w, p.file_id);
        proof {
            assert(m[i as int] == pair_model(*p));
            assert(w@ =~= before + enc_path_id(m[i as int]));
            lemma_enc_many_push(m.take(i as int), m[i as int], enc_path_id_fn());
            assert(m.take(i + 1) =~= m.take(i as int).push(m[i as int]));
            assert(w@ =~= old(w)@ + enc_u32(n) + enc_many(m.take(i + 1), enc_path_id_fn()));
        }
        i += 1;
    }
    proof {
        assert(m.take(i as int) == m);
    }
    Ok(())
}

fn write_nodes(w: &mut Vec<u8>, nodes: &Vec<NodeCursor>)
    ensures
        final(w)@ == old(w)@ + enc_many(nodes@, enc_node_fn()),
{
    let mut i: usize = 0;
    proof {
        assert(w@ =~= old(w)@ + enc_many(nodes@.take(0), enc_node_fn()));
    }
    while i < nodes.len()
        invariant
            i <= nodes@.len(),
            w@ == old(w)@ + enc_many(nodes@.take(i as int), enc_node_fn()),
        decreases nodes@.len() - i,
    {
        let n = nodes[i];
        let ghost before = w@;
        write_u32(w, n.tesuu);
        write_u32(w, n.fork_off);
        write_u16(w, n.fork_len);
        write_u16(w, 0);
        proof {
            assert(w@ =~= before + enc_node(n));
            lemma_enc_many_push(nodes@.take(i as int), n, enc_node_fn());
            assert(nodes@.take(i + 1) =~= nodes@.take(i as int).push(n));
            assert(w@ =~= old(w)@ + enc_many(nodes@.take(i + 1), enc_node_fn()));
        }
        i += 1;
    }
    proof {
        assert(nodes@.take(i as int) == nodes@);
    }
}

fn write_forks(w: &mut Vec<u8>, forks: &Vec<ForkPtr>)
    ensures
        final(w)@ == old(w)@ + enc_many(forks@, enc_fork_fn()),
{
    let mut i: usize = 0;
    proof {
        assert(w@ =~= old(w)@ + enc_many(forks@.take(0), enc_fork_fn()));
    }
    while i < forks.len()
        invariant
            i <= forks@.len(),
            w@ == old(w)@ + enc_many(forks@.take(i as int), enc_fork_fn()),
        decreases forks@.len() - i,
    {
        let f = forks[i];
        let ghost before = w@;
        write_u32(w, f.te);
        write_u32(w, f.fork_index);
        proof {
            assert(w@ =~= before + enc_fork(f));
            lemma_enc_many_push(forks@.take(i as int), f, enc_fork_fn());
            assert(forks@.take(i + 1) =~= forks@.take(i as int).push(f));
            assert(w@ =~= old(w)@ + enc_many(forks@.take(i + 1), enc_fork_fn()));
        }
        i += 1;
    }
    proof {
        assert(forks@.take(i as int) == forks@);
    }
}

fn write_entries(w: &mut Vec<u8>, entries: &Vec<(PositionKey, Occurrence)>)
    ensures
        final(w)@ == old(w)@ + enc_many(entries@, enc_entry_fn()),
{
    let mut i: usize = 0;
    proof {
        assert(w@ =~= old(w)@ + enc_many(entries@.take(0), enc_entry_fn()));
    }
    while i < entries.len()
        invariant
            i <= entries@.len(),
            w@ == old(w)@ + enc_many(entries@.take(i as int), enc_entry_fn()),
        decreases entries@.len() - i,
    {
        let e = entries[i];
        let ghost before = w@;
        write_u64(w, e.0.z0);
        write_u64(w, e.0.z1);
        write_u32(w, e.1.file_id);
        write_u32(w, e.1.gen);
        write_u32(w, e.1.node_id);
        proof {
            assert(w@ =~= before + enc_entry(e));
            lemma_enc_many_push(entries@.take(i as int), e, enc_entry_fn());
            assert(entries@.take(i + 1) =~= entries@.take(i as int).push(e));
            assert(w@ =~= old(w)@ + enc_many(entries@.take(i + 1), enc_entry_fn()));
        }
        i += 1;
    }
    proof {
        assert(entries@.take(i as int) == entries@);
    }
}

proof fn lemma_table_models_len(slots: Seq<Option<NodeTable>>)
    ensures
        table_models(slots).len() <= slots.len(),
    decreases slots.len(),
{
    if slots.len() > 0 {
        lemma_table_models_len(slots.drop_last());
    }
}

fn write_node_tables(w: &mut Vec<u8>, slots: &Vec<Option<NodeTable>>) -> (r: Result<
    (),
    EncodeError,
>)
    ensures
        ({
            let m = table_models(slots@);
            let fits = slots@.len() <= 0x1_0000_0000 && tables_fit(m);
            &&& fits ==> r is Ok && final(w)@ == old(w)@ + enc_u32(m.len() as u32) + enc_many(
                m,
                enc_node_table_fn(),
            )
            &&& !fits ==> r is Err
        }),
{
    let ghost m = table_models(slots@);
    if slots.len() > 0 && slots.len() - 1 > 0xffff_ffff {
        return Err(EncodeError::TooLong);
    }
    let mut count: usize = 0;
    let mut i: usize = 0;
    while i < slots.len()
        invariant
            i <= slots@.len(),
            count == table_models(slots@.take(i as int)).len(),
            count <= i,
        decreases slots@.len() - i,
    {
        proof {
            assert(slots@.take(i + 1).drop_last() == slots@.take(i as int));
            assert(slots@.take(i + 1).last() == slots@[i as int]);
        }
        if slots[i].is_some() {
            count += 1;
        }
        i += 1;
    }
    proof {
        assert(slots@.take(i as int) == slots@);
    }
    let n = match fits_u32(count) {
        Ok(n) => n,
        Err(e) => {
            return Err(e);
        },
    };
    write_u32(w, n);
    let mut i: usize = 0;
    proof {
        assert(w@ =~= old(w)@ + enc_u32(n) + enc_many(
            table_models(slots@.take(0)),
            enc_node_table_fn(),
        ));
    }
    while i < slots.len()
        invariant
            i <= slots@.len(),
            slots@.len() <= 0x1_0000_0000,
            m == table_models(slots@),
            n == m.len(),
            forall|k: int|
                0 <= k < table_models(slots@.take(i as int)).len() ==> (#[trigger] table_models(
                    slots@.take(i as int),
                )[k]).nodes.len() <= u32::MAX && table_models(
                    slots@.take(i as int),
                )[k].forks.len() <= u32::MAX,
            w@ == old(w)@ + enc_u32(n) + enc_many(
                table_models(slots@.take(i as int)),
                enc_node_table_fn(),
            ),
        decreases slots@.len() - i,
    {
        proof {
            assert(slots@.take(i + 1).drop_last() == slots@.take(i as int));
            assert(slots@.take(i + 1).last() == slots@[i as int]);
        }
        match &slots[i] {
            Some(t) => {
                let ghost before = w@;
                let ghost done = table_models(slots@.take(i as int));
                let ghost tm = NodeTableModel {
                    file_id: i as u32,
                    nodes: t.nodes@,
                    forks: t.forks@,
                };
                proof {
                    assert(table_models(slots@.take(i + 1)) == done.push(tm));
                    lemma_table_models_tail(slots@, i as int);
                }
                let nodes_len = match fits_u32(t.nodes.len()) {
                    Ok(v) => v,
                    Err(e) => {
                        return Err(e);
                    },
                };
                let forks_len = match fits_u32(t.forks.len()) {
                    Ok(v) => v,
                    Err(e) => {
                        return Err(e);
                    },
                };
                write_u32(w, i as u32);
                write_u32(w, nodes_len);
                write_u32(w, forks_len);
                write_nodes(w, &t.nodes);
                write_forks(w, &t.forks);
                proof {
                    assert(w@ =~= before + enc_node_table(tm));
                    lemma_enc_many_push(done, tm, enc_node_table_fn());
                    assert(w@ =~= old(w)@ + enc_u32(n) + enc_many(
                        done.push(tm),
                        enc_node_table_fn(),
                    ));
                }
            },
            None => {},
        }
        i += 1;
    }
    proof {
        assert(slots@.take(i as int) == slots@);
    }
    Ok(())
}

/// The model of the table in slot `i` stands in the models of all slots.
proof fn lemma_table_models_tail(slots: Seq<Option<NodeTable>>, i: int)
    requires
        0 <= i < slots.len(),
        slots[i] is Some,
    ensures
        ({
            let k = table_models(slots.take(i)).len() as int;
            &&& k < table_models(slots).len()
            &&& table_models(slots)[k] == (NodeTableModel {
                file_id: i as u32,
                nodes: slots[i].unwrap().nodes@,
                forks: slots[i].unwrap().forks@,
            })
        }),
    decreases slots.len(),
{
    let n = slots.len() - 1;
    if i == n {
        assert(slots.take(i) == slots.drop_last());
    } else {
        lemma_table_models_tail(slots.drop_last(), i);
        assert(slots.drop_last().take(i) == slots.take(i));
        assert(slots.drop_last()[i] == slots[i]);
    }
}

fn write_buckets(w: &mut Vec<u8>, buckets: &Vec<Vec<(PositionKey, Occurrence)>>) -> (r: Result<
    (),
    EncodeError,
>)
    ensures
        ({
            let m = bucket_models(buckets@);
            let fits = buckets_fit(m);
            &&& fits ==> r is Ok && final(w)@ == old(w)@ + enc_many(m, enc_bucket_fn())
            &&& !fits ==> r is Err
        }),
{
    let ghost m = bucket_models(buckets@);
    let mut i: usize = 0;
    proof {
        assert(w@ =~= old(w)@ + enc_many(m.take(0), enc_bucket_fn()));
    }
    while i < buckets.len()
        invariant
            i <= buckets@.len(),
            m == bucket_models(buckets@),
            forall|k: int| 0 <= k < i ==> (#[trigger] m[k]).len() <= u32::MAX,
            w@ == old(w)@ + enc_many(m.take(i as int), enc_bucket_fn()),
        decreases buckets@.len() - i,
    {
        let b = &buckets[i];
        let ghost before = w@;
        let n = match fits_u32(b.len()) {
            Ok(n) => n,
            Err(e) => {
                proof {
                    assert(m[i as int].len() > u32::MAX);
                }
                return Err(e);
            },
        };
        write_u32(w, n);
        write_entries(w, b);
        proof {
            assert(m[i as int] == b@);
            assert(w@ =~= before + enc_bucket(m[i as int]));
            lemma_enc_many_push(m.take(i as int), m[i as int], enc_bucket_fn());
            assert(m.take(i + 1) =~= m.take(i as int).push(m[i as int]));
            assert(w@ =~= old(w)@ + enc_many(m.take(i + 1), enc_bucket_fn()));
        }
        i += 1;
    }
    proof {
        assert(m.take(i as int) == m);
    }
    Ok(())
}

impl<'a> EncodeCtx<'a> {
    /// Whether a checkpoint of this context and of `buckets` can be written:
    /// every count and string length fits 32 bits, and so does every file id
    /// that has a node table.
    pub open spec fn encodable(&self, buckets: Seq<Vec<(PositionKey, Occurrence)>>) -> bool {
        &&& model_fits(self.model(buckets))
        &&& self.nts.slots().len() <= 0x1_0000_0000
    }
}

/// Writes a checkpoint behind what `w` holds. When a count or a string is
/// too long for the format, nothing is promised of `w`.
pub fn encode_all(
    w: &mut Vec<u8>,
    ctx: &EncodeCtx<'_>,
    buckets: &Vec<Vec<(PositionKey, Occurrence)>>,
) -> (r: Result<(), EncodeError>)
    requires
        ctx.ft.wf(),
    ensures
        ctx.encodable(buckets@) ==> r is Ok && final(w)@ == old(w)@ + enc_cache(
            ctx.model(buckets@),
        ),
        !ctx.encodable(buckets@) ==> r is Err,
{
    let ghost m = ctx.model(buckets@);
    write_u8(w, 0x4f);
    write_u8(w, 0x42);
    write_u8(w, 0x53);
    write_u8(w, 0x49);
    write_u8(w, 0x58);
    write_u8(w, 0x76);
    write_u8(w, 0x30);
    write_u8(w, 0x31);
    proof {
        assert(w@ =~= old(w)@ + magic());
    }
    write_u32(w, VERSION);
    write_u64(w, ctx.created_ms);
    append_bytes(w, ctx.root_hash.as_slice());
    match write_file_entries(w, &ctx.ft.entries()) {
        Ok(()) => {},
        Err(e) => {
            return Err(e);
        },
    }
    match write_records(w, &ctx.scan.by_path) {
        Ok(()) => {},
        Err(e) => {
            return Err(e);
        },
    }
    write_u32(w, ctx.next_file_id);
    match write_path_ids(w, &ctx.path_to_id.entries) {
        Ok(()) => {},
        Err(e) => {
            return Err(e);
        },
    }
    match write_node_tables(w, ctx.nts.by_id_iter()) {
        Ok(()) => {},
        Err(e) => {
            return Err(e);
        },
    }
    match write_buckets(w, buckets) {
        Ok(()) => {},
        Err(e) => {
            return Err(e);
        },
    }
    proof {
        assert(w@ == enc_cache_onto(old(w)@, m));
        lemma_enc_cache_onto(old(w)@, m);
    }
    Ok(())
}

/// `acc` put before the items of a parse result.
pub open spec fn prepend<T>(acc: Seq<T>, res: Parsed<Seq<T>>) -> Parsed<Seq<T>> {
    match res {
        Ok((xs, r)) => Ok((acc + xs, r)),
        Err(e) => Err(e),
    }
}

proof fn lemma_take_many_start<T>(r: Seq<u8>, n: nat, one: spec_fn(Seq<u8>) -> Parsed<T>)
    ensures
        take_many(r, n, one) == prepend(Seq::<T>::empty(), take_many(r, n, one)),
{
    match take_many(r, n, one) {
        Ok((xs, rest)) => {
            assert(Seq::<T>::empty() + xs =~= xs);
        },
        Err(e) => {},
    }
}

proof fn lemma_take_many_step<T>(
    acc: Seq<T>,
    r: Seq<u8>,
    n: nat,
    one: spec_fn(Seq<u8>) -> Parsed<T>,
)
    requires
        n > 0,
    ensures
        match one(r) {
            Ok((x, r1)) => prepend(acc, take_many(r, n, one)) == prepend(
                acc.push(x),
                take_many(r1, (n - 1) as nat, one),
            ),
            Err(e) => prepend(acc, take_many(r, n, one)) == Err::<(Seq<T>, Seq<u8>), DecodeError>(
                e,
            ),
        },
{
    match one(r) {
        Ok((x, r1)) => {
            match take_many(r1, (n - 1) as nat, one) {
                Ok((xs, r2)) => {
                    assert(acc + (seq![x] + xs) =~= acc.push(x) + xs);
                },
                Err(e) => {},
            }
        },
        Err(e) => {},
    }
}

proof fn lemma_take_many_done<T>(acc: Seq<T>, r: Seq<u8>, one: spec_fn(Seq<u8>) -> Parsed<T>)
    ensures
        prepend(acc, take_many(r, 0, one)) == Ok::<(Seq<T>, Seq<u8>), DecodeError>((acc, r)),
{
    assert(acc + Seq::<T>::empty() =~= acc);
}

/// The file table that entries make up when they are put in one after
/// another: of several entries with one id the last one counts.
pub open spec fn fold_entries(files: Seq<FileEntryModel>) -> Map<FileId, FileEntryModel>
    decreases files.len(),
{
    if files.len() == 0 {
        Map::empty()
    } else {
        fold_entries(files.drop_last()).insert(files.last().file_id, files.last())
    }
}

/// The path-to-id map that pairs make up when they are put in one after
/// another.
pub open spec fn fold_pairs(pairs: Seq<(Seq<char>, u32)>) -> Map<Seq<char>, FileId>
    decreases pairs.len(),
{
    if pairs.len() == 0 {
        Map::empty()
    } else {
        fold_pairs(pairs.drop_last()).insert(pairs.last().0, pairs.last().1)
    }
}

/// The node table slots that tables make up when they are stored one after
/// another.
pub open spec fn fold_tables(tables: Seq<NodeTableModel>) -> Seq<
    Option<(Seq<NodeCursor>, Seq<ForkPtr>)>,
>
    decreases tables.len(),
{
    if tables.len() == 0 {
        Seq::empty()
    } else {
        slots_with(
            fold_tables(tables.drop_last()),
            tables.last().file_id,
            (tables.last().nodes, tables.last().forks),
        )
    }
}

/// The entries of a file table as the format holds them.
pub open spec fn file_models(ft: Map<FileId, FileEntry>) -> Map<FileId, FileEntryModel> {
    ft.map_values(|e: FileEntry| entry_model(e))
}

pub open spec fn slot_view(o: Option<NodeTable>) -> Option<(Seq<NodeCursor>, Seq<ForkPtr>)> {
    match o {
        Some(t) => Some((t.nodes@, t.forks@)),
        None => None,
    }
}

/// The nodes and forks of each slot.
pub open spec fn slot_views(slots: Seq<Option<NodeTable>>) -> Seq<
    Option<(Seq<NodeCursor>, Seq<ForkPtr>)>,
> {
    slots.map_values(|o: Option<NodeTable>| slot_view(o))
}

fn read_file_table(rd: &mut Reader<'_>) -> (r: Result<FileTable, DecodeError>)
    requires
        old(rd).wf(),
    ensures
        final(rd).wf(),
        match take_counted(old(rd).rest(), take_file_entry_fn()) {
            Ok((ms, rest)) => r is Ok && r->Ok_0.wf() && file_models(r->Ok_0@) == fold_entries(ms)
                && final(rd).rest() == rest,
            Err(e) => r is Err && r->Err_0 == e,
        },
{
    let n = match rd.read_u32() {
        Ok(n) => n,
        Err(e) => {
            return Err(e);
        },
    };
    let ghost r0 = rd.rest();
    let ghost one = take_file_entry_fn();
    let mut ft = FileTable::new();
    let ghost mut acc: Seq<FileEntryModel> = Seq::empty();
    let mut k: u32 = 0;
    proof {
        lemma_take_many_start(r0, n as nat, one);
        assert(file_models(ft@) =~= fold_entries(acc));
    }
    while k < n
        invariant
            k <= n,
            rd.wf(),
            ft.wf(),
            one == take_file_entry_fn(),
            take_counted(old(rd).rest(), one) == take_many(r0, n as nat, one),
            file_models(ft@) == fold_entries(acc),
            take_many(r0, n as nat, one) == prepend(
                acc,
                take_many(rd.rest(), (n - k) as nat, one),
            ),
        decreases n - k,
    {
        proof {
            lemma_take_many_step(acc, rd.rest(), (n - k) as nat, one);
        }
        let file_id = match rd.read_u32() {
            Ok(v) => v,
            Err(e) => {
                return Err(e);
            },
        };
        let gen = match rd.read_u32() {
            Ok(v) => v,
            Err(e) => {
                return Err(e);
            },
        };
        let deleted = match rd.read_u8() {
            Ok(v) => v != 0,
            Err(e) => {
                return Err(e);
            },
        };
        let path = match rd.read_string() {
            Ok(v) => v,
            Err(e) => {
                return Err(e);
            },
        };
        let entry = FileEntry { file_id, gen, deleted, path };
        let ghost before = ft@;
        ft.upsert(entry);
        proof {
            let m = entry_model(entry);
            assert(acc.push(m).drop_last() == acc);
            assert(file_models(ft@) =~= file_models(before).insert(file_id, m));
            acc = acc.push(m);
        }
        k += 1;
    }
    proof {
        lemma_take_many_done(acc, rd.rest(), one);
    }
    Ok(ft)
}

fn read_records(rd: &mut Reader<'_>) -> (r: Result<Vec<FileRecord>, DecodeError>)
    requires
        old(rd).wf(),
    ensures
        final(rd).wf(),
        match take_counted(old(rd).rest(), take_record_fn()) {
            Ok((ms, rest)) => r is Ok && record_models(r->Ok_0@) == ms && final(rd).rest() == rest,
            Err(e) => r is Err && r->Err_0 == e,
        },
{
    let n = match rd.read_u32() {
        Ok(n) => n,
        Err(e) => {
            return Err(e);
        },
    };
    let ghost r0 = rd.rest();
    let ghost one = take_record_fn();
    let mut out: Vec<FileRecord> = Vec::new();
    let mut k: u32 = 0;
    proof {
        lemma_take_many_start(r0, n as nat, one);
        assert(record_models(out@) =~= Seq::<FileRecordModel>::empty());
    }
    while k < n
        invariant
            k <= n,
            rd.wf(),
            one == take_record_fn(),
            take_counted(old(rd).rest(), one) == take_many(r0, n as nat, one),
            take_many(r0, n as nat, one) == prepend(
                record_models(out@),
                take_many(rd.rest(), (n - k) as nat, one),
            ),
        decreases n - k,
    {
        proof {
            lemma_take_many_step(record_models(out@), rd.rest(), (n - k) as nat, one);
        }
        let path = match rd.read_string() {
            Ok(v) => v,
            Err(e) => {
                return Err(e);
            },
        };
        let code = match rd.read_u8() {
            Ok(v) => v,
            Err(e) => {
                return Err(e);
            },
        };
        let kind = match u8_to_kind(code) {
            Ok(v) => v,
            Err(e) => {
                return Err(e);
            },
        };
        let size = match rd.read_u64() {
            Ok(v) => v,
            Err(e) => {
                return Err(e);
            },
        };
        let mtime = match rd.read_u64() {
            Ok(v) => v,
            Err(e) => {
                return Err(e);
            },
        };
        let rec = FileRecord { path, kind, size, mtime_ms: mtime as u128 };
        let ghost before = out@;
        out.push(rec);
        proof {
            assert(record_models(out@) =~= record_models(before).push(record_model(rec)));
        }
        k += 1;
    }
    proof {
        lemma_take_many_done(record_models(out@), rd.rest(), one);
    }
    Ok(out)
}

fn read_path_ids(rd: &mut Reader<'_>) -> (r: Result<PathIds, DecodeError>)
    requires
        old(rd).wf(),
    ensures
        final(rd).wf(),
        match take_counted(old(rd).rest(), take_path_id_fn()) {
            Ok((ms, rest)) => r is Ok && r->Ok_0.wf() && r->Ok_0@ == fold_pairs(ms)
                && final(rd).rest() == rest,
            Err(e) => r is Err && r->Err_0 == e,
        },
{
    let n = match rd.read_u32() {
        Ok(n) => n,
        Err(e) => {
            return Err(e);
        },
    };
    let ghost r0 = rd.rest();
    let ghost one = take_path_id_fn();
    let mut ids = PathIds::new();
    let ghost mut acc: Seq<(Seq<char>, u32)> = Seq::empty();
    let mut k: u32 = 0;
    proof {
        lemma_take_many_start(r0, n as nat, one);
    }
    while k < n
        invariant
            k <= n,
            rd.wf(),
            ids.wf(),
            one == take_path_id_fn(),
            take_counted(old(rd).rest(), one) == take_many(r0, n as nat, one),
            ids@ == fold_pairs(acc),
            take_many(r0, n as nat, one) == prepend(
                acc,
                take_many(rd.rest(), (n - k) as nat, one),
            ),
        decreases n - k,
    {
        proof {
            lemma_take_many_step(acc, rd.rest(), (n - k) as nat, one);
        }
        let path = match rd.read_string() {
            Ok(v) => v,
            Err(e) => {
                return Err(e);
            },
        };
        let id = match rd.read_u32() {
            Ok(v) => v,
            Err(e) => {
                return Err(e);
            },
        };
        proof {
            assert(acc.push((path@, id)).drop_last() == acc);
            acc = acc.push((path@, id));
        }
        ids.insert(path, id);
        k += 1;
    }
    proof {
        lemma_take_many_done(acc, rd.rest(), one);
    }
    Ok(ids)
}

fn read_nodes(rd: &mut Reader<'_>, n: u32) -> (r: Result<Vec<NodeCursor>, DecodeError>)
    requires
        old(rd).wf(),
    ensures
        final(rd).wf(),
        match take_many(old(rd).rest(), n as nat, take_node_fn()) {
            Ok((ms, rest)) => r is Ok && r->Ok_0@ == ms && final(rd).rest() == rest,
            Err(e) => r is Err && r->Err_0 == e,
        },
{
    let ghost r0 = rd.rest();
    let ghost one = take_node_fn();
    let mut out: Vec<NodeCursor> = Vec::new();
    let mut k: u32 = 0;
    proof {
        lemma_take_many_start(r0, n as nat, one);
    }
    while k < n
        invariant
            k <= n,
            rd.wf(),
            one == take_node_fn(),
            r0 == old(rd).rest(),
            take_many(r0, n as nat, one) == prepend(
                out@,
                take_many(rd.rest(), (n - k) as nat, one),
            ),
        decreases n - k,
    {
        proof {
            lemma_take_many_step(out@, rd.rest(), (n - k) as nat, one);
        }
        let tesuu = match rd.read_u32() {
            Ok(v) => v,
            Err(e) => {
                return Err(e);
            },
        };
        let fork_off = match rd.read_u32() {
            Ok(v) => v,
            Err(e) => {
                return Err(e);
            },
        };
        let fork_len = match rd.read_u16() {
            Ok(v) => v,
            Err(e) => {
                return Err(e);
            },
        };
        match rd.read_u16() {
            Ok(_) => {},
            Err(e) => {
                return Err(e);
            },
        }
        out.push(NodeCursor { tesuu, fork_off, fork_len });
        k += 1;
    }
    proof {
        lemma_take_many_done(out@, rd.rest(), one);
    }
    Ok(out)
}

fn read_forks(rd: &mut Reader<'_>, n: u32) -> (r: Result<Vec<ForkPtr>, DecodeError>)
    requires
        old(rd).wf(),
    ensures
        final(rd).wf(),
        match take_many(old(rd).rest(), n as nat, take_fork_fn()) {
            Ok((ms, rest)) => r is Ok && r->Ok_0@ == ms && final(rd).rest() == rest,
            Err(e) => r is Err && r->Err_0 == e,
        },
{
    let ghost r0 = rd.rest();
    let ghost one = take_fork_fn();
    let mut out: Vec<ForkPtr> = Vec::new();
    let mut k: u32 = 0;
    proof {
        lemma_take_many_start(r0, n as nat, one);
    }
    while k < n
        invariant
            k <= n,
            rd.wf(),
            one == take_fork_fn(),
            r0 == old(rd).rest(),
            take_many(r0, n as nat, one) == prepend(
                out@,
                take_many(rd.rest(), (n - k) as nat, one),
            ),
        decreases n - k,
    {
        proof {
            lemma_take_many_step(out@, rd.rest(), (n - k) as nat, one);
        }
        let te = match rd.read_u32() {
            Ok(v) => v,
            Err(e) => {
                return Err(e);
            },
        };
        let fork_index = match rd.read_u32() {
            Ok(v) => v,
            Err(e) => {
                return Err(e);
            },
        };
        out.push(ForkPtr { te, fork_index });
        k += 1;
    }
    proof {
        lemma_take_many_done(out@, rd.rest(), one);
    }
    Ok(out)
}

fn read_entries(rd: &mut Reader<'_>) -> (r: Result<Vec<(PositionKey, Occurrence)>, DecodeError>)
    requires
        old(rd).wf(),
    ensures
        final(rd).wf(),
        match take_bucket(old(rd).rest()) {
            Ok((ms, rest)) => r is Ok && r->Ok_0@ == ms && final(rd).rest() == rest,
            Err(e) => r is Err && r->Err_0 == e,
        },
{
    let n = match rd.read_u32() {
        Ok(n) => n,
        Err(e) => {
            return Err(e);
        },
    };
    let ghost r0 = rd.rest();
    let ghost one = take_entry_fn();
    let mut out: Vec<(PositionKey, Occurrence)> = Vec::new();
    let mut k: u32 = 0;
    proof {
        lemma_take_many_start(r0, n as nat, one);
    }
    while k < n
        invariant
            k <= n,
            rd.wf(),
            one == take_entry_fn(),
            take_bucket(old(rd).rest()) == take_many(r0, n as nat, one),
            take_many(r0, n as nat, one) == prepend(
                out@,
                take_many(rd.rest(), (n - k) as nat, one),
            ),
        decreases n - k,
    {
        proof {
            lemma_take_many_step(out@, rd.rest(), (n - k) as nat, one);
        }
        let z0 = match rd.read_u64() {
            Ok(v) => v,
            Err(e) => {
                return Err(e);
            },
        };
        let z1 = match rd.read_u64() {
            Ok(v) => v,
            Err(e) => {
                return Err(e);
            },
        };
        let file_id = match rd.read_u32() {
            Ok(v) => v,
            Err(e) => {
                return Err(e);
            },
        };
        let gen = match rd.read_u32() {
            Ok(v) => v,
            Err(e) => {
                return Err(e);
            },
        };
        let node_id = match rd.read_u32() {
            Ok(v) => v,
            Err(e) => {
                return Err(e);
            },
        };
        out.push((PositionKey { z0, z1 }, Occurrence { file_id, gen, node_id }));
        k += 1;
    }
    proof {
        lemma_take_many_done(out@, rd.rest(), one);
    }
    Ok(out)
}

fn read_node_tables(rd: &mut Reader<'_>) -> (r: Result<NodeTables, DecodeError>)
    requires
        old(rd).wf(),
    ensures
        final(rd).wf(),
        match take_counted(old(rd).rest(), take_node_table_fn()) {
            Ok((ms, rest)) => r is Ok && slot_views(r->Ok_0.slots()) == fold_tables(ms)
                && final(rd).rest() == rest,
            Err(e) => r is Err && r->Err_0 == e,
        },
{
    let n = match rd.read_u32() {
        Ok(n) => n,
        Err(e) => {
            return Err(e);
        },
    };
    let ghost r0 = rd.rest();
    let ghost one = take_node_table_fn();
    let mut nts = NodeTables::new();
    let ghost mut acc: Seq<NodeTableModel> = Seq::empty();
    let mut k: u32 = 0;
    proof {
        lemma_take_many_start(r0, n as nat, one);
        assert(slot_views(nts.slots()) =~= fold_tables(acc));
    }
    while k < n
        invariant
            k <= n,
            rd.wf(),
            one == take_node_table_fn(),
            take_counted(old(rd).rest(), one) == take_many(r0, n as nat, one),
            slot_views(nts.slots()) == fold_tables(acc),
            take_many(r0, n as nat, one) == prepend(
                acc,
                take_many(rd.rest(), (n - k) as nat, one),
            ),
        decreases n - k,
    {
        proof {
            lemma_take_many_step(acc, rd.rest(), (n - k) as nat, one);
        }
        let file_id = match rd.read_u32() {
            Ok(v) => v,
            Err(e) => {
                return Err(e);
            },
        };
        let nodes_len = match rd.read_u32() {
            Ok(v) => v,
            Err(e) => {
                return Err(e);
            },
        };
        let forks_len = match rd.read_u32() {
            Ok(v) => v,
            Err(e) => {
                return Err(e);
            },
        };
        let nodes = match read_nodes(rd, nodes_len) {
            Ok(v) => v,
            Err(e) => {
                return Err(e);
            },
        };
        let forks = match read_forks(rd, forks_len) {
            Ok(v) => v,
            Err(e) => {
                return Err(e);
            },
        };
        let nt = NodeTable { nodes, forks };
        let ghost before = nts.slots();
        proof {
            let m = NodeTableModel { file_id, nodes: nodes@, forks: forks@ };
            assert(acc.push(m).drop_last() == acc);
            acc = acc.push(m);
        }
        nts.upsert(file_id, nt);
        proof {
            assert(slot_views(nts.slots()) =~= slots_with(
                slot_views(before),
                file_id,
                (nodes@, forks@),
            ));
        }
        k += 1;
    }
    proof {
        lemma_take_many_done(acc, rd.rest(), one);
    }
    Ok(nts)
}

fn read_buckets(rd: &mut Reader<'_>) -> (r: Result<Vec<Vec<(PositionKey, Occurrence)>>, DecodeError>)
    requires
        old(rd).wf(),
    ensures
        final(rd).wf(),
        match take_many(old(rd).rest(), BUCKET_COUNT as nat, take_bucket_fn()) {
            Ok((ms, rest)) => r is Ok && bucket_models(r->Ok_0@) == ms && r->Ok_0@.len()
                == BUCKET_COUNT && final(rd).rest() == rest,
            Err(e) => r is Err && r->Err_0 == e,
        },
{
    let ghost r0 = rd.rest();
    let ghost one = take_bucket_fn();
    let mut out: Vec<Vec<(PositionKey, Occurrence)>> = Vec::with_capacity(BUCKET_COUNT);
    let mut k: usize = 0;
    proof {
        lemma_take_many_start(r0, BUCKET_COUNT as nat, one);
        assert(bucket_models(out@) =~= Seq::<Seq<Entry>>::empty());
    }
    while k < BUCKET_COUNT
        invariant
            k <= BUCKET_COUNT,
            rd.wf(),
            one == take_bucket_fn(),
            r0 == old(rd).rest(),
            out@.len() == k,
            take_many(r0, BUCKET_COUNT as nat, one) == prepend(
                bucket_models(out@),
                take_many(rd.rest(), (BUCKET_COUNT - k) as nat, one),
            ),
        decreases BUCKET_COUNT - k,
    {
        proof {
            lemma_take_many_step(
                bucket_models(out@),
                rd.rest(),
                (BUCKET_COUNT - k) as nat,
                one,
            );
        }
        let b = match read_entries(rd) {
            Ok(v) => v,
            Err(e) => {
                return Err(e);
            },
        };
        let ghost before = out@;
        out.push(b);
        proof {
            assert(bucket_models(out@) =~= bucket_models(before).push(b@));
        }
        k += 1;
    }
    proof {
        lemma_take_many_done(bucket_models(out@), rd.rest(), one);
    }
    Ok(out)
}

/// What was read back from a checkpoint.
#[derive(Debug)]
pub struct RestoredCache {
    pub file_table: FileTable,
    pub node_tables: NodeTables,
    /// The compacted entries of each shard.
    pub buckets: Vec<Vec<(PositionKey, Occurrence)>>,
    pub scan: ScanSnapshot,
    pub path_to_id: PathIds,
    pub next_file_id: FileId,
}

impl RestoredCache {
    /// Whether this is what a checkpoint holding `m` restores to under the
    /// root `root_dir`: the file table, the path ids and the node tables are
    /// what the checkpoint's lists make up when put in one after another,
    /// the scan holds the checkpoint's records keyed by path, and the shard
    /// entries and the next file id are the checkpoint's.
    pub open spec fn matches(&self, m: CacheModel, root_dir: Seq<char>) -> bool {
        &&& self.file_table.wf()
        &&& file_models(self.file_table@) == fold_entries(m.files)
        &&& slot_views(self.node_tables.slots()) == fold_tables(m.node_tables)
        &&& self.buckets@.len() == BUCKET_COUNT
        &&& bucket_models(self.buckets@) == m.buckets
        &&& self.scan.wf()
        &&& self.scan.root_dir@ == root_dir
        &&& exists|recs: Seq<FileRecord>|
            record_models(recs) == m.scan && self.scan.by_path@ == #[trigger] keyed_by_path(recs)
        &&& self.path_to_id.wf()
        &&& self.path_to_id@ == fold_pairs(m.path_ids)
        &&& self.next_file_id == m.next_file_id
    }
}

fn bytes_equal(a: &[u8], b: &[u8]) -> (r: bool)
    ensures
        r == (a@ == b@),
{
    if a.len() != b.len() {
        return false;
    }
    let mut i: usize = 0;
    while i < a.len()
        invariant
            i <= a@.len(),
            a@.len() == b@.len(),
            forall|k: int| 0 <= k < i ==> a@[k] == b@[k],
        decreases a@.len() - i,
    {
        if a[i] != b[i] {
            return false;
        }
        i += 1;
    }
    proof {
        assert(a@ =~= b@);
    }
    true
}

fn is_magic(a: &[u8]) -> (r: bool)
    requires
        a@.len() == 8,
    ensures
        r == (a@ == magic()),
{
    let r = a[0] == 0x4f && a[1] == 0x42 && a[2] == 0x53 && a[3] == 0x49 && a[4] == 0x58 && a[5]
        == 0x76 && a[6] == 0x30 && a[7] == 0x31;
    proof {
        if r {
            assert(a@ =~= magic());
        } else {
            assert(magic()[0] == 0x4f && magic()[1] == 0x42 && magic()[2] == 0x53 && magic()[3]
                == 0x49 && magic()[4] == 0x58 && magic()[5] == 0x76 && magic()[6] == 0x30
                && magic()[7] == 0x31);
        }
    }
    r
}

/// Reads a checkpoint for the project at `root_dir`, whose root hash is
/// `root_hash`. The result is an error exactly where the format says so:
/// a wrong marker or version, another root, bytes that end too early, an
/// unknown file kind, or a string that is not UTF-8.
pub fn decode_with_hash(bytes: &[u8], root_dir: &str, root_hash: &[u8]) -> (r: Result<
    RestoredCache,
    DecodeError,
>)
    ensures
        match take_cache(bytes@, root_hash@) {
            Ok(m) => r is Ok && r->Ok_0.matches(m, root_dir@),
            Err(e) => r is Err && r->Err_0 == e,
        },
{
    let mut rd = Reader::new(bytes);
    let m = match rd.read_fixed(8) {
        Ok(v) => v,
        Err(e) => {
            return Err(e);
        },
    };
    if !is_magic(m) {
        return Err(DecodeError::BadMagic);
    }
    let ver = match rd.read_u32() {
        Ok(v) => v,
        Err(e) => {
            return Err(e);
        },
    };
    if ver != VERSION {
        return Err(DecodeError::BadVersion(ver));
    }
    let created_ms = match rd.read_u64() {
        Ok(v) => v,
        Err(e) => {
            return Err(e);
        },
    };
    let saved = match rd.read_fixed(32) {
        Ok(v) => v,
        Err(e) => {
            return Err(e);
        },
    };
    if !bytes_equal(saved, root_hash) {
        return Err(DecodeError::RootMismatch);
    }
    let ghost r4 = rd.rest();
    assert(take_cache(bytes@, root_hash@) == take_tables(r4, created_ms, saved@));
    let file_table = match read_file_table(&mut rd) {
        Ok(v) => v,
        Err(e) => {
            return Err(e);
        },
    };
    let records = match read_records(&mut rd) {
        Ok(v) => v,
        Err(e) => {
            return Err(e);
        },
    };
    let next_file_id = match rd.read_u32() {
        Ok(v) => v,
        Err(e) => {
            return Err(e);
        },
    };
    let path_to_id = match read_path_ids(&mut rd) {
        Ok(v) => v,
        Err(e) => {
            return Err(e);
        },
    };
    let node_tables = match read_node_tables(&mut rd) {
        Ok(v) => v,
        Err(e) => {
            return Err(e);
        },
    };
    let buckets = match read_buckets(&mut rd) {
        Ok(v) => v,
        Err(e) => {
            return Err(e);
        },
    };
    let ghost recs = records@;
    let scan = snapshot_from_records(root_dir, records);
    let restored = RestoredCache {
        file_table,
        node_tables,
        buckets,
        scan,
        path_to_id,
        next_file_id,
    };
    proof {
        assert(restored.scan.by_path@ == keyed_by_path(recs));
    }
    Ok(restored)
}

// ---- reading back what was written ----

pub proof fn lemma_take_u8(v: u8, t: Seq<u8>)
    ensures
        take_u8(enc_u8(v) + t) == Ok::<(u8, Seq<u8>), DecodeError>((v, t)),
{
    assert((enc_u8(v) + t).skip(1) =~= t);
}

pub proof fn lemma_take_u16(v: u16, t: Seq<u8>)
    ensures
        take_u16(enc_u16(v) + t) == Ok::<(u16, Seq<u8>), DecodeError>((v, t)),
{
    lemma_auto_spec_u16_to_from_le_bytes();
    assert((enc_u16(v) + t).take(2) =~= enc_u16(v));
    assert((enc_u16(v) + t).skip(2) =~= t);
}

pub proof fn lemma_take_u32(v: u32, t: Seq<u8>)
    ensures
        take_u32(enc_u32(v) + t) == Ok::<(u32, Seq<u8>), DecodeError>((v, t)),
{
    lemma_auto_spec_u32_to_from_le_bytes();
    assert((enc_u32(v) + t).take(4) =~= enc_u32(v));
    assert((enc_u32(v) + t).skip(4) =~= t);
}

pub proof fn lemma_take_u64(v: u64, t: Seq<u8>)
    ensures
        take_u64(enc_u64(v) + t) == Ok::<(u64, Seq<u8>), DecodeError>((v, t)),
{
    lemma_auto_spec_u64_to_from_le_bytes();
    assert((enc_u64(v) + t).take(8) =~= enc_u64(v));
    assert((enc_u64(v) + t).skip(8) =~= t);
}

pub proof fn lemma_take_fixed(x: Seq<u8>, t: Seq<u8>)
    ensures
        take_fixed(x + t, x.len() as int) == Ok::<(Seq<u8>, Seq<u8>), DecodeError>((x, t)),
{
    assert((x + t).take(x.len() as int) =~= x);
    assert((x + t).skip(x.len() as int) =~= t);
}

pub proof fn lemma_take_str(s: Seq<char>, t: Seq<u8>)
    requires
        str_fits(s),
    ensures
        take_str(enc_str(s) + t) == Ok::<(Seq<char>, Seq<u8>), DecodeError>((s, t)),
{
    let b = encode_utf8(s);
    let n = b.len() as u32;
    assert(enc_str(s) + t =~= enc_u32(n) + (b + t));
    lemma_take_u32(n, b + t);
    assert((b + t).take(n as int) =~= b);
    assert((b + t).skip(n as int) =~= t);
    encode_utf8_valid_utf8(s);
    encode_utf8_decode_utf8(s);
}

pub proof fn lemma_take_file_entry(e: FileEntryModel, t: Seq<u8>)
    requires
        str_fits(e.path),
    ensures
        take_file_entry(enc_file_entry(e) + t) == Ok::<(FileEntryModel, Seq<u8>), DecodeError>(
            (e, t),
        ),
{
    let d: u8 = if e.deleted { 1 } else { 0 };
    let r3 = enc_str(e.path) + t;
    let r2 = enc_u8(d) + r3;
    let r1 = enc_u32(e.gen) + r2;
    assert(enc_file_entry(e) + t =~= enc_u32(e.file_id) + r1);
    lemma_take_u32(e.file_id, r1);
    lemma_take_u32(e.gen, r2);
    lemma_take_u8(d, r3);
    lemma_take_str(e.path, t);
}

pub proof fn lemma_take_record(r: FileRecordModel, t: Seq<u8>)
    requires
        str_fits(r.path),
    ensures
        take_record(enc_record(r) + t) == Ok::<(FileRecordModel, Seq<u8>), DecodeError>((r, t)),
{
    let r3 = enc_u64(r.mtime_ms) + t;
    let r2 = enc_u64(r.size) + r3;
    let r1 = enc_u8(spec_kind_code(r.kind)) + r2;
    assert(enc_record(r) + t =~= enc_str(r.path) + r1);
    lemma_take_str(r.path, r1);
    lemma_take_u8(spec_kind_code(r.kind), r2);
    lemma_take_u64(r.size, r3);
    lemma_take_u64(r.mtime_ms, t);
}

pub proof fn lemma_take_path_id(p: (Seq<char>, u32), t: Seq<u8>)
    requires
        str_fits(p.0),
    ensures
        take_path_id(enc_path_id(p) + t) == Ok::<((Seq<char>, u32), Seq<u8>), DecodeError>((p, t)),
{
    let r1 = enc_u32(p.1) + t;
    assert(enc_path_id(p) + t =~= enc_str(p.0) + r1);
    lemma_take_str(p.0, r1);
    lemma_take_u32(p.1, t);
}

pub proof fn lemma_take_node(n: NodeCursor, t: Seq<u8>)
    ensures
        take_node(enc_node(n) + t) == Ok::<(NodeCursor, Seq<u8>), DecodeError>((n, t)),
{
    let r3 = enc_u16(0) + t;
    let r2 = enc_u16(n.fork_len) + r3;
    let r1 = enc_u32(n.fork_off) + r2;
    assert(enc_node(n) + t =~= enc_u32(n.tesuu) + r1);
    lemma_take_u32(n.tesuu, r1);
    lemma_take_u32(n.fork_off, r2);
    lemma_take_u16(n.fork_len, r3);
    lemma_take_u16(0, t);
}

pub proof fn lemma_take_fork(f: ForkPtr, t: Seq<u8>)
    ensures
        take_fork(enc_fork(f) + t) == Ok::<(ForkPtr, Seq<u8>), DecodeError>((f, t)),
{
    let r1 = enc_u32(f.fork_index) + t;
    assert(enc_fork(f) + t =~= enc_u32(f.te) + r1);
    lemma_take_u32(f.te, r1);
    lemma_take_u32(f.fork_index, t);
}

pub proof fn lemma_take_entry(e: Entry, t: Seq<u8>)
    ensures
        take_entry(enc_entry(e) + t) == Ok::<(Entry, Seq<u8>), DecodeError>((e, t)),
{
    let r4 = enc_u32(e.1.node_id) + t;
    let r3 = enc_u32(e.1.gen) + r4;
    let r2 = enc_u32(e.1.file_id) + r3;
    let r1 = enc_u64(e.0.z1) + r2;
    assert(enc_entry(e) + t =~= enc_u64(e.0.z0) + r1);
    lemma_take_u64(e.0.z0, r1);
    lemma_take_u64(e.0.z1, r2);
    lemma_take_u32(e.1.file_id, r3);
    lemma_take_u32(e.1.gen, r4);
    lemma_take_u32(e.1.node_id, t);
}

/// Whether `one` reads back every item of `items` from what `enc` writes,
/// whatever follows.
pub open spec fn reads_back<T>(
    items: Seq<T>,
    enc: spec_fn(T) -> Seq<u8>,
    one: spec_fn(Seq<u8>) -> Parsed<T>,
) -> bool {
    forall|i: int, t: Seq<u8>|
        0 <= i < items.len() ==> #[trigger] one(enc(items[i]) + t) == Ok::<
            (T, Seq<u8>),
            DecodeError,
        >((items[i], t))
}

/// A list that was written is read back item by item.
pub proof fn lemma_take_many<T>(
    items: Seq<T>,
    t: Seq<u8>,
    enc: spec_fn(T) -> Seq<u8>,
    one: spec_fn(Seq<u8>) -> Parsed<T>,
)
    requires
        reads_back(items, enc, one),
    ensures
        take_many(enc_many(items, enc) + t, items.len(), one) == Ok::<
            (Seq<T>, Seq<u8>),
            DecodeError,
        >((items, t)),
    decreases items.len(),
{
    if items.len() == 0 {
        assert(enc_many(items, enc) + t =~= t);
        assert(items =~= Seq::<T>::empty());
    } else {
        let rest = items.skip(1);
        let r1 = enc_many(rest, enc) + t;
        assert(enc_many(items, enc) + t =~= enc(items[0]) + r1);
        assert(one(enc(items[0]) + r1) == Ok::<(T, Seq<u8>), DecodeError>((items[0], r1)));
        assert forall|i: int, t2: Seq<u8>| 0 <= i < rest.len() implies #[trigger] one(
            enc(rest[i]) + t2,
        ) == Ok::<(T, Seq<u8>), DecodeError>((rest[i], t2)) by {
            assert(rest[i] == items[i + 1]);
            assert(one(enc(items[i + 1]) + t2) == Ok::<(T, Seq<u8>), DecodeError>(
                (items[i + 1], t2),
            ));
        }
        lemma_take_many(rest, t, enc, one);
        assert(seq![items[0]] + rest =~= items);
    }
}

/// A counted list that was written is read back.
pub proof fn lemma_take_counted<T>(
    items: Seq<T>,
    t: Seq<u8>,
    enc: spec_fn(T) -> Seq<u8>,
    one: spec_fn(Seq<u8>) -> Parsed<T>,
)
    requires
        items.len() <= u32::MAX,
        reads_back(items, enc, one),
    ensures
        take_counted(enc_u32(items.len() as u32) + enc_many(items, enc) + t, one) == Ok::<
            (Seq<T>, Seq<u8>),
            DecodeError,
        >((items, t)),
{
    let r1 = enc_many(items, enc) + t;
    assert(enc_u32(items.len() as u32) + enc_many(items, enc) + t =~= enc_u32(items.len() as u32)
        + r1);
    lemma_take_u32(items.len() as u32, r1);
    lemma_take_many(items, t, enc, one);
}

pub proof fn lemma_take_node_table(m: NodeTableModel, t: Seq<u8>)
    requires
        m.nodes.len() <= u32::MAX,
        m.forks.len() <= u32::MAX,
    ensures
        take_node_table(enc_node_table(m) + t) == Ok::<(NodeTableModel, Seq<u8>), DecodeError>(
            (m, t),
        ),
{
    let r4 = enc_many(m.forks, enc_fork_fn()) + t;
    let r3 = enc_many(m.nodes, enc_node_fn()) + r4;
    let r2 = enc_u32(m.forks.len() as u32) + r3;
    let r1 = enc_u32(m.nodes.len() as u32) + r2;
    assert(enc_node_table(m) + t =~= enc_u32(m.file_id) + r1);
    lemma_take_u32(m.file_id, r1);
    lemma_take_u32(m.nodes.len() as u32, r2);
    lemma_take_u32(m.forks.len() as u32, r3);
    assert forall|i: int, t2: Seq<u8>| 0 <= i < m.nodes.len() implies #[trigger] take_node_fn()(
        enc_node_fn()(m.nodes[i]) + t2,
    ) == Ok::<(NodeCursor, Seq<u8>), DecodeError>((m.nodes[i], t2)) by {
        lemma_take_node(m.nodes[i], t2);
    }
    lemma_take_many(m.nodes, r4, enc_node_fn(), take_node_fn());
    assert forall|i: int, t2: Seq<u8>| 0 <= i < m.forks.len() implies #[trigger] take_fork_fn()(
        enc_fork_fn()(m.forks[i]) + t2,
    ) == Ok::<(ForkPtr, Seq<u8>), DecodeError>((m.forks[i], t2)) by {
        lemma_take_fork(m.forks[i], t2);
    }
    lemma_take_many(m.forks, t, enc_fork_fn(), take_fork_fn());
}

pub proof fn lemma_take_bucket(b: Seq<Entry>, t: Seq<u8>)
    requires
        b.len() <= u32::MAX,
    ensures
        take_bucket(enc_bucket(b) + t) == Ok::<(Seq<Entry>, Seq<u8>), DecodeError>((b, t)),
{
    assert forall|i: int, t2: Seq<u8>| 0 <= i < b.len() implies #[trigger] take_entry_fn()(
        enc_entry_fn()(b[i]) + t2,
    ) == Ok::<(Entry, Seq<u8>), DecodeError>((b[i], t2)) by {
        lemma_take_entry(b[i], t2);
    }
    lemma_take_counted(b, t, enc_entry_fn(), take_entry_fn());
    assert(enc_bucket(b) + t =~= enc_u32(b.len() as u32) + enc_many(b, enc_entry_fn()) + t);
}

proof fn lemma_files_read_back(files: Seq<FileEntryModel>)
    requires
        files_fit(files),
    ensures
        reads_back(files, enc_file_entry_fn(), take_file_entry_fn()),
{
    assert forall|i: int, t2: Seq<u8>| 0 <= i < files.len() implies #[trigger] take_file_entry_fn()(
        enc_file_entry_fn()(files[i]) + t2,
    ) == Ok::<(FileEntryModel, Seq<u8>), DecodeError>((files[i], t2)) by {
        lemma_take_file_entry(files[i], t2);
    }
}

proof fn lemma_records_read_back(scan: Seq<FileRecordModel>)
    requires
        records_fit(scan),
    ensures
        reads_back(scan, enc_record_fn(), take_record_fn()),
{
    assert forall|i: int, t2: Seq<u8>| 0 <= i < scan.len() implies #[trigger] take_record_fn()(
        enc_record_fn()(scan[i]) + t2,
    ) == Ok::<(FileRecordModel, Seq<u8>), DecodeError>((scan[i], t2)) by {
        lemma_take_record(scan[i], t2);
    }
}

proof fn lemma_path_ids_read_back(ids: Seq<(Seq<char>, u32)>)
    requires
        path_ids_fit(ids),
    ensures
        reads_back(ids, enc_path_id_fn(), take_path_id_fn()),
{
    assert forall|i: int, t2: Seq<u8>| 0 <= i < ids.len() implies #[trigger] take_path_id_fn()(
        enc_path_id_fn()(ids[i]) + t2,
    ) == Ok::<((Seq<char>, u32), Seq<u8>), DecodeError>((ids[i], t2)) by {
        lemma_take_path_id(ids[i], t2);
    }
}

proof fn lemma_tables_read_back(tables: Seq<NodeTableModel>)
    requires
        tables_fit(tables),
    ensures
        reads_back(tables, enc_node_table_fn(), take_node_table_fn()),
{
    assert forall|i: int, t2: Seq<u8>| 0 <= i < tables.len() implies #[trigger] take_node_table_fn()(
        enc_node_table_fn()(tables[i]) + t2,
    ) == Ok::<(NodeTableModel, Seq<u8>), DecodeError>((tables[i], t2)) by {
        lemma_take_node_table(tables[i], t2);
    }
}

proof fn lemma_buckets_read_back(buckets: Seq<Seq<Entry>>)
    requires
        buckets_fit(buckets),
    ensures
        reads_back(buckets, enc_bucket_fn(), take_bucket_fn()),
{
    assert forall|i: int, t2: Seq<u8>| 0 <= i < buckets.len() implies #[trigger] take_bucket_fn()(
        enc_bucket_fn()(buckets[i]) + t2,
    ) == Ok::<(Seq<Entry>, Seq<u8>), DecodeError>((buckets[i], t2)) by {
        lemma_take_bucket(buckets[i], t2);
    }
}

proof fn lemma_tables_round_trip(m: CacheModel, tail: Seq<u8>)
    requires
        model_fits(m),
        m.buckets.len() == BUCKET_COUNT,
    ensures
        take_tables(enc_tables(m) + tail, m.created_ms, m.root_hash) == Ok::<
            CacheModel,
            DecodeError,
        >(m),
{
    let s6 = enc_many(m.buckets, enc_bucket_fn()) + tail;
    let s5 = enc_u32(m.node_tables.len() as u32) + enc_many(m.node_tables, enc_node_table_fn())
        + s6;
    let s4 = enc_u32(m.path_ids.len() as u32) + enc_many(m.path_ids, enc_path_id_fn()) + s5;
    let s3 = enc_u32(m.next_file_id) + s4;
    let s2 = enc_u32(m.scan.len() as u32) + enc_many(m.scan, enc_record_fn()) + s3;
    let s1 = enc_u32(m.files.len() as u32) + enc_many(m.files, enc_file_entry_fn()) + s2;
    assert(enc_tables(m) + tail == s1) by {
        let fl = enc_u32(m.files.len() as u32) + enc_many(m.files, enc_file_entry_fn());
        let sl = enc_u32(m.scan.len() as u32) + enc_many(m.scan, enc_record_fn());
        let nx = enc_u32(m.next_file_id);
        let pl = enc_u32(m.path_ids.len() as u32) + enc_many(m.path_ids, enc_path_id_fn());
        let tl = enc_u32(m.node_tables.len() as u32) + enc_many(
            m.node_tables,
            enc_node_table_fn(),
        );
        let bs = enc_many(m.buckets, enc_bucket_fn());
        lemma_assoc(tl, bs, tail);
        lemma_assoc(pl, tl + bs, tail);
        lemma_assoc(nx, pl + (tl + bs), tail);
        lemma_assoc(sl, nx + (pl + (tl + bs)), tail);
        lemma_assoc(fl, sl + (nx + (pl + (tl + bs))), tail);
    }
    assert(take_counted(s1, take_file_entry_fn()) == Ok::<
        (Seq<FileEntryModel>, Seq<u8>),
        DecodeError,
    >((m.files, s2))) by {
        lemma_files_read_back(m.files);
        lemma_take_counted(m.files, s2, enc_file_entry_fn(), take_file_entry_fn());
    }
    assert(take_counted(s2, take_record_fn()) == Ok::<
        (Seq<FileRecordModel>, Seq<u8>),
        DecodeError,
    >((m.scan, s3))) by {
        lemma_records_read_back(m.scan);
        lemma_take_counted(m.scan, s3, enc_record_fn(), take_record_fn());
    }
    assert(take_u32(s3) == Ok::<(u32, Seq<u8>), DecodeError>((m.next_file_id, s4))) by {
        lemma_take_u32(m.next_file_id, s4);
    }
    assert(take_counted(s4, take_path_id_fn()) == Ok::<
        (Seq<(Seq<char>, u32)>, Seq<u8>),
        DecodeError,
    >((m.path_ids, s5))) by {
        lemma_path_ids_read_back(m.path_ids);
        lemma_take_counted(m.path_ids, s5, enc_path_id_fn(), take_path_id_fn());
    }
    assert(take_counted(s5, take_node_table_fn()) == Ok::<
        (Seq<NodeTableModel>, Seq<u8>),
        DecodeError,
    >((m.node_tables, s6))) by {
        lemma_tables_read_back(m.node_tables);
        lemma_take_counted(m.node_tables, s6, enc_node_table_fn(), take_node_table_fn());
    }
    assert(take_many(s6, BUCKET_COUNT as nat, take_bucket_fn()) == Ok::<
        (Seq<Seq<Entry>>, Seq<u8>),
        DecodeError,
    >((m.buckets, tail))) by {
        lemma_buckets_read_back(m.buckets);
        lemma_take_many(m.buckets, tail, enc_bucket_fn(), take_bucket_fn());
    }
}

/// Round trip of the format: a checkpoint that was written is read back as
/// what was written, whatever bytes follow it, given that it could be
/// written, names this root's hash and has an entry list for each shard.
#[verifier::rlimit(40)]
pub proof fn lemma_round_trip(m: CacheModel, tail: Seq<u8>)
    requires
        model_fits(m),
        m.root_hash.len() == 32,
        m.buckets.len() == BUCKET_COUNT,
    ensures
        take_cache(enc_cache(m) + tail, m.root_hash) == Ok::<CacheModel, DecodeError>(m),
{
    let s1 = enc_tables(m) + tail;
    let h3 = m.root_hash + s1;
    let h2 = enc_u64(m.created_ms) + h3;
    let h1 = enc_u32(VERSION) + h2;
    assert(enc_cache(m) + tail == magic() + h1) by {
        let tb = enc_tables(m);
        lemma_assoc(m.root_hash, tb, tail);
        lemma_assoc(enc_u64(m.created_ms), m.root_hash + tb, tail);
        lemma_assoc(enc_u32(VERSION), enc_u64(m.created_ms) + (m.root_hash + tb), tail);
        lemma_assoc(
            magic(),
            enc_u32(VERSION) + (enc_u64(m.created_ms) + (m.root_hash + tb)),
            tail,
        );
    }
    assert(take_fixed(magic() + h1, 8) == Ok::<(Seq<u8>, Seq<u8>), DecodeError>((magic(), h1)))
        by {
        lemma_take_fixed(magic(), h1);
    }
    assert(take_u32(h1) == Ok::<(u32, Seq<u8>), DecodeError>((VERSION, h2))) by {
        lemma_take_u32(VERSION, h2);
    }
    assert(take_u64(h2) == Ok::<(u64, Seq<u8>), DecodeError>((m.created_ms, h3))) by {
        lemma_take_u64(m.created_ms, h3);
    }
    assert(take_fixed(h3, 32) == Ok::<(Seq<u8>, Seq<u8>), DecodeError>((m.root_hash, s1))) by {
        lemma_take_fixed(m.root_hash, s1);
    }
    lemma_tables_round_trip(m, tail);
}

/// The BLAKE3 digest of `bytes`.
pub uninterp spec fn blake3_digest(bytes: Seq<u8>) -> Seq<u8>;

/// What zstd compression at `level` makes of `bytes`, or `None` where it fails.
pub uninterp spec fn zstd_frame(bytes: Seq<u8>, level: i32) -> Option<Seq<u8>>;

/// What zstd decompression makes of `frame`, or `None` where `frame` is not
/// in the zstd frame format.
pub uninterp spec fn zstd_content(frame: Seq<u8>) -> Option<Seq<u8>>;

/// `blake3::hash`: the BLAKE3 digest of the input, which is 32 bytes long.
#[verifier::external_body]
fn blake3_hash(input: &[u8]) -> (h: Vec<u8>)
    ensures
        h@ == blake3_digest(input@),
        h@.len() == 32,
{
    blake3::hash(input).as_bytes().to_vec()
}

/// `zstd::stream::encode_all`: the input as one zstd frame, compressed at
/// `level`. Compression is lossless: decompressing the frame gives the input
/// back. A failure comes with the message of the outside error.
#[verifier::external_body]
fn zstd_encode(input: &[u8], level: i32) -> (r: Result<Vec<u8>, String>)
    ensures
        match r {
            Ok(f) => zstd_frame(input@, level) == Some(f@) && zstd_content(f@) == Some(input@),
            Err(_) => zstd_frame(input@, level) is None,
        },
{
    zstd::stream::encode_all(input, level).map_err(|e| e.to_string())
}

/// `zstd::stream::decode_all`: the content of a zstd frame. A failure comes
/// with the message of the outside error.
#[verifier::external_body]
fn zstd_decode(frame: &[u8]) -> (r: Result<Vec<u8>, String>)
    ensures
        match r {
            Ok(c) => zstd_content(frame@) == Some(c@),
            Err(_) => zstd_content(frame@) is None,
        },
{
    zstd::stream::decode_all(frame).map_err(|e| e.to_string())
}

/// The hash that ties a checkpoint to its project root: the BLAKE3 digest of
/// the root's path as UTF-8.
pub open spec fn spec_root_hash(root_dir: Seq<char>) -> Seq<u8> {
    blake3_digest(encode_utf8(root_dir))
}

pub fn root_hash(root_dir: &str) -> (h: Vec<u8>)
    ensures
        h@ == spec_root_hash(root_dir@),
        h@.len() == 32,
{
    blake3_hash(root_dir.as_bytes())
}

/// The lower-case hexadecimal digit of a number below 16.
pub open spec fn spec_hex_digit(n: u8) -> char {
    if n == 0 {
        '0'
    } else if n == 1 {
        '1'
    } else if n == 2 {
        '2'
    } else if n == 3 {
        '3'
    } else if n == 4 {
        '4'
    } else if n == 5 {
        '5'
    } else if n == 6 {
        '6'
    } else if n == 7 {
        '7'
    } else if n == 8 {
        '8'
    } else if n == 9 {
        '9'
    } else if n == 10 {
        'a'
    } else if n == 11 {
        'b'
    } else if n == 12 {
        'c'
    } else if n == 13 {
        'd'
    } else if n == 14 {
        'e'
    } else {
        'f'
    }
}

fn hex_digit(n: u8) -> (c: &'static str)
    ensures
        c@ == seq![spec_hex_digit(n)],
{
    proof {
        reveal_strlit("0");
        reveal_strlit("1");
        reveal_strlit("2");
        reveal_strlit("3");
        reveal_strlit("4");
        reveal_strlit("5");
        reveal_strlit("6");
        reveal_strlit("7");
        reveal_strlit("8");
        reveal_strlit("9");
        reveal_strlit("a");
        reveal_strlit("b");
        reveal_strlit("c");
        reveal_strlit("d");
        reveal_strlit("e");
        reveal_strlit("f");
    }
    let c = if n == 0 {
        "0"
    } else if n == 1 {
        "1"
    } else if n == 2 {
        "2"
    } else if n == 3 {
        "3"
    } else if n == 4 {
        "4"
    } else if n == 5 {
        "5"
    } else if n == 6 {
        "6"
    } else if n == 7 {
        "7"
    } else if n == 8 {
        "8"
    } else if n == 9 {
        "9"
    } else if n == 10 {
        "a"
    } else if n == 11 {
        "b"
    } else if n == 12 {
        "c"
    } else if n == 13 {
        "d"
    } else if n == 14 {
        "e"
    } else {
        "f"
    };
    proof {
        assert(c@ =~= seq![spec_hex_digit(n)]);
    }
    c
}

/// The bytes of `h` in hexadecimal, two lower-case digits for each byte,
/// the high one first.
pub open spec fn spec_hex(h: Seq<u8>) -> Seq<char> {
    Seq::new(
        2 * h.len(),
        |i: int|
            if i % 2 == 0 {
                spec_hex_digit(h[i / 2] / 16)
            } else {
                spec_hex_digit(h[i / 2] % 16)
            },
    )
}

/// A digest in hexadecimal. It names the directory a project's checkpoint
/// is kept in.
pub fn hex32(h: &[u8]) -> (out: String)
    ensures
        out@ == spec_hex(h@),
{
    let mut out = String::new();
    let mut i: usize = 0;
    while i < h.len()
        invariant
            i <= h@.len(),
            out@ == spec_hex(h@.take(i as int)),
        decreases h@.len() - i,
    {
        let b = h[i];
        out.append(hex_digit(b / 16));
        out.append(hex_digit(b % 16));
        proof {
            assert(out@ =~= spec_hex(h@.take(i + 1)));
        }
        i += 1;
    }
    proof {
        assert(h@.take(i as int) == h@);
    }
    out
}

/// Why a checkpoint could not be made.
#[derive(Debug, Clone)]
pub enum CheckpointError {
    /// The snapshot does not fit the format.
    Encode(EncodeError),
    /// Compression failed, with the message of the compressor.
    Compress(String),
}

/// Why compressed bytes could not be restored.
#[derive(Debug, Clone)]
pub enum RestoreError {
    /// The file could not be read.
    Unreadable,
    /// The bytes are not a zstd frame, with the message of the decompressor.
    Decompress(String),
    /// The content is not a checkpoint of this project.
    Decode(DecodeError),
}

/// The compression level checkpoints are written at.
pub const ZSTD_LEVEL: i32 = 1;

/// Reads an uncompressed checkpoint for the project at `root_dir`.
pub fn decode_all(bytes: &[u8], root_dir: &str) -> (r: Result<RestoredCache, DecodeError>)
    ensures
        match take_cache(bytes@, spec_root_hash(root_dir@)) {
            Ok(m) => r is Ok && r->Ok_0.matches(m, root_dir@),
            Err(e) => r is Err && r->Err_0 == e,
        },
{
    let h = root_hash(root_dir);
    decode_with_hash(bytes, root_dir, h.as_slice())
}

/// What restoring compressed bytes gives: the content of the frame, read as
/// a checkpoint of the project at `root_dir`.
pub open spec fn spec_restore(frame: Seq<u8>, root_dir: Seq<char>) -> Option<
    Result<CacheModel, DecodeError>,
> {
    match zstd_content(frame) {
        Some(body) => Some(take_cache(body, spec_root_hash(root_dir))),
        None => None,
    }
}

/// Decompresses and reads one checkpoint file's bytes.
pub fn restore_checkpoint(frame: &[u8], root_dir: &str) -> (r: Result<RestoredCache, RestoreError>)
    ensures
        match spec_restore(frame@, root_dir@) {
            None => r is Err && r->Err_0 is Decompress,
            Some(Err(e)) => r is Err && r->Err_0 == RestoreError::Decode(e),
            Some(Ok(m)) => r is Ok && r->Ok_0.matches(m, root_dir@),
        },
{
    let body = match zstd_decode(frame) {
        Ok(b) => b,
        Err(msg) => {
            return Err(RestoreError::Decompress(msg));
        },
    };
    match decode_all(body.as_slice(), root_dir) {
        Ok(c) => Ok(c),
        Err(e) => Err(RestoreError::Decode(e)),
    }
}

/// Why neither the checkpoint file nor its backup could be restored.
#[derive(Debug, Clone)]
pub struct RestoreFailure {
    /// What was wrong with the checkpoint file.
    pub primary: RestoreError,
    /// What was wrong with the backup, or `None` if there is no backup.
    pub backup: Option<RestoreError>,
}

/// The checkpoint that the bytes of a file restore to, if the file could be
/// read and holds one of the project at `root_dir`.
pub open spec fn restored_model(file: Option<&[u8]>, root_dir: Seq<char>) -> Option<CacheModel> {
    match file {
        Some(b) => match spec_restore(b@, root_dir) {
            Some(Ok(m)) => Some(m),
            _ => None,
        },
        None => None,
    }
}

/// Whether `e` says why a file does not restore: it could not be read, its
/// bytes are no zstd frame, or the content of the frame is no checkpoint of
/// the project at `root_dir`.
pub open spec fn explains(e: RestoreError, file: Option<&[u8]>, root_dir: Seq<char>) -> bool {
    match file {
        None => e is Unreadable,
        Some(b) => match spec_restore(b@, root_dir) {
            None => e is Decompress,
            Some(Err(d)) => e == RestoreError::Decode(d),
            Some(Ok(_)) => false,
        },
    }
}

fn restore_file(file: Option<&[u8]>, root_dir: &str) -> (r: Result<RestoredCache, RestoreError>)
    ensures
        match restored_model(file, root_dir@) {
            Some(m) => r is Ok && r->Ok_0.matches(m, root_dir@),
            None => r is Err && explains(r->Err_0, file, root_dir@),
        },
{
    match file {
        Some(b) => restore_checkpoint(b, root_dir),
        None => Err(RestoreError::Unreadable),
    }
}

/// Restores a project's index from its checkpoint file, or from the backup
/// where the file does not restore. `primary` and `backup` are the bytes of
/// the two files, `None` for one that is missing or unreadable. The result
/// is the checkpoint file's content if it restores, else the backup's if
/// there is one and it restores, else the failure of both.
pub fn try_restore(primary: Option<&[u8]>, backup: Option<&[u8]>, root_dir: &str) -> (r: Result<
    RestoredCache,
    RestoreFailure,
>)
    ensures
        match (restored_model(primary, root_dir@), restored_model(backup, root_dir@)) {
            (Some(m), _) => r is Ok && r->Ok_0.matches(m, root_dir@),
            (None, Some(m)) => r is Ok && r->Ok_0.matches(m, root_dir@),
            (None, None) => {
                &&& r is Err
                &&& explains(r->Err_0.primary, primary, root_dir@)
                &&& match r->Err_0.backup {
                    Some(e) => backup is Some && explains(e, backup, root_dir@),
                    None => backup is None,
                }
            },
        },
{
    match restore_file(primary, root_dir) {
        Ok(c) => Ok(c),
        Err(e_final) => {
            if backup.is_some() {
                match restore_file(backup, root_dir) {
                    Ok(c) => Ok(c),
                    Err(e_bak) => Err(RestoreFailure { primary: e_final, backup: Some(e_bak) }),
                }
            } else {
                Err(RestoreFailure { primary: e_final, backup: None })
            }
        },
    }
}

/// What a checkpoint of a snapshot holds: the snapshot's tables, the scan
/// and the path ids as they are, and each shard compacted.
pub open spec fn checkpoint_model(
    root_dir: Seq<char>,
    created_ms: u64,
    snap: &IndexSnapshot,
    scan: &ScanSnapshot,
    path_to_id: &PathIds,
    next_file_id: FileId,
) -> CacheModel {
    CacheModel {
        created_ms,
        root_hash: spec_root_hash(root_dir),
        files: entry_models(snap.file_table.spec_entries()),
        scan: record_models(scan.by_path@),
        next_file_id,
        path_ids: pair_models(path_to_id.entries@),
        node_tables: table_models(snap.node_tables.slots()),
        buckets: Seq::new(
            BUCKET_COUNT as nat,
            |b: int| compacted(snap@.shards[b], snap@.files),
        ),
    }
}

/// Makes the bytes of a checkpoint file: every shard of the snapshot is
/// compacted, the result is written in the checkpoint format and compressed.
/// It fails where the snapshot does not fit the format, and where the
/// compressor fails.
pub fn build_checkpoint(
    root_dir: &str,
    created_ms: u64,
    snap: &IndexSnapshot,
    scan: &ScanSnapshot,
    path_to_id: &PathIds,
    next_file_id: FileId,
) -> (r: Result<Vec<u8>, CheckpointError>)
    requires
        snap.wf(),
    ensures
        ({
            let m = checkpoint_model(root_dir@, created_ms, snap, scan, path_to_id, next_file_id);
            let fits = model_fits(m) && snap.node_tables.slots().len() <= 0x1_0000_0000;
            &&& !fits ==> r is Err && r->Err_0 is Encode
            &&& fits ==> match zstd_frame(enc_cache(m), ZSTD_LEVEL) {
                Some(f) => r is Ok && r->Ok_0@ == f && zstd_content(f) == Some(enc_cache(m)),
                None => r is Err && r->Err_0 is Compress,
            }
        }),
{
    let buckets = compact_all_buckets(snap);
    let h = root_hash(root_dir);
    let ctx = EncodeCtx {
        created_ms,
        root_hash: &h,
        scan,
        path_to_id,
        next_file_id,
        ft: &snap.file_table,
        nts: &snap.node_tables,
    };
    proof {
        let m = checkpoint_model(root_dir@, created_ms, snap, scan, path_to_id, next_file_id);
        assert(bucket_models(buckets@) =~= m.buckets);
        assert(ctx.model(buckets@) == m);
    }
    let mut body: Vec<u8> = Vec::new();
    match encode_all(&mut body, &ctx, &buckets) {
        Ok(()) => {},
        Err(e) => {
            return Err(CheckpointError::Encode(e));
        },
    }
    proof {
        let m = checkpoint_model(root_dir@, created_ms, snap, scan, path_to_id, next_file_id);
        assert(body@ =~= enc_cache(m));
    }
    match zstd_encode(body.as_slice(), ZSTD_LEVEL) {
        Ok(f) => Ok(f),
        Err(msg) => Err(CheckpointError::Compress(msg)),
    }
}

/// One step of replacing the checkpoint file.
#[derive(Debug, Clone, Copy, PartialEq, Eq, Structural)]
pub enum SaveStep {
    /// Write the new bytes to the temporary file.
    WriteTemp,
    /// Remove a backup that an earlier save left.
    RemoveBackup,
    /// Move the checkpoint file to the backup path.
    MoveFinalToBackup,
    /// Move the temporary file into the checkpoint file's place.
    MoveTempToFinal,
}

/// The steps of a save in their order, given whether a checkpoint file is
/// there once the temporary file is written. The new bytes go to a temporary
/// file first; a file that is there is kept as the backup until the new one
/// is in place; the backup is removed last. At every moment one complete
/// file is on disk.
pub open spec fn spec_save_plan(final_exists: bool) -> Seq<SaveStep> {
    if final_exists {
        seq![
            SaveStep::WriteTemp,
            SaveStep::RemoveBackup,
            SaveStep::MoveFinalToBackup,
            SaveStep::MoveTempToFinal,
            SaveStep::RemoveBackup,
        ]
    } else {
        seq![SaveStep::WriteTemp, SaveStep::MoveTempToFinal, SaveStep::RemoveBackup]
    }
}

pub fn save_plan(final_exists: bool) -> (plan: Vec<SaveStep>)
    ensures
        plan@ == spec_save_plan(final_exists),
{
    let mut plan: Vec<SaveStep> = Vec::new();
    plan.push(SaveStep::WriteTemp);
    if final_exists {
        plan.push(SaveStep::RemoveBackup);
        plan.push(SaveStep::MoveFinalToBackup);
    }
    plan.push(SaveStep::MoveTempToFinal);
    plan.push(SaveStep::RemoveBackup);
    proof {
        assert(plan@ =~= spec_save_plan(final_exists));
    }
    plan
}

/// Entries in ascending order of id make up the same table whether they are
/// looked up by id or put in one after another.
pub proof fn lemma_fold_entries_sorted(entries: Seq<FileEntry>)
    requires
        ids_increase(entries),
    ensures
        fold_entries(entry_models(entries)) == file_models(map_of_entries(entries)),
    decreases entries.len(),
{
    if entries.len() == 0 {
        assert(file_models(map_of_entries(entries)) =~= Map::<FileId, FileEntryModel>::empty());
    } else {
        let rest = entries.drop_last();
        let last = entries.last();
        lemma_fold_entries_sorted(rest);
        assert(entry_models(entries).drop_last() =~= entry_models(rest));
        assert(entry_models(entries).last() == entry_model(last));
        let a = file_models(map_of_entries(entries));
        let b = file_models(map_of_entries(rest)).insert(last.file_id, entry_model(last));
        assert forall|id: FileId| a.contains_key(id) == b.contains_key(id) by {
            if has_id(entries, id) {
                let i = index_of_id(entries, id);
                if i < rest.len() {
                    assert(rest[i].file_id == id);
                }
            }
            if has_id(rest, id) {
                let i = index_of_id(rest, id);
                assert(entries[i].file_id == id);
            }
            if id == last.file_id {
                assert(entries[entries.len() - 1].file_id == id);
            }
        }
        assert forall|id: FileId| a.contains_key(id) implies a[id] == b[id] by {
            let i = index_of_id(entries, id);
            if i < rest.len() {
                assert(rest[i].file_id == id);
                let j = index_of_id(rest, id);
                if j != i {
                    if j < i {
                        assert(entries[j].file_id < entries[i].file_id);
                    } else {
                        assert(entries[i].file_id < entries[j].file_id);
                    }
                }
                assert(entries[i].file_id < entries[entries.len() - 1].file_id);
            } else {
                assert(entries[i] == last);
            }
        }
        assert(a =~= b);
    }
}

/// The index as it stands once a checkpoint of `s` was restored: the file
/// table `files` that was read back, and in each shard with live entries one
/// segment, that of the compacted shard.
pub open spec fn restored_index(s: IndexModel, files: Map<FileId, FileEntry>) -> IndexModel {
    IndexModel {
        state: IndexState::Ready,
        files,
        tables: s.tables,
        shards: Seq::new(
            BUCKET_COUNT as nat,
            |b: int| with_run(Seq::empty(), compacted(s.shards[b], s.files)),
        ),
    }
}

/// Round trip of search: an index that was saved as a checkpoint and
/// restored from it shows in every search exactly the occurrences that it
/// showed before. `entries` are the file table's entries when it was saved
/// and `files` is the table that was read back.
pub proof fn lemma_restore_keeps_search(
    s: IndexModel,
    entries: Seq<FileEntry>,
    files: Map<FileId, FileEntry>,
    key: PositionKey,
    occ: Occurrence,
)
    requires
        s.shards.len() == BUCKET_COUNT,
        ids_increase(entries),
        s.files == map_of_entries(entries),
        file_models(files) == fold_entries(entry_models(entries)),
    ensures
        restored_index(s, files).search(key).contains(occ) <==> s.search(key).contains(occ),
{
    let b = key.spec_bucket() as int;
    assert(0 <= b < 256) by {
        let z = key.z0;
        assert((z >> 56) < 256) by (bit_vector);
    }
    let after = restored_index(s, files);
    lemma_search_liveness(s, key, occ);
    lemma_search_liveness(after, key, occ);
    lemma_fold_entries_sorted(entries);
    let c = compacted(s.shards[b], s.files);
    lemma_compacted_holds(s.shards[b], s.files, key, occ);
    lemma_sorted_by_rank_props(c);
    let e: Entry = (key, occ);
    let segs = after.shards[b];
    assert(segs == with_run(Seq::empty(), c));
    // the file table that was read back tells the same occurrences alive
    assert(occ_alive(files, occ.file_id, occ.gen) == occ_alive(s.files, occ.file_id, occ.gen))
        by {
        let fa = file_models(files);
        let fb = file_models(s.files);
        assert(fa == fb);
        assert(fa.contains_key(occ.file_id) == files.contains_key(occ.file_id));
        assert(fb.contains_key(occ.file_id) == s.files.contains_key(occ.file_id));
        if files.contains_key(occ.file_id) {
            assert(fa[occ.file_id] == entry_model(files[occ.file_id]));
            assert(fb[occ.file_id] == entry_model(s.files[occ.file_id]));
        }
    }
    if holds_entry(segs, key, occ) {
        let (si, i) = choose|si: int, i: int|
            0 <= si < segs.len() && 0 <= i < segs[si].len() && #[trigger] segs[si][i] == e;
        assert(sorted_by_rank(c).contains(e));
    }
    if c.contains(e) {
        assert(sorted_by_rank(c).contains(e));
        let i = choose|i: int| 0 <= i < sorted_by_rank(c).len() && sorted_by_rank(c)[i] == e;
        assert(segs[0][i] == e);
    }
}

} // verus!
