use vstd::prelude::*;
use crate::file_table::FileTable;
use crate::index_store::{IndexSnapshot, IndexState};
use crate::position_key::key_of_cells;
use crate::sfen_position::{position_key_from_sfen, sfen_result, SfenParseError};
use crate::types::{
    CursorLite, FileEntry, FileId, FilePathEntry, ForkPointer, Occurrence, PositionHit, RequestId,
    SearchBeginPayload, SearchChunkPayload, SearchPositionInput, SearchPositionOutput,
};
use vstd::string::*;

verus! {

/// The largest number of hits in one chunk.
pub const MAX_CHUNK: u32 = 10_000;

/// The chunk size that a request gets: what it asks for, but at least 1 and
/// at most `MAX_CHUNK`.
pub open spec fn spec_chunk_size(asked: u32) -> int {
    if asked < 1 {
        1
    } else if asked > MAX_CHUNK {
        MAX_CHUNK as int
    } else {
        asked as int
    }
}

pub fn clamp_chunk_size(asked: u32) -> (n: usize)
    ensures
        n == spec_chunk_size(asked),
        1 <= n <= MAX_CHUNK,
{
    if asked < 1 {
        1
    } else if asked > MAX_CHUNK {
        MAX_CHUNK as usize
    } else {
        asked as usize
    }
}

/// A search is stale unless the index is in the state `Ready`.
pub fn is_stale(state: IndexState) -> (stale: bool)
    ensures
        stale == (state != IndexState::Ready),
{
    match state {
        IndexState::Ready => false,
        _ => true,
    }
}

/// The notice that begins the reply to a search.
pub fn begin_payload(snap: &IndexSnapshot, request_id: RequestId) -> (p: SearchBeginPayload)
    ensures
        p.request_id == request_id,
        p.stale == (snap.state != IndexState::Ready),
{
    SearchBeginPayload { request_id, stale: is_stale(snap.state) }
}

/// Where the node of an occurrence stands in its file's move tree: what the
/// file's node table says, or the root where the table is missing or does
/// not hold the node.
pub open spec fn spec_cursor_of(snap: IndexSnapshot, occ: Occurrence) -> (u32, Seq<ForkPointer>) {
    match snap.node_tables.spec_get(occ.file_id) {
        Some(t) => match t.spec_cursor(occ.node_id) {
            Some(c) => c,
            None => (0u32, Seq::empty()),
        },
        None => (0u32, Seq::empty()),
    }
}

/// The hit for an occurrence, with its location in the move tree.
pub fn hit_for(snap: &IndexSnapshot, occ: Occurrence) -> (h: PositionHit)
    ensures
        h.occ == occ,
        (h.cursor.tesuu, h.cursor.fork_pointers@) == spec_cursor_of(*snap, occ),
{
    let found = match snap.node_tables.get(occ.file_id) {
        Some(nt) => nt.cursor_lite(occ.node_id),
        None => None,
    };
    let cursor = match found {
        Some(c) => c,
        None => CursorLite::root(),
    };
    PositionHit { occ, cursor }
}

/// The file ids of `ids` without repetition, in the order of their first
/// occurrence.
pub open spec fn distinct_ids(ids: Seq<FileId>) -> Seq<FileId>
    decreases ids.len(),
{
    if ids.len() == 0 {
        Seq::empty()
    } else {
        let rest = distinct_ids(ids.drop_last());
        if rest.contains(ids.last()) {
            rest
        } else {
            rest.push(ids.last())
        }
    }
}

/// The file ids of hits.
pub open spec fn hit_file_ids(hits: Seq<PositionHit>) -> Seq<FileId> {
    hits.map_values(|h: PositionHit| h.occ.file_id)
}

/// The file ids of path entries.
pub open spec fn entry_file_ids(files: Seq<FilePathEntry>) -> Seq<FileId> {
    files.map_values(|f: FilePathEntry| f.file_id)
}

/// The path of a file by the file table, empty for a file it does not know.
pub open spec fn spec_path_of(files: Map<FileId, FileEntry>, file_id: FileId) -> Seq<char> {
    if files.contains_key(file_id) {
        files[file_id].path@
    } else {
        Seq::empty()
    }
}

/// The paths of the files that the hits of one chunk refer to: one entry
/// for each file, in the order in which the files first occur.
pub fn chunk_files(ft: &FileTable, hits: &Vec<PositionHit>) -> (files: Vec<FilePathEntry>)
    requires
        ft.wf(),
    ensures
        entry_file_ids(files@) == distinct_ids(hit_file_ids(hits@)),
        forall|i: int|
            0 <= i < files@.len() ==> (#[trigger] files@[i]).abs_path@ == spec_path_of(
                ft@,
                files@[i].file_id,
            ),
{
    let mut files: Vec<FilePathEntry> = Vec::new();
    let ghost ids = hit_file_ids(hits@);
    let mut i: usize = 0;
    proof {
        assert(entry_file_ids(files@) =~= distinct_ids(ids.take(0)));
    }
    while i < hits.len()
        invariant
            i <= hits@.len(),
            ft.wf(),
            ids == hit_file_ids(hits@),
            entry_file_ids(files@) == distinct_ids(ids.take(i as int)),
            forall|k: int|
                0 <= k < files@.len() ==> (#[trigger] files@[k]).abs_path@ == spec_path_of(
                    ft@,
                    files@[k].file_id,
                ),
        decreases hits@.len() - i,
    {
        let fid = hits[i].occ.file_id;
        proof {
            assert(ids.take(i + 1).drop_last() == ids.take(i as int));
            assert(ids.take(i + 1).last() == fid);
        }
        let mut seen = false;
        let mut j: usize = 0;
        while j < files.len() && !seen
            invariant
                j <= files@.len(),
                !seen ==> forall|k: int| 0 <= k < j ==> (#[trigger] files@[k]).file_id != fid,
                seen ==> entry_file_ids(files@).contains(fid),
            decreases files@.len() - j + if seen { 0int } else { 1int },
        {
            if files[j].file_id == fid {
                proof {
                    assert(entry_file_ids(files@)[j as int] == fid);
                }
                seen = true;
            } else {
                j += 1;
            }
        }
        if !seen {
            proof {
                if entry_file_ids(files@).contains(fid) {
                    let k = choose|k: int|
                        0 <= k < entry_file_ids(files@).len() && entry_file_ids(files@)[k] == fid;
                    assert(files@[k].file_id == fid);
                }
            }
            let abs_path = match ft.get(fid) {
                Some(e) => e.path.clone(),
                None => String::new(),
            };
            let ghost before = files@;
            files.push(FilePathEntry { file_id: fid, abs_path });
            proof {
                assert(entry_file_ids(files@) =~= entry_file_ids(before).push(fid));
            }
        }
        i += 1;
    }
    proof {
        assert(ids.take(i as int) == ids);
    }
    files
}

/// An occurrence with the location of its node, as plain values.
pub open spec fn hit_view(h: PositionHit) -> (Occurrence, u32, Seq<ForkPointer>) {
    (h.occ, h.cursor.tesuu, h.cursor.fork_pointers@)
}

pub open spec fn hit_views(hits: Seq<PositionHit>) -> Seq<(Occurrence, u32, Seq<ForkPointer>)> {
    hits.map_values(|h: PositionHit| hit_view(h))
}

/// The hit of each occurrence of `occs`.
pub open spec fn spec_hits(snap: IndexSnapshot, occs: Seq<Occurrence>) -> Seq<
    (Occurrence, u32, Seq<ForkPointer>),
> {
    occs.map_values(
        |o: Occurrence| (o, spec_cursor_of(snap, o).0, spec_cursor_of(snap, o).1),
    )
}

/// How many chunks `n` hits make at `size` hits a chunk.
pub open spec fn chunk_count(n: int, size: int) -> int {
    (n + size - 1) / size
}

/// Where the `k`-th chunk starts at `size` hits a chunk.
pub open spec fn chunk_start(size: int, k: int) -> int {
    k * size
}

/// Where the `k`-th chunk ends among `n` hits at `size` hits a chunk.
pub open spec fn chunk_end(n: int, size: int, k: int) -> int {
    if chunk_start(size, k) + size <= n {
        chunk_start(size, k) + size
    } else {
        n
    }
}

/// Whether `c` is the `k`-th chunk of the reply to the request
/// `request_id`: it holds the hits of its part of `occs`, which is not
/// empty, and the paths of the files that these hits refer to.
pub open spec fn is_chunk(
    snap: IndexSnapshot,
    occs: Seq<Occurrence>,
    size: int,
    request_id: RequestId,
    k: int,
    c: SearchChunkPayload,
) -> bool {
    let lo = chunk_start(size, k);
    let hi = chunk_end(occs.len() as int, size, k);
    &&& c.request_id == request_id
    &&& 0 <= lo < hi <= occs.len()
    &&& hit_views(c.chunk@) == spec_hits(snap, occs.subrange(lo, hi))
    &&& entry_file_ids(c.files@) == distinct_ids(hit_file_ids(c.chunk@))
    &&& forall|i: int|
        0 <= i < c.files@.len() ==> (#[trigger] c.files@[i]).abs_path@ == spec_path_of(
            snap.file_table@,
            c.files@[i].file_id,
        )
}

/// The hits of `occs`, in their order, in chunks of `chunk_size` hits; the
/// last chunk holds what is left. Each chunk names the request and carries
/// the paths of the files that its hits refer to.
pub fn chunk_hits(
    snap: &IndexSnapshot,
    occs: &Vec<Occurrence>,
    chunk_size: usize,
    request_id: RequestId,
) -> (chunks: Vec<SearchChunkPayload>)
    requires
        snap.wf(),
        chunk_size >= 1,
    ensures
        chunks@.len() == chunk_count(occs@.len() as int, chunk_size as int),
        forall|k: int|
            0 <= k < chunks@.len() ==> is_chunk(
                *snap,
                occs@,
                chunk_size as int,
                request_id,
                k,
                #[trigger] chunks@[k],
            ),
{
    let mut chunks: Vec<SearchChunkPayload> = Vec::new();
    let n = occs.len();
    let mut lo: usize = 0;
    proof {
        lemma_chunk_none(chunk_size as int);
        assert(chunk_start(chunk_size as int, 0) == 0) by (nonlinear_arith);
    }
    while lo < n
        invariant
            n == occs@.len(),
            snap.wf(),
            chunk_size >= 1,
            lo <= n,
            lo < n ==> lo == chunk_start(chunk_size as int, chunks@.len() as int),
            lo >= n ==> chunks@.len() == chunk_count(n as int, chunk_size as int),
            forall|k: int|
                0 <= k < chunks@.len() ==> is_chunk(
                    *snap,
                    occs@,
                    chunk_size as int,
                    request_id,
                    k,
                    #[trigger] chunks@[k],
                ),
        decreases n - lo,
    {
        let hi: usize = if n - lo >= chunk_size { lo + chunk_size } else { n };
        let mut hits: Vec<PositionHit> = Vec::with_capacity(hi - lo);
        let mut i: usize = lo;
        proof {
            assert(hit_views(hits@) =~= spec_hits(*snap, occs@.subrange(lo as int, lo as int)));
        }
        while i < hi
            invariant
                lo <= i <= hi <= n,
                n == occs@.len(),
                hit_views(hits@) == spec_hits(*snap, occs@.subrange(lo as int, i as int)),
            decreases hi - i,
        {
            let h = hit_for(snap, occs[i]);
            let ghost before = hits@;
            hits.push(h);
            proof {
                assert(occs@.subrange(lo as int, i + 1) =~= occs@.subrange(
                    lo as int,
                    i as int,
                ).push(occs@[i as int]));
                assert(hit_views(hits@) =~= hit_views(before).push(hit_view(h)));
                assert(hit_views(hits@) =~= spec_hits(*snap, occs@.subrange(lo as int, i + 1)));
            }
            i += 1;
        }
        let files = chunk_files(&snap.file_table, &hits);
        let ghost count = chunks@.len() as int;
        let ghost before = chunks@;
        let chunk = SearchChunkPayload { request_id, chunk: hits, files };
        chunks.push(chunk);
        proof {
            lemma_chunk_step(n as int, chunk_size as int, count, lo as int, hi as int);
            assert(is_chunk(*snap, occs@, chunk_size as int, request_id, count, chunk));
            assert forall|k: int| 0 <= k < chunks@.len() implies is_chunk(
                *snap,
                occs@,
                chunk_size as int,
                request_id,
                k,
                #[trigger] chunks@[k],
            ) by {
                if k < count {
                    assert(chunks@[k] == before[k]);
                }
            }
        }
        lo = hi;
    }
    chunks
}

proof fn lemma_chunk_none(size: int)
    requires
        size >= 1,
    ensures
        chunk_count(0, size) == 0,
{
    assert((0 + size - 1) / size == 0) by (nonlinear_arith)
        requires
            size >= 1,
    ;
}

proof fn lemma_chunk_step(n: int, size: int, count: int, lo: int, hi: int)
    requires
        size >= 1,
        count >= 0,
        lo == chunk_start(size, count),
        lo < n,
        hi == if n - lo >= size {
            lo + size
        } else {
            n
        },
    ensures
        hi == chunk_end(n, size, count),
        hi < n ==> hi == chunk_start(size, count + 1),
        hi >= n ==> count + 1 == chunk_count(n, size),
{
    assert((count + 1) * size == count * size + size) by (nonlinear_arith);
    if hi >= n {
        // n lies in (count * size, (count + 1) * size]
        let q = (n + size - 1) / size;
        assert(count * size < n <= (count + 1) * size);
        assert(q == count + 1) by (nonlinear_arith)
            requires
                size >= 1,
                count * size < n <= (count + 1) * size,
                q == (n + size - 1) / size,
        ;
    }
}

/// The reply to one search: what is returned to the caller, the notice
/// that begins the reply, and then either the chunks of hits, which are
/// followed by an end notice, or the reason why the position is unreadable.
#[derive(Debug)]
pub struct SearchReply {
    pub output: SearchPositionOutput,
    pub begin: SearchBeginPayload,
    pub result: Result<Vec<SearchChunkPayload>, SfenParseError>,
}

/// Answers a search on one snapshot of the index: the position is read, its
/// key is computed, and every live occurrence of the key is reported in
/// chunks. The reply is stale unless the snapshot is `Ready`.
pub fn search_position_impl(
    snap: &IndexSnapshot,
    input: &SearchPositionInput,
    request_id: RequestId,
) -> (reply: SearchReply)
    requires
        snap.wf(),
    ensures
        reply.output.request_id == request_id,
        reply.begin.request_id == request_id,
        reply.begin.stale == (snap.state != IndexState::Ready),
        match sfen_result(vstd::utf8::encode_utf8(input.sfen@)) {
            Err(e) => reply.result == Err::<Vec<SearchChunkPayload>, SfenParseError>(e),
            Ok(cells) => {
                let occs = snap.spec_search(key_of_cells(cells));
                let size = spec_chunk_size(input.chunk_size);
                &&& reply.result is Ok
                &&& reply.result->Ok_0@.len() == chunk_count(occs.len() as int, size)
                &&& forall|k: int|
                    0 <= k < reply.result->Ok_0@.len() ==> is_chunk(
                        *snap,
                        occs,
                        size,
                        request_id,
                        k,
                        #[trigger] reply.result->Ok_0@[k],
                    )
            },
        },
{
    let begin = begin_payload(snap, request_id);
    let chunk_size = clamp_chunk_size(input.chunk_size);
    let result = match position_key_from_sfen(input.sfen.as_str()) {
        Ok(key) => {
            let occs = snap.search_occurrences_by_key(key);
            Ok(chunk_hits(snap, &occs, chunk_size, request_id))
        },
        Err(e) => Err(e),
    };
    SearchReply { output: SearchPositionOutput { request_id }, begin, result }
}

} // verus!
