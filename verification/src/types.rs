use vstd::prelude::*;
use vstd::string::*;
use crate::text::{append_decimal, spec_decimal};

verus! {

pub const EVT_INDEX_STATE: &'static str = "position-index-state";

pub const EVT_INDEX_PROGRESS: &'static str = "position-index-progress";

pub const EVT_INDEX_WARN: &'static str = "position-index-warn";

pub const EVT_SEARCH_BEGIN: &'static str = "position-search-begin";

pub const EVT_SEARCH_CHUNK: &'static str = "position-search-chunk";

pub const EVT_SEARCH_END: &'static str = "position-search-end";

pub const EVT_SEARCH_ERROR: &'static str = "position-search-error";

pub type RequestId = u64;

pub type FileId = u32;

pub type Gen = u32;

pub type NodeId = u32;

/// Identity and version of one indexed file.
#[derive(Debug, Clone)]
pub struct FileEntry {
    pub file_id: FileId,
    pub path: String,
    pub deleted: bool,
    pub gen: Gen,
}

/// Index state as reported to the interface layer.
#[derive(Debug, Clone, Copy, PartialEq, Eq, Structural)]
pub enum IndexState {
    Empty,
    Restoring,
    Building,
    Ready,
    Updating,
}

#[derive(Debug, Clone)]
pub struct IndexStatePayload {
    pub state: IndexState,
    pub dirty_count: u32,
    pub indexed_files: u32,
    pub total_files: u32,
}

#[derive(Debug, Clone, Copy, PartialEq, Eq, Structural)]
pub enum Consistency {
    /// Search the snapshot that is current, stale or not.
    BestEffort,
    /// Wait until pending changes are applied.
    WaitForClean,
}

#[derive(Debug, Clone)]
pub struct SearchPositionInput {
    pub sfen: String,
    pub consistency: Consistency,
    pub chunk_size: u32,
}

#[derive(Debug, Clone, Copy, PartialEq, Eq, Structural)]
pub struct SearchPositionOutput {
    pub request_id: RequestId,
}

/// Which fork was taken at the branching point of move number `te`.
#[derive(Debug, Copy, Clone, PartialEq, Eq, Structural)]
pub struct ForkPointer {
    pub te: u32,
    pub fork_index: u32,
}

/// One place where a position was seen: a node of one generation of one file.
#[derive(Debug, Copy, Clone, PartialEq, Eq, Structural, Hash)]
pub struct Occurrence {
    pub file_id: FileId,
    pub gen: Gen,
    pub node_id: NodeId,
}

/// A location in a move tree: a move number and the forks taken to reach it.
#[derive(Debug, Clone)]
pub struct CursorLite {
    pub tesuu: u32,
    pub fork_pointers: Vec<ForkPointer>,
}

#[derive(Debug, Clone)]
pub struct PositionHit {
    pub occ: Occurrence,
    pub cursor: CursorLite,
}

/// The absolute path of one file that a chunk of hits refers to.
#[derive(Debug, Clone)]
pub struct FilePathEntry {
    pub file_id: FileId,
    pub abs_path: String,
}

#[derive(Debug, Clone, Copy, PartialEq, Eq, Structural)]
pub struct SearchBeginPayload {
    pub request_id: RequestId,
    pub stale: bool,
}

#[derive(Debug, Clone)]
pub struct SearchChunkPayload {
    pub request_id: RequestId,
    pub chunk: Vec<PositionHit>,
    pub files: Vec<FilePathEntry>,
}

#[derive(Debug, Clone, Copy, PartialEq, Eq, Structural)]
pub struct SearchEndPayload {
    pub request_id: RequestId,
}

#[derive(Debug, Clone)]
pub struct SearchErrorPayload {
    pub request_id: RequestId,
    pub message: String,
}

#[derive(Debug, Clone)]
pub struct OpenProjectInput {
    pub root_dir: String,
}

#[derive(Debug, Clone, Copy, PartialEq, Eq, Structural)]
pub struct OpenProjectOutput {
    pub total_files: u32,
}

#[derive(Debug, Clone)]
pub struct IndexProgressPayload {
    pub current_path: String,
    pub done_files: u32,
    pub total_files: u32,
}

#[derive(Debug, Clone)]
pub struct IndexWarnPayload {
    pub path: String,
    pub message: String,
}

/// The fork pointers of `fps` that apply at move number `tesuu`.
pub open spec fn forks_up_to(fps: Seq<ForkPointer>, tesuu: u32) -> Seq<ForkPointer> {
    fps.filter(|p: ForkPointer| p.te <= tesuu)
}

impl CursorLite {
    /// The location of the initial position.
    pub fn root() -> (c: Self)
        ensures
            c.tesuu == 0,
            c.fork_pointers@ == Seq::<ForkPointer>::empty(),
    {
        CursorLite { tesuu: 0, fork_pointers: Vec::new() }
    }

    /// The location at move number `tesuu` on the same line: only the fork
    /// pointers at or before `tesuu` are kept, in their order.
    pub fn filtered_for_tesuu(&self, tesuu: u32) -> (c: Self)
        ensures
            c.tesuu == tesuu,
            c.fork_pointers@ == forks_up_to(self.fork_pointers@, tesuu),
    {
        let mut fps: Vec<ForkPointer> = Vec::new();
        let ghost pred = |p: ForkPointer| p.te <= tesuu;
        let mut i: usize = 0;
        while i < self.fork_pointers.len()
            invariant
                i <= self.fork_pointers.len(),
                pred == (|p: ForkPointer| p.te <= tesuu),
                fps@ == self.fork_pointers@.take(i as int).filter(pred),
            decreases self.fork_pointers.len() - i,
        {
            let p = self.fork_pointers[i];
            proof {
                let next = self.fork_pointers@.take(i + 1);
                assert(next.drop_last() == self.fork_pointers@.take(i as int));
                assert(next.last() == p);
                reveal_with_fuel(Seq::filter, 2);
            }
            if p.te <= tesuu {
                fps.push(p);
            }
            i += 1;
        }
        proof {
            assert(self.fork_pointers@.take(i as int) == self.fork_pointers@);
        }
        CursorLite { tesuu, fork_pointers: fps }
    }
}

/// One fork pointer as text.
pub open spec fn fork_text(p: ForkPointer) -> Seq<char> {
    "ForkPointer { te: "@ + spec_decimal(p.te as nat) + ", fork_index: "@ + spec_decimal(
        p.fork_index as nat,
    ) + " }"@
}

/// Fork pointers as text, with a comma and a space between two of them.
pub open spec fn forks_text(forks: Seq<ForkPointer>) -> Seq<char>
    decreases forks.len(),
{
    if forks.len() == 0 {
        Seq::empty()
    } else if forks.len() == 1 {
        fork_text(forks.last())
    } else {
        forks_text(forks.drop_last()) + ", "@ + fork_text(forks.last())
    }
}

/// A location in a move tree as text: the move number and the fork
/// pointers, with the names of their fields.
pub open spec fn cursor_text(tesuu: u32, forks: Seq<ForkPointer>) -> Seq<char> {
    "CursorLite { tesuu: "@ + spec_decimal(tesuu as nat) + ", fork_pointers: ["@ + forks_text(
        forks,
    ) + "] }"@
}

impl CursorLite {
    /// Writes the location as text at the end of `out`.
    pub fn append_text(&self, out: &mut String)
        ensures
            final(out)@ == old(out)@ + cursor_text(self.tesuu, self.fork_pointers@),
    {
        out.append("CursorLite { tesuu: ");
        append_decimal(out, self.tesuu as u64);
        out.append(", fork_pointers: [");
        let ghost head = out@;
        let mut i: usize = 0;
        while i < self.fork_pointers.len()
            invariant
                i <= self.fork_pointers@.len(),
                out@ == head + forks_text(self.fork_pointers@.take(i as int)),
            decreases self.fork_pointers@.len() - i,
        {
            let p = self.fork_pointers[i];
            let ghost before = out@;
            if i > 0 {
                out.append(", ");
            }
            out.append("ForkPointer { te: ");
            append_decimal(out, p.te as u64);
            out.append(", fork_index: ");
            append_decimal(out, p.fork_index as u64);
            out.append(" }");
            proof {
                let next = self.fork_pointers@.take(i + 1);
                assert(next.drop_last() == self.fork_pointers@.take(i as int));
                assert(next.last() == p);
                if i == 0 {
                    assert(forks_text(self.fork_pointers@.take(0)) =~= Seq::<char>::empty());
                    assert(out@ =~= head + fork_text(p));
                } else {
                    assert(out@ =~= before + ", "@ + fork_text(p));
                    assert(out@ =~= head + forks_text(next));
                }
            }
            i += 1;
        }
        proof {
            assert(self.fork_pointers@.take(i as int) == self.fork_pointers@);
        }
        out.append("] }");
        proof {
            assert(out@ =~= old(out)@ + cursor_text(self.tesuu, self.fork_pointers@));
        }
    }
}

} // verus!
