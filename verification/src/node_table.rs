use vstd::prelude::*;
use crate::types::{CursorLite, ForkPointer};

verus! {

/// One node of a file's move tree: its move number and where its fork path
/// lies in the table's fork list.
#[derive(Debug, Clone, Copy, PartialEq, Eq, Structural)]
pub struct NodeCursor {
    pub tesuu: u32,
    pub fork_off: u32,
    pub fork_len: u16,
}

#[derive(Debug, Clone, Copy, PartialEq, Eq, Structural)]
pub struct ForkPtr {
    pub te: u32,
    pub fork_index: u32,
}

/// Compact per-file storage of tree locations, addressed by dense node id.
#[derive(Debug, Clone)]
pub struct NodeTable {
    pub nodes: Vec<NodeCursor>,
    pub forks: Vec<ForkPtr>,
}

pub open spec fn fork_pointer_of(p: ForkPtr) -> ForkPointer {
    ForkPointer { te: p.te, fork_index: p.fork_index }
}

pub open spec fn fork_ptr_of(p: ForkPointer) -> ForkPtr {
    ForkPtr { te: p.te, fork_index: p.fork_index }
}

/// The location that node `node_id` of a table with these nodes and forks
/// stands for, if the id is in range and its fork slice lies within `forks`.
pub open spec fn cursor_at(nodes: Seq<NodeCursor>, forks: Seq<ForkPtr>, node_id: u32) -> Option<
    (u32, Seq<ForkPointer>),
> {
    if node_id < nodes.len() {
        let n = nodes[node_id as int];
        if n.fork_off + n.fork_len <= forks.len() {
            Some(
                (
                    n.tesuu,
                    forks.subrange(n.fork_off as int, n.fork_off + n.fork_len).map_values(
                        |p: ForkPtr| fork_pointer_of(p),
                    ),
                ),
            )
        } else {
            None
        }
    } else {
        None
    }
}

impl NodeTable {
    /// The location of node `node_id`, if the table holds it whole.
    pub open spec fn spec_cursor(&self, node_id: u32) -> Option<(u32, Seq<ForkPointer>)> {
        cursor_at(self.nodes@, self.forks@, node_id)
    }

    pub fn empty() -> (t: Self)
        ensures
            t.nodes@.len() == 0,
            t.forks@.len() == 0,
    {
        NodeTable { nodes: Vec::new(), forks: Vec::new() }
    }

    /// Rebuilds the location of node `node_id`; `None` when the id is out of
    /// range or the node's fork slice does not lie within the fork list.
    pub fn cursor_lite(&self, node_id: u32) -> (c: Option<CursorLite>)
        ensures
            match (c, self.spec_cursor(node_id)) {
                (Some(c), Some((tesuu, fps))) => c.tesuu == tesuu && c.fork_pointers@ == fps,
                (None, None) => true,
                _ => false,
            },
    {
        if node_id as usize >= self.nodes.len() {
            return None;
        }
        let n = self.nodes[node_id as usize];
        let off = n.fork_off as usize;
        let len = n.fork_len as usize;
        if len > self.forks.len() || off > self.forks.len() - len {
            return None;
        }
        let mut fps: Vec<ForkPointer> = Vec::with_capacity(len);
        let mut i: usize = 0;
        while i < len
            invariant
                i <= len,
                off + len <= self.forks.len(),
                fps@.len() == i,
                forall|j: int| 0 <= j < i ==> fps@[j] == fork_pointer_of(self.forks@[off + j]),
            decreases len - i,
        {
            let p = self.forks[off + i];
            fps.push(ForkPointer { te: p.te, fork_index: p.fork_index });
            i += 1;
        }
        assert(fps@ =~= self.forks@.subrange(off as int, off + len).map_values(
            |p: ForkPtr| fork_pointer_of(p),
        ));
        Some(CursorLite { tesuu: n.tesuu, fork_pointers: fps })
    }
}

impl Default for NodeTable {
    fn default() -> (t: Self)
        ensures
            t.nodes@.len() == 0,
            t.forks@.len() == 0,
    {
        NodeTable::empty()
    }
}

/// Accumulates the nodes of one file while its move tree is walked.
#[derive(Debug)]
pub struct NodeTableBuilder {
    nodes: Vec<NodeCursor>,
    forks: Vec<ForkPtr>,
}

impl NodeTableBuilder {
    pub closed spec fn nodes(&self) -> Seq<NodeCursor> {
        self.nodes@
    }

    pub closed spec fn forks(&self) -> Seq<ForkPtr> {
        self.forks@
    }

    /// Every node's fork slice lies within the fork list.
    pub open spec fn wf(&self) -> bool {
        forall|i: int|
            0 <= i < self.nodes().len() ==> (#[trigger] self.nodes()[i]).fork_off
                + self.nodes()[i].fork_len <= self.forks().len()
    }

    /// The location that node `node_id` will stand for in the finished table.
    pub open spec fn spec_cursor(&self, node_id: u32) -> Option<(u32, Seq<ForkPointer>)> {
        cursor_at(self.nodes(), self.forks(), node_id)
    }

    /// Whether one more node with a fork path of length `path_len` fits: node
    /// ids and fork offsets are 32-bit, fork path lengths 16-bit.
    pub open spec fn has_room(&self, path_len: nat) -> bool {
        &&& self.nodes().len() < u32::MAX
        &&& path_len <= u16::MAX
        &&& self.forks().len() + path_len <= u32::MAX
    }

    pub fn new() -> (b: Self)
        ensures
            b.nodes().len() == 0,
            b.forks().len() == 0,
            b.wf(),
    {
        NodeTableBuilder { nodes: Vec::new(), forks: Vec::new() }
    }

    pub fn len_nodes(&self) -> (n: usize)
        ensures
            n == self.nodes().len(),
    {
        self.nodes.len()
    }

    pub fn len_forks(&self) -> (n: usize)
        ensures
            n == self.forks().len(),
    {
        self.forks.len()
    }

    /// Appends `(tesuu, fork_path)` as one node and returns its id, the
    /// number of nodes pushed before it. Earlier nodes keep their locations.
    pub fn push_node(&mut self, tesuu: u32, fork_path: &Vec<ForkPointer>) -> (node_id: u32)
        requires
            old(self).wf(),
            old(self).has_room(fork_path@.len()),
        ensures
            final(self).wf(),
            node_id == old(self).nodes().len(),
            final(self).nodes() == old(self).nodes().push(
                NodeCursor {
                    tesuu,
                    fork_off: old(self).forks().len() as u32,
                    fork_len: fork_path@.len() as u16,
                },
            ),
            final(self).forks() == old(self).forks() + fork_path@.map_values(
                |p: ForkPointer| fork_ptr_of(p),
            ),
            final(self).spec_cursor(node_id) == Some((tesuu, fork_path@)),
            forall|id: u32|
                id < node_id ==> #[trigger] final(self).spec_cursor(id) == old(self).spec_cursor(
                    id,
                ),
    {
        let node_id = self.nodes.len() as u32;
        let off = self.forks.len() as u32;
        let len = fork_path.len();
        let mut i: usize = 0;
        while i < len
            invariant
                i <= len,
                len == fork_path@.len(),
                self.nodes@ == old(self).nodes@,
                self.forks@ == old(self).forks@ + fork_path@.take(i as int).map_values(
                    |p: ForkPointer| fork_ptr_of(p),
                ),
            decreases len - i,
        {
            let p = fork_path[i];
            self.forks.push(ForkPtr { te: p.te, fork_index: p.fork_index });
            proof {
                assert(fork_path@.take(i + 1).map_values(|p: ForkPointer| fork_ptr_of(p))
                    =~= fork_path@.take(i as int).map_values(|p: ForkPointer| fork_ptr_of(p)).push(
                    fork_ptr_of(p),
                ));
            }
            i += 1;
        }
        proof {
            assert(fork_path@.take(len as int) == fork_path@);
        }
        self.nodes.push(NodeCursor { tesuu, fork_off: off, fork_len: len as u16 });
        proof {
            assert(self.forks@.subrange(off as int, off + len).map_values(
                |p: ForkPtr| fork_pointer_of(p),
            ) =~= fork_path@);
            assert forall|id: u32| id < node_id implies #[trigger] self.spec_cursor(id) == old(
                self,
            ).spec_cursor(id) by {
                let n = old(self).nodes@[id as int];
                assert(self.nodes@[id as int] == n);
                assert(n.fork_off + n.fork_len <= old(self).forks@.len());
                assert(self.forks@.subrange(n.fork_off as int, n.fork_off + n.fork_len) =~= old(
                    self,
                ).forks@.subrange(n.fork_off as int, n.fork_off + n.fork_len));
            }
        }
        node_id
    }

    /// The table of all nodes pushed, in push order.
    pub fn finish(self) -> (t: NodeTable)
        ensures
            t.nodes@ == self.nodes(),
            t.forks@ == self.forks(),
            forall|id: u32| #[trigger] t.spec_cursor(id) == self.spec_cursor(id),
    {
        NodeTable { nodes: self.nodes, forks: self.forks }
    }
}

} // verus!
