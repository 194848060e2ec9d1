use vstd::prelude::*;
use crate::sorting::{check_sorted, lemma_sorted_is_fixed, sort_by_rank, sorted_by_rank, Ranked};
use crate::types::{forks_up_to, CursorLite, ForkPointer};

verus! {

/// A square as a game record gives it: file `x` and rank `y`, each 1 to 9.
#[derive(Debug, Clone, Copy, PartialEq, Eq, Structural)]
pub struct Place {
    pub x: u8,
    pub y: u8,
}

/// One move of a game record. `piece` is the record's code of the piece
/// kind, 0 to 13: pawn, lance, knight, silver, gold, bishop, rook, king, and
/// the promoted pawn, lance, knight, silver, bishop and rook. A move without
/// `from` is a drop.
#[derive(Debug, Clone, Copy, PartialEq, Eq, Structural)]
pub struct MoveData {
    pub white: bool,
    pub from: Option<Place>,
    pub to: Place,
    pub piece: u8,
    pub promote: Option<bool>,
}

/// What a node of a move tree means.
#[derive(Debug, Clone, Copy, PartialEq, Eq, Structural)]
pub enum NodeAction {
    /// A move is made.
    Move(MoveData),
    /// The game ends here, by resignation or otherwise.
    Special,
    /// Nothing happens: the node carries comments only.
    Noop,
}

/// One node of a move tree: the move made at it, if any, whether it marks
/// the end of the game, and the alternate lines that branch off in its
/// place. The first node of each alternate line stands at the move number
/// of this node.
#[derive(Debug)]
pub struct MoveNode {
    pub mv: Option<MoveData>,
    pub special: bool,
    pub forks: Vec<Vec<MoveNode>>,
}

/// What a node means: its move if it has one, else the end of the game if
/// it marks one, else nothing.
pub open spec fn spec_node_action(node: MoveNode) -> NodeAction {
    match node.mv {
        Some(m) => NodeAction::Move(m),
        None => if node.special {
            NodeAction::Special
        } else {
            NodeAction::Noop
        },
    }
}

pub fn node_action(node: &MoveNode) -> (a: NodeAction)
    ensures
        a == spec_node_action(*node),
{
    match node.mv {
        Some(m) => NodeAction::Move(m),
        None => {
            if node.special {
                NodeAction::Special
            } else {
                NodeAction::Noop
            }
        },
    }
}

/// What stands on one square of an explicit starting position.
#[derive(Debug, Clone, Copy, PartialEq, Eq, Structural)]
pub struct SquareData {
    pub white: Option<bool>,
    pub kind: Option<u8>,
}

/// An explicit starting position. `board` holds the 81 squares file by
/// file, each file from rank 1 to rank 9; `hands` holds black's counts of
/// the seven hand kinds and then white's.
#[derive(Debug, Clone)]
pub struct StateData {
    pub white_to_move: bool,
    pub board: Vec<SquareData>,
    pub hands: Vec<u8>,
}

/// How a game starts: by a named handicap, with explicit data or without.
/// Preset 0 is the even game.
#[derive(Debug, Clone)]
pub struct Initial {
    pub preset: u8,
    pub data: Option<StateData>,
}

/// A parsed game record: how it starts, and its moves. The first node
/// stands for the starting position itself.
#[derive(Debug)]
pub struct Jkf {
    pub initial: Option<Initial>,
    pub moves: Vec<MoveNode>,
}

/// Whether `fps` holds a pointer for the move number `te`.
pub open spec fn has_fork_at(fps: Seq<ForkPointer>, te: u32) -> bool {
    exists|i: int| 0 <= i < fps.len() && (#[trigger] fps[i]).te == te
}

/// The first index in `fps` of a pointer for the move number `te`.
pub open spec fn fork_position(fps: Seq<ForkPointer>, te: u32) -> int {
    choose|i: int|
        0 <= i < fps.len() && (#[trigger] fps[i]).te == te && forall|j: int|
            0 <= j < i ==> (#[trigger] fps[j]).te != te
}

impl Ranked for ForkPointer {
    /// Fork pointers are ordered by move number.
    open spec fn rank(self) -> int {
        self.te as int
    }

    fn rank_le(&self, other: &Self) -> (b: bool) {
        self.te <= other.te
    }
}

/// The fork path `fps` once the fork `fork_index` is taken at the move
/// number `te`: a pointer the path has for that move number is overwritten,
/// else the new pointer is added; the path is then put in the order of move
/// numbers.
pub open spec fn with_fork(fps: Seq<ForkPointer>, te: u32, fork_index: u32) -> Seq<ForkPointer> {
    sorted_by_rank(
        if has_fork_at(fps, te) {
            fps.update(fork_position(fps, te), ForkPointer { te, fork_index })
        } else {
            fps.push(ForkPointer { te, fork_index })
        },
    )
}

/// Records in the fork path `fps` that the fork `fork_index` is taken at the
/// move number `te`.
pub fn push_or_replace_fork(fps: &mut Vec<ForkPointer>, te: u32, fork_index: u32)
    ensures
        final(fps)@ == with_fork(old(fps)@, te, fork_index),
{
    let mut found = false;
    let mut i: usize = 0;
    while i < fps.len() && !found
        invariant
            i <= fps.len(),
            fps@.len() == old(fps)@.len(),
            !found ==> fps@ == old(fps)@ && forall|j: int|
                0 <= j < i ==> (#[trigger] fps@[j]).te != te,
            found ==> has_fork_at(old(fps)@, te) && fps@ == old(fps)@.update(
                fork_position(old(fps)@, te),
                ForkPointer { te, fork_index },
            ),
        decreases fps.len() - i + if found { 0int } else { 1int },
    {
        if fps[i].te == te {
            proof {
                let k = fork_position(fps@, te);
                assert(fps@[i as int].te == te);
                if k < i {
                    assert(fps@[k].te != te);
                }
                if i < k {
                    assert(fps@[i as int].te != te);
                }
            }
            fps.set(i, ForkPointer { te, fork_index });
            found = true;
        } else {
            i += 1;
        }
    }
    if !found {
        fps.push(ForkPointer { te, fork_index });
    }
    if !check_sorted(fps) {
        let sorted = sort_by_rank(fps);
        *fps = sorted;
    } else {
        proof {
            lemma_sorted_is_fixed(fps@);
        }
    }
}

/// The number a fork has in a fork pointer: its index, cut to 32 bits.
pub open spec fn fork_number(i: int) -> u32 {
    (i % 0x1_0000_0000) as u32
}

pub fn fork_number_of(i: usize) -> (n: u32)
    ensures
        n == fork_number(i as int),
{
    ((i as u64) % 0x1_0000_0000) as u32
}

/// One node of a move tree as a traversal reports it: where it stands,
/// where the node before it stands, and what it means.
#[derive(Debug, Clone)]
pub struct TraverseItem {
    pub cursor: CursorLite,
    pub parent_cursor: Option<CursorLite>,
    pub action: NodeAction,
}

/// A traversal item as plain values.
pub struct ItemModel {
    pub tesuu: u32,
    pub path: Seq<ForkPointer>,
    pub parent: Option<(u32, Seq<ForkPointer>)>,
    pub action: NodeAction,
}

pub open spec fn item_model(t: TraverseItem) -> ItemModel {
    ItemModel {
        tesuu: t.cursor.tesuu,
        path: t.cursor.fork_pointers@,
        parent: match t.parent_cursor {
            Some(c) => Some((c.tesuu, c.fork_pointers@)),
            None => None,
        },
        action: t.action,
    }
}

pub open spec fn item_models(s: Seq<TraverseItem>) -> Seq<ItemModel> {
    s.map_values(|t: TraverseItem| item_model(t))
}

/// The item of the node `node` at the move number `tesuu` on the fork path
/// `path`. The node before it stands one move earlier, on the forks of the
/// path that were taken before `tesuu`; a node at the move number 0 has none
/// before it.
pub open spec fn item_at(node: MoveNode, tesuu: u32, path: Seq<ForkPointer>) -> ItemModel {
    ItemModel {
        tesuu,
        path,
        parent: if tesuu == 0 {
            None
        } else {
            Some(((tesuu - 1) as u32, forks_up_to(path, (tesuu - 1) as u32)))
        },
        action: spec_node_action(node),
    }
}

/// The items of a line whose first node stands at the move number `tesuu`:
/// each node is followed by the items of its alternate lines, and then by
/// the rest of the line.
pub open spec fn items_of_line(line: Seq<MoveNode>, tesuu: u32, path: Seq<ForkPointer>) -> Seq<
    ItemModel,
>
    decreases line, 0int,
{
    if line.len() == 0 {
        Seq::empty()
    } else {
        seq![item_at(line[0], tesuu, path)] + items_of_forks(line[0].forks@, 0, tesuu, path)
            + items_of_line(line.skip(1), tesuu.wrapping_add(1), path)
    }
}

/// The items of the alternate lines `forks` from the `i`-th on; an empty
/// line is passed over.
pub open spec fn items_of_forks(
    forks: Seq<Vec<MoveNode>>,
    i: int,
    tesuu: u32,
    path: Seq<ForkPointer>,
) -> Seq<ItemModel>
    decreases forks, forks.len() - i,
{
    if i < 0 || i >= forks.len() {
        Seq::empty()
    } else {
        (if forks[i]@.len() == 0 {
            Seq::empty()
        } else {
            items_of_line(forks[i]@, tesuu, with_fork(path, tesuu, fork_number(i)))
        }) + items_of_forks(forks, i + 1, tesuu, path)
    }
}

/// The items of a whole record: the first node stands for the starting
/// position, at the move number 0, and the main line follows from the move
/// number 1. A record without nodes has no items.
pub open spec fn items_of_record(moves: Seq<MoveNode>) -> Seq<ItemModel> {
    if moves.len() == 0 {
        Seq::empty()
    } else {
        seq![
            ItemModel {
                tesuu: 0,
                path: Seq::empty(),
                parent: None,
                action: spec_node_action(moves[0]),
            },
        ] + items_of_line(moves.skip(1), 1, Seq::empty())
    }
}

fn copy_path(v: &Vec<ForkPointer>) -> (r: Vec<ForkPointer>)
    ensures
        r@ == v@,
{
    let mut r: Vec<ForkPointer> = Vec::with_capacity(v.len());
    let mut i: usize = 0;
    while i < v.len()
        invariant
            i <= v.len(),
            r@ == v@.take(i as int),
        decreases v.len() - i,
    {
        r.push(v[i]);
        proof {
            assert(v@.take(i + 1) =~= v@.take(i as int).push(v@[i as int]));
        }
        i += 1;
    }
    proof {
        assert(v@.take(i as int) == v@);
    }
    r
}

fn traverse_line(
    line: &Vec<MoveNode>,
    from: usize,
    start_tesuu: u32,
    fork_path: &Vec<ForkPointer>,
    out: &mut Vec<TraverseItem>,
)
    requires
        from <= line@.len(),
    ensures
        item_models(final(out)@) == item_models(old(out)@) + items_of_line(
            line@.skip(from as int),
            start_tesuu,
            fork_path@,
        ),
    decreases line@, 1int,
{
    let ghost start = item_models(out@);
    let ghost whole = items_of_line(line@.skip(from as int), start_tesuu, fork_path@);
    let mut k: usize = from;
    let mut tesuu: u32 = start_tesuu;
    proof {
        assert(start + whole =~= item_models(out@) + whole);
    }
    while k < line.len()
        invariant
            from <= k <= line@.len(),
            start + whole == item_models(out@) + items_of_line(
                line@.skip(k as int),
                tesuu,
                fork_path@,
            ),
        decreases line@.len() - k,
    {
        let node = &line[k];
        let ghost rest = line@.skip(k as int);
        let ghost before = out@;
        let ghost here = item_at(*node, tesuu, fork_path@);
        let ghost forks_items = items_of_forks(node.forks@, 0, tesuu, fork_path@);
        let ghost tail = items_of_line(rest.skip(1), tesuu.wrapping_add(1), fork_path@);
        proof {
            assert(rest[0] == *node);
            assert(rest.skip(1) =~= line@.skip(k + 1));
            assert(items_of_line(rest, tesuu, fork_path@) == seq![here] + forks_items + tail);
        }
        let cursor = CursorLite { tesuu, fork_pointers: copy_path(fork_path) };
        let parent_cursor = if tesuu == 0 {
            None
        } else {
            Some(cursor.filtered_for_tesuu(tesuu - 1))
        };
        out.push(TraverseItem { cursor, parent_cursor, action: node_action(node) });
        proof {
            assert(item_models(out@) =~= item_models(before) + seq![here]);
        }
        traverse_forks(&node.forks, tesuu, fork_path, out);
        proof {
            assert(item_models(out@) =~= item_models(before) + seq![here] + forks_items);
            assert(item_models(before) + (seq![here] + forks_items + tail) =~= item_models(out@)
                + tail);
        }
        k += 1;
        tesuu = tesuu.wrapping_add(1);
    }
    proof {
        assert(line@.skip(k as int).len() == 0);
        assert(item_models(out@) + Seq::<ItemModel>::empty() =~= item_models(out@));
    }
}

fn traverse_forks(
    forks: &Vec<Vec<MoveNode>>,
    tesuu: u32,
    fork_path: &Vec<ForkPointer>,
    out: &mut Vec<TraverseItem>,
)
    ensures
        item_models(final(out)@) == item_models(old(out)@) + items_of_forks(
            forks@,
            0,
            tesuu,
            fork_path@,
        ),
    decreases forks@, 0int,
{
    let ghost start = item_models(out@);
    let ghost whole = items_of_forks(forks@, 0, tesuu, fork_path@);
    let mut i: usize = 0;
    while i < forks.len()
        invariant
            i <= forks@.len(),
            start + whole == item_models(out@) + items_of_forks(
                forks@,
                i as int,
                tesuu,
                fork_path@,
            ),
        decreases forks@.len() - i,
    {
        let fork_line = &forks[i];
        let ghost before = item_models(out@);
        let ghost tail = items_of_forks(forks@, i + 1, tesuu, fork_path@);
        if fork_line.len() > 0 {
            let mut fork_path2 = copy_path(fork_path);
            push_or_replace_fork(&mut fork_path2, tesuu, fork_number_of(i));
            let ghost sub = items_of_line(fork_line@, tesuu, fork_path2@);
            proof {
                assert(fork_line@.skip(0) =~= fork_line@);
            }
            traverse_line(fork_line, 0, tesuu, &fork_path2, out);
            proof {
                assert(before + (sub + tail) =~= item_models(out@) + tail);
            }
        } else {
            proof {
                assert(Seq::<ItemModel>::empty() + tail =~= tail);
            }
        }
        i += 1;
    }
    proof {
        assert(item_models(out@) + Seq::<ItemModel>::empty() =~= item_models(out@));
    }
}

/// Lists the nodes of a record as a tree is read: the starting position,
/// then each node of the main line, each followed by its alternate lines.
pub fn traverse_jkf(jkf: &Jkf) -> (items: Vec<TraverseItem>)
    ensures
        item_models(items@) == items_of_record(jkf.moves@),
{
    let mut items: Vec<TraverseItem> = Vec::new();
    if jkf.moves.len() == 0 {
        proof {
            assert(item_models(items@) =~= Seq::<ItemModel>::empty());
        }
        return items;
    }
    items.push(
        TraverseItem {
            cursor: CursorLite::root(),
            parent_cursor: None,
            action: node_action(&jkf.moves[0]),
        },
    );
    let root_path: Vec<ForkPointer> = Vec::new();
    proof {
        assert(item_models(items@) =~= seq![
            ItemModel {
                tesuu: 0,
                path: Seq::empty(),
                parent: None,
                action: spec_node_action(jkf.moves@[0]),
            },
        ]);
    }
    traverse_line(&jkf.moves, 1, 1, &root_path, &mut items);
    items
}

} // verus!
