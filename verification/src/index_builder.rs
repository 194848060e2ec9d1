use vstd::prelude::*;
use vstd::string::*;
use crate::types::cursor_text;
use shogi_core::PartialPosition;
use crate::initial_position::{initial_partial_position, initial_result, InitialPosError};
use crate::node_table::{NodeTable, NodeTableBuilder};
use crate::position::{copy_position, position_cells};
use crate::position_apply::{apply_node_action, apply_result, ApplyError, ApplyStatus};
use crate::position_key::{key_from_partial_position, key_of_cells, PositionKey};
use crate::sorting::{sort_by_rank, sorted_by_rank};
use crate::traverse::{
    fork_number, fork_number_of, node_action, push_or_replace_fork, spec_node_action, with_fork,
    Jkf, MoveNode, };
use crate::types::{CursorLite, FileId, ForkPointer, Gen, NodeId, Occurrence, PositionHit};

verus! {

/// What to do with a move that cannot be applied.
#[derive(Debug, Clone, Copy, PartialEq, Eq, Structural)]
pub enum BuildPolicy {
    /// Warn, give up the line, and keep the rest of the file.
    Loose,
    /// Give up the file.
    Strict,
}

/// A position the walk reached: its cells and where in the tree it stands.
pub struct Visit {
    pub cells: Seq<u8>,
    pub tesuu: u32,
    pub path: Seq<ForkPointer>,
}

/// A move that could not be applied: where in the tree it stands, and why.
pub struct Stop {
    pub tesuu: u32,
    pub path: Seq<ForkPointer>,
    pub error: ApplyError,
}

/// What a walk yields: the positions reached in the order of the walk, the
/// lines given up with a warning, and the failure that ended it, if any.
pub struct Walked {
    pub visits: Seq<Visit>,
    pub warns: Seq<Stop>,
    pub failed: Option<Stop>,
}

impl Walked {
    pub open spec fn nothing() -> Walked {
        Walked { visits: Seq::empty(), warns: Seq::empty(), failed: None }
    }

    pub open spec fn visit(cells: Seq<u8>, tesuu: u32, path: Seq<ForkPointer>) -> Walked {
        Walked { visits: seq![Visit { cells, tesuu, path }], warns: Seq::empty(), failed: None }
    }

    pub open spec fn warn(stop: Stop) -> Walked {
        Walked { visits: Seq::empty(), warns: seq![stop], failed: None }
    }

    pub open spec fn fail(stop: Stop) -> Walked {
        Walked { visits: Seq::empty(), warns: Seq::empty(), failed: Some(stop) }
    }

    /// This walk and then `next`; a walk that failed is not continued.
    pub open spec fn followed_by(self, next: Walked) -> Walked {
        if self.failed is Some {
            self
        } else {
            Walked {
                visits: self.visits + next.visits,
                warns: self.warns + next.warns,
                failed: next.failed,
            }
        }
    }
}

/// The walk of one line from the position of the cells `cells`, the line's
/// first node standing at the move number `tesuu` on the fork path `path`.
/// At each node the alternate lines are walked first, each from the position
/// before the node's move; then the node is applied. A position that is
/// reached is recorded. The line ends at a game end, and at a move that
/// cannot be applied: with a failure under the strict policy, with a warning
/// otherwise.
pub open spec fn walk_line(
    cells: Seq<u8>,
    line: Seq<MoveNode>,
    tesuu: u32,
    path: Seq<ForkPointer>,
    strict: bool,
) -> Walked
    decreases line, 0int,
{
    if line.len() == 0 {
        Walked::nothing()
    } else {
        let node = line[0];
        walk_forks(cells, node.forks@, 0, tesuu, path, strict).followed_by(
            match apply_result(cells, spec_node_action(node)) {
                Ok((status, after)) => {
                    let here = Walked::visit(after, tesuu, path);
                    if status == ApplyStatus::Terminal {
                        here
                    } else {
                        here.followed_by(
                            walk_line(after, line.skip(1), tesuu.wrapping_add(1), path, strict),
                        )
                    }
                },
                Err(error) => {
                    let stop = Stop { tesuu, path, error };
                    if strict {
                        Walked::fail(stop)
                    } else {
                        Walked::warn(stop)
                    }
                },
            },
        )
    }
}

/// The walk of the alternate lines `forks` from the `i`-th on; an empty
/// line is passed over.
pub open spec fn walk_forks(
    cells: Seq<u8>,
    forks: Seq<Vec<MoveNode>>,
    i: int,
    tesuu: u32,
    path: Seq<ForkPointer>,
    strict: bool,
) -> Walked
    decreases forks, forks.len() - i,
{
    if i < 0 || i >= forks.len() {
        Walked::nothing()
    } else {
        let first = if forks[i]@.len() == 0 {
            Walked::nothing()
        } else {
            walk_line(cells, forks[i]@, tesuu, with_fork(path, tesuu, fork_number(i)), strict)
        };
        first.followed_by(walk_forks(cells, forks, i + 1, tesuu, path, strict))
    }
}

/// A move that could not be applied under the loose policy.
#[derive(Debug, Clone)]
pub struct BuildWarn {
    pub cursor: CursorLite,
    pub error: ApplyError,
}

/// Why a file could not be indexed.
#[derive(Debug, Clone)]
pub enum BuildError {
    /// The record has no starting position.
    Initial(InitialPosError),
    /// A move could not be applied, under the strict policy.
    Apply { cursor: CursorLite, source: ApplyError },
    /// The tree has more nodes, or longer fork paths, than a node table can
    /// hold: node ids and fork offsets are 32-bit numbers, and the length of
    /// a fork path a 16-bit number.
    TooLarge,
}

/// A position key with the place it was found at, as plain values.
pub struct HitModel {
    pub key: PositionKey,
    pub occ: Occurrence,
    pub tesuu: u32,
    pub path: Seq<ForkPointer>,
}

pub open spec fn hit_model(h: (PositionKey, PositionHit)) -> HitModel {
    HitModel { key: h.0, occ: h.1.occ, tesuu: h.1.cursor.tesuu, path: h.1.cursor.fork_pointers@ }
}

pub open spec fn hit_models(s: Seq<(PositionKey, PositionHit)>) -> Seq<HitModel> {
    s.map_values(|h: (PositionKey, PositionHit)| hit_model(h))
}

pub open spec fn warn_model(w: BuildWarn) -> Stop {
    Stop { tesuu: w.cursor.tesuu, path: w.cursor.fork_pointers@, error: w.error }
}

pub open spec fn warn_models(s: Seq<BuildWarn>) -> Seq<Stop> {
    s.map_values(|w: BuildWarn| warn_model(w))
}

/// The node id of the `i`-th position recorded after the one with the id
/// `first`: ids count up and wrap around at 2^32.
pub open spec fn node_id_at(first: u32, i: int) -> u32 {
    ((first + i) % 0x1_0000_0000) as u32
}

/// The hits that the visits of a walk make, the first of them getting the
/// node id `first`.
pub open spec fn hits_of(visits: Seq<Visit>, file_id: FileId, gen: Gen, first: u32) -> Seq<HitModel> {
    Seq::new(
        visits.len(),
        |i: int|
            HitModel {
                key: key_of_cells(visits[i].cells),
                occ: Occurrence { file_id, gen, node_id: node_id_at(first, i) },
                tesuu: visits[i].tesuu,
                path: visits[i].path,
            },
    )
}

pub proof fn lemma_node_id_add(first: u32, a: int, b: int)
    requires
        0 <= a,
        0 <= b,
    ensures
        node_id_at(node_id_at(first, a), b) == node_id_at(first, a + b),
        node_id_at(first, 0) == first,
        node_id_at(first, a).wrapping_add(1) == node_id_at(first, a + 1),
{
    let m = 0x1_0000_0000int;
    vstd::arithmetic::div_mod::lemma_add_mod_noop(first + a, b, m);
    vstd::arithmetic::div_mod::lemma_mod_twice(first + a, m);
    let x = (first + a) % m;
    assert((x + b) % m == (first + a + b) % m) by {
        vstd::arithmetic::div_mod::lemma_add_mod_noop(x, b, m);
    }
    vstd::arithmetic::div_mod::lemma_small_mod(first as nat, m as nat);
    vstd::arithmetic::div_mod::lemma_add_mod_noop(first + a, 1, m);
    assert((x + 1) % m == (first + a + 1) % m) by {
        vstd::arithmetic::div_mod::lemma_add_mod_noop(x, 1, m);
    }
    assert(0 <= x < m);
    if x + 1 >= m {
        assert((x + 1) % m == 0) by {
            vstd::arithmetic::div_mod::lemma_mod_self_0(m);
        }
    } else {
        vstd::arithmetic::div_mod::lemma_small_mod((x + 1) as nat, m as nat);
    }
}

pub proof fn lemma_followed_by_assoc(a: Walked, b: Walked, c: Walked)
    ensures
        a.followed_by(b).followed_by(c) == a.followed_by(b.followed_by(c)),
{
    if a.failed is None && b.failed is None {
        assert((a.visits + b.visits) + c.visits =~= a.visits + (b.visits + c.visits));
        assert((a.warns + b.warns) + c.warns =~= a.warns + (b.warns + c.warns));
    }
}

pub proof fn lemma_followed_by_nothing(a: Walked)
    ensures
        a.followed_by(Walked::nothing()) == a,
        Walked::nothing().followed_by(a) == a,
{
    assert(a.visits + Seq::<Visit>::empty() =~= a.visits);
    assert(a.warns + Seq::<Stop>::empty() =~= a.warns);
    assert(Seq::<Visit>::empty() + a.visits =~= a.visits);
    assert(Seq::<Stop>::empty() + a.warns =~= a.warns);
}

/// What was recorded for the walk `done` on top of what was there before.
pub open spec fn recorded(
    file_id: FileId,
    gen: Gen,
    hits0: Seq<HitModel>,
    warns0: Seq<Stop>,
    first: u32,
    done: Walked,
    hits: Seq<HitModel>,
    warns: Seq<Stop>,
    next: u32,
) -> bool {
    &&& done.failed is None
    &&& hits == hits0 + hits_of(done.visits, file_id, gen, first)
    &&& warns == warns0 + done.warns
    &&& next == node_id_at(first, done.visits.len() as int)
}

proof fn lemma_recorded_start(
    file_id: FileId,
    gen: Gen,
    hits0: Seq<HitModel>,
    warns0: Seq<Stop>,
    first: u32,
)
    ensures
        recorded(file_id, gen, hits0, warns0, first, Walked::nothing(), hits0, warns0, first),
{
    lemma_node_id_add(first, 0, 0);
    assert(hits0 + hits_of(Seq::<Visit>::empty(), file_id, gen, first) =~= hits0);
    assert(warns0 + Seq::<Stop>::empty() =~= warns0);
}

/// Recording a second walk behind a first one records the two in a row.
proof fn lemma_recorded_extend(
    file_id: FileId,
    gen: Gen,
    hits0: Seq<HitModel>,
    warns0: Seq<Stop>,
    first: u32,
    done: Walked,
    hits1: Seq<HitModel>,
    warns1: Seq<Stop>,
    next1: u32,
    more: Walked,
    hits2: Seq<HitModel>,
    warns2: Seq<Stop>,
    next2: u32,
)
    requires
        recorded(file_id, gen, hits0, warns0, first, done, hits1, warns1, next1),
        recorded(file_id, gen, hits1, warns1, next1, more, hits2, warns2, next2),
    ensures
        recorded(file_id, gen, hits0, warns0, first, done.followed_by(more), hits2, warns2, next2),
{
    let a = done.visits;
    let b = more.visits;
    lemma_node_id_add(first, a.len() as int, b.len() as int);
    assert forall|i: int| 0 <= i < b.len() implies node_id_at(next1, i) == node_id_at(
        first,
        a.len() + i,
    ) by {
        lemma_node_id_add(first, a.len() as int, i);
    }
    assert(hits_of(a + b, file_id, gen, first) =~= hits_of(a, file_id, gen, first) + hits_of(
        b,
        file_id,
        gen,
        next1,
    ));
    assert(hits2 =~= hits0 + hits_of(a + b, file_id, gen, first));
    assert(warns2 =~= warns0 + (done.warns + more.warns));
}

proof fn lemma_record_visit(
    file_id: FileId,
    gen: Gen,
    hits0: Seq<HitModel>,
    warns0: Seq<Stop>,
    first: u32,
    done: Walked,
    hits2: Seq<HitModel>,
    warns2: Seq<Stop>,
    next2: u32,
    cells: Seq<u8>,
    tesuu: u32,
    path: Seq<ForkPointer>,
    hits3: Seq<HitModel>,
    next3: u32,
)
    requires
        recorded(file_id, gen, hits0, warns0, first, done, hits2, warns2, next2),
        hits3 == hits2.push(
            HitModel {
                key: key_of_cells(cells),
                occ: Occurrence { file_id, gen, node_id: next2 },
                tesuu,
                path,
            },
        ),
        next3 == next2.wrapping_add(1),
    ensures
        recorded(
            file_id,
            gen,
            hits0,
            warns0,
            first,
            done.followed_by(Walked::visit(cells, tesuu, path)),
            hits3,
            warns2,
            next3,
        ),
{
    let here = Walked::visit(cells, tesuu, path);
    lemma_node_id_add(next2, 0, 1);
    assert(hits_of(here.visits, file_id, gen, next2) =~= seq![
        HitModel {
            key: key_of_cells(cells),
            occ: Occurrence { file_id, gen, node_id: next2 },
            tesuu,
            path,
        },
    ]);
    assert(hits3 =~= hits2 + hits_of(here.visits, file_id, gen, next2));
    assert(warns2 + here.warns =~= warns2);
    assert(recorded(file_id, gen, hits2, warns2, next2, here, hits3, warns2, next3));
    lemma_recorded_extend(
        file_id,
        gen,
        hits0,
        warns0,
        first,
        done,
        hits2,
        warns2,
        next2,
        here,
        hits3,
        warns2,
        next3,
    );
}

proof fn lemma_record_warn(
    file_id: FileId,
    gen: Gen,
    hits0: Seq<HitModel>,
    warns0: Seq<Stop>,
    first: u32,
    done: Walked,
    hits2: Seq<HitModel>,
    warns2: Seq<Stop>,
    next2: u32,
    stop: Stop,
    warns3: Seq<Stop>,
)
    requires
        recorded(file_id, gen, hits0, warns0, first, done, hits2, warns2, next2),
        warns3 == warns2.push(stop),
    ensures
        recorded(
            file_id,
            gen,
            hits0,
            warns0,
            first,
            done.followed_by(Walked::warn(stop)),
            hits2,
            warns3,
            next2,
        ),
{
    let w = Walked::warn(stop);
    assert(warns3 =~= warns2 + w.warns);
    assert(hits2 + hits_of(w.visits, file_id, gen, next2) =~= hits2);
    lemma_node_id_add(next2, 0, 0);
    assert(recorded(file_id, gen, hits2, warns2, next2, w, hits2, warns3, next2));
    lemma_recorded_extend(
        file_id,
        gen,
        hits0,
        warns0,
        first,
        done,
        hits2,
        warns2,
        next2,
        w,
        hits2,
        warns3,
        next2,
    );
}

fn copy_forks(v: &Vec<ForkPointer>) -> (r: Vec<ForkPointer>)
    ensures
        r@ == v@,
{
    let mut r: Vec<ForkPointer> = Vec::with_capacity(v.len());
    let mut i: usize = 0;
    while i < v.len()
        invariant
            i <= v.len(),
            r@ == v@.take(i as int),
        decreases v.len() - i,
    {
        r.push(v[i]);
        proof {
            assert(v@.take(i + 1) =~= v@.take(i as int).push(v@[i as int]));
        }
        i += 1;
    }
    proof {
        assert(v@.take(i as int) == v@);
    }
    r
}

/// Records the position `pos` as reached at `tesuu` on `fork_path`.
fn push_entry(
    file_id: FileId,
    gen: Gen,
    next_node_id: &mut NodeId,
    entries: &mut Vec<(PositionKey, PositionHit)>,
    tesuu: u32,
    fork_path: &Vec<ForkPointer>,
    pos: &PartialPosition,
)
    ensures
        *final(next_node_id) == old(next_node_id).wrapping_add(1),
        hit_models(final(entries)@) == hit_models(old(entries)@).push(
            HitModel {
                key: key_of_cells(position_cells(*pos)),
                occ: Occurrence { file_id, gen, node_id: *old(next_node_id) },
                tesuu,
                path: fork_path@,
            },
        ),
{
    let key = key_from_partial_position(pos);
    let node_id = *next_node_id;
    *next_node_id = next_node_id.wrapping_add(1);
    let occ = Occurrence { file_id, gen, node_id };
    let cursor = CursorLite { tesuu, fork_pointers: copy_forks(fork_path) };
    let ghost before = entries@;
    entries.push((key, PositionHit { occ, cursor }));
    proof {
        assert(hit_models(entries@) =~= hit_models(before).push(hit_model(entries@.last())));
    }
}

/// Whether `e` reports that the move at `stop` could not be applied.
pub open spec fn build_error_is(e: BuildError, stop: Stop) -> bool {
    e matches BuildError::Apply { cursor, source } && cursor.tesuu == stop.tesuu
        && cursor.fork_pointers@ == stop.path && source == stop.error
}

/// Walks the line `seq` from its node `from` on, which stands at the move
/// number `start_tesuu`, from the position `pos`.
fn walk_sequence(
    file_id: FileId,
    gen: Gen,
    seq: &Vec<MoveNode>,
    from: usize,
    start_tesuu: u32,
    pos: PartialPosition,
    fork_path: &Vec<ForkPointer>,
    policy: BuildPolicy,
    next_node_id: &mut NodeId,
    entries: &mut Vec<(PositionKey, PositionHit)>,
    warns: &mut Vec<BuildWarn>,
) -> (r: Result<(), BuildError>)
    requires
        from <= seq@.len(),
    ensures
        ({
            let w = walk_line(
                position_cells(pos),
                seq@.skip(from as int),
                start_tesuu,
                fork_path@,
                policy == BuildPolicy::Strict,
            );
            match w.failed {
                Some(stop) => r is Err && build_error_is(r->Err_0, stop),
                None => r is Ok && recorded(
                    file_id,
                    gen,
                    hit_models(old(entries)@),
                    warn_models(old(warns)@),
                    *old(next_node_id),
                    w,
                    hit_models(final(entries)@),
                    warn_models(final(warns)@),
                    *final(next_node_id),
                ),
            }
        }),
    decreases seq@, 1int,
{
    let ghost strict = policy == BuildPolicy::Strict;
    let ghost cells0 = position_cells(pos);
    let ghost hits0 = hit_models(entries@);
    let ghost warns0 = warn_models(warns@);
    let ghost first = *next_node_id;
    let ghost whole = walk_line(cells0, seq@.skip(from as int), start_tesuu, fork_path@, strict);
    let ghost mut done = Walked::nothing();
    let mut cur = pos;
    let mut k: usize = from;
    let mut tesuu: u32 = start_tesuu;
    proof {
        lemma_recorded_start(file_id, gen, hits0, warns0, first);
        lemma_followed_by_nothing(whole);
        if k == seq@.len() {
            assert(seq@.skip(k as int).len() == 0);
        }
    }
    while k < seq.len()
        invariant_except_break
            whole == done.followed_by(
                walk_line(position_cells(cur), seq@.skip(k as int), tesuu, fork_path@, strict),
            ),
        invariant
            from <= k <= seq@.len(),
            strict == (policy == BuildPolicy::Strict),
            cells0 == position_cells(pos),
            whole == walk_line(cells0, seq@.skip(from as int), start_tesuu, fork_path@, strict),
            recorded(
                file_id,
                gen,
                hits0,
                warns0,
                first,
                done,
                hit_models(entries@),
                warn_models(warns@),
                *next_node_id,
            ),
            k == seq@.len() ==> whole == done,
        ensures
            whole.failed is None,
            recorded(
                file_id,
                gen,
                hits0,
                warns0,
                first,
                whole,
                hit_models(entries@),
                warn_models(warns@),
                *next_node_id,
            ),
        decreases seq@.len() - k,
    {
        let node = &seq[k];
        let ghost cells = position_cells(cur);
        let ghost line = seq@.skip(k as int);
        let ghost fw = walk_forks(cells, node.forks@, 0, tesuu, fork_path@, strict);
        let ghost step = match apply_result(cells, spec_node_action(*node)) {
            Ok((status, after)) => {
                let here = Walked::visit(after, tesuu, fork_path@);
                if status == ApplyStatus::Terminal {
                    here
                } else {
                    here.followed_by(
                        walk_line(after, line.skip(1), tesuu.wrapping_add(1), fork_path@, strict),
                    )
                }
            },
            Err(error) => {
                let stop = Stop { tesuu, path: fork_path@, error };
                if strict {
                    Walked::fail(stop)
                } else {
                    Walked::warn(stop)
                }
            },
        };
        proof {
            assert(line[0] == seq@[k as int]);
            assert(line.skip(1) =~= seq@.skip(k + 1));
            assert(walk_line(cells, line, tesuu, fork_path@, strict) == fw.followed_by(step));
            lemma_followed_by_assoc(done, fw, step);
        }
        let ghost hits1 = hit_models(entries@);
        let ghost warns1 = warn_models(warns@);
        let ghost next1 = *next_node_id;
        match walk_forks_exec(
            file_id,
            gen,
            &node.forks,
            tesuu,
            &cur,
            fork_path,
            policy,
            next_node_id,
            entries,
            warns,
        ) {
            Err(e) => {
                return Err(e);
            },
            Ok(()) => {},
        }
        proof {
            lemma_recorded_extend(
                file_id,
                gen,
                hits0,
                warns0,
                first,
                done,
                hits1,
                warns1,
                next1,
                fw,
                hit_models(entries@),
                warn_models(warns@),
                *next_node_id,
            );
            done = done.followed_by(fw);
        }
        let ghost hits2 = hit_models(entries@);
        let ghost warns2 = warn_models(warns@);
        let ghost next2 = *next_node_id;
        match apply_node_action(&mut cur, node_action(node)) {
            Ok(status) => {
                push_entry(file_id, gen, next_node_id, entries, tesuu, fork_path, &cur);
                proof {
                    let here = Walked::visit(position_cells(cur), tesuu, fork_path@);
                    lemma_record_visit(
                        file_id,
                        gen,
                        hits0,
                        warns0,
                        first,
                        done,
                        hits2,
                        warns2,
                        next2,
                        position_cells(cur),
                        tesuu,
                        fork_path@,
                        hit_models(entries@),
                        *next_node_id,
                    );
                    if status != ApplyStatus::Terminal {
                        lemma_followed_by_assoc(
                            done,
                            here,
                            walk_line(
                                position_cells(cur),
                                line.skip(1),
                                tesuu.wrapping_add(1),
                                fork_path@,
                                strict,
                            ),
                        );
                    }
                    done = done.followed_by(here);
                }
                match status {
                    ApplyStatus::Terminal => {
                        break ;
                    },
                    _ => {},
                }
            },
            Err(e) => {
                let cursor = CursorLite { tesuu, fork_pointers: copy_forks(fork_path) };
                match policy {
                    BuildPolicy::Strict => {
                        return Err(BuildError::Apply { cursor, source: e });
                    },
                    BuildPolicy::Loose => {
                        let ghost before = warns@;
                        warns.push(BuildWarn { cursor, error: e });
                        proof {
                            let stop = Stop { tesuu, path: fork_path@, error: e };
                            assert(warn_models(warns@) =~= warn_models(before).push(stop));
                            lemma_record_warn(
                                file_id,
                                gen,
                                hits0,
                                warns0,
                                first,
                                done,
                                hits2,
                                warns2,
                                next2,
                                stop,
                                warn_models(warns@),
                            );
                            done = done.followed_by(Walked::warn(stop));
                        }
                        break ;
                    },
                }
            },
        }
        k += 1;
        tesuu = tesuu.wrapping_add(1);
        proof {
            if k == seq@.len() {
                assert(seq@.skip(k as int).len() == 0);
                lemma_followed_by_nothing(done);
            }
        }
    }
    Ok(())
}

/// Walks the alternate lines `forks` of a node at the move number `tesuu`,
/// each from a copy of the position `parent` before the node's move.
fn walk_forks_exec(
    file_id: FileId,
    gen: Gen,
    forks: &Vec<Vec<MoveNode>>,
    tesuu: u32,
    parent: &PartialPosition,
    fork_path: &Vec<ForkPointer>,
    policy: BuildPolicy,
    next_node_id: &mut NodeId,
    entries: &mut Vec<(PositionKey, PositionHit)>,
    warns: &mut Vec<BuildWarn>,
) -> (r: Result<(), BuildError>)
    ensures
        ({
            let w = walk_forks(
                position_cells(*parent),
                forks@,
                0,
                tesuu,
                fork_path@,
                policy == BuildPolicy::Strict,
            );
            match w.failed {
                Some(stop) => r is Err && build_error_is(r->Err_0, stop),
                None => r is Ok && recorded(
                    file_id,
                    gen,
                    hit_models(old(entries)@),
                    warn_models(old(warns)@),
                    *old(next_node_id),
                    w,
                    hit_models(final(entries)@),
                    warn_models(final(warns)@),
                    *final(next_node_id),
                ),
            }
        }),
    decreases forks@, 0int,
{
    let ghost strict = policy == BuildPolicy::Strict;
    let ghost cells = position_cells(*parent);
    let ghost hits0 = hit_models(entries@);
    let ghost warns0 = warn_models(warns@);
    let ghost first = *next_node_id;
    let ghost whole = walk_forks(cells, forks@, 0, tesuu, fork_path@, strict);
    let ghost mut done = Walked::nothing();
    let mut i: usize = 0;
    proof {
        lemma_recorded_start(file_id, gen, hits0, warns0, first);
        lemma_followed_by_nothing(whole);
    }
    while i < forks.len()
        invariant
            i <= forks@.len(),
            strict == (policy == BuildPolicy::Strict),
            cells == position_cells(*parent),
            whole == walk_forks(cells, forks@, 0, tesuu, fork_path@, strict),
            recorded(
                file_id,
                gen,
                hits0,
                warns0,
                first,
                done,
                hit_models(entries@),
                warn_models(warns@),
                *next_node_id,
            ),
            whole == done.followed_by(
                walk_forks(cells, forks@, i as int, tesuu, fork_path@, strict),
            ),
        decreases forks@.len() - i,
    {
        let fork_line = &forks[i];
        let ghost rest = walk_forks(cells, forks@, i + 1, tesuu, fork_path@, strict);
        if fork_line.len() > 0 {
            let mut fork_path2 = copy_forks(fork_path);
            push_or_replace_fork(&mut fork_path2, tesuu, fork_number_of(i));
            let ghost sub = walk_line(cells, fork_line@, tesuu, fork_path2@, strict);
            let ghost hits1 = hit_models(entries@);
            let ghost warns1 = warn_models(warns@);
            let ghost next1 = *next_node_id;
            proof {
                assert(fork_line@.skip(0) =~= fork_line@);
                assert(walk_forks(cells, forks@, i as int, tesuu, fork_path@, strict)
                    == sub.followed_by(rest));
                lemma_followed_by_assoc(done, sub, rest);
            }
            match walk_sequence(
                file_id,
                gen,
                fork_line,
                0,
                tesuu,
                copy_position(parent),
                &fork_path2,
                policy,
                next_node_id,
                entries,
                warns,
            ) {
                Err(e) => {
                    return Err(e);
                },
                Ok(()) => {},
            }
            proof {
                lemma_recorded_extend(
                    file_id,
                    gen,
                    hits0,
                    warns0,
                    first,
                    done,
                    hits1,
                    warns1,
                    next1,
                    sub,
                    hit_models(entries@),
                    warn_models(warns@),
                    *next_node_id,
                );
                done = done.followed_by(sub);
            }
        } else {
            proof {
                lemma_followed_by_nothing(rest);
            }
        }
        i += 1;
    }
    proof {
        lemma_followed_by_nothing(done);
    }
    Ok(())
}

/// What indexing one file yields: its entries in the order of the walk,
/// the node table that tells where each entry's node stands, and the
/// warnings of the lines that were given up.
#[derive(Debug)]
pub struct FileIndexBuild {
    pub entries: Vec<(PositionKey, Occurrence)>,
    pub node_table: NodeTable,
    pub warns: Vec<BuildWarn>,
}

/// The walk of a whole record from the starting position of the cells
/// `cells`: the starting position is recorded at the move number 0, and the
/// main line is walked from the move number 1. The first node of a record
/// stands for the starting position and holds no move.
pub open spec fn whole_walk(cells: Seq<u8>, moves: Seq<MoveNode>, strict: bool) -> Walked {
    Walked::visit(cells, 0, Seq::empty()).followed_by(
        if moves.len() > 1 {
            walk_line(cells, moves.skip(1), 1, Seq::empty(), strict)
        } else {
            Walked::nothing()
        },
    )
}

/// The number of fork pointers on the paths of all visits.
pub open spec fn total_forks(visits: Seq<Visit>) -> nat
    decreases visits.len(),
{
    if visits.len() == 0 {
        0
    } else {
        total_forks(visits.drop_last()) + visits.last().path.len()
    }
}

/// Whether a node table can hold the visits: at most 2^32 - 1 nodes and
/// fork pointers, and at most 2^16 - 1 pointers on one path.
pub open spec fn table_fits(visits: Seq<Visit>) -> bool {
    &&& visits.len() <= u32::MAX
    &&& total_forks(visits) <= u32::MAX
    &&& forall|i: int| 0 <= i < visits.len() ==> (#[trigger] visits[i]).path.len() <= u16::MAX
}

/// Whether `b` is what the walk `w` of a file yields: one entry for each
/// position reached, in the order of the walk, with the position's key and
/// with the place in the walk as node id; a node table that gives for each
/// node id the move number and the fork path of its position; and the
/// warnings of the walk.
pub open spec fn built_from(b: FileIndexBuild, w: Walked, file_id: FileId, gen: Gen) -> bool {
    &&& b.entries@.len() == w.visits.len()
    &&& b.node_table.nodes@.len() == w.visits.len()
    &&& forall|i: int|
        0 <= i < w.visits.len() ==> #[trigger] b.entries@[i] == (
            key_of_cells(w.visits[i].cells),
            Occurrence { file_id, gen, node_id: i as u32 },
        )
    &&& forall|i: int|
        0 <= i < w.visits.len() ==> #[trigger] b.node_table.spec_cursor(i as u32) == Some(
            (w.visits[i].tesuu, w.visits[i].path),
        )
    &&& warn_models(b.warns@) == w.warns
}

proof fn lemma_total_forks_grows(visits: Seq<Visit>, n: int)
    requires
        0 <= n <= visits.len(),
    ensures
        total_forks(visits.take(n)) <= total_forks(visits),
    decreases visits.len() - n,
{
    if n < visits.len() {
        lemma_total_forks_grows(visits, n + 1);
        assert(visits.take(n + 1).drop_last() == visits.take(n));
    } else {
        assert(visits.take(n) == visits);
    }
}

/// What indexing a record comes to.
pub enum BuildOutcome {
    /// The record has no starting position.
    NoStart(InitialPosError),
    /// A move could not be applied, under the strict policy.
    Stopped(Stop),
    /// No node table can hold the walk.
    TooLarge,
    /// The walk that the result is built from.
    Built(Walked),
}

/// What indexing the record `jkf` under `policy` comes to.
pub open spec fn build_outcome(jkf: Jkf, policy: BuildPolicy) -> BuildOutcome {
    match initial_result(jkf.initial) {
        Err(e) => BuildOutcome::NoStart(e),
        Ok(cells) => {
            let w = whole_walk(cells, jkf.moves@, policy == BuildPolicy::Strict);
            match w.failed {
                Some(stop) => BuildOutcome::Stopped(stop),
                None => if table_fits(w.visits) {
                    BuildOutcome::Built(w)
                } else {
                    BuildOutcome::TooLarge
                },
            }
        },
    }
}

/// Indexes one game record with all its alternate lines: the starting
/// position and every position that a line reaches become entries, numbered
/// in the order of the walk from 0.
pub fn build_index_for_jkf(file_id: FileId, gen: Gen, jkf: &Jkf, policy: BuildPolicy) -> (r: Result<
    FileIndexBuild,
    BuildError,
>)
    ensures
        match build_outcome(*jkf, policy) {
            BuildOutcome::NoStart(e) => r is Err && r->Err_0 == BuildError::Initial(e),
            BuildOutcome::Stopped(stop) => r is Err && build_error_is(r->Err_0, stop),
            BuildOutcome::TooLarge => r is Err && r->Err_0 is TooLarge,
            BuildOutcome::Built(w) => r is Ok && built_from(r->Ok_0, w, file_id, gen),
        },
{
    let init_pos = match initial_partial_position(jkf) {
        Ok(p) => p,
        Err(e) => {
            return Err(BuildError::Initial(e));
        },
    };
    let ghost strict = policy == BuildPolicy::Strict;
    let ghost cells = position_cells(init_pos);
    let ghost w = whole_walk(cells, jkf.moves@, strict);
    let mut hits: Vec<(PositionKey, PositionHit)> = Vec::new();
    let mut warns: Vec<BuildWarn> = Vec::new();
    let mut next_node_id: NodeId = 0;
    let root_path: Vec<ForkPointer> = Vec::new();
    let ghost root = Walked::visit(cells, 0, Seq::empty());
    proof {
        assert(hit_models(hits@) =~= Seq::<HitModel>::empty());
        assert(warn_models(warns@) =~= Seq::<Stop>::empty());
        lemma_recorded_start(file_id, gen, hit_models(hits@), warn_models(warns@), 0);
    }
    push_entry(file_id, gen, &mut next_node_id, &mut hits, 0, &root_path, &init_pos);
    proof {
        lemma_record_visit(
            file_id,
            gen,
            Seq::empty(),
            Seq::empty(),
            0,
            Walked::nothing(),
            Seq::empty(),
            Seq::empty(),
            0,
            cells,
            0,
            Seq::empty(),
            hit_models(hits@),
            next_node_id,
        );
        lemma_followed_by_nothing(root);
    }
    if jkf.moves.len() > 1 {
        let ghost hits1 = hit_models(hits@);
        let ghost next1 = next_node_id;
        let ghost rest = walk_line(cells, jkf.moves@.skip(1), 1, Seq::empty(), strict);
        match walk_sequence(
            file_id,
            gen,
            &jkf.moves,
            1,
            1,
            init_pos,
            &root_path,
            policy,
            &mut next_node_id,
            &mut hits,
            &mut warns,
        ) {
            Err(e) => {
                return Err(e);
            },
            Ok(()) => {},
        }
        proof {
            lemma_recorded_extend(
                file_id,
                gen,
                Seq::empty(),
                Seq::empty(),
                0,
                root,
                hits1,
                Seq::empty(),
                next1,
                rest,
                hit_models(hits@),
                warn_models(warns@),
                next_node_id,
            );
        }
    }
    proof {
        assert(recorded(
            file_id,
            gen,
            Seq::empty(),
            Seq::empty(),
            0,
            w,
            hit_models(hits@),
            warn_models(warns@),
            next_node_id,
        ));
        assert(hit_models(hits@) =~= hits_of(w.visits, file_id, gen, 0));
        assert(warn_models(warns@) =~= w.warns);
    }
    let ghost visits = w.visits;
    proof {
        lemma_hits_fit(visits, file_id, gen);
    }
    match assemble(&hits) {
        None => Err(BuildError::TooLarge),
        Some((entries, node_table)) => {
            let built = FileIndexBuild { entries, node_table, warns };
            proof {
                assert forall|i: int| 0 <= i < visits.len() implies #[trigger] built.entries@[i]
                    == (
                    key_of_cells(visits[i].cells),
                    Occurrence { file_id, gen, node_id: i as u32 },
                ) by {
                    vstd::arithmetic::div_mod::lemma_small_mod(i as nat, 0x1_0000_0000);
                    assert(hit_models(hits@)[i] == hit_model(hits@[i]));
                }
                assert forall|i: int|
                    0 <= i < visits.len() implies #[trigger] built.node_table.spec_cursor(
                    i as u32,
                ) == Some((visits[i].tesuu, visits[i].path)) by {
                    assert(hit_models(hits@)[i] == hit_model(hits@[i]));
                }
            }
            Ok(built)
        },
    }
}

/// The number of fork pointers on the paths of all hits.
pub open spec fn total_paths(hits: Seq<HitModel>) -> nat
    decreases hits.len(),
{
    if hits.len() == 0 {
        0
    } else {
        total_paths(hits.drop_last()) + hits.last().path.len()
    }
}

/// Whether a node table can hold the hits.
pub open spec fn hits_fit(hits: Seq<HitModel>) -> bool {
    &&& hits.len() <= u32::MAX
    &&& total_paths(hits) <= u32::MAX
    &&& forall|i: int| 0 <= i < hits.len() ==> (#[trigger] hits[i]).path.len() <= u16::MAX
}

proof fn lemma_total_paths_grows(hits: Seq<HitModel>, n: int)
    requires
        0 <= n <= hits.len(),
    ensures
        total_paths(hits.take(n)) <= total_paths(hits),
    decreases hits.len() - n,
{
    if n < hits.len() {
        lemma_total_paths_grows(hits, n + 1);
        assert(hits.take(n + 1).drop_last() == hits.take(n));
    } else {
        assert(hits.take(n) == hits);
    }
}

proof fn lemma_total_paths(visits: Seq<Visit>, file_id: FileId, gen: Gen)
    ensures
        total_paths(hits_of(visits, file_id, gen, 0)) == total_forks(visits),
    decreases visits.len(),
{
    if visits.len() > 0 {
        lemma_total_paths(visits.drop_last(), file_id, gen);
        assert(hits_of(visits, file_id, gen, 0).drop_last() =~= hits_of(
            visits.drop_last(),
            file_id,
            gen,
            0,
        ));
    }
}

proof fn lemma_hits_fit(visits: Seq<Visit>, file_id: FileId, gen: Gen)
    ensures
        hits_fit(hits_of(visits, file_id, gen, 0)) == table_fits(visits),
{
    lemma_total_paths(visits, file_id, gen);
    let hs = hits_of(visits, file_id, gen, 0);
    if table_fits(visits) {
        assert forall|i: int| 0 <= i < hs.len() implies (#[trigger] hs[i]).path.len()
            <= u16::MAX by {
            assert(visits[i].path.len() <= u16::MAX);
        }
    }
    if hits_fit(hs) {
        assert forall|i: int| 0 <= i < visits.len() implies (#[trigger] visits[i]).path.len()
            <= u16::MAX by {
            assert(hs[i].path.len() <= u16::MAX);
        }
    }
}

/// Splits hits into entries and a node table, or finds that no node table
/// can hold them.
fn assemble(hits: &Vec<(PositionKey, PositionHit)>) -> (r: Option<
    (Vec<(PositionKey, Occurrence)>, NodeTable),
>)
    ensures
        match r {
            Some((entries, table)) => {
                &&& hits_fit(hit_models(hits@))
                &&& entries@.len() == hits@.len()
                &&& table.nodes@.len() == hits@.len()
                &&& forall|i: int|
                    0 <= i < hits@.len() ==> #[trigger] entries@[i] == (hits@[i].0, hits@[i].1.occ)
                &&& forall|i: int|
                    0 <= i < hits@.len() ==> #[trigger] table.spec_cursor(i as u32) == Some(
                        (hits@[i].1.cursor.tesuu, hits@[i].1.cursor.fork_pointers@),
                    )
            },
            None => !hits_fit(hit_models(hits@)),
        },
{
    let ghost hs = hit_models(hits@);
    let mut entries: Vec<(PositionKey, Occurrence)> = Vec::with_capacity(hits.len());
    let mut builder = NodeTableBuilder::new();
    let mut i: usize = 0;
    while i < hits.len()
        invariant
            i <= hits@.len(),
            hs == hit_models(hits@),
            builder.wf(),
            builder.nodes().len() == i,
            builder.forks().len() == total_paths(hs.take(i as int)),
            builder.forks().len() <= u32::MAX,
            entries@.len() == i,
            i <= u32::MAX,
            forall|j: int| 0 <= j < i ==> (#[trigger] hs[j]).path.len() <= u16::MAX,
            forall|j: int|
                0 <= j < i ==> #[trigger] entries@[j] == (hits@[j].0, hits@[j].1.occ),
            forall|j: int|
                0 <= j < i ==> #[trigger] builder.spec_cursor(j as u32) == Some(
                    (hits@[j].1.cursor.tesuu, hits@[j].1.cursor.fork_pointers@),
                ),
        decreases hits@.len() - i,
    {
        let h = &hits[i];
        let path = &h.1.cursor.fork_pointers;
        proof {
            assert(hs[i as int] == hit_model(hits@[i as int]));
            assert(hs.take(i + 1).drop_last() == hs.take(i as int));
            assert(hs.take(i + 1).last() == hs[i as int]);
            lemma_total_paths_grows(hs, i + 1);
        }
        if builder.len_nodes() >= 0xffff_ffff || path.len() > 0xffff || builder.len_forks()
            > 0xffff_ffff - path.len() {
            return None;
        }
        let ghost before = builder;
        let id = builder.push_node(h.1.cursor.tesuu, path);
        proof {
            assert forall|j: int| 0 <= j < i + 1 implies #[trigger] builder.spec_cursor(j as u32)
                == Some((hits@[j].1.cursor.tesuu, hits@[j].1.cursor.fork_pointers@)) by {
                if j < i {
                    assert(builder.spec_cursor(j as u32) == before.spec_cursor(j as u32));
                }
            }
        }
        entries.push((h.0, h.1.occ));
        i += 1;
    }
    proof {
        assert(hs.take(i as int) == hs);
    }
    let table = builder.finish();
    Some((entries, table))
}

/// The test for an entry whose key lies in the shard `b`.
pub open spec fn in_bucket(b: int) -> spec_fn((PositionKey, Occurrence)) -> bool {
    |e: (PositionKey, Occurrence)| e.0.spec_bucket() as int == b
}

/// Splits the entries of a build by shard, the top byte of the key, and
/// sorts each shard's run by key; entries of one key keep their order.
pub fn bucketize_entries(entries: Vec<(PositionKey, Occurrence)>) -> (buckets: Vec<
    Vec<(PositionKey, Occurrence)>,
>)
    ensures
        buckets@.len() == 256,
        forall|b: int|
            0 <= b < 256 ==> (#[trigger] buckets@[b])@ == sorted_by_rank(
                entries@.filter(in_bucket(b)),
            ),
{
    let mut raw: Vec<Vec<(PositionKey, Occurrence)>> = Vec::with_capacity(256);
    let mut b: usize = 0;
    while b < 256
        invariant
            b <= 256,
            raw@.len() == b,
            forall|k: int| 0 <= k < b ==> (#[trigger] raw@[k])@.len() == 0,
        decreases 256 - b,
    {
        raw.push(Vec::new());
        b += 1;
    }
    proof {
        assert forall|k: int| 0 <= k < 256 implies (#[trigger] raw@[k])@ == entries@.take(
            0,
        ).filter(in_bucket(k)) by {
            assert(raw@[k]@ =~= Seq::<(PositionKey, Occurrence)>::empty());
        }
    }
    let mut i: usize = 0;
    while i < entries.len()
        invariant
            i <= entries@.len(),
            raw@.len() == 256,
            forall|k: int|
                0 <= k < 256 ==> (#[trigger] raw@[k])@ == entries@.take(i as int).filter(
                    in_bucket(k),
                ),
        decreases entries@.len() - i,
    {
        let e = entries[i];
        let idx = e.0.bucket() as usize;
        let ghost before = raw@;
        raw[idx].push(e);
        proof {
            let t = entries@.take(i + 1);
            assert(t.drop_last() == entries@.take(i as int));
            assert(t.last() == e);
            reveal_with_fuel(Seq::filter, 2);
            assert forall|k: int| 0 <= k < 256 implies (#[trigger] raw@[k])@ == t.filter(
                in_bucket(k),
            ) by {
                if k == idx {
                    assert(raw@[k]@ == before[k]@.push(e));
                } else {
                    assert(raw@[k] == before[k]);
                }
            }
        }
        i += 1;
    }
    proof {
        assert(entries@.take(i as int) == entries@);
    }
    let mut out: Vec<Vec<(PositionKey, Occurrence)>> = Vec::with_capacity(256);
    let mut b: usize = 0;
    while b < 256
        invariant
            b <= 256,
            raw@.len() == 256,
            out@.len() == b,
            forall|k: int|
                0 <= k < 256 ==> (#[trigger] raw@[k])@ == entries@.filter(in_bucket(k)),
            forall|k: int|
                0 <= k < b ==> (#[trigger] out@[k])@ == sorted_by_rank(
                    entries@.filter(in_bucket(k)),
                ),
        decreases 256 - b,
    {
        let sorted = sort_by_rank(&raw[b]);
        out.push(sorted);
        b += 1;
    }
    out
}

/// A move that could not be applied, in words: where it stands in the move
/// tree, and why it could not be applied.
pub open spec fn stop_text(s: Stop) -> Seq<char> {
    cursor_text(s.tesuu, s.path) + ": "@ + s.error.spec_message()
}

/// The texts of the moves that could not be applied.
pub open spec fn stop_texts(stops: Seq<Stop>) -> Seq<Seq<char>> {
    stops.map_values(|s: Stop| stop_text(s))
}

impl BuildWarn {
    /// The warning in words.
    pub fn message(&self) -> (s: String)
        ensures
            s@ == stop_text(warn_model(*self)),
    {
        let mut s = String::new();
        self.cursor.append_text(&mut s);
        s.append(": ");
        self.error.append_message(&mut s);
        proof {
            assert(s@ =~= stop_text(warn_model(*self)));
        }
        s
    }
}

impl BuildError {
    /// The error in words.
    pub open spec fn spec_message(self) -> Seq<char> {
        match self {
            BuildError::Initial(e) => "failed to create initial position: "@ + e.spec_message(),
            BuildError::Apply { cursor, source } => "failed to apply move at "@ + cursor_text(
                cursor.tesuu,
                cursor.fork_pointers@,
            ) + ": "@ + source.spec_message(),
            BuildError::TooLarge => "too many positions for a node table"@,
        }
    }

    /// The error in words.
    pub fn message(&self) -> (s: String)
        ensures
            s@ == self.spec_message(),
    {
        let mut s = String::new();
        match self {
            BuildError::Initial(e) => {
                s.append("failed to create initial position: ");
                e.append_message(&mut s);
            },
            BuildError::Apply { cursor, source } => {
                s.append("failed to apply move at ");
                cursor.append_text(&mut s);
                s.append(": ");
                source.append_message(&mut s);
            },
            BuildError::TooLarge => {
                s.append("too many positions for a node table");
            },
        }
        proof {
            assert(s@ =~= self.spec_message());
        }
        s
    }
}

/// Why a record was not indexed, in words.
pub open spec fn failure_text(o: BuildOutcome) -> Seq<char> {
    match o {
        BuildOutcome::NoStart(e) => BuildError::Initial(e).spec_message(),
        BuildOutcome::Stopped(stop) => "failed to apply move at "@ + cursor_text(
            stop.tesuu,
            stop.path,
        ) + ": "@ + stop.error.spec_message(),
        BuildOutcome::TooLarge => BuildError::TooLarge.spec_message(),
        BuildOutcome::Built(_) => Seq::empty(),
    }
}

proof fn lemma_concat_contains<T>(a: Seq<T>, b: Seq<T>, v: T)
    requires
        a.contains(v) || b.contains(v),
    ensures
        (a + b).contains(v),
{
    if a.contains(v) {
        let i = choose|i: int| 0 <= i < a.len() && a[i] == v;
        assert((a + b)[i] == v);
    } else {
        let i = choose|i: int| 0 <= i < b.len() && b[i] == v;
        assert((a + b)[a.len() + i] == v);
    }
}

/// Under the loose policy a walk never fails: a move that cannot be
/// applied ends its line with a warning.
pub proof fn lemma_loose_line_never_fails(
    cells: Seq<u8>,
    line: Seq<MoveNode>,
    tesuu: u32,
    path: Seq<ForkPointer>,
)
    ensures
        walk_line(cells, line, tesuu, path, false).failed is None,
    decreases line, 0int,
{
    if line.len() > 0 {
        let node = line[0];
        lemma_loose_forks_never_fail(cells, node.forks@, 0, tesuu, path);
        match apply_result(cells, spec_node_action(node)) {
            Ok((status, after)) => {
                if status != ApplyStatus::Terminal {
                    lemma_loose_line_never_fails(
                        after,
                        line.skip(1),
                        tesuu.wrapping_add(1),
                        path,
                    );
                }
            },
            Err(_) => {},
        }
    }
}

/// Under the loose policy the walk of alternate lines never fails.
pub proof fn lemma_loose_forks_never_fail(
    cells: Seq<u8>,
    forks: Seq<Vec<MoveNode>>,
    i: int,
    tesuu: u32,
    path: Seq<ForkPointer>,
)
    ensures
        walk_forks(cells, forks, i, tesuu, path, false).failed is None,
    decreases forks, forks.len() - i,
{
    if 0 <= i < forks.len() {
        if forks[i]@.len() > 0 {
            lemma_loose_line_never_fails(
                cells,
                forks[i]@,
                tesuu,
                with_fork(path, tesuu, fork_number(i)),
            );
        }
        lemma_loose_forks_never_fail(cells, forks, i + 1, tesuu, path);
    }
}

/// In a walk that does not fail, the position after the first move of a
/// line is recorded at the line's first move number, on the line's own
/// fork path.
pub proof fn lemma_first_move_is_visited(
    cells: Seq<u8>,
    line: Seq<MoveNode>,
    tesuu: u32,
    path: Seq<ForkPointer>,
    strict: bool,
)
    requires
        line.len() > 0,
        walk_line(cells, line, tesuu, path, strict).failed is None,
        apply_result(cells, spec_node_action(line[0])) is Ok,
    ensures
        walk_line(cells, line, tesuu, path, strict).visits.contains(
            Visit { cells: apply_result(cells, spec_node_action(line[0]))->Ok_0.1, tesuu, path },
        ),
{
    let node = line[0];
    let before = walk_forks(cells, node.forks@, 0, tesuu, path, strict);
    let (status, after) = apply_result(cells, spec_node_action(node))->Ok_0;
    let v = Visit { cells: after, tesuu, path };
    let here = Walked::visit(after, tesuu, path);
    let own = if status == ApplyStatus::Terminal {
        here
    } else {
        here.followed_by(walk_line(after, line.skip(1), tesuu.wrapping_add(1), path, strict))
    };
    assert(own.visits[0] == v);
    assert(own.visits.contains(v));
    lemma_concat_contains(before.visits, own.visits, v);
}

/// In a walk that does not fail, what follows a move that is applied and
/// does not end the game is walked from the position after the move, at
/// the next move number, and all that it records is recorded.
pub proof fn lemma_rest_of_line_is_walked(
    cells: Seq<u8>,
    line: Seq<MoveNode>,
    tesuu: u32,
    path: Seq<ForkPointer>,
    strict: bool,
    v: Visit,
)
    requires
        line.len() > 0,
        walk_line(cells, line, tesuu, path, strict).failed is None,
        apply_result(cells, spec_node_action(line[0])) is Ok,
        apply_result(cells, spec_node_action(line[0]))->Ok_0.0 != ApplyStatus::Terminal,
        walk_line(
            apply_result(cells, spec_node_action(line[0]))->Ok_0.1,
            line.skip(1),
            tesuu.wrapping_add(1),
            path,
            strict,
        ).visits.contains(v),
    ensures
        walk_line(
            apply_result(cells, spec_node_action(line[0]))->Ok_0.1,
            line.skip(1),
            tesuu.wrapping_add(1),
            path,
            strict,
        ).failed is None,
        walk_line(cells, line, tesuu, path, strict).visits.contains(v),
{
    let node = line[0];
    let before = walk_forks(cells, node.forks@, 0, tesuu, path, strict);
    let (status, after) = apply_result(cells, spec_node_action(node))->Ok_0;
    let here = Walked::visit(after, tesuu, path);
    let rest = walk_line(after, line.skip(1), tesuu.wrapping_add(1), path, strict);
    let own = here.followed_by(rest);
    lemma_concat_contains(here.visits, rest.visits, v);
    lemma_concat_contains(before.visits, own.visits, v);
}

/// In a walk of alternate lines that does not fail, every line that is
/// not empty is walked from the same position, on the fork path extended by
/// the line's number, and all that it records is recorded.
pub proof fn lemma_fork_is_walked(
    cells: Seq<u8>,
    forks: Seq<Vec<MoveNode>>,
    i: int,
    k: int,
    tesuu: u32,
    path: Seq<ForkPointer>,
    strict: bool,
    v: Visit,
)
    requires
        0 <= i <= k < forks.len(),
        forks[k]@.len() > 0,
        walk_forks(cells, forks, i, tesuu, path, strict).failed is None,
        walk_line(
            cells,
            forks[k]@,
            tesuu,
            with_fork(path, tesuu, fork_number(k)),
            strict,
        ).failed is None ==> walk_line(
            cells,
            forks[k]@,
            tesuu,
            with_fork(path, tesuu, fork_number(k)),
            strict,
        ).visits.contains(v),
    ensures
        walk_line(
            cells,
            forks[k]@,
            tesuu,
            with_fork(path, tesuu, fork_number(k)),
            strict,
        ).failed is None,
        walk_forks(cells, forks, i, tesuu, path, strict).visits.contains(v),
    decreases k - i,
{
    let first = if forks[i]@.len() == 0 {
        Walked::nothing()
    } else {
        walk_line(cells, forks[i]@, tesuu, with_fork(path, tesuu, fork_number(i)), strict)
    };
    let others = walk_forks(cells, forks, i + 1, tesuu, path, strict);
    if i < k {
        lemma_fork_is_walked(cells, forks, i + 1, k, tesuu, path, strict, v);
    }
    lemma_concat_contains(first.visits, others.visits, v);
}

/// Branch coverage: where a move has alternate lines, the walk records the
/// position after the move itself and, for every alternate line, the
/// position after that line's first move. All of them stand at the same
/// move number and are reached from the position before the move; the
/// alternate line's position stands on the fork path extended by the
/// line's number. This holds of every walk that does not fail, and so of
/// every walk under the loose policy.
pub proof fn lemma_branches_are_covered(
    cells: Seq<u8>,
    line: Seq<MoveNode>,
    tesuu: u32,
    path: Seq<ForkPointer>,
    strict: bool,
    k: int,
)
    requires
        line.len() > 0,
        0 <= k < line[0].forks@.len(),
        line[0].forks@[k]@.len() > 0,
        walk_line(cells, line, tesuu, path, strict).failed is None,
        apply_result(cells, spec_node_action(line[0])) is Ok,
        apply_result(cells, spec_node_action(line[0].forks@[k]@[0])) is Ok,
    ensures
        walk_line(cells, line, tesuu, path, strict).visits.contains(
            Visit { cells: apply_result(cells, spec_node_action(line[0]))->Ok_0.1, tesuu, path },
        ),
        walk_line(cells, line, tesuu, path, strict).visits.contains(
            Visit {
                cells: apply_result(cells, spec_node_action(line[0].forks@[k]@[0]))->Ok_0.1,
                tesuu,
                path: with_fork(path, tesuu, fork_number(k)),
            },
        ),
{
    let node = line[0];
    let forks = node.forks@;
    let side_path = with_fork(path, tesuu, fork_number(k));
    let v = Visit {
        cells: apply_result(cells, spec_node_action(forks[k]@[0]))->Ok_0.1,
        tesuu,
        path: side_path,
    };
    lemma_first_move_is_visited(cells, line, tesuu, path, strict);
    let before = walk_forks(cells, forks, 0, tesuu, path, strict);
    assert(before.failed is None);
    if walk_line(cells, forks[k]@, tesuu, side_path, strict).failed is None {
        lemma_first_move_is_visited(cells, forks[k]@, tesuu, side_path, strict);
    }
    lemma_fork_is_walked(cells, forks, 0, k, tesuu, path, strict, v);
    let own = match apply_result(cells, spec_node_action(node)) {
        Ok((status, after)) => {
            let here = Walked::visit(after, tesuu, path);
            if status == ApplyStatus::Terminal {
                here
            } else {
                here.followed_by(
                    walk_line(after, line.skip(1), tesuu.wrapping_add(1), path, strict),
                )
            }
        },
        Err(_) => Walked::nothing(),
    };
    lemma_concat_contains(before.visits, own.visits, v);
}

} // verus!
