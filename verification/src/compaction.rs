use vstd::prelude::*;
use crate::file_table::{occ_alive, FileTable};
use crate::index_store::{
    holds_entry, is_alive, lemma_filter_member, segment_views, IndexSnapshot,
    BUCKET_COUNT,
};
use crate::position_key::PositionKey;
use crate::segment::{Entry, Segment};
use crate::sorting::{is_sorted, Ranked};
use crate::types::{FileEntry, FileId, Occurrence};

verus! {

/// The order in which a merge takes entries: by key, then by file id, then
/// by node id.
pub open spec fn merge_le(a: Entry, b: Entry) -> bool {
    a.0.as_int() < b.0.as_int() || (a.0 == b.0 && (a.1.file_id < b.1.file_id || (a.1.file_id
        == b.1.file_id && a.1.node_id <= b.1.node_id)))
}

pub fn entry_merge_le(a: &(PositionKey, Occurrence), b: &(PositionKey, Occurrence)) -> (r: bool)
    ensures
        r == merge_le(*a, *b),
{
    proof {
        PositionKey::lemma_as_int_injective(a.0, b.0);
    }
    if a.0.key_lt(b.0) {
        true
    } else if b.0.key_lt(a.0) {
        false
    } else {
        a.1.file_id < b.1.file_id || (a.1.file_id == b.1.file_id && a.1.node_id <= b.1.node_id)
    }
}

/// The merge of two runs: at each step the lower of the two first entries
/// is taken, that of `a` where neither is lower.
pub open spec fn merge2(a: Seq<Entry>, b: Seq<Entry>) -> Seq<Entry>
    decreases a.len() + b.len(),
{
    if a.len() == 0 {
        b
    } else if b.len() == 0 {
        a
    } else if merge_le(a[0], b[0]) {
        seq![a[0]] + merge2(a.skip(1), b)
    } else {
        seq![b[0]] + merge2(a, b.skip(1))
    }
}

/// The merge of all runs of `segs`; among entries that the order does not
/// tell apart, those of an earlier run come first.
pub open spec fn merge_all(segs: Seq<Seq<Entry>>) -> Seq<Entry>
    decreases segs.len(),
{
    if segs.len() == 0 {
        Seq::empty()
    } else {
        merge2(merge_all(segs.drop_last()), segs.last())
    }
}

/// What compaction leaves of a shard: the merge of its segments without the
/// entries whose occurrence is not alive.
pub open spec fn compacted(segs: Seq<Seq<Entry>>, files: Map<FileId, FileEntry>) -> Seq<Entry> {
    merge_all(segs).filter(is_alive(files))
}

pub proof fn lemma_merge2_props(a: Seq<Entry>, b: Seq<Entry>)
    ensures
        merge2(a, b).len() == a.len() + b.len(),
        forall|x: Entry|
            #![trigger merge2(a, b).contains(x)]
            merge2(a, b).contains(x) <==> (a.contains(x) || b.contains(x)),
        is_sorted(a) && is_sorted(b) ==> is_sorted(merge2(a, b)),
    decreases a.len() + b.len(),
{
    let m = merge2(a, b);
    if a.len() == 0 {
        assert forall|x: Entry| #![trigger m.contains(x)] m.contains(x) <==> (a.contains(x)
            || b.contains(x)) by {}
    } else if b.len() == 0 {
        assert forall|x: Entry| #![trigger m.contains(x)] m.contains(x) <==> (a.contains(x)
            || b.contains(x)) by {}
    } else if merge_le(a[0], b[0]) {
        let t = a.skip(1);
        lemma_merge2_props(t, b);
        let r = merge2(t, b);
        lemma_cons_contains(a[0], r);
        lemma_skip_contains(a);
        assert forall|x: Entry| #![trigger m.contains(x)] m.contains(x) <==> (a.contains(x)
            || b.contains(x)) by {}
        if is_sorted(a) && is_sorted(b) {
            assert forall|i: int, j: int| 0 <= i <= j < t.len() implies t[i].rank()
                <= t[j].rank() by {
                assert(a[i + 1].rank() <= a[j + 1].rank());
            }
            assert forall|i: int, j: int| 0 <= i <= j < m.len() implies m[i].rank()
                <= m[j].rank() by {
                if i == 0 && j > 0 {
                    let x = r[j - 1];
                    assert(r.contains(x));
                    assert(m[j] == x);
                    if t.contains(x) {
                        let k = choose|k: int| 0 <= k < t.len() && t[k] == x;
                        assert(a[0].rank() <= a[k + 1].rank());
                    } else {
                        let k = choose|k: int| 0 <= k < b.len() && b[k] == x;
                        assert(b[0].rank() <= b[k].rank());
                    }
                } else if i > 0 {
                    assert(r[i - 1].rank() <= r[j - 1].rank());
                }
            }
        }
    } else {
        let t = b.skip(1);
        lemma_merge2_props(a, t);
        let r = merge2(a, t);
        lemma_cons_contains(b[0], r);
        lemma_skip_contains(b);
        assert forall|x: Entry| #![trigger m.contains(x)] m.contains(x) <==> (a.contains(x)
            || b.contains(x)) by {}
        if is_sorted(a) && is_sorted(b) {
            assert forall|i: int, j: int| 0 <= i <= j < t.len() implies t[i].rank()
                <= t[j].rank() by {
                assert(b[i + 1].rank() <= b[j + 1].rank());
            }
            assert forall|i: int, j: int| 0 <= i <= j < m.len() implies m[i].rank()
                <= m[j].rank() by {
                if i == 0 && j > 0 {
                    let x = r[j - 1];
                    assert(r.contains(x));
                    assert(m[j] == x);
                    if t.contains(x) {
                        let k = choose|k: int| 0 <= k < t.len() && t[k] == x;
                        assert(b[0].rank() <= b[k + 1].rank());
                    } else {
                        let k = choose|k: int| 0 <= k < a.len() && a[k] == x;
                        assert(a[0].rank() <= a[k].rank());
                    }
                } else if i > 0 {
                    assert(r[i - 1].rank() <= r[j - 1].rank());
                }
            }
        }
    }
}

proof fn lemma_cons_contains(x: Entry, r: Seq<Entry>)
    ensures
        forall|y: Entry|
            #![trigger (seq![x] + r).contains(y)]
            (seq![x] + r).contains(y) <==> (y == x || r.contains(y)),
{
    let m = seq![x] + r;
    assert forall|y: Entry| #![trigger m.contains(y)] m.contains(y) <==> (y == x || r.contains(
        y,
    )) by {
        if m.contains(y) {
            let i = choose|i: int| 0 <= i < m.len() && m[i] == y;
            if i > 0 {
                assert(r[i - 1] == y);
            }
        }
        if y == x {
            assert(m[0] == y);
        }
        if r.contains(y) {
            let i = choose|i: int| 0 <= i < r.len() && r[i] == y;
            assert(m[i + 1] == y);
        }
    }
}

proof fn lemma_skip_contains(a: Seq<Entry>)
    requires
        a.len() > 0,
    ensures
        forall|y: Entry|
            #![trigger a.skip(1).contains(y)]
            #![trigger a.contains(y)]
            a.contains(y) <==> (y == a[0] || a.skip(1).contains(y)),
{
    let t = a.skip(1);
    assert forall|y: Entry|
        #![trigger t.contains(y)]
        #![trigger a.contains(y)]
        a.contains(y) <==> (y == a[0] || t.contains(y)) by {
        if a.contains(y) {
            let i = choose|i: int| 0 <= i < a.len() && a[i] == y;
            if i > 0 {
                assert(t[i - 1] == y);
            }
        }
        if t.contains(y) {
            let i = choose|i: int| 0 <= i < t.len() && t[i] == y;
            assert(a[i + 1] == y);
        }
    }
}

/// The merge holds what its runs hold, and is sorted by key where they are.
pub proof fn lemma_merge_all_props(segs: Seq<Seq<Entry>>)
    ensures
        forall|x: Entry|
            #![trigger merge_all(segs).contains(x)]
            merge_all(segs).contains(x) <==> exists|s: int|
                0 <= s < segs.len() && (#[trigger] segs[s]).contains(x),
        (forall|s: int| 0 <= s < segs.len() ==> is_sorted(#[trigger] segs[s])) ==> is_sorted(
            merge_all(segs),
        ),
    decreases segs.len(),
{
    let m = merge_all(segs);
    if segs.len() == 0 {
        assert forall|x: Entry| #![trigger m.contains(x)] m.contains(x) <==> exists|s: int|
            0 <= s < segs.len() && (#[trigger] segs[s]).contains(x) by {}
    } else {
        let rest = segs.drop_last();
        lemma_merge_all_props(rest);
        lemma_merge2_props(merge_all(rest), segs.last());
        assert forall|x: Entry| #![trigger m.contains(x)] m.contains(x) <==> exists|s: int|
            0 <= s < segs.len() && (#[trigger] segs[s]).contains(x) by {
            if m.contains(x) {
                if merge_all(rest).contains(x) {
                    let s = choose|s: int| 0 <= s < rest.len() && (#[trigger] rest[s]).contains(x);
                    assert(segs[s].contains(x));
                } else {
                    assert(segs[segs.len() - 1].contains(x));
                }
            }
            if exists|s: int| 0 <= s < segs.len() && (#[trigger] segs[s]).contains(x) {
                let s = choose|s: int| 0 <= s < segs.len() && (#[trigger] segs[s]).contains(x);
                if s < rest.len() {
                    assert(rest[s].contains(x));
                }
            }
        }
        if forall|s: int| 0 <= s < segs.len() ==> is_sorted(#[trigger] segs[s]) {
            assert forall|s: int| 0 <= s < rest.len() implies is_sorted(#[trigger] rest[s]) by {
                assert(rest[s] == segs[s]);
            }
        }
    }
}

/// Filtering a second time by the same test changes nothing.
pub proof fn lemma_filter_twice<A>(s: Seq<A>, pred: spec_fn(A) -> bool)
    ensures
        s.filter(pred).filter(pred) == s.filter(pred),
    decreases s.len(),
{
    reveal_with_fuel(Seq::filter, 2);
    if s.len() > 0 {
        lemma_filter_twice(s.drop_last(), pred);
        if pred(s.last()) {
            let f = s.drop_last().filter(pred);
            assert(f.push(s.last()).drop_last() == f);
        }
    }
}

/// Idempotent compaction: compacting what a compaction left yields it again.
pub proof fn lemma_compaction_idempotent(segs: Seq<Seq<Entry>>, files: Map<FileId, FileEntry>)
    ensures
        compacted(seq![compacted(segs, files)], files) == compacted(segs, files),
{
    let once = compacted(segs, files);
    let single = seq![once];
    assert(single.drop_last() =~= Seq::<Seq<Entry>>::empty());
    assert(single.last() == once);
    reveal_with_fuel(merge_all, 2);
    assert(merge_all(single) == once);
    lemma_filter_twice(merge_all(segs), is_alive(files));
}

/// Compaction keeps what search sees: the compacted shard holds exactly the
/// live entries of the shard's segments.
pub proof fn lemma_compacted_holds(
    segs: Seq<Seq<Entry>>,
    files: Map<FileId, FileEntry>,
    key: PositionKey,
    occ: Occurrence,
)
    ensures
        compacted(segs, files).contains((key, occ)) <==> (holds_entry(segs, key, occ) && occ_alive(
            files,
            occ.file_id,
            occ.gen,
        )),
{
    let e: Entry = (key, occ);
    lemma_merge_all_props(segs);
    lemma_filter_member(merge_all(segs), is_alive(files), e);
    if merge_all(segs).contains(e) {
        let s = choose|s: int| 0 <= s < segs.len() && (#[trigger] segs[s]).contains(e);
        let i = choose|i: int| 0 <= i < segs[s].len() && segs[s][i] == e;
        assert(segs[s][i] == (key, occ));
    }
    if holds_entry(segs, key, occ) {
        let (s, i) = choose|s: int, i: int|
            0 <= s < segs.len() && 0 <= i < segs[s].len() && #[trigger] segs[s][i] == (key, occ);
        assert(segs[s].contains(e));
    }
}

/// Merges two runs.
pub fn merge_two(a: &Vec<(PositionKey, Occurrence)>, b: &Vec<(PositionKey, Occurrence)>) -> (out:
    Vec<(PositionKey, Occurrence)>)
    ensures
        out@ == merge2(a@, b@),
{
    let mut out: Vec<(PositionKey, Occurrence)> = Vec::new();
    let mut i: usize = 0;
    let mut j: usize = 0;
    proof {
        assert(a@.skip(0) =~= a@);
        assert(b@.skip(0) =~= b@);
        assert(out@ + merge2(a@, b@) =~= merge2(a@, b@));
    }
    while i < a.len() || j < b.len()
        invariant
            i <= a@.len(),
            j <= b@.len(),
            out@ + merge2(a@.skip(i as int), b@.skip(j as int)) == merge2(a@, b@),
        decreases a@.len() - i + b@.len() - j,
    {
        let ghost ra = a@.skip(i as int);
        let ghost rb = b@.skip(j as int);
        let ghost before = out@;
        if i >= a.len() {
            out.push(b[j]);
            proof {
                assert(merge2(ra, rb) == rb);
                assert(b@.skip(j + 1) =~= rb.skip(1));
                assert(merge2(a@.skip(i as int), b@.skip(j + 1)) == rb.skip(1));
                assert(before + rb =~= out@ + rb.skip(1));
            }
            j += 1;
        } else if j >= b.len() {
            out.push(a[i]);
            proof {
                assert(merge2(ra, rb) == ra);
                assert(a@.skip(i + 1) =~= ra.skip(1));
                assert(merge2(a@.skip(i + 1), rb) == ra.skip(1)) by {
                    if ra.skip(1).len() == 0 {
                        assert(merge2(ra.skip(1), rb) =~= ra.skip(1));
                    }
                }
                assert(before + ra =~= out@ + ra.skip(1));
            }
            i += 1;
        } else if entry_merge_le(&a[i], &b[j]) {
            out.push(a[i]);
            proof {
                assert(ra[0] == a@[i as int]);
                assert(rb[0] == b@[j as int]);
                assert(a@.skip(i + 1) =~= ra.skip(1));
                assert(before + (seq![ra[0]] + merge2(ra.skip(1), rb)) =~= out@ + merge2(
                    ra.skip(1),
                    rb,
                ));
            }
            i += 1;
        } else {
            out.push(b[j]);
            proof {
                assert(ra[0] == a@[i as int]);
                assert(rb[0] == b@[j as int]);
                assert(b@.skip(j + 1) =~= rb.skip(1));
                assert(before + (seq![rb[0]] + merge2(ra, rb.skip(1))) =~= out@ + merge2(
                    ra,
                    rb.skip(1),
                ));
            }
            j += 1;
        }
    }
    proof {
        assert(a@.skip(i as int).len() == 0);
        assert(merge2(a@.skip(i as int), b@.skip(j as int)) =~= Seq::<Entry>::empty());
        assert(out@ =~= out@ + Seq::<Entry>::empty());
    }
    out
}

/// A filtered run is sorted where the run is.
pub proof fn lemma_filter_sorted(s: Seq<Entry>, pred: spec_fn(Entry) -> bool)
    requires
        is_sorted(s),
    ensures
        is_sorted(s.filter(pred)),
    decreases s.len(),
{
    reveal_with_fuel(Seq::filter, 2);
    if s.len() > 0 {
        let t = s.drop_last();
        assert(is_sorted(t));
        lemma_filter_sorted(t, pred);
        let f = t.filter(pred);
        if pred(s.last()) {
            let r = f.push(s.last());
            assert forall|i: int, j: int| 0 <= i <= j < r.len() implies r[i].rank()
                <= r[j].rank() by {
                if j == f.len() && i < j {
                    assert(f.contains(f[i]));
                    lemma_filter_member(t, pred, f[i]);
                    let k = choose|k: int| 0 <= k < t.len() && t[k] == f[i];
                    assert(s[k].rank() <= s[s.len() - 1].rank());
                }
            }
        }
    }
}

/// Compacts one shard: merges its segments into one run sorted by key and
/// drops every entry whose occurrence is not alive.
pub fn compact_bucket(bucket_idx: usize, segs: &Vec<Segment>, ft: &FileTable) -> (out: Vec<
    (PositionKey, Occurrence),
>)
    requires
        ft.wf(),
    ensures
        out@ == compacted(segment_views(segs@), ft@),
        is_sorted(out@),
{
    let ghost views = segment_views(segs@);
    let mut acc: Vec<(PositionKey, Occurrence)> = Vec::new();
    let mut s: usize = 0;
    while s < segs.len()
        invariant
            s <= segs.len(),
            views == segment_views(segs@),
            acc@ == merge_all(views.take(s as int)),
            is_sorted(acc@),
        decreases segs.len() - s,
    {
        let run = segs[s].entries();
        proof {
            let next = views.take(s + 1);
            assert(next.drop_last() =~= views.take(s as int));
            assert(next.last() == run@);
            lemma_merge2_props(acc@, run@);
        }
        acc = merge_two(&acc, run);
        s += 1;
    }
    proof {
        assert(views.take(s as int) == views);
    }
    let ghost alive = is_alive(ft@);
    let mut out: Vec<(PositionKey, Occurrence)> = Vec::new();
    let mut i: usize = 0;
    while i < acc.len()
        invariant
            i <= acc.len(),
            ft.wf(),
            alive == is_alive(ft@),
            out@ == acc@.take(i as int).filter(alive),
        decreases acc.len() - i,
    {
        let e = acc[i];
        proof {
            let t = acc@.take(i + 1);
            assert(t.drop_last() == acc@.take(i as int));
            assert(t.last() == e);
            reveal_with_fuel(Seq::filter, 2);
        }
        if ft.is_occ_alive(e.1.file_id, e.1.gen) {
            out.push(e);
        }
        i += 1;
    }
    proof {
        assert(acc@.take(i as int) == acc@);
        lemma_filter_sorted(acc@, alive);
    }
    out
}

/// Compacts every shard of a snapshot.
pub fn compact_all_buckets(snap: &IndexSnapshot) -> (out: Vec<Vec<(PositionKey, Occurrence)>>)
    requires
        snap.wf(),
    ensures
        out@.len() == BUCKET_COUNT,
        forall|b: int|
            0 <= b < BUCKET_COUNT ==> (#[trigger] out@[b])@ == compacted(
                snap@.shards[b],
                snap@.files,
            ) && is_sorted(out@[b]@),
{
    let mut out: Vec<Vec<(PositionKey, Occurrence)>> = Vec::with_capacity(BUCKET_COUNT);
    let mut b: usize = 0;
    while b < BUCKET_COUNT
        invariant
            b <= BUCKET_COUNT,
            snap.wf(),
            out@.len() == b,
            forall|k: int|
                0 <= k < b ==> (#[trigger] out@[k])@ == compacted(snap@.shards[k], snap@.files)
                    && is_sorted(out@[k]@),
        decreases BUCKET_COUNT - b,
    {
        let run = compact_bucket(b, &snap.buckets[b], &snap.file_table);
        out.push(run);
        b += 1;
    }
    out
}

} // verus!
