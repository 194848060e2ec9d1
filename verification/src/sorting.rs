use vstd::prelude::*;
use vstd::seq_lib::*;

verus! {

/// Values that are ordered by an integer rank.
pub trait Ranked {
    /// The rank a value is ordered by; values of equal rank keep their order.
    spec fn rank(self) -> int;

    fn rank_le(&self, other: &Self) -> (b: bool)
        ensures
            b == (self.rank() <= other.rank()),
    ;
}

/// Ranks never decrease along `s`.
pub open spec fn is_sorted<T: Ranked>(s: Seq<T>) -> bool {
    forall|i: int, j: int| 0 <= i <= j < s.len() ==> s[i].rank() <= s[j].rank()
}

/// `s` with `e` put behind the last element whose rank is at most that of `e`
/// (for sorted `s`).
pub open spec fn insert_ranked<T: Ranked>(s: Seq<T>, e: T) -> Seq<T>
    decreases s.len(),
{
    if s.len() == 0 {
        seq![e]
    } else if s.last().rank() <= e.rank() {
        s.push(e)
    } else {
        insert_ranked(s.drop_last(), e).push(s.last())
    }
}

/// The stable sort of `s` by rank.
pub open spec fn sorted_by_rank<T: Ranked>(s: Seq<T>) -> Seq<T>
    decreases s.len(),
{
    if s.len() == 0 {
        s
    } else {
        insert_ranked(sorted_by_rank(s.drop_last()), s.last())
    }
}

/// Where `insert_ranked` puts `e`: at the one index that has nothing of
/// higher rank before it and only higher ranks from it on.
pub proof fn lemma_insert_at<T: Ranked>(s: Seq<T>, e: T, j: int)
    requires
        0 <= j <= s.len(),
        forall|k: int| j <= k < s.len() ==> s[k].rank() > e.rank(),
        j > 0 ==> s[j - 1].rank() <= e.rank(),
    ensures
        insert_ranked(s, e) == s.insert(j, e),
    decreases s.len(),
{
    if s.len() == 0 {
        assert(s.insert(j, e) =~= seq![e]);
    } else if j == s.len() {
        assert(s.insert(j, e) =~= s.push(e));
    } else {
        lemma_insert_at(s.drop_last(), e, j);
        assert(s.insert(j, e) =~= s.drop_last().insert(j, e).push(s.last()));
    }
}

pub proof fn lemma_insert_ranked_props<T: Ranked>(s: Seq<T>, e: T)
    requires
        is_sorted(s),
    ensures
        is_sorted(insert_ranked(s, e)),
        insert_ranked(s, e).len() == s.len() + 1,
        insert_ranked(s, e).to_multiset() == s.to_multiset().insert(e),
        forall|x: T|
            #![trigger insert_ranked(s, e).contains(x)]
            #![trigger s.contains(x)]
            insert_ranked(s, e).contains(x) <==> (s.contains(x) || x == e),
    decreases s.len(),
{
    broadcast use group_to_multiset_ensures;

    let r = insert_ranked(s, e);
    if s.len() == 0 {
        assert(s =~= Seq::<T>::empty());
        assert(r =~= Seq::<T>::empty().push(e));
        assert forall|x: T| r.contains(x) <==> (s.contains(x) || x == e) by {
            if x == e {
                assert(r[0] == e);
            }
        }
    } else if s.last().rank() <= e.rank() {
        assert forall|i: int, j: int| 0 <= i <= j < r.len() implies r[i].rank()
            <= r[j].rank() by {
            if j == s.len() {
                if i < s.len() {
                    assert(s[i].rank() <= s[s.len() - 1].rank());
                }
            }
        }
        assert forall|x: T| r.contains(x) <==> (s.contains(x) || x == e) by {
            if x == e {
                assert(r[s.len() as int] == e);
            }
            if s.contains(x) {
                let i = choose|i: int| 0 <= i < s.len() && s[i] == x;
                assert(r[i] == x);
            }
        }
    } else {
        let t = s.drop_last();
        assert(is_sorted(t));
        lemma_insert_ranked_props(t, e);
        let u = insert_ranked(t, e);
        assert(s =~= t.push(s.last()));
        assert(r == u.push(s.last()));
        assert forall|i: int, j: int| 0 <= i <= j < r.len() implies r[i].rank()
            <= r[j].rank() by {
            if j == r.len() - 1 && i < j {
                assert(u.contains(u[i]));
                if u[i] != e {
                    assert(t.contains(u[i]));
                    let k = choose|k: int| 0 <= k < t.len() && t[k] == u[i];
                    assert(s[k].rank() <= s[s.len() - 1].rank());
                }
            }
        }
        assert forall|x: T| r.contains(x) <==> (s.contains(x) || x == e) by {
            if r.contains(x) {
                let i = choose|i: int| 0 <= i < r.len() && r[i] == x;
                if i < u.len() {
                    assert(u.contains(x));
                    if x != e {
                        let k = choose|k: int| 0 <= k < t.len() && t[k] == x;
                        assert(s[k] == x);
                    }
                } else {
                    assert(s[s.len() - 1] == x);
                }
            }
            if x == e {
                assert(u.contains(e));
                let i = choose|i: int| 0 <= i < u.len() && u[i] == e;
                assert(r[i] == e);
            }
            if s.contains(x) {
                let k = choose|k: int| 0 <= k < s.len() && s[k] == x;
                if k < t.len() {
                    assert(t[k] == x);
                    assert(t.contains(x));
                    assert(u.contains(x));
                    let i = choose|i: int| 0 <= i < u.len() && u[i] == x;
                    assert(r[i] == x);
                } else {
                    assert(r[r.len() - 1] == x);
                }
            }
        }
        assert(r.to_multiset() =~= s.to_multiset().insert(e));
    }
}

/// The stable sort is sorted and holds exactly what `s` holds.
pub proof fn lemma_sorted_by_rank_props<T: Ranked>(s: Seq<T>)
    ensures
        is_sorted(sorted_by_rank(s)),
        sorted_by_rank(s).len() == s.len(),
        sorted_by_rank(s).to_multiset() == s.to_multiset(),
        forall|x: T|
            #![trigger sorted_by_rank(s).contains(x)]
            #![trigger s.contains(x)]
            sorted_by_rank(s).contains(x) <==> s.contains(x),
    decreases s.len(),
{
    broadcast use group_to_multiset_ensures;

    if s.len() == 0 {
    } else {
        let t = s.drop_last();
        lemma_sorted_by_rank_props(t);
        lemma_insert_ranked_props(sorted_by_rank(t), s.last());
        assert(s =~= t.push(s.last()));
        let r = sorted_by_rank(s);
        assert forall|x: T| r.contains(x) <==> s.contains(x) by {
            if s.contains(x) {
                let k = choose|k: int| 0 <= k < s.len() && s[k] == x;
                if k < t.len() {
                    assert(t[k] == x);
                    assert(t.contains(x));
                }
            }
            if t.contains(x) {
                let k = choose|k: int| 0 <= k < t.len() && t[k] == x;
                assert(s[k] == x);
            }
            if x == s.last() {
                assert(s[s.len() - 1] == x);
            }
        }
    }
}

/// Sorting leaves a sorted sequence as it is.
pub proof fn lemma_sorted_is_fixed<T: Ranked>(s: Seq<T>)
    requires
        is_sorted(s),
    ensures
        sorted_by_rank(s) == s,
    decreases s.len(),
{
    if s.len() > 0 {
        let t = s.drop_last();
        assert(is_sorted(t));
        lemma_sorted_is_fixed(t);
        if t.len() > 0 {
            assert(t.last() == s[s.len() - 2]);
            assert(s[s.len() - 2].rank() <= s[s.len() - 1].rank());
        }
        assert(t.push(s.last()) =~= s);
    }
}

/// Whether `v` is sorted by rank.
pub fn check_sorted<T: Ranked>(v: &Vec<T>) -> (b: bool)
    ensures
        b == is_sorted(v@),
{
    if v.len() < 2 {
        return true;
    }
    let mut i: usize = 1;
    while i < v.len()
        invariant
            1 <= i <= v.len(),
            forall|a: int, b: int| 0 <= a <= b < i ==> v@[a].rank() <= v@[b].rank(),
        decreases v.len() - i,
    {
        if !v[i - 1].rank_le(&v[i]) {
            return false;
        }
        proof {
            assert forall|a: int, b: int| 0 <= a <= b < i + 1 implies v@[a].rank()
                <= v@[b].rank() by {
                if b == i && a < i {
                    assert(v@[a].rank() <= v@[i - 1].rank());
                }
            }
        }
        i += 1;
    }
    true
}

/// Sorts `v` by rank; values of equal rank keep their order.
pub fn sort_by_rank<T: Ranked + Copy>(v: &Vec<T>) -> (out: Vec<T>)
    ensures
        out@ == sorted_by_rank(v@),
        is_sorted(out@),
        out@.len() == v@.len(),
        out@.to_multiset() == v@.to_multiset(),
{
    let mut out: Vec<T> = Vec::with_capacity(v.len());
    let mut i: usize = 0;
    while i < v.len()
        invariant
            i <= v.len(),
            out@ == sorted_by_rank(v@.take(i as int)),
            is_sorted(out@),
            out@.len() == i,
        decreases v.len() - i,
    {
        let e = v[i];
        let mut j: usize = out.len();
        while j > 0 && !out[j - 1].rank_le(&e)
            invariant
                j <= out.len(),
                forall|k: int| j <= k < out@.len() ==> out@[k].rank() > e.rank(),
            decreases j,
        {
            j -= 1;
        }
        proof {
            lemma_insert_at(out@, e, j as int);
            lemma_insert_ranked_props(out@, e);
            assert(v@.take(i + 1).drop_last() == v@.take(i as int));
            assert(v@.take(i + 1).last() == e);
        }
        out.insert(j, e);
        i += 1;
    }
    proof {
        assert(v@.take(i as int) == v@);
        lemma_sorted_by_rank_props(v@);
    }
    out
}

} // verus!
