use vstd::prelude::*;
use vstd::slice::slice_subrange;
use crate::position_key::PositionKey;
use crate::sorting::{
    check_sorted, is_sorted, lemma_sorted_is_fixed, sort_by_rank, sorted_by_rank, Ranked,
};
use crate::types::Occurrence;

verus! {

/// One indexed pair: a position key and a place where that position was seen.
pub type Entry = (PositionKey, Occurrence);

impl Ranked for (PositionKey, Occurrence) {
    /// Entries are ordered by key alone.
    open spec fn rank(self) -> int {
        self.0.as_int()
    }

    fn rank_le(&self, other: &Self) -> (b: bool) {
        self.0.key_le(other.0)
    }
}

/// The test for an entry of key `key`.
pub open spec fn has_key(key: PositionKey) -> spec_fn(Entry) -> bool {
    |e: Entry| e.0 == key
}

/// The entries of `s` whose key is `key`, in their order.
pub open spec fn entries_with_key(s: Seq<Entry>, key: PositionKey) -> Seq<Entry> {
    s.filter(has_key(key))
}

/// In a sequence split at `lo` and `hi` into lower keys, the key itself and
/// higher keys, the entries with that key are those between `lo` and `hi`.
pub proof fn lemma_key_range(s: Seq<Entry>, key: PositionKey, lo: int, hi: int)
    requires
        0 <= lo <= hi <= s.len(),
        forall|i: int| 0 <= i < lo ==> s[i].0 != key,
        forall|i: int| lo <= i < hi ==> s[i].0 == key,
        forall|i: int| hi <= i < s.len() ==> s[i].0 != key,
    ensures
        entries_with_key(s, key) == s.subrange(lo, hi),
    decreases s.len(),
{
    reveal_with_fuel(Seq::filter, 2);
    if s.len() == 0 {
        assert(s.subrange(lo, hi) =~= s);
    } else {
        let n = s.len() - 1;
        let t = s.drop_last();
        let lo2 = if lo <= n { lo } else { n };
        let hi2 = if hi <= n { hi } else { n };
        lemma_key_range(t, key, lo2, hi2);
        if s.last().0 == key {
            assert(lo <= n < hi);
            assert(s.subrange(lo, hi) =~= t.subrange(lo2, hi2).push(s.last()));
        } else {
            assert(s.subrange(lo, hi) =~= t.subrange(lo2, hi2));
        }
    }
}

/// A copy of `v`.
pub fn copy_entries(v: &Vec<(PositionKey, Occurrence)>) -> (r: Vec<(PositionKey, Occurrence)>)
    ensures
        r@ == v@,
{
    let mut r: Vec<(PositionKey, Occurrence)> = Vec::with_capacity(v.len());
    let mut i: usize = 0;
    while i < v.len()
        invariant
            i <= v.len(),
            r@ == v@.take(i as int),
        decreases v.len() - i,
    {
        r.push(v[i]);
        proof {
            assert(v@.take(i + 1) =~= v@.take(i as int).push(v@[i as int]));
        }
        i += 1;
    }
    proof {
        assert(v@.take(i as int) == v@);
    }
    r
}

/// An immutable run of entries sorted ascending by key.
#[derive(Debug)]
pub struct Segment {
    entries: Vec<(PositionKey, Occurrence)>,
}

impl View for Segment {
    type V = Seq<Entry>;

    closed spec fn view(&self) -> Seq<Entry> {
        self.entries@
    }
}

impl Clone for Segment {
    fn clone(&self) -> (s: Self)
        ensures
            s@ == self@,
    {
        proof {
            use_type_invariant(self);
        }
        Segment { entries: copy_entries(&self.entries) }
    }
}

impl Segment {
    #[verifier::type_invariant]
    spec fn sorted(&self) -> bool {
        is_sorted(self.entries@)
    }

    /// Wraps entries that are already sorted ascending by key.
    pub fn new_sorted(entries: Vec<(PositionKey, Occurrence)>) -> (s: Self)
        requires
            is_sorted(entries@),
        ensures
            s@ == entries@,
    {
        Segment { entries }
    }

    /// Builds a segment from entries in any order: they are sorted by key,
    /// entries of one key keeping their order.
    pub fn from_entries(entries: Vec<(PositionKey, Occurrence)>) -> (s: Self)
        ensures
            s@ == sorted_by_rank(entries@),
    {
        if check_sorted(&entries) {
            proof {
                lemma_sorted_is_fixed(entries@);
            }
            Segment { entries }
        } else {
            Segment { entries: sort_by_rank(&entries) }
        }
    }

    pub fn is_empty(&self) -> (b: bool)
        ensures
            b == (self@.len() == 0),
    {
        self.entries.len() == 0
    }

    pub fn len(&self) -> (n: usize)
        ensures
            n == self@.len(),
    {
        self.entries.len()
    }

    pub fn entries(&self) -> (e: &Vec<(PositionKey, Occurrence)>)
        ensures
            e@ == self@,
            is_sorted(e@),
    {
        proof {
            use_type_invariant(self);
        }
        &self.entries
    }

    /// The first index whose key is not below `key`.
    fn lower_bound(&self, key: PositionKey) -> (lo: usize)
        ensures
            lo <= self@.len(),
            forall|i: int| 0 <= i < lo ==> self@[i].0.spec_lt(key),
            forall|i: int| lo <= i < self@.len() ==> key.spec_le(self@[i].0),
    {
        proof {
            use_type_invariant(self);
        }
        let mut lo: usize = 0;
        let mut hi: usize = self.entries.len();
        while lo < hi
            invariant
                lo <= hi <= self.entries@.len(),
                is_sorted(self.entries@),
                forall|i: int| 0 <= i < lo ==> self.entries@[i].0.spec_lt(key),
                forall|i: int| hi <= i < self.entries@.len() ==> key.spec_le(self.entries@[i].0),
            decreases hi - lo,
        {
            let mid = lo + (hi - lo) / 2;
            if self.entries[mid].0.key_lt(key) {
                proof {
                    assert forall|i: int| 0 <= i < mid + 1 implies self.entries@[i].0.spec_lt(
                        key,
                    ) by {
                        assert(self.entries@[i].rank() <= self.entries@[mid as int].rank());
                    }
                }
                lo = mid + 1;
            } else {
                proof {
                    assert forall|i: int| mid <= i < self.entries@.len() implies key.spec_le(
                        self.entries@[i].0,
                    ) by {
                        assert(self.entries@[mid as int].rank() <= self.entries@[i].rank());
                    }
                }
                hi = mid;
            }
        }
        lo
    }

    /// The first index whose key is above `key`.
    fn upper_bound(&self, key: PositionKey) -> (hi: usize)
        ensures
            hi <= self@.len(),
            forall|i: int| 0 <= i < hi ==> self@[i].0.spec_le(key),
            forall|i: int| hi <= i < self@.len() ==> key.spec_lt(self@[i].0),
    {
        proof {
            use_type_invariant(self);
        }
        let mut lo: usize = 0;
        let mut hi: usize = self.entries.len();
        while lo < hi
            invariant
                lo <= hi <= self.entries@.len(),
                is_sorted(self.entries@),
                forall|i: int| 0 <= i < lo ==> self.entries@[i].0.spec_le(key),
                forall|i: int| hi <= i < self.entries@.len() ==> key.spec_lt(self.entries@[i].0),
            decreases hi - lo,
        {
            let mid = lo + (hi - lo) / 2;
            if self.entries[mid].0.key_le(key) {
                proof {
                    assert forall|i: int| 0 <= i < mid + 1 implies self.entries@[i].0.spec_le(
                        key,
                    ) by {
                        assert(self.entries@[i].rank() <= self.entries@[mid as int].rank());
                    }
                }
                lo = mid + 1;
            } else {
                proof {
                    assert forall|i: int| mid <= i < self.entries@.len() implies key.spec_lt(
                        self.entries@[i].0,
                    ) by {
                        assert(self.entries@[mid as int].rank() <= self.entries@[i].rank());
                    }
                }
                hi = mid;
            }
        }
        lo
    }

    /// The entries whose key is exactly `key`, found by binary search; an
    /// empty slice when there is none.
    pub fn range_by_key(&self, key: PositionKey) -> (r: &[(PositionKey, Occurrence)])
        ensures
            r@ == entries_with_key(self@, key),
    {
        let lo = self.lower_bound(key);
        let hi = self.upper_bound(key);
        proof {
            if hi < lo {
                assert(self@[hi as int].0.spec_lt(key));
                assert(key.spec_lt(self@[hi as int].0));
            }
            assert forall|i: int| lo <= i < hi implies self@[i].0 == key by {
                PositionKey::lemma_as_int_injective(self@[i].0, key);
            }
            lemma_key_range(self@, key, lo as int, hi as int);
        }
        slice_subrange(self.entries.as_slice(), lo, hi)
    }
}

} // verus!

