use vstd::prelude::*;
use crate::types::FileId;

verus! {

/// The file id that a path was given.
#[derive(Debug, Clone)]
pub struct PathId {
    pub path: String,
    pub file_id: FileId,
}

/// Whether some pair of `s` has the path `p`.
pub open spec fn has_pair(s: Seq<PathId>, p: Seq<char>) -> bool {
    exists|i: int| 0 <= i < s.len() && #[trigger] s[i].path@ == p
}

/// The index in `s` of a pair with the path `p`.
pub open spec fn index_of_pair(s: Seq<PathId>, p: Seq<char>) -> int {
    choose|i: int| 0 <= i < s.len() && #[trigger] s[i].path@ == p
}

/// No two pairs of `s` have the same path.
pub open spec fn pairs_unique(s: Seq<PathId>) -> bool {
    forall|i: int, j: int| 0 <= i < j < s.len() ==> s[i].path@ != s[j].path@
}

/// The mapping from path to file id that the pairs of `s` make up.
pub open spec fn map_of_pairs(s: Seq<PathId>) -> Map<Seq<char>, FileId> {
    Map::new(|p: Seq<char>| has_pair(s, p), |p: Seq<char>| s[index_of_pair(s, p)].file_id)
}

proof fn lemma_pair_index(s: Seq<PathId>, i: int)
    requires
        pairs_unique(s),
        0 <= i < s.len(),
    ensures
        has_pair(s, s[i].path@),
        index_of_pair(s, s[i].path@) == i,
        map_of_pairs(s)[s[i].path@] == s[i].file_id,
{
    let j = index_of_pair(s, s[i].path@);
    if j < i {
        assert(s[j].path@ != s[i].path@);
    }
    if i < j {
        assert(s[i].path@ != s[j].path@);
    }
}

/// The path-to-id map of a project: each path has at most one file id.
#[derive(Debug, Clone)]
pub struct PathIds {
    pub entries: Vec<PathId>,
}

impl View for PathIds {
    type V = Map<Seq<char>, FileId>;

    open spec fn view(&self) -> Map<Seq<char>, FileId> {
        map_of_pairs(self.entries@)
    }
}

impl PathIds {
    /// No path occurs twice.
    pub open spec fn wf(&self) -> bool {
        pairs_unique(self.entries@)
    }

    pub fn new() -> (m: Self)
        ensures
            m.wf(),
            m@ == Map::<Seq<char>, FileId>::empty(),
            m.entries@.len() == 0,
    {
        let m = PathIds { entries: Vec::new() };
        proof {
            assert(m@ =~= Map::<Seq<char>, FileId>::empty());
        }
        m
    }

    fn position(&self, path: &String) -> (r: Option<usize>)
        ensures
            match r {
                Some(i) => i < self.entries@.len() && self.entries@[i as int].path@ == path@,
                None => !has_pair(self.entries@, path@),
            },
    {
        let mut i: usize = 0;
        while i < self.entries.len()
            invariant
                i <= self.entries.len(),
                forall|j: int| 0 <= j < i ==> (#[trigger] self.entries@[j]).path@ != path@,
            decreases self.entries.len() - i,
        {
            if self.entries[i].path == *path {
                return Some(i);
            }
            i += 1;
        }
        None
    }

    /// The file id of `path`, if it has one.
    pub fn get(&self, path: &String) -> (r: Option<FileId>)
        requires
            self.wf(),
        ensures
            match r {
                Some(id) => self@.contains_key(path@) && self@[path@] == id,
                None => !self@.contains_key(path@),
            },
    {
        match self.position(path) {
            Some(i) => {
                proof {
                    lemma_pair_index(self.entries@, i as int);
                }
                Some(self.entries[i].file_id)
            },
            None => None,
        }
    }

    /// Gives `path` the file id `file_id`, in place of the one it had.
    pub fn insert(&mut self, path: String, file_id: FileId)
        requires
            old(self).wf(),
        ensures
            final(self).wf(),
            final(self)@ == old(self)@.insert(path@, file_id),
    {
        let ghost before = self.entries@;
        let found = self.position(&path);
        let ghost at: int = match found {
            Some(i) => i as int,
            None => before.len() as int,
        };
        match found {
            Some(i) => {
                self.entries.set(i, PathId { path, file_id });
            },
            None => {
                self.entries.push(PathId { path, file_id });
            },
        }
        proof {
            let after = self.entries@;
            assert(after[at].path@ == path@ && after[at].file_id == file_id);
            assert forall|i: int, j: int| 0 <= i < j < after.len() implies after[i].path@
                != after[j].path@ by {
                if j < before.len() {
                    assert(before[i].path@ != before[j].path@);
                } else {
                    assert(before[i].path@ != path@);
                }
            }
            assert forall|p: Seq<char>|
                map_of_pairs(after).contains_key(p) == map_of_pairs(before).insert(
                    path@,
                    file_id,
                ).contains_key(p) by {
                if has_pair(after, p) {
                    let i = index_of_pair(after, p);
                    if p != path@ {
                        assert(before[i].path@ == p);
                    }
                }
                if has_pair(before, p) {
                    let i = index_of_pair(before, p);
                    assert(after[i].path@ == p);
                }
            }
            assert forall|p: Seq<char>| map_of_pairs(after).contains_key(p) implies map_of_pairs(
                after,
            )[p] == map_of_pairs(before).insert(path@, file_id)[p] by {
                let i = index_of_pair(after, p);
                lemma_pair_index(after, i);
                if p != path@ {
                    lemma_pair_index(before, i);
                } else {
                    lemma_pair_index(after, at);
                }
            }
            assert(map_of_pairs(after) =~= map_of_pairs(before).insert(path@, file_id));
        }
    }

    /// Takes `path` out and returns the file id it had.
    pub fn remove(&mut self, path: &String) -> (r: Option<FileId>)
        requires
            old(self).wf(),
        ensures
            final(self).wf(),
            final(self)@ == old(self)@.remove(path@),
            match r {
                Some(id) => old(self)@.contains_key(path@) && old(self)@[path@] == id,
                None => !old(self)@.contains_key(path@),
            },
    {
        let ghost before = self.entries@;
        match self.position(path) {
            Some(k) => {
                proof {
                    lemma_pair_index(before, k as int);
                }
                let gone = self.entries.remove(k);
                proof {
                    let after = self.entries@;
                    assert forall|i: int, j: int| 0 <= i < j < after.len() implies after[i].path@
                        != after[j].path@ by {
                        let i0 = if i < k { i } else { i + 1 };
                        let j0 = if j < k { j } else { j + 1 };
                        assert(before[i0].path@ != before[j0].path@);
                    }
                    assert forall|p: Seq<char>|
                        map_of_pairs(after).contains_key(p) == map_of_pairs(before).remove(
                            path@,
                        ).contains_key(p) by {
                        if has_pair(after, p) {
                            let i = index_of_pair(after, p);
                            let i0 = if i < k { i } else { i + 1 };
                            assert(before[i0].path@ == p);
                            if p == path@ {
                                lemma_pair_index(before, i0);
                            }
                        }
                        if has_pair(before, p) && p != path@ {
                            let i = index_of_pair(before, p);
                            let i1 = if i < k { i } else { i - 1 };
                            assert(after[i1].path@ == p);
                        }
                    }
                    assert forall|p: Seq<char>|
                        map_of_pairs(after).contains_key(p) implies map_of_pairs(after)[p]
                        == map_of_pairs(before).remove(path@)[p] by {
                        let i = index_of_pair(after, p);
                        lemma_pair_index(after, i);
                        let i0 = if i < k { i } else { i + 1 };
                        lemma_pair_index(before, i0);
                    }
                    assert(map_of_pairs(after) =~= map_of_pairs(before).remove(path@));
                }
                Some(gone.file_id)
            },
            None => {
                proof {
                    assert(map_of_pairs(before) =~= map_of_pairs(before).remove(path@));
                }
                None
            },
        }
    }

    /// A copy of the map.
    pub fn clone_ids(&self) -> (m: Self)
        ensures
            m.entries@ == self.entries@,
            m@ == self@,
            m.wf() == self.wf(),
    {
        let mut v: Vec<PathId> = Vec::with_capacity(self.entries.len());
        let mut i: usize = 0;
        while i < self.entries.len()
            invariant
                i <= self.entries.len(),
                v@ == self.entries@.take(i as int),
            decreases self.entries.len() - i,
        {
            let e = &self.entries[i];
            v.push(PathId { path: e.path.clone(), file_id: e.file_id });
            proof {
                assert(self.entries@.take(i + 1) =~= self.entries@.take(i as int).push(
                    self.entries@[i as int],
                ));
            }
            i += 1;
        }
        proof {
            assert(self.entries@.take(i as int) == self.entries@);
        }
        PathIds { entries: v }
    }

    /// The number of paths that have a file id.
    pub fn len(&self) -> (n: usize)
        ensures
            n == self.entries@.len(),
    {
        self.entries.len()
    }
}

} // verus!
