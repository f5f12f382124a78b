//! The expansion-state store: the set of tree paths currently open.
//!
//! A path's presence has no effect unless the displayed snapshot has an
//! expandable node there; stale paths are harmless and are kept, since they
//! may become valid again on another snapshot.

use vstd::prelude::*;

use crate::value::{SegModel, TreePath, path_model, path_prefix};

verus! {

/// The set of models of the first `n` paths of a list.
pub open spec fn path_set(ps: Seq<TreePath>, n: int) -> Set<Seq<SegModel>> {
    Set::new(
        |q: Seq<SegModel>|
            exists|i: int| 0 <= i < n && i < ps.len() && path_model(#[trigger] ps[i]@) == q,
    )
}

/// The strict non-empty prefixes of `pm` shorter than `l`.
pub open spec fn prefix_set(pm: Seq<SegModel>, l: int) -> Set<Seq<SegModel>> {
    Set::new(|q: Seq<SegModel>| exists|m: int| 1 <= m < l && m <= pm.len() && pm.take(m) == q)
}

/// The strict non-empty ancestor prefixes of the first `n` paths of a list.
pub open spec fn ancestor_set(ps: Seq<TreePath>, n: int) -> Set<Seq<SegModel>> {
    Set::new(
        |q: Seq<SegModel>|
            exists|i: int|
                0 <= i < n && i < ps.len() && prefix_set(
                    path_model(#[trigger] ps[i]@),
                    path_model(ps[i]@).len() as int,
                ).contains(q),
    )
}

/// The set of tree paths currently expanded.
pub struct ExpansionState {
    pub open_paths: Vec<TreePath>,
}

impl ExpansionState {
    /// The mathematical image: the set of path models held.
    pub open spec fn model(self) -> Set<Seq<SegModel>> {
        path_set(self.open_paths@, self.open_paths@.len() as int)
    }

    /// No path is held twice.
    pub open spec fn wf(self) -> bool {
        forall|i: int, j: int|
            0 <= i < j < self.open_paths@.len() ==> path_model(self.open_paths@[i]@) != path_model(
                self.open_paths@[j]@,
            )
    }

    /// An empty store: nothing expanded.
    pub fn new() -> (s: ExpansionState)
        ensures
            s.model() == Set::<Seq<SegModel>>::empty(),
            s.wf(),
    {
        let s = ExpansionState { open_paths: Vec::new() };
        proof {
            assert(s.model() =~= Set::<Seq<SegModel>>::empty());
        }
        s
    }

    /// Whether `p` is expanded.
    pub fn contains(&self, p: &TreePath) -> (r: bool)
        ensures
            r == self.model().contains(path_model(p@)),
    {
        let n = self.open_paths.len();
        for i in 0..n
            invariant
                n == self.open_paths@.len(),
                forall|j: int|
                    0 <= j < i ==> path_model(#[trigger] self.open_paths@[j]@) != path_model(p@),
        {
            if crate::value::path_eq(&self.open_paths[i], p) {
                return true;
            }
        }
        false
    }

    /// Flips membership of `p`.
    pub fn toggle(&mut self, p: &TreePath)
        requires
            old(self).wf(),
        ensures
            final(self).wf(),
            final(self).model() == if old(self).model().contains(path_model(p@)) {
                old(self).model().remove(path_model(p@))
            } else {
                old(self).model().insert(path_model(p@))
            },
    {
        let ghost pm = path_model(p@);
        let n = self.open_paths.len();
        for i in 0..n
            invariant
                *self == *old(self),
                old(self).wf(),
                pm == path_model(p@),
                n == self.open_paths@.len(),
                forall|j: int|
                    0 <= j < i ==> path_model(#[trigger] self.open_paths@[j]@) != path_model(p@),
        {
            let hit = crate::value::path_eq(&self.open_paths[i], p);
            if hit {
                let ghost before = self.open_paths@;
                let ghost idx = i as int;
                proof {
                    assert(pm == path_model(p@));
                    assert(before == self.open_paths@);
                    assert(path_model(self.open_paths@[i as int]@) == path_model(p@));
                    assert(path_model(before[idx]@) == pm);
                    assert(old(self).model().contains(pm));
                }
                self.open_paths.remove(i);
                proof {
                    assert(self.open_paths@ == before.remove(idx));
                    before.remove_ensures(idx);
                    assert forall|q: Seq<SegModel>|
                        self.model().contains(q) == old(self).model().remove(pm).contains(
                            q,
                        ) by {
                        if self.model().contains(q) {
                            let j = choose|j: int|
                                0 <= j < self.open_paths@.len() && path_model(
                                    #[trigger] self.open_paths@[j]@,
                                ) == q;
                            assert(path_model(old(self).open_paths@[idx]@) == pm);
                            if j < idx {
                                assert(before.remove(idx)[j] == before[j]);
                                assert(path_model(old(self).open_paths@[j]@) == q);
                                assert(q != pm);
                            } else {
                                assert(before.remove(idx)[j] == before[j + 1]);
                                assert(path_model(old(self).open_paths@[j + 1]@) == q);
                                assert(q != pm);
                            }
                        }
                        if old(self).model().remove(pm).contains(q) {
                            let j = choose|j: int|
                                0 <= j < before.len() && path_model(#[trigger] before[j]@) == q;
                            assert(j != idx);
                            if j < idx {
                                assert(before.remove(idx)[j] == before[j]);
                                assert(path_model(self.open_paths@[j]@) == q);
                            } else {
                                assert(before.remove(idx)[j - 1] == before[j]);
                                assert(path_model(self.open_paths@[j - 1]@) == q);
                            }
                        }
                    }
                    assert(self.model() =~= old(self).model().remove(pm));
                    assert forall|a: int, b: int|
                        0 <= a < b < self.open_paths@.len() implies path_model(
                        self.open_paths@[a]@,
                    ) != path_model(self.open_paths@[b]@) by {
                        let oa = if a < idx {
                            a
                        } else {
                            a + 1
                        };
                        let ob = if b < idx {
                            b
                        } else {
                            b + 1
                        };
                        assert(before.remove(idx)[a] == before[oa]);
                        assert(before.remove(idx)[b] == before[ob]);
                        assert(path_model(old(self).open_paths@[oa]@) == path_model(
                            self.open_paths@[a]@,
                        ));
                        assert(path_model(old(self).open_paths@[ob]@) == path_model(
                            self.open_paths@[b]@,
                        ));
                    }
                }
                return ;
            }
        }
        let ghost before = self.open_paths@;
        self.open_paths.push(crate::value::path_clone(p));
        proof {
            assert(!old(self).model().contains(pm));
            assert forall|q: Seq<SegModel>|
                self.model().contains(q) == old(self).model().insert(pm).contains(q) by {
                if self.model().contains(q) {
                    let j = choose|j: int|
                        0 <= j < self.open_paths@.len() && path_model(
                            #[trigger] self.open_paths@[j]@,
                        ) == q;
                    if j < before.len() {
                        assert(self.open_paths@[j] == before[j]);
                    }
                }
                if q == pm {
                    assert(path_model(self.open_paths@[before.len() as int]@) == q);
                }
                if old(self).model().contains(q) {
                    let j = choose|j: int|
                        0 <= j < before.len() && path_model(#[trigger] before[j]@) == q;
                    assert(self.open_paths@[j] == before[j]);
                }
            }
            assert(self.model() =~= old(self).model().insert(pm));
            assert forall|a: int, b: int|
                0 <= a < b < self.open_paths@.len() implies path_model(self.open_paths@[a]@)
                != path_model(self.open_paths@[b]@) by {
                if b == self.open_paths@.len() - 1 {
                    assert(self.open_paths@[a] == before[a]);
                    assert(old(self).model().contains(path_model(before[a]@)));
                } else {
                    assert(self.open_paths@[a] == before[a]);
                    assert(self.open_paths@[b] == before[b]);
                }
            }
        }
    }

    /// Empties the store: collapse all.  The result is the empty set
    /// whatever was held before, so a second call changes nothing.
    pub fn clear(&mut self)
        ensures
            final(self).model() == Set::<Seq<SegModel>>::empty(),
            final(self).wf(),
    {
        self.open_paths = Vec::new();
        proof {
            assert(self.model() =~= Set::<Seq<SegModel>>::empty());
        }
    }

    /// Inserts every candidate path: bulk-open.  The result holds every
    /// candidate and everything held before, and nothing else.
    pub fn expand_all(&mut self, candidates: &Vec<TreePath>)
        requires
            old(self).wf(),
        ensures
            final(self).wf(),
            final(self).model() == old(self).model().union(
                path_set(candidates@, candidates@.len() as int),
            ),
            old(self).model().subset_of(final(self).model()),
    {
        let n = candidates.len();
        proof {
            assert(self.model() =~= old(self).model().union(path_set(candidates@, 0)));
        }
        for i in 0..n
            invariant
                n == candidates@.len(),
                self.wf(),
                self.model() == old(self).model().union(path_set(candidates@, i as int)),
        {
            self.insert_if_absent(&candidates[i]);
            proof {
                assert(self.model() =~= old(self).model().union(
                    path_set(candidates@, i as int + 1),
                ));
            }
        }
        proof {
            assert(old(self).model().subset_of(self.model()));
        }
    }

    /// Opens every strict non-empty ancestor prefix of every changed path,
    /// so that each changed node's line becomes reachable without opening
    /// the changed subtrees themselves.
    pub fn expand_to_changes(&mut self, changed: &Vec<TreePath>)
        requires
            old(self).wf(),
        ensures
            final(self).wf(),
            final(self).model() == old(self).model().union(
                ancestor_set(changed@, changed@.len() as int),
            ),
            forall|i: int, l: int|
                0 <= i < changed@.len() && 1 <= l < path_model(changed@[i]@).len()
                    ==> #[trigger] final(self).model().contains(path_model(changed@[i]@).take(l)),
    {
        let n = changed.len();
        proof {
            assert(self.model() =~= old(self).model().union(ancestor_set(changed@, 0)));
        }
        for i in 0..n
            invariant
                n == changed@.len(),
                self.wf(),
                self.model() == old(self).model().union(ancestor_set(changed@, i as int)),
        {
            let p = &changed[i];
            let plen = p.len();
            let ghost pm = path_model(p@);
            proof {
                assert(ancestor_set(changed@, i as int).union(prefix_set(pm, 1)) =~= ancestor_set(
                    changed@,
                    i as int,
                ));
            }
            let mut l: usize = 1;
            while l < plen
                invariant
                    plen == p@.len(),
                    p == changed@[i as int],
                    pm == path_model(p@),
                    1 <= l,
                    plen > 0 ==> l <= plen,
                    plen == 0 ==> l == 1,
                    self.wf(),
                    self.model() == old(self).model().union(
                        ancestor_set(changed@, i as int),
                    ).union(prefix_set(pm, l as int)),
                decreases plen - l,
            {
                let pre = path_prefix(p, l);
                self.insert_if_absent(&pre);
                proof {
                    assert(self.model() =~= old(self).model().union(
                        ancestor_set(changed@, i as int),
                    ).union(prefix_set(pm, l as int + 1)));
                }
                l = l + 1;
            }
            proof {
                assert(old(self).model().union(ancestor_set(changed@, i as int)).union(
                    prefix_set(pm, pm.len() as int),
                ) =~= old(self).model().union(ancestor_set(changed@, i as int + 1)));
            }
        }
    }

    /// Inserts one path unless it is already held.
    fn insert_if_absent(&mut self, p: &TreePath)
        requires
            old(self).wf(),
        ensures
            final(self).wf(),
            final(self).model() == old(self).model().insert(path_model(p@)),
    {
        let ghost pm = path_model(p@);
        if self.contains(p) {
            proof {
                assert(self.model() =~= old(self).model().insert(pm));
            }
            return ;
        }
        let ghost before = self.open_paths@;
        self.open_paths.push(crate::value::path_clone(p));
        proof {
            assert forall|q: Seq<SegModel>|
                self.model().contains(q) == old(self).model().insert(pm).contains(q) by {
                if self.model().contains(q) {
                    let j = choose|j: int|
                        0 <= j < self.open_paths@.len() && path_model(
                            #[trigger] self.open_paths@[j]@,
                        ) == q;
                    if j < before.len() {
                        assert(self.open_paths@[j] == before[j]);
                    }
                }
                if q == pm {
                    assert(path_model(self.open_paths@[before.len() as int]@) == q);
                }
                if old(self).model().contains(q) {
                    let j = choose|j: int|
                        0 <= j < before.len() && path_model(#[trigger] before[j]@) == q;
                    assert(self.open_paths@[j] == before[j]);
                }
            }
            assert(self.model() =~= old(self).model().insert(pm));
            assert forall|a: int, b: int|
                0 <= a < b < self.open_paths@.len() implies path_model(self.open_paths@[a]@)
                != path_model(self.open_paths@[b]@) by {
                if b == self.open_paths@.len() - 1 {
                    assert(self.open_paths@[a] == before[a]);
                    assert(old(self).model().contains(path_model(before[a]@)));
                } else {
                    assert(self.open_paths@[a] == before[a]);
                    assert(self.open_paths@[b] == before[b]);
                }
            }
        }
    }
}

} // verus!
