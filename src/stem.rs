//! The stem hierarchy: a forest of stem segments under the `AxisUp` relation,
//! each pointing to at most one parent that was added before it.
use vstd::prelude::*;

use crate::relation::{Relation, RelationKind};
use vstd::set_lib::{lemma_int_range, set_int_range};

verus! {

/// A stem was asked for that the hierarchy does not hold.
#[derive(Clone, Copy, Debug, PartialEq, Eq, Structural)]
pub enum StemError {
    MissingStem,
}

/// Stem segments with a payload of type `S` (size, length, rotation, ...),
/// addressed by dense ids in the order they were added.
pub struct StemHierarchy<S> {
    stems: Vec<S>,
    axis: Relation,
}

impl<S> StemHierarchy<S> {
    /// The payloads, by stem id.
    pub closed spec fn stems_view(&self) -> Seq<S> {
        self.stems@
    }

    /// `parent` is the parent of `child`.
    pub closed spec fn is_parent(&self, child: int, parent: int) -> bool {
        self.axis.linked(child, parent)
    }

    /// `child` has no parent.
    pub open spec fn is_root(&self, child: int) -> bool {
        forall|p: int| !#[trigger] self.is_parent(child, p)
    }

    pub closed spec fn wf(&self) -> bool {
        &&& self.axis.wf()
        &&& self.axis.kind_spec() == RelationKind::AxisUp
        &&& self.axis.size() == self.stems@.len()
        &&& forall|c: int, p: int| #[trigger] self.axis.linked(c, p) ==> p < c
    }

    /// Every parent link joins two stems, the parent being the older one.
    pub proof fn lemma_parent_older(&self, child: int, parent: int)
        requires
            self.wf(),
            self.is_parent(child, parent),
        ensures
            0 <= parent < child < self.stems_view().len(),
    {
        self.axis.lemma_linked_in_range(child, parent);
    }

    /// A stem has at most one parent.
    pub proof fn lemma_one_parent(&self, child: int, p1: int, p2: int)
        requires
            self.wf(),
            self.is_parent(child, p1),
            self.is_parent(child, p2),
        ensures
            p1 == p2,
    {
        self.axis.lemma_exclusive(child, p1, p2);
    }

    pub fn new() -> (r: Self)
        ensures
            r.wf(),
            r.stems_view().len() == 0,
    {
        let r = StemHierarchy { stems: Vec::new(), axis: Relation::new(RelationKind::AxisUp) };
        proof {
            assert forall|c: int, p: int| #[trigger] r.axis.linked(c, p) implies p < c by {
                r.axis.lemma_linked_in_range(c, p);
            }
        }
        r
    }

    pub fn len(&self) -> (r: usize)
        requires
            self.wf(),
        ensures
            r == self.stems_view().len(),
    {
        self.stems.len()
    }

    /// Appends a stem as a child of `parent`, or as a new root. A parent that is
    /// not in the hierarchy is refused, so no cycle can form.
    pub fn add_stem(&mut self, stem: S, parent: Option<usize>) -> (r: Result<usize, StemError>)
        requires
            old(self).wf(),
            old(self).stems_view().len() < usize::MAX,
        ensures
            final(self).wf(),
            r is Err <==> (parent matches Some(p) && p >= old(self).stems_view().len()),
            r is Err ==> *final(self) == *old(self),
            r matches Ok(id) ==> {
                &&& id == old(self).stems_view().len()
                &&& final(self).stems_view() == old(self).stems_view().push(stem)
                &&& forall|c: int, p: int|
                    #[trigger] final(self).is_parent(c, p) == if c == id {
                        parent matches Some(pp) && p == pp as int
                    } else {
                        old(self).is_parent(c, p)
                    }
            },
    {
        if let Some(p) = parent {
            if p >= self.stems.len() {
                return Err(StemError::MissingStem);
            }
        }
        let id = self.axis.add_entity();
        self.stems.push(stem);
        let ghost mid = self.axis;
        match parent {
            Some(p) => {
                let r = self.axis.set(id, p);
                proof {
                    assert(r is Ok);
                    assert forall|c: int, q: int| #[trigger] self.axis.linked(c, q) implies q < c by {
                        if c != id {
                            assert(mid.linked(c, q));
                            assert(old(self).axis.linked(c, q));
                        }
                    }
                    assert forall|c: int, q: int|
                        #[trigger] self.is_parent(c, q) == if c == id {
                            parent matches Some(pp) && q == pp as int
                        } else {
                            old(self).is_parent(c, q)
                        } by {
                        if c == id {
                            assert(!mid.linked(c, q)) by {
                                if mid.linked(c, q) {
                                    assert(old(self).axis.linked(c, q));
                                    old(self).axis.lemma_linked_in_range(c, q);
                                }
                            }
                        }
                    }
                }
            },
            None => {
                proof {
                    assert forall|c: int, q: int| #[trigger] self.axis.linked(c, q) implies q < c by {
                        assert(old(self).axis.linked(c, q));
                    }
                    assert forall|c: int, q: int|
                        #[trigger] self.is_parent(c, q) == if c == id {
                            parent matches Some(pp) && q == pp as int
                        } else {
                            old(self).is_parent(c, q)
                        } by {
                        if c == id && old(self).axis.linked(c, q) {
                            old(self).axis.lemma_linked_in_range(c, q);
                        }
                    }
                }
            },
        }
        Ok(id)
    }

    /// Appends `stems` as a new chain: the first one a new root, each next one a
    /// child of the one before. Returns their ids, in order.
    pub fn add_chain(&mut self, stems: Vec<S>) -> (ids: Vec<usize>)
        requires
            old(self).wf(),
            old(self).stems_view().len() + stems@.len() < usize::MAX,
        ensures
            final(self).wf(),
            final(self).stems_view() == old(self).stems_view() + stems@,
            ids@.len() == stems@.len(),
            forall|k: int| 0 <= k < ids@.len() ==> #[trigger] ids@[k] == old(self).stems_view().len() + k,
            forall|c: int, p: int| #[trigger]
                final(self).is_parent(c, p) == if c < old(self).stems_view().len() {
                    old(self).is_parent(c, p)
                } else {
                    old(self).stems_view().len() < c < old(self).stems_view().len() + stems@.len()
                        && p == c - 1
                },
    {
        let base = self.stems.len();
        let n = stems.len();
        let ghost sv = stems@;
        let mut rest = stems;
        let mut ids: Vec<usize> = Vec::new();
        let mut i: usize = 0;
        proof {
            assert forall|c: int, p: int| #[trigger]
                self.is_parent(c, p) == if c < base {
                    old(self).is_parent(c, p)
                } else {
                    c > base && c < base + i && p == c - 1
                } by {
                if self.is_parent(c, p) {
                    self.lemma_parent_older(c, p);
                }
            }
        }
        while i < n
            invariant
                self.wf(),
                base == old(self).stems_view().len(),
                n == sv.len(),
                base + n < usize::MAX,
                i <= n,
                rest@ == sv.subrange(i as int, n as int),
                self.stems_view() == old(self).stems_view() + sv.subrange(0, i as int),
                ids@.len() == i,
                forall|k: int| 0 <= k < ids@.len() ==> #[trigger] ids@[k] == base + k,
                forall|c: int, p: int| #[trigger]
                    self.is_parent(c, p) == if c < base {
                        old(self).is_parent(c, p)
                    } else {
                        c > base && c < base + i && p == c - 1
                    },
            decreases n - i,
        {
            let s = rest.remove(0);
            let parent = if i == 0 {
                None
            } else {
                Some(base + i - 1)
            };
            let ghost before = *self;
            let r = self.add_stem(s, parent);
            proof {
                assert(r is Ok);
                assert(self.stems_view() =~= old(self).stems_view() + sv.subrange(0, i + 1));
                assert(rest@ =~= sv.subrange(i + 1, n as int));
            }
            ids.push(base + i);
            i = i + 1;
        }
        proof {
            assert(sv.subrange(0, n as int) =~= sv);
        }
        ids
    }

    /// The payload of stem `id`.
    pub fn stem(&self, id: usize) -> (r: &S)
        requires
            self.wf(),
            id < self.stems_view().len(),
        ensures
            *r == self.stems_view()[id as int],
    {
        &self.stems[id]
    }

    /// The parent of stem `id`, if it has one.
    pub fn parent(&self, id: usize) -> (r: Option<usize>)
        requires
            self.wf(),
            id < self.stems_view().len(),
        ensures
            r is None <==> self.is_root(id as int),
            r matches Some(p) ==> forall|q: int| #[trigger] self.is_parent(id as int, q) <==> q == p,
    {
        let r = self.axis.target_of(id);
        proof {
            if r is None {
                assert forall|p: int| !#[trigger] self.is_parent(id as int, p) by {
                    assert(!self.axis.linked(id as int, p));
                }
            } else {
                let p = r->Some_0;
                assert(self.axis.linked(id as int, p as int));
                assert(self.is_parent(id as int, p as int));
            }
        }
        r
    }

    /// The stems without a parent, in increasing order.
    pub fn roots(&self) -> (r: Vec<usize>)
        requires
            self.wf(),
        ensures
            forall|k: int| 0 <= k < r@.len() ==> #[trigger] r@[k] < self.stems_view().len(),
            forall|k: int| 0 <= k < r@.len() ==> self.is_root(#[trigger] r@[k] as int),
            forall|x: int|
                0 <= x < self.stems_view().len() && self.is_root(x) ==> #[trigger] r@.contains(
                    x as usize,
                ),
            forall|a: int, b: int| 0 <= a < b < r@.len() ==> r@[a] < r@[b],
    {
        let r = self.axis.roots();
        proof {
            assert forall|x: int|
                0 <= x < self.stems_view().len() && self.is_root(x) implies #[trigger] r@.contains(
                x as usize,
            ) by {
                assert forall|t: int| !#[trigger] self.axis.linked(x, t) by {
                    assert(!self.is_parent(x, t));
                }
            }
            assert forall|k: int| 0 <= k < r@.len() implies self.is_root(#[trigger] r@[k] as int) by {
                assert forall|p: int| !#[trigger] self.is_parent(r@[k] as int, p) by {
                    assert(!self.axis.linked(r@[k] as int, p));
                }
            }
        }
        r
    }

    /// A traversal from all roots that is closed under parent-to-child steps
    /// reaches every stem below `x`.
    proof fn lemma_all_reached(&self, roots: Seq<usize>, order: Seq<usize>, x: int)
        requires
            self.wf(),
            0 <= x <= self.stems_view().len(),
            forall|y: int|
                0 <= y < self.stems_view().len() && (forall|t: int| !#[trigger] self.axis.linked(y, t))
                    ==> #[trigger] roots.contains(y as usize),
            forall|i: int| 0 <= i < roots.len() ==> order.contains(#[trigger] roots[i]),
            forall|k: int, c: int|
                0 <= k < order.len() && #[trigger] self.axis.linked(c, order[k] as int)
                    ==> order.contains(c as usize),
        ensures
            forall|y: int| 0 <= y < x ==> #[trigger] order.contains(y as usize),
        decreases x,
    {
        if x > 0 {
            self.axis.lemma_size_fits();
            self.lemma_all_reached(roots, order, x - 1);
            let y = x - 1;
            if forall|t: int| !#[trigger] self.axis.linked(y, t) {
                assert(roots.contains(y as usize));
                let i = choose|i: int| 0 <= i < roots.len() && roots[i] == y as usize;
                assert(order.contains(roots[i]));
            } else {
                let t = choose|t: int| #[trigger] self.axis.linked(y, t);
                self.axis.lemma_linked_in_range(y, t);
                assert(order.contains(t as usize));
                let k = choose|k: int| 0 <= k < order.len() && order[k] == t as usize;
                assert(self.axis.linked(y, order[k] as int));
            }
        }
    }

    /// Depth-first order over the whole forest, from each root down to its
    /// descendants: every stem comes exactly once, and after its parent.
    pub fn traversal_order(&self) -> (order: Vec<usize>)
        requires
            self.wf(),
        ensures
            order@.len() == self.stems_view().len(),
            order@.no_duplicates(),
            forall|k: int| 0 <= k < order@.len() ==> #[trigger] order@[k] < self.stems_view().len(),
            forall|x: int|
                0 <= x < self.stems_view().len() ==> #[trigger] order@.contains(x as usize),
            forall|k: int, p: int|
                0 <= k < order@.len() && #[trigger] self.is_parent(order@[k] as int, p)
                    ==> exists|m: int| 0 <= m < k && #[trigger] order@[m] == p,
    {
        let roots = self.axis.roots();
        let order = self.axis.traverse(&roots);
        proof {
            let n = self.stems_view().len();
            self.axis.lemma_size_fits();
            self.lemma_all_reached(roots@, order@, n as int);
            assert forall|k: int, p: int|
                0 <= k < order@.len() && #[trigger] self.is_parent(order@[k] as int, p)
                    implies exists|m: int| 0 <= m < k && #[trigger] order@[m] == p by {
                let c = order@[k];
                assert(!roots@.contains(c)) by {
                    if roots@.contains(c) {
                        let i = choose|i: int| 0 <= i < roots@.len() && roots@[i] == c;
                        assert(!self.axis.linked(roots@[i] as int, p));
                    }
                }
                let m = choose|m: int|
                    0 <= m < k && self.axis.linked(order@[k] as int, #[trigger] order@[m] as int);
                self.axis.lemma_exclusive(c as int, p, order@[m] as int);
            }
            // a distinct sequence holding all of 0..n has length n
            let t = order@.map_values(|v: usize| v as int);
            assert(t.no_duplicates()) by {
                assert forall|i: int, j: int|
                    0 <= i < t.len() && 0 <= j < t.len() && i != j implies t[i] != t[j] by {
                    assert(order@[i] != order@[j]);
                }
            }
            t.unique_seq_to_set();
            lemma_int_range(0, n as int);
            assert(t.to_set() =~= set_int_range(0, n as int)) by {
                assert forall|v: int| t.to_set().contains(v) <==> set_int_range(0, n as int).contains(v) by {
                    if t.to_set().contains(v) {
                        let k = choose|k: int| 0 <= k < t.len() && t[k] == v;
                        assert(order@[k] < n);
                    }
                    if 0 <= v < n {
                        assert(order@.contains(v as usize));
                        let k = choose|k: int| 0 <= k < order@.len() && order@[k] == v as usize;
                        assert(t[k] == v);
                    }
                }
            }
        }
        order
    }
}

} // verus!
