//! Typed, directed relations over a dense arena of entity ids, with a
//! depth-first traversal that visits every reachable entity once.
use vstd::prelude::*;
use vstd::set_lib::{lemma_int_range, lemma_len_subset, set_int_range};

verus! {

/// The kinds of relation that the plant model links entities with.
#[derive(Clone, Copy, Debug, PartialEq, Eq, Structural)]
pub enum RelationKind {
    /// Child-to-parent axis of the stem tree: a stem points to at most one parent.
    AxisUp,
    /// Symmetric, many-to-many adjacency between edge constraints.
    ConstraintToConstraint,
}

impl RelationKind {
    /// A host of an exclusive relation points to at most one target.
    pub open spec fn exclusive(self) -> bool {
        self == RelationKind::AxisUp
    }

    /// Each link of a symmetric relation also holds in the other direction.
    pub open spec fn symmetric(self) -> bool {
        self == RelationKind::ConstraintToConstraint
    }

    pub fn is_exclusive(&self) -> (r: bool)
        ensures
            r == self.exclusive(),
    {
        match self {
            RelationKind::AxisUp => true,
            RelationKind::ConstraintToConstraint => false,
        }
    }

    pub fn is_symmetric(&self) -> (r: bool)
        ensures
            r == self.symmetric(),
    {
        match self {
            RelationKind::AxisUp => false,
            RelationKind::ConstraintToConstraint => true,
        }
    }
}

/// A lookup named an entity that the relation does not hold.
#[derive(Clone, Copy, Debug, PartialEq, Eq, Structural)]
pub enum RelationError {
    MissingEntity,
}

/// One relation of a given kind over the entities `0..len()`.
///
/// `targets[h]` lists what host `h` points to; `hosts[t]` lists who points to `t`.
/// Both lists always describe the same set of links.
pub struct Relation {
    kind: RelationKind,
    targets: Vec<Vec<usize>>,
    hosts: Vec<Vec<usize>>,
}

impl Relation {
    pub closed spec fn kind_spec(&self) -> RelationKind {
        self.kind
    }

    /// Number of entities.
    pub closed spec fn size(&self) -> nat {
        self.targets@.len()
    }

    /// `h` points to `t` under this relation.
    pub closed spec fn linked(&self, h: int, t: int) -> bool {
        &&& 0 <= h < self.size()
        &&& 0 <= t < self.size()
        &&& self.targets@[h]@.contains(t as usize)
    }

    pub closed spec fn wf(&self) -> bool {
        &&& self.wf_core()
        &&& self.kind.exclusive() ==> forall|h: int|
            0 <= h < self.size() ==> #[trigger] self.targets@[h]@.len() <= 1
        &&& self.kind.symmetric() ==> forall|h: int, t: int|
            #[trigger] self.linked(h, t) ==> self.linked(t, h)
    }

    spec fn wf_core(&self) -> bool {
        &&& self.hosts@.len() == self.targets@.len()
        &&& self.targets@.len() <= usize::MAX
        &&& forall|h: int, i: int|
            0 <= h < self.size() && 0 <= i < self.targets@[h]@.len()
                ==> #[trigger] self.targets@[h]@[i] < self.size()
        &&& forall|t: int, i: int|
            0 <= t < self.size() && 0 <= i < self.hosts@[t]@.len()
                ==> #[trigger] self.hosts@[t]@[i] < self.size()
        &&& forall|h: int, t: int|
            0 <= h < self.size() && 0 <= t < self.size() ==> (#[trigger] self.targets@[h]@.contains(
                t as usize,
            ) <==> #[trigger] self.hosts@[t]@.contains(h as usize))
    }

    /// An empty relation of the given kind.
    pub fn new(kind: RelationKind) -> (r: Relation)
        ensures
            r.wf(),
            r.kind_spec() == kind,
            r.size() == 0,
    {
        Relation { kind, targets: Vec::new(), hosts: Vec::new() }
    }

    pub fn kind(&self) -> (r: RelationKind)
        ensures
            r == self.kind_spec(),
    {
        self.kind
    }

    pub fn len(&self) -> (r: usize)
        requires
            self.wf(),
        ensures
            r == self.size(),
    {
        self.targets.len()
    }

    /// Adds an entity with no links and returns its id.
    pub fn add_entity(&mut self) -> (id: usize)
        requires
            old(self).wf(),
            old(self).size() < usize::MAX,
        ensures
            final(self).wf(),
            id == old(self).size(),
            final(self).size() == old(self).size() + 1,
            final(self).kind_spec() == old(self).kind_spec(),
            forall|h: int, t: int| #[trigger] final(self).linked(h, t) == old(self).linked(h, t),
    {
        let id = self.targets.len();
        self.targets.push(Vec::new());
        self.hosts.push(Vec::new());
        proof {
            assert forall|h: int, t: int|
                0 <= h < self.size() && 0 <= t < self.size() implies (
                #[trigger] self.targets@[h]@.contains(t as usize)
                    <==> #[trigger] self.hosts@[t]@.contains(h as usize)) by {
                if h == id as int {
                    assert(self.targets@[h]@ =~= Seq::<usize>::empty());
                }
                if t == id as int {
                    assert(self.hosts@[t]@ =~= Seq::<usize>::empty());
                }
            }
            assert forall|h: int, t: int| #[trigger] self.linked(h, t) == old(self).linked(h, t) by {
                if h == id as int {
                    assert(self.targets@[h]@ =~= Seq::<usize>::empty());
                }
            }
        }
        id
    }

    /// Adds the link `h -> t` to both lists, leaving every other list as it was.
    fn add_link(&mut self, h: usize, t: usize)
        requires
            old(self).wf_core(),
            h < old(self).size(),
            t < old(self).size(),
        ensures
            final(self).wf_core(),
            final(self).kind == old(self).kind,
            final(self).size() == old(self).size(),
            forall|a: int, b: int| #[trigger]
                final(self).linked(a, b) == (old(self).linked(a, b) || (a == h && b == t)),
            forall|a: int|
                0 <= a < old(self).size() && a != h ==> #[trigger] final(self).targets@[a]
                    == old(self).targets@[a],
            final(self).targets@[h as int]@.len() <= old(self).targets@[h as int]@.len() + 1,
            old(self).targets@[h as int]@.contains(t) ==> final(self).targets@[h as int]@
                == old(self).targets@[h as int]@,
    {
        let cur = &self.targets[h];
        let nt = with_item(cur, t);
        let ghost ntv = nt@;
        assert(forall|y: usize| #[trigger] ntv.contains(y) <==> (old(self).targets@[h as int]@.contains(y) || y == t));
        self.targets[h] = nt;
        let cur = &self.hosts[t];
        let nh = with_item(cur, h);
        let ghost nhv = nh@;
        assert(forall|y: usize| #[trigger] nhv.contains(y) <==> (old(self).hosts@[t as int]@.contains(y) || y == h));
        self.hosts[t] = nh;
        proof {
            let o = old(self);
            assert(self.targets@[h as int]@ == ntv);
            assert(self.hosts@[t as int]@ == nhv);
            assert forall|a: int, i: int|
                0 <= a < self.size() && 0 <= i < self.targets@[a]@.len() implies #[trigger] self.targets@[a]@[i]
                < self.size() by {
                if a == h {
                    let y = self.targets@[a]@[i];
                    assert(self.targets@[a]@.contains(y));
                    if y != t {
                        let k = choose|k: int| 0 <= k < o.targets@[a]@.len() && o.targets@[a]@[k] == y;
                        assert(o.targets@[a]@[k] < o.size());
                    }
                }
            }
            assert forall|b: int, i: int|
                0 <= b < self.size() && 0 <= i < self.hosts@[b]@.len() implies #[trigger] self.hosts@[b]@[i]
                < self.size() by {
                if b == t {
                    let y = self.hosts@[b]@[i];
                    assert(self.hosts@[b]@.contains(y));
                    if y != h {
                        let k = choose|k: int| 0 <= k < o.hosts@[b]@.len() && o.hosts@[b]@[k] == y;
                        assert(o.hosts@[b]@[k] < o.size());
                    }
                }
            }
            assert forall|a: int, b: int|
                0 <= a < self.size() && 0 <= b < self.size() implies (
                #[trigger] self.targets@[a]@.contains(b as usize)
                    <==> #[trigger] self.hosts@[b]@.contains(a as usize)) by {
                assert(o.targets@[a]@.contains(b as usize) <==> o.hosts@[b]@.contains(a as usize));
                if a == h {
                    assert(ntv.contains(b as usize) == (o.targets@[a]@.contains(b as usize) || b
                        == t));
                }
                if b == t {
                    assert(nhv.contains(a as usize) == (o.hosts@[b]@.contains(a as usize) || a
                        == h));
                }
            }
            assert forall|a: int, b: int| #[trigger]
                self.linked(a, b) == (o.linked(a, b) || (a == h && b == t)) by {
                if a == h && 0 <= b < self.size() {
                    assert(ntv.contains(b as usize) == (o.targets@[a]@.contains(b as usize) || b
                        == t));
                }
            }
        }
    }

    /// Removes the one link out of `h`, if there is one.
    fn clear_links_from(&mut self, h: usize)
        requires
            old(self).wf_core(),
            h < old(self).size(),
            old(self).targets@[h as int]@.len() <= 1,
        ensures
            final(self).wf_core(),
            final(self).kind == old(self).kind,
            final(self).size() == old(self).size(),
            forall|a: int, b: int| #[trigger]
                final(self).linked(a, b) == (old(self).linked(a, b) && a != h),
            forall|a: int|
                0 <= a < old(self).size() && a != h ==> #[trigger] final(self).targets@[a]
                    == old(self).targets@[a],
            final(self).targets@[h as int]@.len() == 0,
    {
        if self.targets[h].len() == 0 {
            proof {
                assert forall|a: int, b: int| #[trigger]
                    self.linked(a, b) == (old(self).linked(a, b) && a != h) by {
                    if a == h {
                        assert(!self.targets@[a]@.contains(b as usize));
                    }
                }
            }
            return;
        }
        let t = self.targets[h][0];
        let ghost o = *self;
        self.targets[h] = Vec::new();
        let cur = &self.hosts[t];
        let nh = without_item(cur, h);
        let ghost nhv = nh@;
        assert(forall|y: usize| #[trigger] nhv.contains(y) <==> (o.hosts@[t as int]@.contains(y) && y != h));
        self.hosts[t] = nh;
        proof {
            assert(self.hosts@[t as int]@ == nhv);
            assert(self.targets@[h as int]@.len() == 0);
            let ot = o.targets@[h as int]@;
            assert(t < o.size()) by {
                assert(o.targets@[h as int]@[0] < o.size());
            }
            assert forall|y: usize| #[trigger] ot.contains(y) <==> y == t by {
                if ot.contains(y) {
                    let k = choose|k: int| 0 <= k < ot.len() && ot[k] == y;
                }
                assert(ot[0] == t);
            }
            assert forall|a: int, i: int|
                0 <= a < self.size() && 0 <= i < self.targets@[a]@.len() implies #[trigger] self.targets@[a]@[i]
                < self.size() by {
                assert(o.targets@[a]@[i] < o.size());
            }
            assert forall|b: int, i: int|
                0 <= b < self.size() && 0 <= i < self.hosts@[b]@.len() implies #[trigger] self.hosts@[b]@[i]
                < self.size() by {
                if b == t {
                    let y = self.hosts@[b]@[i];
                    assert(o.hosts@[b]@.contains(y));
                    let k = choose|k: int| 0 <= k < o.hosts@[b]@.len() && o.hosts@[b]@[k] == y;
                    assert(o.hosts@[b]@[k] < o.size());
                } else {
                    assert(o.hosts@[b]@[i] < o.size());
                }
            }
            assert forall|a: int, b: int|
                0 <= a < self.size() && 0 <= b < self.size() implies (
                #[trigger] self.targets@[a]@.contains(b as usize)
                    <==> #[trigger] self.hosts@[b]@.contains(a as usize)) by {
                assert(o.targets@[a]@.contains(b as usize) <==> o.hosts@[b]@.contains(a as usize));
                if a == h {
                    assert(!self.targets@[a]@.contains(b as usize));
                }
                if b == t {
                    assert(nhv.contains(a as usize) == (o.hosts@[b]@.contains(a as usize) && a
                        != h));
                }
            }
            assert forall|a: int, b: int| #[trigger]
                self.linked(a, b) == (o.linked(a, b) && a != h) by {
                if a == h {
                    assert(!self.targets@[a]@.contains(b as usize));
                }
            }
        }
    }

    /// Links `host` to `target`. An exclusive relation first drops the link that
    /// `host` had; a symmetric one also links `target` to `host`.
    pub fn set(&mut self, host: usize, target: usize) -> (r: Result<(), RelationError>)
        requires
            old(self).wf(),
        ensures
            final(self).wf(),
            final(self).kind_spec() == old(self).kind_spec(),
            final(self).size() == old(self).size(),
            r is Err <==> (host >= old(self).size() || target >= old(self).size()),
            r is Err ==> forall|a: int, b: int| #[trigger]
                final(self).linked(a, b) == old(self).linked(a, b),
            r is Ok ==> forall|a: int, b: int| #[trigger]
                final(self).linked(a, b) == if old(self).kind_spec().exclusive() && a == host {
                    b == target
                } else {
                    old(self).linked(a, b) || (a == host && b == target) || (
                    old(self).kind_spec().symmetric() && a == target && b == host)
                },
    {
        if host >= self.targets.len() || target >= self.targets.len() {
            return Err(RelationError::MissingEntity);
        }
        let ghost o = *self;
        if self.kind.is_exclusive() {
            self.clear_links_from(host);
            let ghost mid = *self;
            self.add_link(host, target);
            proof {
                assert forall|h: int|
                    0 <= h < self.size() implies #[trigger] self.targets@[h]@.len() <= 1 by {
                    if h != host {
                        assert(mid.targets@[h] == o.targets@[h]);
                    }
                }
                assert(!self.kind.symmetric());
            }
        } else {
            self.add_link(host, target);
            if self.kind.is_symmetric() {
                self.add_link(target, host);
            }
            proof {
                assert(!self.kind.exclusive());
                if self.kind.symmetric() {
                    assert forall|h: int, t: int| #[trigger] self.linked(h, t) implies self.linked(
                        t,
                        h,
                    ) by {
                        if o.linked(h, t) {
                            assert(o.linked(t, h));
                        }
                    }
                }
            }
        }
        Ok(())
    }

    /// The one target of `host` in an exclusive relation, if it has one.
    pub fn target_of(&self, host: usize) -> (r: Option<usize>)
        requires
            self.wf(),
            self.kind_spec().exclusive(),
            host < self.size(),
        ensures
            r is None <==> forall|t: int| !#[trigger] self.linked(host as int, t),
            r matches Some(t) ==> forall|b: int| #[trigger] self.linked(host as int, b) <==> b == t,
    {
        if self.targets[host].len() == 0 {
            proof {
                assert forall|t: int| !#[trigger] self.linked(host as int, t) by {
                    assert(self.targets@[host as int]@.len() == 0);
                }
            }
            None
        } else {
            let t = self.targets[host][0];
            proof {
                let v = self.targets@[host as int]@;
                assert(v.len() == 1);
                assert(t < self.size());
                assert(v.contains(t));
                assert(self.linked(host as int, t as int));
                assert forall|b: int| #[trigger] self.linked(host as int, b) <==> b == t by {
                    if self.linked(host as int, b) {
                        let k = choose|k: int| 0 <= k < v.len() && v[k] == b as usize;
                        assert(k == 0);
                    }
                }
            }
            Some(t)
        }
    }

    /// A host of an exclusive relation is linked to at most one target.
    pub proof fn lemma_exclusive(&self, h: int, t1: int, t2: int)
        requires
            self.wf(),
            self.kind_spec().exclusive(),
            self.linked(h, t1),
            self.linked(h, t2),
        ensures
            t1 == t2,
    {
        let v = self.targets@[h]@;
        let k1 = choose|k: int| 0 <= k < v.len() && v[k] == t1 as usize;
        let k2 = choose|k: int| 0 <= k < v.len() && v[k] == t2 as usize;
        assert(v.len() <= 1);
    }

    /// Every link of a symmetric relation also holds the other way round.
    pub proof fn lemma_symmetric(&self, h: int, t: int)
        requires
            self.wf(),
            self.kind_spec().symmetric(),
            self.linked(h, t),
        ensures
            self.linked(t, h),
    {
    }

    /// Entity ids fit in `usize`.
    pub proof fn lemma_size_fits(&self)
        requires
            self.wf(),
        ensures
            self.size() <= usize::MAX,
    {
    }

    /// Linked entities are entities of the relation.
    pub proof fn lemma_linked_in_range(&self, h: int, t: int)
        requires
            self.linked(h, t),
        ensures
            0 <= h < self.size(),
            0 <= t < self.size(),
    {
    }

    /// Depth-first traversal from `starts`, going from each entity to the hosts that
    /// point to it. Every entity reachable from a start is visited exactly once, and
    /// an entity that is not a start comes after one that it points to: a visit that
    /// meets an entity already visited stops that branch.
    pub fn traverse(&self, starts: &Vec<usize>) -> (order: Vec<usize>)
        requires
            self.wf(),
            forall|i: int| 0 <= i < starts@.len() ==> #[trigger] starts@[i] < self.size(),
        ensures
            order@.no_duplicates(),
            forall|k: int| 0 <= k < order@.len() ==> #[trigger] order@[k] < self.size(),
            forall|i: int| 0 <= i < starts@.len() ==> order@.contains(#[trigger] starts@[i]),
            forall|k: int, c: int|
                0 <= k < order@.len() && #[trigger] self.linked(c, order@[k] as int)
                    ==> order@.contains(c as usize),
            forall|k: int|
                0 <= k < order@.len() ==> starts@.contains(#[trigger] order@[k]) || exists|m: int|
                    0 <= m < k && self.linked(order@[k] as int, #[trigger] order@[m] as int),
    {
        let n = self.targets.len();
        let mut seen: Vec<bool> = Vec::new();
        let mut z: usize = 0;
        while z < n
            invariant
                z <= n,
                seen@.len() == z,
                forall|x: int| 0 <= x < z ==> !#[trigger] seen@[x],
            decreases n - z,
        {
            seen.push(false);
            z = z + 1;
        }
        let mut order: Vec<usize> = Vec::new();
        let mut stack: Vec<usize> = Vec::new();
        let mut i: usize = starts.len();
        while i > 0
            invariant
                i <= starts@.len(),
                forall|j: int| 0 <= j < stack@.len() ==> #[trigger] stack@[j] < n,
                forall|j: int| 0 <= j < stack@.len() ==> starts@.contains(#[trigger] stack@[j]),
                forall|j: int| i <= j < starts@.len() ==> stack@.contains(#[trigger] starts@[j]),
                forall|j: int| 0 <= j < starts@.len() ==> #[trigger] starts@[j] < self.size(),
                n == self.size(),
            decreases i,
        {
            i = i - 1;
            let ghost before = stack@;
            stack.push(starts[i]);
            proof {
                assert forall|j: int| i <= j < starts@.len() implies stack@.contains(
                    #[trigger] starts@[j],
                ) by {
                    lemma_push_contains(before, starts@[i as int], starts@[j]);
                }
                assert(starts@.contains(starts@[i as int]));
            }
        }
        while stack.len() > 0
            invariant
                self.wf(),
                n == self.size(),
                seen@.len() == n,
                forall|j: int| 0 <= j < starts@.len() ==> #[trigger] starts@[j] < n,
                forall|x: int| 0 <= x < n ==> (#[trigger] seen@[x] <==> order@.contains(x as usize)),
                order@.no_duplicates(),
                forall|k: int| 0 <= k < order@.len() ==> #[trigger] order@[k] < n,
                forall|k: int|
                    0 <= k < order@.len() ==> starts@.contains(#[trigger] order@[k]) || exists|m: int|
                        0 <= m < k && self.linked(order@[k] as int, #[trigger] order@[m] as int),
                forall|j: int| 0 <= j < stack@.len() ==> #[trigger] stack@[j] < n,
                forall|j: int|
                    0 <= j < stack@.len() ==> starts@.contains(#[trigger] stack@[j]) || exists|m: int|
                        0 <= m < order@.len() && self.linked(
                            stack@[j] as int,
                            #[trigger] order@[m] as int,
                        ),
                forall|j: int|
                    0 <= j < starts@.len() ==> order@.contains(#[trigger] starts@[j])
                        || stack@.contains(starts@[j]),
                forall|k: int, c: int|
                    0 <= k < order@.len() && #[trigger] self.linked(c, order@[k] as int)
                        ==> order@.contains(c as usize) || stack@.contains(c as usize),
            decreases n - order@.len(), stack@.len(),
        {
            proof {
                lemma_distinct_bounded(order@, n);
            }
            let ghost full = stack@;
            let e = stack.pop().unwrap();
            proof {
                assert(full =~= stack@.push(e));
                assert forall|c: usize| full.contains(c) implies stack@.contains(c) || c == e by {
                    lemma_push_contains(stack@, e, c);
                }
                assert(stack@.len() < full.len());
                assert forall|j: int|
                    0 <= j < stack@.len() implies starts@.contains(#[trigger] stack@[j]) || exists|
                        m: int,
                    |
                        0 <= m < order@.len() && self.linked(
                            stack@[j] as int,
                            #[trigger] order@[m] as int,
                        ) by {
                    assert(stack@[j] == full[j]);
                }
                assert(full[full.len() - 1] == e);
            }
            if !seen[e] {
                let ghost prev = order@;
                seen.set(e, true);
                order.push(e);
                proof {
                    assert(!prev.contains(e));
                    assert forall|x: usize| #[trigger] order@.contains(x) <==> prev.contains(x)
                        || x == e by {
                        lemma_push_contains(prev, e, x);
                    }
                    assert forall|a: int, b: int|
                        0 <= a < order@.len() && 0 <= b < order@.len() && a != b implies order@[a]
                        != order@[b] by {
                        if a < prev.len() && b < prev.len() {
                            assert(prev[a] != prev[b]);
                        } else if a < prev.len() {
                            assert(prev.contains(prev[a]));
                        } else {
                            assert(prev.contains(prev[b]));
                        }
                    }
                    assert forall|k: int|
                        0 <= k < order@.len() implies starts@.contains(#[trigger] order@[k])
                            || exists|m: int|
                            0 <= m < k && self.linked(order@[k] as int, #[trigger] order@[m] as int) by {
                        if k < prev.len() {
                            assert(order@[k] == prev[k]);
                            if !starts@.contains(prev[k]) {
                                let m = choose|m: int|
                                    0 <= m < k && self.linked(prev[k] as int, #[trigger] prev[m] as int);
                                assert(order@[m] == prev[m]);
                            }
                        } else {
                            assert(order@[k] == e);
                            if !starts@.contains(e) {
                                let m = choose|m: int|
                                    0 <= m < prev.len() && self.linked(e as int, #[trigger] prev[m] as int);
                                assert(order@[m] == prev[m]);
                            }
                        }
                    }
                }
                let hs = self.hosts_of(e);
                let ghost base = stack@;
                let mut j: usize = 0;
                while j < hs.len()
                    invariant
                        self.wf(),
                        n == self.size(),
                        e < n,
                        order@.len() > 0,
                        order@[order@.len() - 1] == e,
                        forall|q: int| 0 <= q < hs@.len() ==> self.linked(#[trigger] hs@[q] as int, e as int),
                        j <= hs@.len(),
                        stack@ =~= base + hs@.subrange(0, j as int),
                    decreases hs@.len() - j,
                {
                    stack.push(hs[j]);
                    j = j + 1;
                    proof {
                        assert(hs@.subrange(0, j as int) =~= hs@.subrange(0, j - 1).push(hs@[j - 1]));
                    }
                }
                proof {
                    assert(hs@.subrange(0, hs@.len() as int) =~= hs@);
                    assert forall|c: usize| base.contains(c) implies stack@.contains(c) by {
                        let w = choose|w: int| 0 <= w < base.len() && base[w] == c;
                        assert(stack@[w] == c);
                    }
                    assert forall|c: usize| hs@.contains(c) implies stack@.contains(c) by {
                        let w = choose|w: int| 0 <= w < hs@.len() && hs@[w] == c;
                        assert(stack@[base.len() + w] == c);
                    }
                    assert forall|q: int| 0 <= q < stack@.len() implies #[trigger] stack@[q] < n by {
                        if q < base.len() {
                            assert(stack@[q] == base[q]);
                        } else {
                            assert(stack@[q] == hs@[q - base.len()]);
                            assert(self.linked(hs@[q - base.len()] as int, e as int));
                            self.lemma_linked_in_range(hs@[q - base.len()] as int, e as int);
                        }
                    }
                    let last = (order@.len() - 1) as int;
                    assert forall|q: int|
                        0 <= q < stack@.len() implies starts@.contains(#[trigger] stack@[q]) || exists|
                            m: int,
                        |
                            0 <= m < order@.len() && self.linked(
                                stack@[q] as int,
                                #[trigger] order@[m] as int,
                            ) by {
                        if q < base.len() {
                            assert(stack@[q] == base[q]);
                            if !starts@.contains(base[q]) {
                                let m = choose|m: int|
                                    0 <= m < prev.len() && self.linked(base[q] as int, #[trigger] prev[m] as int);
                                assert(order@[m] == prev[m]);
                            }
                        } else {
                            assert(stack@[q] == hs@[q - base.len()]);
                            assert(self.linked(hs@[q - base.len()] as int, order@[last] as int));
                        }
                    }
                    assert forall|k: int, c: int|
                        0 <= k < order@.len() && #[trigger] self.linked(c, order@[k] as int)
                            implies order@.contains(c as usize) || stack@.contains(c as usize) by {
                        if k < prev.len() {
                            assert(order@[k] == prev[k]);
                            if !prev.contains(c as usize) && c as usize != e {
                                assert(full.contains(c as usize));
                            }
                        } else {
                            assert(hs@.contains(c as usize));
                        }
                    }
                    assert forall|x: int| 0 <= x < n implies (#[trigger] seen@[x] <==> order@.contains(x as usize)) by {
                    }
                    lemma_distinct_bounded(order@, n);
                }
            } else {
                proof {
                    assert(order@.contains(e));
                }
            }
        }
        order
    }

    /// The entities that point to nothing, in increasing order.
    pub fn roots(&self) -> (r: Vec<usize>)
        requires
            self.wf(),
        ensures
            forall|k: int| 0 <= k < r@.len() ==> #[trigger] r@[k] < self.size(),
            forall|k: int, t: int| 0 <= k < r@.len() ==> !#[trigger] self.linked(r@[k] as int, t),
            forall|x: int|
                0 <= x < self.size() && (forall|t: int| !#[trigger] self.linked(x, t))
                    ==> #[trigger] r@.contains(x as usize),
            forall|a: int, b: int| 0 <= a < b < r@.len() ==> r@[a] < r@[b],
    {
        let n = self.targets.len();
        let mut r: Vec<usize> = Vec::new();
        let mut x: usize = 0;
        while x < n
            invariant
                self.wf(),
                n == self.size(),
                x <= n,
                forall|k: int| 0 <= k < r@.len() ==> #[trigger] r@[k] < x,
                forall|k: int, t: int| 0 <= k < r@.len() ==> !#[trigger] self.linked(r@[k] as int, t),
                forall|y: int|
                    0 <= y < x && (forall|t: int| !#[trigger] self.linked(y, t))
                        ==> #[trigger] r@.contains(y as usize),
                forall|a: int, b: int| 0 <= a < b < r@.len() ==> r@[a] < r@[b],
            decreases n - x,
        {
            let ghost prev = r@;
            if self.targets[x].len() == 0 {
                r.push(x);
                proof {
                    assert forall|t: int| !#[trigger] self.linked(x as int, t) by {
                        assert(self.targets@[x as int]@.len() == 0);
                    }
                    assert forall|y: int|
                        0 <= y < x + 1 && (forall|t: int| !#[trigger] self.linked(y, t))
                            implies #[trigger] r@.contains(y as usize) by {
                        lemma_push_contains(prev, x, y as usize);
                    }
                }
            } else {
                proof {
                    let t = self.targets@[x as int]@[0];
                    assert(t < n);
                    assert(self.targets@[x as int]@.contains(t));
                    assert(self.linked(x as int, t as int));
                }
            }
            x = x + 1;
        }
        r
    }

    /// What host `h` points to.
    pub fn targets_of(&self, h: usize) -> (r: &Vec<usize>)
        requires
            self.wf(),
            h < self.size(),
        ensures
            forall|i: int| 0 <= i < r@.len() ==> self.linked(h as int, #[trigger] r@[i] as int),
            forall|t: int| #[trigger] self.linked(h as int, t) ==> r@.contains(t as usize),
    {
        let r = &self.targets[h];
        proof {
            assert forall|i: int| 0 <= i < r@.len() implies self.linked(
                h as int,
                #[trigger] r@[i] as int,
            ) by {
                assert(r@[i] < self.size());
                assert(r@.contains(r@[i]));
            }
        }
        r
    }

    /// Who points to `t`.
    pub fn hosts_of(&self, t: usize) -> (r: &Vec<usize>)
        requires
            self.wf(),
            t < self.size(),
        ensures
            forall|i: int| 0 <= i < r@.len() ==> self.linked(#[trigger] r@[i] as int, t as int),
            forall|h: int| #[trigger] self.linked(h, t as int) ==> r@.contains(h as usize),
    {
        let r = &self.hosts[t];
        proof {
            assert forall|i: int| 0 <= i < r@.len() implies self.linked(
                #[trigger] r@[i] as int,
                t as int,
            ) by {
                let h = r@[i];
                assert(h < self.size());
                assert(r@.contains(h));
                assert(self.hosts@[t as int]@.contains(h as int as usize));
                assert(self.targets@[h as int]@.contains(t as int as usize));
            }
            assert forall|h: int| #[trigger] self.linked(h, t as int) implies r@.contains(h as usize) by {
                assert(self.targets@[h]@.contains(t as int as usize));
            }
        }
        r
    }
}

proof fn lemma_push_contains(s: Seq<usize>, a: usize, y: usize)
    ensures
        s.push(a).contains(y) == (s.contains(y) || y == a),
{
    if s.contains(y) {
        let k = choose|k: int| 0 <= k < s.len() && s[k] == y;
        assert(s.push(a)[k] == y);
    }
    if y == a {
        assert(s.push(a)[s.len() as int] == y);
    }
    if s.push(a).contains(y) && y != a {
        let k = choose|k: int| 0 <= k < s.push(a).len() && s.push(a)[k] == y;
        assert(s[k] == y);
    }
}

/// A sequence of distinct ids below `n` has at most `n` entries.
proof fn lemma_distinct_bounded(s: Seq<usize>, n: usize)
    requires
        s.no_duplicates(),
        forall|i: int| 0 <= i < s.len() ==> #[trigger] s[i] < n,
    ensures
        s.len() <= n,
{
    let t = s.map_values(|x: usize| x as int);
    assert(t.no_duplicates()) by {
        assert forall|i: int, j: int| 0 <= i < t.len() && 0 <= j < t.len() && i != j implies t[i]
            != t[j] by {
            assert(s[i] != s[j]);
        }
    }
    t.unique_seq_to_set();
    lemma_int_range(0, n as int);
    assert(t.to_set().subset_of(set_int_range(0, n as int))) by {
        assert forall|x: int| t.to_set().contains(x) implies set_int_range(0, n as int).contains(
            x,
        ) by {
            let k = choose|k: int| 0 <= k < t.len() && t[k] == x;
            assert(s[k] < n);
        }
    }
    lemma_len_subset(t.to_set(), set_int_range(0, n as int));
}

fn with_item(v: &Vec<usize>, x: usize) -> (r: Vec<usize>)
    ensures
        forall|y: usize| #[trigger] r@.contains(y) <==> (v@.contains(y) || y == x),
        r@.len() <= v@.len() + 1,
        v@.contains(x) ==> r@ == v@,
{
    let mut r: Vec<usize> = Vec::new();
    let mut i: usize = 0;
    let mut found = false;
    while i < v.len()
        invariant
            i <= v@.len(),
            r@ == v@.subrange(0, i as int),
            found == v@.subrange(0, i as int).contains(x),
        decreases v@.len() - i,
    {
        if v[i] == x {
            found = true;
        }
        r.push(v[i]);
        proof {
            assert(v@.subrange(0, i + 1) =~= v@.subrange(0, i as int).push(v@[i as int]));
            lemma_push_contains(v@.subrange(0, i as int), v@[i as int], x);
        }
        i = i + 1;
    }
    assert(v@.subrange(0, v@.len() as int) =~= v@);
    if !found {
        r.push(x);
        proof {
            assert forall|y: usize| #[trigger] r@.contains(y) <==> (v@.contains(y) || y == x) by {
                lemma_push_contains(v@, x, y);
            }
        }
    }
    r
}

fn without_item(v: &Vec<usize>, x: usize) -> (r: Vec<usize>)
    ensures
        forall|y: usize| #[trigger] r@.contains(y) <==> (v@.contains(y) && y != x),
        forall|i: int| 0 <= i < r@.len() ==> v@.contains(#[trigger] r@[i]),
{
    let mut r: Vec<usize> = Vec::new();
    let mut i: usize = 0;
    while i < v.len()
        invariant
            i <= v@.len(),
            forall|y: usize|
                #[trigger] r@.contains(y) <==> (v@.subrange(0, i as int).contains(y) && y != x),
            forall|k: int| 0 <= k < r@.len() ==> v@.contains(#[trigger] r@[k]),
        decreases v@.len() - i,
    {
        let ghost before = r@;
        proof {
            assert(v@.subrange(0, i + 1) =~= v@.subrange(0, i as int).push(v@[i as int]));
        }
        if v[i] != x {
            r.push(v[i]);
        }
        proof {
            assert forall|y: usize| #[trigger] r@.contains(y) <==> (v@.subrange(
                0,
                i + 1,
            ).contains(y) && y != x) by {
                lemma_push_contains(v@.subrange(0, i as int), v@[i as int], y);
                if v@[i as int] != x {
                    lemma_push_contains(before, v@[i as int], y);
                }
            }
            assert forall|k: int| 0 <= k < r@.len() implies v@.contains(#[trigger] r@[k]) by {
                if k == before.len() {
                    assert(v@[i as int] == r@[k]);
                } else {
                    assert(before[k] == r@[k]);
                }
            }
        }
        i = i + 1;
    }
    assert(v@.subrange(0, v@.len() as int) =~= v@);
    r
}

} // verus!
