//! Particles, edge constraints between pairs of them, the symmetric adjacency
//! between constraints, and the order in which one relaxation pass solves them.
use vstd::prelude::*;

use crate::relation::{Relation, RelationKind};
use crate::select::{is_first_max, select_seed};

verus! {

/// A construction step named something that does not exist, or joined a particle
/// to itself.
#[derive(Clone, Copy, Debug, PartialEq, Eq, Structural)]
pub enum ConstraintError {
    MissingParticle,
    MissingConstraint,
    SameParticle,
}

/// Particles with positions of type `P`, and edge constraints with parameters of
/// type `C` (rest length, compliance), each joining two distinct particles.
pub struct ConstraintSystem<P, C> {
    particles: Vec<P>,
    constraints: Vec<C>,
    endpoints: Vec<(usize, usize)>,
    adjacency: Relation,
}

impl<P, C> ConstraintSystem<P, C> {
    pub closed spec fn particles_view(&self) -> Seq<P> {
        self.particles@
    }

    pub closed spec fn constraints_view(&self) -> Seq<C> {
        self.constraints@
    }

    /// The two particles that constraint `c` joins, in the order given.
    pub closed spec fn endpoints_view(&self) -> Seq<(usize, usize)> {
        self.endpoints@
    }

    /// Constraints `a` and `b` are adjacent.
    pub closed spec fn adjacent(&self, a: int, b: int) -> bool {
        self.adjacency.linked(a, b)
    }

    pub closed spec fn wf(&self) -> bool {
        &&& self.adjacency.wf()
        &&& self.adjacency.kind_spec() == RelationKind::ConstraintToConstraint
        &&& self.adjacency.size() == self.constraints@.len()
        &&& self.endpoints@.len() == self.constraints@.len()
        &&& forall|c: int|
            0 <= c < self.endpoints@.len() ==> {
                let (a, b) = #[trigger] self.endpoints@[c];
                &&& a < self.particles@.len()
                &&& b < self.particles@.len()
                &&& a != b
            }
    }

    /// Endpoints of every constraint are two distinct particles of the system.
    pub proof fn lemma_endpoints(&self, c: int)
        requires
            self.wf(),
            0 <= c < self.constraints_view().len(),
        ensures
            self.endpoints_view().len() == self.constraints_view().len(),
            self.endpoints_view()[c].0 < self.particles_view().len(),
            self.endpoints_view()[c].1 < self.particles_view().len(),
            self.endpoints_view()[c].0 != self.endpoints_view()[c].1,
    {
        let _ = self.endpoints@[c];
    }

    /// Adjacency is symmetric and joins constraints of the system.
    pub proof fn lemma_adjacent(&self, a: int, b: int)
        requires
            self.wf(),
            self.adjacent(a, b),
        ensures
            self.adjacent(b, a),
            0 <= a < self.constraints_view().len(),
            0 <= b < self.constraints_view().len(),
    {
        self.adjacency.lemma_symmetric(a, b);
        self.adjacency.lemma_linked_in_range(a, b);
    }

    /// Consecutive entries of `p` are adjacent constraints.
    pub open spec fn is_adjacency_path(&self, p: Seq<int>) -> bool {
        forall|i: int| 0 <= i < p.len() - 1 ==> #[trigger] self.adjacent(p[i], p[i + 1])
    }

    /// An order that holds the start of a path of adjacent constraints and is
    /// closed under adjacency, as `relaxation_order` returns it, holds the whole
    /// path: one pass reaches every constraint connected to its seed.
    pub proof fn lemma_order_holds_path(&self, order: Seq<usize>, p: Seq<int>)
        requires
            self.wf(),
            forall|k: int, c: int|
                0 <= k < order.len() && #[trigger] self.adjacent(order[k] as int, c)
                    ==> order.contains(c as usize),
            p.len() > 0,
            0 <= p[0],
            order.contains(p[0] as usize),
            self.is_adjacency_path(p),
        ensures
            forall|i: int| 0 <= i < p.len() ==> order.contains(#[trigger] p[i] as usize),
        decreases p.len(),
    {
        if p.len() > 1 {
            let q = p.drop_last();
            assert forall|i: int| 0 <= i < q.len() - 1 implies #[trigger] self.adjacent(q[i], q[i + 1]) by {
                assert(self.adjacent(p[i], p[i + 1]));
            }
            self.lemma_order_holds_path(order, q);
            let last = p.len() - 1;
            assert(order.contains(q[last - 1] as usize));
            let j = last - 1;
            assert(self.adjacent(p[j], p[j + 1]));
            self.adjacency.lemma_linked_in_range(p[j], p[j + 1]);
            self.adjacency.lemma_size_fits();
            let k = choose|k: int| 0 <= k < order.len() && order[k] == p[last - 1] as usize;
            assert(self.adjacent(order[k] as int, p[last]));
            assert forall|i: int| 0 <= i < p.len() implies order.contains(#[trigger] p[i] as usize) by {
                if i < last {
                    assert(p[i] == q[i]);
                }
            }
        }
    }

    pub fn new() -> (r: Self)
        ensures
            r.wf(),
            r.particles_view().len() == 0,
            r.constraints_view().len() == 0,
    {
        ConstraintSystem {
            particles: Vec::new(),
            constraints: Vec::new(),
            endpoints: Vec::new(),
            adjacency: Relation::new(RelationKind::ConstraintToConstraint),
        }
    }

    pub fn particle_count(&self) -> (r: usize)
        ensures
            r == self.particles_view().len(),
    {
        self.particles.len()
    }

    pub fn constraint_count(&self) -> (r: usize)
        ensures
            r == self.constraints_view().len(),
    {
        self.constraints.len()
    }

    /// Adds a particle and returns its id.
    pub fn add_particle(&mut self, position: P) -> (id: usize)
        requires
            old(self).wf(),
        ensures
            final(self).wf(),
            id == old(self).particles_view().len(),
            final(self).particles_view() == old(self).particles_view().push(position),
            final(self).constraints_view() == old(self).constraints_view(),
            final(self).endpoints_view() == old(self).endpoints_view(),
            forall|a: int, b: int| #[trigger] final(self).adjacent(a, b) == old(self).adjacent(a, b),
    {
        let id = self.particles.len();
        self.particles.push(position);
        proof {
            assert forall|c: int| 0 <= c < self.endpoints@.len() implies {
                let (a, b) = #[trigger] self.endpoints@[c];
                &&& a < self.particles@.len()
                &&& b < self.particles@.len()
                &&& a != b
            } by {
                let _ = old(self).endpoints@[c];
            }
        }
        id
    }

    /// Adds a constraint joining particles `a` and `b` and returns its id. A
    /// particle that does not exist, or `a == b`, is refused.
    pub fn add_constraint(&mut self, constraint: C, a: usize, b: usize) -> (r: Result<
        usize,
        ConstraintError,
    >)
        requires
            old(self).wf(),
            old(self).constraints_view().len() < usize::MAX,
        ensures
            final(self).wf(),
            r == Err::<usize, ConstraintError>(ConstraintError::MissingParticle) <==> (a
                >= old(self).particles_view().len() || b >= old(self).particles_view().len()),
            r == Err::<usize, ConstraintError>(ConstraintError::SameParticle) <==> (a
                < old(self).particles_view().len() && b < old(self).particles_view().len() && a
                == b),
            r is Ok <==> (a < old(self).particles_view().len() && b
                < old(self).particles_view().len() && a != b),
            r is Err ==> *final(self) == *old(self),
            r matches Ok(id) ==> {
                &&& id == old(self).constraints_view().len()
                &&& final(self).constraints_view() == old(self).constraints_view().push(constraint)
                &&& final(self).endpoints_view() == old(self).endpoints_view().push((a, b))
                &&& final(self).particles_view() == old(self).particles_view()
                &&& forall|x: int, y: int| #[trigger]
                    final(self).adjacent(x, y) == old(self).adjacent(x, y)
            },
    {
        if a >= self.particles.len() || b >= self.particles.len() {
            return Err(ConstraintError::MissingParticle);
        }
        if a == b {
            return Err(ConstraintError::SameParticle);
        }
        let id = self.adjacency.add_entity();
        self.constraints.push(constraint);
        self.endpoints.push((a, b));
        proof {
            assert forall|c: int| 0 <= c < self.endpoints@.len() implies {
                let (x, y) = #[trigger] self.endpoints@[c];
                &&& x < self.particles@.len()
                &&& y < self.particles@.len()
                &&& x != y
            } by {
                if c < old(self).endpoints@.len() {
                    let _ = old(self).endpoints@[c];
                }
            }
        }
        Ok(id)
    }

    /// Makes constraints `a` and `b` adjacent, both ways round.
    pub fn connect(&mut self, a: usize, b: usize) -> (r: Result<(), ConstraintError>)
        requires
            old(self).wf(),
        ensures
            final(self).wf(),
            r is Ok <==> (a < old(self).constraints_view().len() && b
                < old(self).constraints_view().len()),
            r is Err ==> r == Err::<(), ConstraintError>(ConstraintError::MissingConstraint),
            final(self).particles_view() == old(self).particles_view(),
            final(self).constraints_view() == old(self).constraints_view(),
            final(self).endpoints_view() == old(self).endpoints_view(),
            forall|x: int, y: int| #[trigger]
                final(self).adjacent(x, y) == (old(self).adjacent(x, y) || (r is Ok && ((x == a
                    && y == b) || (x == b && y == a)))),
    {
        match self.adjacency.set(a, b) {
            Ok(()) => Ok(()),
            Err(_) => Err(ConstraintError::MissingConstraint),
        }
    }

    /// Position of particle `i`.
    pub fn position(&self, i: usize) -> (r: &P)
        requires
            i < self.particles_view().len(),
        ensures
            *r == self.particles_view()[i as int],
    {
        &self.particles[i]
    }

    /// Moves particle `i` to `position`.
    pub fn set_position(&mut self, i: usize, position: P)
        requires
            old(self).wf(),
            i < old(self).particles_view().len(),
        ensures
            final(self).wf(),
            final(self).particles_view() == old(self).particles_view().update(i as int, position),
            final(self).constraints_view() == old(self).constraints_view(),
            final(self).endpoints_view() == old(self).endpoints_view(),
            forall|x: int, y: int| #[trigger] final(self).adjacent(x, y) == old(self).adjacent(x, y),
    {
        self.particles.set(i, position);
        proof {
            assert forall|c: int| 0 <= c < self.endpoints@.len() implies {
                let (x, y) = #[trigger] self.endpoints@[c];
                &&& x < self.particles@.len()
                &&& y < self.particles@.len()
                &&& x != y
            } by {
                let _ = old(self).endpoints@[c];
            }
        }
    }

    /// Parameters of constraint `c`.
    pub fn constraint(&self, c: usize) -> (r: &C)
        requires
            c < self.constraints_view().len(),
        ensures
            *r == self.constraints_view()[c as int],
    {
        &self.constraints[c]
    }

    /// The two particles that constraint `c` joins.
    pub fn endpoints(&self, c: usize) -> (r: (usize, usize))
        requires
            self.wf(),
            c < self.constraints_view().len(),
        ensures
            r == self.endpoints_view()[c as int],
            r.0 < self.particles_view().len(),
            r.1 < self.particles_view().len(),
            r.0 != r.1,
    {
        proof {
            let _ = self.endpoints@[c as int];
        }
        self.endpoints[c]
    }

    /// The constraints that one relaxation pass solves, in the order it solves
    /// them, given each constraint's stress as an ordered key (`stress_keys[c]`
    /// for constraint `c`). The pass starts at the most stressed constraint, the
    /// first of equals, and spreads along adjacency, solving each constraint it
    /// reaches once and closing a branch at a constraint already solved. A
    /// system without constraints yields an empty order.
    pub fn relaxation_order(&self, stress_keys: &Vec<i64>) -> (order: Vec<usize>)
        requires
            self.wf(),
            stress_keys@.len() == self.constraints_view().len(),
        ensures
            order@.len() == 0 <==> self.constraints_view().len() == 0,
            order@.len() > 0 ==> is_first_max(stress_keys@, order@[0] as int),
            order@.no_duplicates(),
            forall|k: int|
                0 <= k < order@.len() ==> #[trigger] order@[k] < self.constraints_view().len(),
            forall|k: int|
                0 < k < order@.len() ==> exists|m: int|
                    0 <= m < k && self.adjacent(#[trigger] order@[k] as int, order@[m] as int),
            forall|k: int, c: int|
                0 <= k < order@.len() && #[trigger] self.adjacent(order@[k] as int, c)
                    ==> order@.contains(c as usize),
    {
        match select_seed(stress_keys) {
            None => Vec::new(),
            Some(seed) => {
                let mut starts: Vec<usize> = Vec::new();
                starts.push(seed);
                let order = self.adjacency.traverse(&starts);
                proof {
                    assert(order@.contains(starts@[0]));
                    assert(order@.len() > 0);
                    assert(starts@.contains(order@[0])) by {
                        if !starts@.contains(order@[0]) {
                            let m = choose|m: int|
                                0 <= m < 0 && self.adjacency.linked(
                                    order@[0] as int,
                                    #[trigger] order@[m] as int,
                                );
                        }
                    }
                    assert(order@[0] == seed);
                    assert forall|k: int| 0 < k < order@.len() implies exists|m: int|
                        0 <= m < k && self.adjacent(#[trigger] order@[k] as int, order@[m] as int) by {
                        if starts@.contains(order@[k]) {
                            assert(order@[k] == seed);
                            assert(order@[0] == order@[k]);
                        } else {
                            let m = choose|m: int|
                                0 <= m < k && self.adjacency.linked(
                                    order@[k] as int,
                                    #[trigger] order@[m] as int,
                                );
                            assert(self.adjacent(order@[k] as int, order@[m] as int));
                        }
                    }
                    assert forall|k: int, c: int|
                        0 <= k < order@.len() && #[trigger] self.adjacent(order@[k] as int, c)
                            implies order@.contains(c as usize) by {
                        self.adjacency.lemma_symmetric(order@[k] as int, c);
                    }
                }
                order
            },
        }
    }

    /// A chain: particle `k + 1` joined to particle `k` by constraint `k`, and
    /// each constraint adjacent to the next one. `positions` gives one particle
    /// per stem, from the root up; `constraints` the parameters of each link.
    pub fn chain_system(positions: Vec<P>, constraints: Vec<C>) -> (sys: Self)
        requires
            positions@.len() == constraints@.len() + 1,
        ensures
            sys.wf(),
            sys.particles_view() == positions@,
            sys.constraints_view() == constraints@,
            forall|k: int|
                0 <= k < constraints@.len() ==> #[trigger] sys.endpoints_view()[k] == (
                (k + 1) as usize,
                k as usize,
                ),
            forall|a: int, b: int| #[trigger]
                sys.adjacent(a, b) <==> (0 <= a < constraints@.len() && 0 <= b
                    < constraints@.len() && (a == b + 1 || b == a + 1)),
    {
        let m = constraints.len();
        let mut sys: Self = ConstraintSystem::new();
        let mut ps = positions;
        let mut cs = constraints;
        let ghost pv = ps@;
        let ghost cv = cs@;
        let n = ps.len();
        proof {
            assert forall|a: int, b: int| !#[trigger] sys.adjacent(a, b) by {
                if sys.adjacent(a, b) {
                    sys.lemma_adjacent(a, b);
                }
            }
        }
        let mut i: usize = 0;
        while i < n
            invariant
                pv.len() == m + 1,
                n == m + 1,
                cv.len() == m,
                i <= m + 1,
                sys.wf(),
                ps@.len() == m + 1 - i,
                ps@ == pv.subrange(i as int, m + 1),
                sys.particles_view() == pv.subrange(0, i as int),
                sys.constraints_view().len() == 0,
                forall|a: int, b: int| !#[trigger] sys.adjacent(a, b),
            decreases n - i,
        {
            let p = ps.remove(0);
            sys.add_particle(p);
            proof {
                assert(sys.particles_view() =~= pv.subrange(0, i + 1));
                assert(ps@ =~= pv.subrange(i + 1, m + 1));
            }
            i = i + 1;
        }
        proof {
            assert(sys.particles_view() =~= pv);
        }
        let mut k: usize = 0;
        while k < m
            invariant
                pv.len() == m + 1,
                cv.len() == m,
                k <= m,
                sys.wf(),
                cs@.len() == m - k,
                cs@ == cv.subrange(k as int, m as int),
                sys.particles_view() == pv,
                sys.constraints_view() == cv.subrange(0, k as int),
                forall|q: int|
                    0 <= q < k ==> #[trigger] sys.endpoints_view()[q] == ((q + 1) as usize, q as usize),
                forall|a: int, b: int| #[trigger]
                    sys.adjacent(a, b) <==> (0 <= a < k && 0 <= b < k && (a == b + 1 || b == a
                        + 1)),
            decreases m - k,
        {
            let c = cs.remove(0);
            let ghost before = sys;
            let r = sys.add_constraint(c, k + 1, k);
            proof {
                assert(r is Ok);
                assert(sys.constraints_view() =~= cv.subrange(0, k + 1));
                assert(cs@ =~= cv.subrange(k + 1, m as int));
                sys.lemma_endpoints(k as int);
            }
            if k > 0 {
                let ghost mid = sys;
                let r2 = sys.connect(k, k - 1);
                proof {
                    assert(r2 is Ok);
                }
            }
            proof {
                assert forall|q: int|
                    0 <= q < k + 1 implies #[trigger] sys.endpoints_view()[q] == (
                    (q + 1) as usize,
                    q as usize,
                ) by {
                    if q < k {
                        assert(before.endpoints_view()[q] == sys.endpoints_view()[q]);
                    }
                }
            }
            k = k + 1;
        }
        proof {
            assert(sys.constraints_view() =~= cv);
        }
        sys
    }
}

} // verus!
