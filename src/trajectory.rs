use vstd::prelude::*;
use crate::compartment::COMPARTMENTS;

verus! {

/// Flat position of cell (compartment `c`, step `t`, group `g`) in a buffer laid out as
/// `[compartment][step][group]`, row-major.
pub open spec fn cell_offset(steps: nat, groups: nat, c: nat, t: nat, g: nat) -> nat {
    (c * steps + t) * groups + g
}

/// Number of cells of a trajectory with the given numbers of steps and groups.
pub open spec fn cell_count(steps: nat, groups: nat) -> nat {
    COMPARTMENTS as nat * steps * groups
}

/// Every in-range cell has its own slot inside the buffer: no two cells share a slot,
/// so writes to distinct (step, group) pairs never overlap.
pub proof fn lemma_cells_disjoint(
    steps: nat,
    groups: nat,
    c1: nat,
    t1: nat,
    g1: nat,
    c2: nat,
    t2: nat,
    g2: nat,
)
    requires
        c1 < COMPARTMENTS,
        c2 < COMPARTMENTS,
        t1 < steps,
        t2 < steps,
        g1 < groups,
        g2 < groups,
    ensures
        cell_offset(steps, groups, c1, t1, g1) < cell_count(steps, groups),
        cell_offset(steps, groups, c1, t1, g1) == cell_offset(steps, groups, c2, t2, g2) ==> (
        c1 == c2 && t1 == t2 && g1 == g2),
{
    lemma_offset_in_range(steps, groups, c1, t1, g1);
    let a = c1 * steps + t1;
    let b = c2 * steps + t2;
    if a * groups + g1 == b * groups + g2 {
        lemma_split_unique(groups, a, g1, b, g2);
        lemma_split_unique(steps, c1, t1, c2, t2);
    }
}

proof fn lemma_split_unique(n: nat, q1: nat, r1: nat, q2: nat, r2: nat)
    requires
        r1 < n,
        r2 < n,
        q1 * n + r1 == q2 * n + r2,
    ensures
        q1 == q2,
        r1 == r2,
{
    if q1 < q2 {
        assert(q1 * n + n <= q2 * n) by (nonlinear_arith)
            requires
                q1 < q2,
        ;
    } else if q2 < q1 {
        assert(q2 * n + n <= q1 * n) by (nonlinear_arith)
            requires
                q2 < q1,
        ;
    }
}

proof fn lemma_offset_in_range(steps: nat, groups: nat, c: nat, t: nat, g: nat)
    requires
        c < COMPARTMENTS,
        t < steps,
        g < groups,
    ensures
        cell_offset(steps, groups, c, t, g) < cell_count(steps, groups),
{
    let k = COMPARTMENTS as nat;
    assert(c * steps + t < k * steps) by (nonlinear_arith)
        requires
            c < k,
            t < steps,
    ;
    assert((c * steps + t) * groups + g < k * steps * groups) by (nonlinear_arith)
        requires
            c * steps + t < k * steps,
            g < groups,
    ;
}

/// The recorded states of every group at every time step, stored as one buffer laid out
/// `[compartment][step][group]`.
pub struct Trajectory<T> {
    steps: usize,
    groups: usize,
    cells: Vec<T>,
}

impl<T: Copy> Trajectory<T> {
    pub closed spec fn spec_steps(&self) -> nat {
        self.steps as nat
    }

    pub closed spec fn spec_groups(&self) -> nat {
        self.groups as nat
    }

    /// The whole buffer, in storage order.
    pub closed spec fn spec_cells(&self) -> Seq<T> {
        self.cells@
    }

    pub closed spec fn wf(&self) -> bool {
        self.cells@.len() == cell_count(self.steps as nat, self.groups as nat)
    }

    /// Value of compartment `c` of group `g` at step `t`.
    pub open spec fn at(&self, c: nat, t: nat, g: nat) -> T {
        self.spec_cells()[cell_offset(self.spec_steps(), self.spec_groups(), c, t, g) as int]
    }

    /// The six-compartment state of group `g` at step `t`.
    pub open spec fn state_at(&self, t: nat, g: nat) -> Seq<T> {
        Seq::new(COMPARTMENTS as nat, |c: int| self.at(c as nat, t, g))
    }

    /// Values of compartment `c` at step `t`, one per group.
    pub open spec fn row_at(&self, c: nat, t: nat) -> Seq<T> {
        Seq::new(self.spec_groups(), |g: int| self.at(c, t, g as nat))
    }

    /// Whether `other` differs from `self` at most in the state of group `g` at step `t`.
    pub open spec fn same_except(&self, other: &Self, t: nat, g: nat) -> bool {
        &&& other.spec_steps() == self.spec_steps()
        &&& other.spec_groups() == self.spec_groups()
        &&& forall|c: nat, t2: nat, g2: nat|
            c < COMPARTMENTS && t2 < self.spec_steps() && g2 < self.spec_groups() && (t2 != t
                || g2 != g) ==> #[trigger] other.at(c, t2, g2) == self.at(c, t2, g2)
    }
}

/// Recording a group's state at one step leaves every state at every other step as it
/// was: the states at step `t` that all groups read while step `t + 1` is filled in are
/// those recorded before it began.
pub proof fn lemma_other_steps_kept<T: Copy>(before: Trajectory<T>, after: Trajectory<T>, t: nat, g: nat, t2: nat, h: nat)
    requires
        before.same_except(&after, t, g),
        t2 != t,
        t2 < before.spec_steps(),
        h < before.spec_groups(),
    ensures
        after.state_at(t2, h) == before.state_at(t2, h),
{
    assert forall|c: int| 0 <= c < COMPARTMENTS implies #[trigger] after.state_at(t2, h)[c] == before.state_at(t2, h)[c] by {
        assert(after.at(c as nat, t2, h) == before.at(c as nat, t2, h));
    }
    assert(after.state_at(t2, h) =~= before.state_at(t2, h));
}

impl<T: Copy> Trajectory<T> {
    /// A trajectory of `steps` time steps for `groups` groups with every cell set to
    /// `zero`; `None` when that many cells cannot be addressed.
    pub fn new(steps: usize, groups: usize, zero: T) -> (r: Option<Self>)
        ensures
            r is None <==> cell_count(steps as nat, groups as nat) > usize::MAX,
            r matches Some(tr) ==> {
                &&& tr.wf()
                &&& tr.spec_steps() == steps
                &&& tr.spec_groups() == groups
                &&& tr.spec_cells() == Seq::new(cell_count(steps as nat, groups as nat), |i: int| zero)
            },
    {
        let per_step = match COMPARTMENTS.checked_mul(steps) {
            Some(n) => n,
            None => {
                if groups == 0 {
                    assert(cell_count(steps as nat, groups as nat) == 0) by (nonlinear_arith)
                        requires
                            groups == 0,
                    ;
                    return Some(Trajectory { steps, groups, cells: Vec::new() });
                }
                assert(COMPARTMENTS as nat * steps * groups >= COMPARTMENTS as nat * steps)
                    by (nonlinear_arith)
                    requires
                        groups >= 1,
                ;
                return None;
            },
        };
        let total = match per_step.checked_mul(groups) {
            Some(n) => n,
            None => return None,
        };
        let mut cells: Vec<T> = Vec::with_capacity(total);
        let mut i: usize = 0;
        while i < total
            invariant
                i <= total,
                cells@ == Seq::new(i as nat, |j: int| zero),
            decreases total - i,
        {
            cells.push(zero);
            i = i + 1;
        }
        assert(cells@ =~= Seq::new(cell_count(steps as nat, groups as nat), |j: int| zero));
        Some(Trajectory { steps, groups, cells })
    }

    pub fn steps(&self) -> (r: usize)
        ensures
            r == self.spec_steps(),
    {
        self.steps
    }

    pub fn groups(&self) -> (r: usize)
        ensures
            r == self.spec_groups(),
    {
        self.groups
    }

    fn offset(&self, c: usize, t: usize, g: usize) -> (r: usize)
        requires
            self.wf(),
            c < COMPARTMENTS,
            t < self.spec_steps(),
            g < self.spec_groups(),
        ensures
            r == cell_offset(self.spec_steps(), self.spec_groups(), c as nat, t as nat, g as nat),
            r < self.spec_cells().len(),
    {
        let n = self.cells.len();
        proof {
            lemma_offset_in_range(self.steps as nat, self.groups as nat, c as nat, t as nat, g as nat);
            let row = c as nat * self.steps as nat + t as nat;
            assert(c as nat * self.steps as nat <= row);
            assert(row <= row * self.groups as nat) by (nonlinear_arith)
                requires
                    self.groups >= 1,
            ;
            assert(c as nat * self.steps as nat + t as nat <= row * self.groups as nat + g as nat);
            assert(row * self.groups as nat + (g as nat) < n as nat);
        }
        (c * self.steps + t) * self.groups + g
    }

    /// Value of compartment `c` of group `g` at step `t`.
    pub fn get(&self, c: usize, t: usize, g: usize) -> (r: T)
        requires
            self.wf(),
            c < COMPARTMENTS,
            t < self.spec_steps(),
            g < self.spec_groups(),
        ensures
            r == self.at(c as nat, t as nat, g as nat),
    {
        let k = self.offset(c, t, g);
        self.cells[k]
    }

    /// The state vector (one value per compartment) of group `g` at step `t`.
    pub fn state(&self, t: usize, g: usize) -> (r: Vec<T>)
        requires
            self.wf(),
            t < self.spec_steps(),
            g < self.spec_groups(),
        ensures
            r@ == self.state_at(t as nat, g as nat),
    {
        let mut r: Vec<T> = Vec::with_capacity(COMPARTMENTS);
        let mut c: usize = 0;
        while c < COMPARTMENTS
            invariant
                self.wf(),
                t < self.spec_steps(),
                g < self.spec_groups(),
                c <= COMPARTMENTS,
                r@ == self.state_at(t as nat, g as nat).take(c as int),
            decreases COMPARTMENTS - c,
        {
            let v = self.get(c, t, g);
            r.push(v);
            c = c + 1;
        }
        assert(r@ =~= self.state_at(t as nat, g as nat));
        r
    }

    /// Values of compartment `c` at step `t`, one per group, in group order.
    pub fn compartment_row(&self, c: usize, t: usize) -> (r: Vec<T>)
        requires
            self.wf(),
            c < COMPARTMENTS,
            t < self.spec_steps(),
        ensures
            r@ == self.row_at(c as nat, t as nat),
    {
        let mut r: Vec<T> = Vec::with_capacity(self.groups);
        let mut g: usize = 0;
        while g < self.groups
            invariant
                self.wf(),
                c < COMPARTMENTS,
                t < self.spec_steps(),
                g <= self.spec_groups(),
                r@ == Seq::new(g as nat, |j: int| self.at(c as nat, t as nat, j as nat)),
            decreases self.spec_groups() - g,
        {
            let v = self.get(c, t, g);
            r.push(v);
            g = g + 1;
            assert(r@ =~= Seq::new(g as nat, |j: int| self.at(c as nat, t as nat, j as nat)));
        }
        assert(r@ =~= self.row_at(c as nat, t as nat));
        r
    }

    /// Records `y` as the state of group `g` at step `t`; every other cell is kept.
    pub fn set_state(&mut self, t: usize, g: usize, y: &Vec<T>)
        requires
            old(self).wf(),
            t < old(self).spec_steps(),
            g < old(self).spec_groups(),
            y@.len() == COMPARTMENTS,
        ensures
            final(self).wf(),
            old(self).same_except(final(self), t as nat, g as nat),
            final(self).state_at(t as nat, g as nat) == y@,
    {
        let ghost start = *self;
        let mut c: usize = 0;
        while c < COMPARTMENTS
            invariant
                self.wf(),
                self.steps == start.steps,
                self.groups == start.groups,
                t < self.spec_steps(),
                g < self.spec_groups(),
                y@.len() == COMPARTMENTS,
                c <= COMPARTMENTS,
                start.same_except(self, t as nat, g as nat),
                forall|c2: nat| c2 < c ==> #[trigger] self.at(c2, t as nat, g as nat) == y@[c2 as int],
            decreases COMPARTMENTS - c,
        {
            let k = self.offset(c, t, g);
            let ghost before = *self;
            self.cells.set(k, y[c]);
            proof {
                assert forall|c2: nat, t2: nat, g2: nat|
                    c2 < COMPARTMENTS && t2 < self.spec_steps() && g2 < self.spec_groups() implies
                    #[trigger] self.at(c2, t2, g2) == if c2 == c && t2 == t && g2 == g {
                        y@[c as int]
                    } else {
                        before.at(c2, t2, g2)
                    } by {
                    lemma_cells_disjoint(self.steps as nat, self.groups as nat, c2, t2, g2, c as nat, t as nat, g as nat);
                }
            }
            c = c + 1;
        }
        assert(self.state_at(t as nat, g as nat) =~= y@);
    }

    /// Copies an initial condition, one state vector per group, into step 0.
    pub fn load_initial(&mut self, initial: &Vec<Vec<T>>)
        requires
            old(self).wf(),
            old(self).spec_steps() > 0,
            initial@.len() == old(self).spec_groups(),
            forall|g: int| 0 <= g < initial@.len() ==> (#[trigger] initial@[g])@.len() == COMPARTMENTS,
        ensures
            final(self).wf(),
            final(self).spec_steps() == old(self).spec_steps(),
            final(self).spec_groups() == old(self).spec_groups(),
            forall|g: nat| g < initial@.len() ==> #[trigger] final(self).state_at(0, g) == initial@[g as int]@,
            forall|c: nat, t: nat, g: nat|
                c < COMPARTMENTS && 0 < t < old(self).spec_steps() && g < old(self).spec_groups() ==> #[trigger] final(self).at(c, t, g) == old(self).at(c, t, g),
    {
        let ghost start = *self;
        let mut g: usize = 0;
        while g < initial.len()
            invariant
                self.wf(),
                self.spec_steps() == start.spec_steps(),
                self.spec_groups() == start.spec_groups(),
                self.spec_steps() > 0,
                g <= initial@.len(),
                initial@.len() == self.spec_groups(),
                forall|j: int| 0 <= j < initial@.len() ==> (#[trigger] initial@[j])@.len() == COMPARTMENTS,
                forall|j: nat| j < g ==> #[trigger] self.state_at(0, j) == initial@[j as int]@,
                forall|c: nat, t: nat, j: nat|
                    c < COMPARTMENTS && 0 < t < self.spec_steps() && j < self.spec_groups() ==> #[trigger] self.at(c, t, j) == start.at(c, t, j),
            decreases initial@.len() - g,
        {
            let ghost before = *self;
            self.set_state(0, g, &initial[g]);
            proof {
                assert forall|j: nat| j < g implies #[trigger] self.state_at(0, j) == initial@[j as int]@ by {
                    assert(self.state_at(0, j) =~= before.state_at(0, j));
                }
            }
            g = g + 1;
        }
    }

    /// The whole buffer, in `[compartment][step][group]` order.
    pub fn into_cells(self) -> (r: Vec<T>)
        ensures
            r@ == self.spec_cells(),
    {
        self.cells
    }
}

} // verus!
