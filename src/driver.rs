use vstd::prelude::*;
use crate::compartment::{Compartment, COMPARTMENTS};
use crate::trajectory::{lemma_other_steps_kept, Trajectory};

verus! {

/// Where a run stands: before the first step, computing the state of `group` at step
/// `step + 1` from the full state at `step`, or done.
#[derive(Clone, Copy, Debug, PartialEq, Eq, Structural)]
pub enum Phase {
    Initialized,
    Stepping { step: usize, group: usize },
    Complete,
}

/// Number of (step, group) updates of a run over `steps` recorded time points.
pub open spec fn update_count(steps: nat, groups: nat) -> nat {
    if steps == 0 {
        0
    } else {
        ((steps - 1) * groups) as nat
    }
}

/// The phase after `k` updates of a run: updates go step by step, and within a step
/// group by group.
pub open spec fn phase_after(k: nat, steps: nat, groups: nat) -> Phase {
    if k < update_count(steps, groups) {
        Phase::Stepping { step: (k / groups) as usize, group: (k % groups) as usize }
    } else {
        Phase::Complete
    }
}

impl Phase {
    /// Number of updates done before this phase; `None` for a phase that no run over
    /// these dimensions reaches.
    pub open spec fn rank(self, steps: nat, groups: nat) -> Option<nat> {
        match self {
            Phase::Initialized => None,
            Phase::Stepping { step, group } => if group < groups && step as nat * groups + group
                < update_count(steps, groups) {
                Some(step as nat * groups + group as nat)
            } else {
                None
            },
            Phase::Complete => Some(update_count(steps, groups)),
        }
    }

    /// The phase that follows this one in a run over `steps` time points and `groups`
    /// groups.
    pub fn advance(self, steps: usize, groups: usize) -> (r: Phase)
        requires
            self is Initialized || self.rank(steps as nat, groups as nat) is Some,
        ensures
            self is Initialized ==> r == phase_after(0, steps as nat, groups as nat),
            self is Complete ==> r is Complete,
            self is Stepping ==> r == phase_after(
                self.rank(steps as nat, groups as nat)->0 + 1,
                steps as nat,
                groups as nat,
            ),
    {
        match self {
            Phase::Initialized => {
                if steps <= 1 || groups == 0 {
                    proof {
                        assert(update_count(steps as nat, groups as nat) == 0) by (nonlinear_arith)
                            requires
                                steps <= 1 || groups == 0,
                        ;
                    }
                    Phase::Complete
                } else {
                    proof {
                        assert(update_count(steps as nat, groups as nat) > 0) by (nonlinear_arith)
                            requires
                                steps > 1,
                                groups > 0,
                        ;
                    }
                    Phase::Stepping { step: 0, group: 0 }
                }
            },
            Phase::Stepping { step, group } => {
                let ghost k = step as nat * groups as nat + group as nat;
                proof {
                    lemma_rank_split(step as nat, group as nat, groups as nat);
                    assert(steps >= 1);
                    assert(step < steps - 1) by (nonlinear_arith)
                        requires
                            step as nat * groups as nat + (group as nat) < (steps as nat - 1) * groups as nat,
                    ;
                }
                if group + 1 < groups {
                    proof {
                        lemma_rank_split(step as nat, group as nat + 1, groups as nat);
                        assert(k + 1 < update_count(steps as nat, groups as nat)) by (nonlinear_arith)
                            requires
                                k == step as nat * groups as nat + group as nat,
                                group + 1 < groups,
                                step < steps - 1,
                                update_count(steps as nat, groups as nat) == (steps as nat - 1) * groups as nat,
                        ;
                    }
                    Phase::Stepping { step, group: group + 1 }
                } else {
                    proof {
                        lemma_rank_split(step as nat + 1, 0, groups as nat);
                        assert((step as nat + 1) * groups as nat == k + 1) by (nonlinear_arith)
                            requires
                                k == step as nat * groups as nat + group as nat,
                                group + 1 == groups,
                        ;
                        assert(update_count(steps as nat, groups as nat) == (steps as nat - 1)
                            * groups as nat);
                        assert(step as nat + 1 < steps as nat - 1 <==> k + 1 < update_count(
                            steps as nat,
                            groups as nat,
                        )) by (nonlinear_arith)
                            requires
                                k + 1 == (step as nat + 1) * groups as nat,
                                update_count(steps as nat, groups as nat) == (steps as nat - 1)
                                    * groups as nat,
                                groups > 0,
                        ;
                    }
                    if step + 2 < steps {
                        Phase::Stepping { step: step + 1, group: 0 }
                    } else {
                        Phase::Complete
                    }
                }
            },
            Phase::Complete => Phase::Complete,
        }
    }
}

/// A run updates every (step, group) pair exactly once, after `step * groups + group`
/// earlier updates: so every update of a step comes before every update of the next one.
pub proof fn lemma_each_update_once(steps: usize, groups: usize, step: usize, group: usize, k: nat)
    requires
        step + 1 < steps,
        group < groups,
    ensures
        phase_after((step * groups + group) as nat, steps as nat, groups as nat) == (Phase::Stepping { step, group }),
        phase_after(k, steps as nat, groups as nat) == (Phase::Stepping { step, group }) ==> k == step
            * groups + group,
        forall|next: nat|
            next < groups ==> step * groups + group < #[trigger] ((step + 1) * groups + next),
{
    let (n, t, g) = (groups as nat, step as nat, group as nat);
    lemma_rank_split(t, g, n);
    assert(t * n + g < (steps - 1) * n) by (nonlinear_arith)
        requires
            t + 1 < steps,
            g < n,
    ;
    assert((t + 1) * n == t * n + n) by (nonlinear_arith);
    if phase_after(k, steps as nat, n) == (Phase::Stepping { step, group }) {
        assert(k < update_count(steps as nat, n));
        assert(k / n < steps) by (nonlinear_arith)
            requires
                k < (steps - 1) * n,
                n > 0,
        ;
        vstd::arithmetic::div_mod::lemma_fundamental_div_mod(k as int, n as int);
        vstd::arithmetic::div_mod::lemma_mod_pos_bound(k as int, n as int);
        assert(k / n == t);
        assert(k % n == g);
        assert(k == n * t + g);
        assert(n * t == t * n) by (nonlinear_arith);
    }
}

/// Index of the symptomatic infectious compartment.
pub open spec fn symptomatic() -> nat {
    Compartment::SymptomaticInfectious.spec_index()
}

/// Index of the asymptomatic infectious compartment.
pub open spec fn asymptomatic() -> nat {
    Compartment::AsymptomaticInfectious.spec_index()
}

/// `tr` holds, as the state of group `g` at step `t + 1`, a result that `update` may
/// return for step `t`, group `g`, the state of `g` at `t` and the symptomatic and
/// asymptomatic rows of all groups at `t`.
pub open spec fn update_recorded<T, E, F>(update: F, tr: Trajectory<T>, t: nat, g: nat) -> bool where
    T: Copy,
    F: Fn(usize, usize, &Vec<T>, &Vec<T>, &Vec<T>) -> Result<[T; COMPARTMENTS], E>,
 {
    exists|y: Vec<T>, sym: Vec<T>, asym: Vec<T>, next: [T; COMPARTMENTS]|
        {
            &&& y@ == tr.state_at(t, g)
            &&& sym@ == tr.row_at(symptomatic(), t)
            &&& asym@ == tr.row_at(asymptomatic(), t)
            &&& next@ == tr.state_at(t + 1, g)
            &&& #[trigger] update.ensures(
                (t as usize, g as usize, &y, &sym, &asym),
                Ok::<[T; COMPARTMENTS], E>(next),
            )
        }
}

/// `update` may fail with `e` for step `t`, group `g`, on the inputs that `tr` holds.
pub open spec fn update_failed<T, E, F>(update: F, tr: Trajectory<T>, t: nat, g: nat, e: E) -> bool where
    T: Copy,
    F: Fn(usize, usize, &Vec<T>, &Vec<T>, &Vec<T>) -> Result<[T; COMPARTMENTS], E>,
 {
    exists|y: Vec<T>, sym: Vec<T>, asym: Vec<T>|
        {
            &&& y@ == tr.state_at(t, g)
            &&& sym@ == tr.row_at(symptomatic(), t)
            &&& asym@ == tr.row_at(asymptomatic(), t)
            &&& #[trigger] update.ensures(
                (t as usize, g as usize, &y, &sym, &asym),
                Err::<[T; COMPARTMENTS], E>(e),
            )
        }
}

proof fn lemma_row_kept<T: Copy>(before: Trajectory<T>, after: Trajectory<T>, t: nat, g: nat, c: nat, t2: nat)
    requires
        before.same_except(&after, t, g),
        t2 != t,
        t2 < before.spec_steps(),
        c < COMPARTMENTS,
    ensures
        after.row_at(c, t2) == before.row_at(c, t2),
{
    assert forall|h: int| 0 <= h < before.spec_groups() implies #[trigger] after.row_at(c, t2)[h] == before.row_at(c, t2)[h] by {
        assert(after.at(c, t2, h as nat) == before.at(c, t2, h as nat));
    }
    assert(after.row_at(c, t2) =~= before.row_at(c, t2));
}

proof fn lemma_recorded_kept<T, E, F>(
    update: F,
    before: Trajectory<T>,
    after: Trajectory<T>,
    t: nat,
    g: nat,
    t2: nat,
    g2: nat,
) where
    T: Copy,
    F: Fn(usize, usize, &Vec<T>, &Vec<T>, &Vec<T>) -> Result<[T; COMPARTMENTS], E>,

    requires
        before.same_except(&after, t, g),
        t != t2,
        t != t2 + 1 || g != g2,
        t2 + 1 < before.spec_steps(),
        g2 < before.spec_groups(),
        update_recorded(update, before, t2, g2),
    ensures
        update_recorded(update, after, t2, g2),
{
    let (y, sym, asym, next) = choose|y: Vec<T>, sym: Vec<T>, asym: Vec<T>, next: [T; COMPARTMENTS]|
        {
            &&& y@ == before.state_at(t2, g2)
            &&& sym@ == before.row_at(symptomatic(), t2)
            &&& asym@ == before.row_at(asymptomatic(), t2)
            &&& next@ == before.state_at(t2 + 1, g2)
            &&& #[trigger] update.ensures(
                (t2 as usize, g2 as usize, &y, &sym, &asym),
                Ok::<[T; COMPARTMENTS], E>(next),
            )
        };
    lemma_other_steps_kept(before, after, t, g, t2, g2);
    lemma_row_kept(before, after, t, g, symptomatic(), t2);
    lemma_row_kept(before, after, t, g, asymptomatic(), t2);
    assert forall|c: int| 0 <= c < COMPARTMENTS implies #[trigger] after.state_at(t2 + 1, g2)[c] == before.state_at(t2 + 1, g2)[c] by {
        assert(after.at(c as nat, t2 + 1, g2) == before.at(c as nat, t2 + 1, g2));
    }
    assert(after.state_at(t2 + 1, g2) =~= before.state_at(t2 + 1, g2));
}

/// `update` returns the same result on arguments with the same values.
pub open spec fn depends_on_values<T, E, F>(update: F) -> bool where
    T: Copy,
    F: Fn(usize, usize, &Vec<T>, &Vec<T>, &Vec<T>) -> Result<[T; COMPARTMENTS], E>,
 {
    forall|t: usize, g: usize, y1: Vec<T>, s1: Vec<T>, a1: Vec<T>, r1: Result<[T; COMPARTMENTS], E>,
        y2: Vec<T>, s2: Vec<T>, a2: Vec<T>, r2: Result<[T; COMPARTMENTS], E>|
        #[trigger] update.ensures((t, g, &y1, &s1, &a1), r1) && #[trigger] update.ensures((t, g, &y2, &s2, &a2), r2)
            && y1@ == y2@ && s1@ == s2@ && a1@ == a2@ ==> r1 == r2
}

/// What a successful `run` with `update` leaves in `tr`, started from `start`.
pub open spec fn completed_run<T, E, F>(update: F, start: Trajectory<T>, tr: Trajectory<T>) -> bool where
    T: Copy,
    F: Fn(usize, usize, &Vec<T>, &Vec<T>, &Vec<T>) -> Result<[T; COMPARTMENTS], E>,
 {
    &&& tr.wf()
    &&& tr.spec_steps() == start.spec_steps()
    &&& tr.spec_groups() == start.spec_groups()
    &&& start.spec_steps() > 0 ==> forall|g: nat|
        g < start.spec_groups() ==> #[trigger] tr.state_at(0, g) == start.state_at(0, g)
    &&& forall|t: nat, g: nat|
        t + 1 < start.spec_steps() && g < start.spec_groups() ==> #[trigger] update_recorded(update, tr, t, g)
}

/// Two completed runs from the same trajectory, with an update that depends on the values
/// it is given alone, record the same state for every group at every step.
pub proof fn lemma_run_deterministic<T, E, F>(update: F, start: Trajectory<T>, a: Trajectory<T>, b: Trajectory<T>, t: nat) where
    T: Copy,
    F: Fn(usize, usize, &Vec<T>, &Vec<T>, &Vec<T>) -> Result<[T; COMPARTMENTS], E>,

    requires
        depends_on_values(update),
        completed_run(update, start, a),
        completed_run(update, start, b),
        t < start.spec_steps(),
    ensures
        forall|g: nat| g < start.spec_groups() ==> #[trigger] a.state_at(t, g) == b.state_at(t, g),
    decreases t,
{
    if t > 0 {
        let p = (t - 1) as nat;
        lemma_run_deterministic(update, start, a, b, p);
        assert forall|c: nat| c < COMPARTMENTS implies #[trigger] a.row_at(c, p) == b.row_at(c, p) by {
            assert forall|h: int| 0 <= h < start.spec_groups() implies #[trigger] a.row_at(c, p)[h] == b.row_at(c, p)[h] by {
                assert(a.state_at(p, h as nat)[c as int] == b.state_at(p, h as nat)[c as int]);
            }
            assert(a.row_at(c, p) =~= b.row_at(c, p));
        }
        assert forall|g: nat| g < start.spec_groups() implies #[trigger] a.state_at(t, g) == b.state_at(t, g) by {
            assert(update_recorded(update, a, p, g));
            assert(update_recorded(update, b, p, g));
            let (y1, s1, a1, n1) = choose|y: Vec<T>, sym: Vec<T>, asym: Vec<T>, next: [T; COMPARTMENTS]|
                {
                    &&& y@ == a.state_at(p, g)
                    &&& sym@ == a.row_at(symptomatic(), p)
                    &&& asym@ == a.row_at(asymptomatic(), p)
                    &&& next@ == a.state_at(p + 1, g)
                    &&& #[trigger] update.ensures(
                        (p as usize, g as usize, &y, &sym, &asym),
                        Ok::<[T; COMPARTMENTS], E>(next),
                    )
                };
            let (y2, s2, a2, n2) = choose|y: Vec<T>, sym: Vec<T>, asym: Vec<T>, next: [T; COMPARTMENTS]|
                {
                    &&& y@ == b.state_at(p, g)
                    &&& sym@ == b.row_at(symptomatic(), p)
                    &&& asym@ == b.row_at(asymptomatic(), p)
                    &&& next@ == b.state_at(p + 1, g)
                    &&& #[trigger] update.ensures(
                        (p as usize, g as usize, &y, &sym, &asym),
                        Ok::<[T; COMPARTMENTS], E>(next),
                    )
                };
            assert(a.row_at(symptomatic(), p) == b.row_at(symptomatic(), p));
            assert(a.row_at(asymptomatic(), p) == b.row_at(asymptomatic(), p));
            assert(Ok::<[T; COMPARTMENTS], E>(n1) == Ok::<[T; COMPARTMENTS], E>(n2));
        }
    }
}

/// Where (step, group) pairs of rank below `k` lie relative to the pair of rank `k`.
proof fn lemma_rank_order(t: nat, g: nat, t2: nat, g2: nat, n: nat)
    requires
        g < n,
        g2 < n,
        t2 * n + g2 < t * n + g,
    ensures
        t2 <= t,
        t2 == t ==> g2 < g,
{
    if t2 > t {
        assert(t2 * n + g2 >= (t + 1) * n) by (nonlinear_arith)
            requires
                t2 > t,
        ;
        assert((t + 1) * n == t * n + n) by (nonlinear_arith);
    }
}

fn array_to_vec<T: Copy>(a: &[T; COMPARTMENTS]) -> (r: Vec<T>)
    ensures
        r@ == a@,
{
    let mut r: Vec<T> = Vec::with_capacity(COMPARTMENTS);
    let mut c: usize = 0;
    while c < COMPARTMENTS
        invariant
            c <= COMPARTMENTS,
            r@ == a@.take(c as int),
        decreases COMPARTMENTS - c,
    {
        r.push(a[c]);
        c = c + 1;
        assert(r@ =~= a@.take(c as int));
    }
    assert(a@.take(COMPARTMENTS as int) =~= a@);
    r
}

/// Fills in every step after the first, step by step and within a step group by group.
/// Each update of group `g` from step `t` to `t + 1` is computed by `update` from the state
/// of `g` at `t` and the symptomatic and asymptomatic rows of all groups at `t`, so no
/// group sees another's state at the step being filled in. The first failure of `update`
/// ends the run with its error.
pub fn run<T, E, F>(tr: &mut Trajectory<T>, update: F) -> (r: Result<(), E>) where
    T: Copy,
    F: Fn(usize, usize, &Vec<T>, &Vec<T>, &Vec<T>) -> Result<[T; COMPARTMENTS], E>,

    requires
        old(tr).wf(),
        forall|t: usize, g: usize, y: &Vec<T>, sym: &Vec<T>, asym: &Vec<T>|
            #[trigger] update.requires((t, g, y, sym, asym)),
    ensures
        final(tr).wf(),
        final(tr).spec_steps() == old(tr).spec_steps(),
        final(tr).spec_groups() == old(tr).spec_groups(),
        old(tr).spec_steps() > 0 ==> forall|g: nat|
            g < old(tr).spec_groups() ==> #[trigger] final(tr).state_at(0, g) == old(tr).state_at(0, g),
        r is Ok ==> completed_run(update, *old(tr), *final(tr)),
        r matches Err(e) ==> exists|t: nat, g: nat|
            t + 1 < old(tr).spec_steps() && g < old(tr).spec_groups() && #[trigger] update_failed(
                update,
                *final(tr),
                t,
                g,
                e,
            ),
{
    let steps = tr.steps();
    let groups = tr.groups();
    let ghost start = *tr;
    let ghost n = groups as nat;
    let is = Compartment::SymptomaticInfectious.index();
    let ia = Compartment::AsymptomaticInfectious.index();
    let mut sym: Vec<T> = Vec::new();
    let mut asym: Vec<T> = Vec::new();
    let mut phase = Phase::Initialized.advance(steps, groups);
    let ghost mut k: nat = 0;
    loop
        invariant
            tr.wf(),
            tr.spec_steps() == steps,
            tr.spec_groups() == groups,
            start == *old(tr),
            n == groups as nat,
            start.spec_steps() == steps,
            start.spec_groups() == groups,
            is == symptomatic(),
            ia == asymptomatic(),
            forall|t: usize, g: usize, y: &Vec<T>, sym: &Vec<T>, asym: &Vec<T>|
                #[trigger] update.requires((t, g, y, sym, asym)),
            k <= update_count(steps as nat, n),
            phase == phase_after(k, steps as nat, n),
            steps > 0 ==> forall|g: nat| g < groups ==> #[trigger] tr.state_at(0, g) == start.state_at(0, g),
            forall|t: nat, g: nat|
                t + 1 < steps && g < groups && t * n + g < k ==> #[trigger] update_recorded(update, *tr, t, g),
            k < update_count(steps as nat, n) && k % n != 0 ==> {
                &&& sym@ == tr.row_at(symptomatic(), k / n)
                &&& asym@ == tr.row_at(asymptomatic(), k / n)
            },
        decreases update_count(steps as nat, n) - k,
    {
        match phase {
            Phase::Stepping { step, group } => {
                proof {
                    assert(k < update_count(steps as nat, n));
                    assert(n > 0);
                    vstd::arithmetic::div_mod::lemma_fundamental_div_mod(k as int, n as int);
                    assert(k == n * (k / n) + k % n);
                    assert(n * (k / n) == (k / n) * n) by (nonlinear_arith);
                    assert(k / n < steps) by (nonlinear_arith)
                        requires
                            k < (steps as nat - 1) * n,
                            n > 0,
                    ;
                    vstd::arithmetic::div_mod::lemma_mod_pos_bound(k as int, n as int);
                    assert(step as nat == k / n);
                    assert(k % n < n);
                    assert(group as nat == k % n);
                    assert(step as nat * n + group as nat == k);
                    assert(step + 1 < steps) by (nonlinear_arith)
                        requires
                            step as nat * n + group as nat == k,
                            k < (steps as nat - 1) * n,
                            steps >= 1,
                    ;
                }
                if group == 0 {
                    sym = tr.compartment_row(is, step);
                    asym = tr.compartment_row(ia, step);
                }
                assert(sym@ == tr.row_at(symptomatic(), step as nat));
                assert(asym@ == tr.row_at(asymptomatic(), step as nat));
                let y = tr.state(step, group);
                match update(step, group, &y, &sym, &asym) {
                    Err(e) => {
                        assert(update_failed(update, *tr, step as nat, group as nat, e));
                        assert(exists|t: nat, g: nat|
                            t + 1 < start.spec_steps() && g < start.spec_groups() && #[trigger] update_failed(
                                update,
                                *tr,
                                t,
                                g,
                                e,
                            ));
                        let r: Result<(), E> = Err(e);
                        assert(r->Err_0 == e);
                        return r;
                    },
                    Ok(next) => {
                        let v = array_to_vec(&next);
                        let ghost before = *tr;
                        tr.set_state(step + 1, group, &v);
                        proof {
                            lemma_other_steps_kept(before, *tr, step as nat + 1, group as nat, step as nat, group as nat);
                            lemma_row_kept(before, *tr, step as nat + 1, group as nat, symptomatic(), step as nat);
                            lemma_row_kept(before, *tr, step as nat + 1, group as nat, asymptomatic(), step as nat);
                            assert(update_recorded(update, *tr, step as nat, group as nat));
                            assert forall|t: nat, g: nat|
                                t + 1 < steps && g < groups && t * n + g < k + 1 implies #[trigger] update_recorded(update, *tr, t, g) by {
                                if t * n + g < k {
                                    lemma_rank_order(step as nat, group as nat, t, g, n);
                                    lemma_recorded_kept(update, before, *tr, step as nat + 1, group as nat, t, g);
                                } else {
                                    assert(t * n + g == step as nat * n + group as nat);
                                    lemma_rank_split(t, g, n);
                                    lemma_rank_split(step as nat, group as nat, n);
                                }
                            }
                            if steps > 0 {
                                assert forall|g: nat| g < groups implies #[trigger] tr.state_at(0, g) == start.state_at(0, g) by {
                                    lemma_other_steps_kept(before, *tr, step as nat + 1, group as nat, 0, g);
                                }
                            }
                            if group + 1 < groups {
                                lemma_rank_split(step as nat, group as nat + 1, n);
                            } else {
                                lemma_rank_split(step as nat + 1, 0, n);
                                assert((step as nat + 1) * n == step as nat * n + n) by (nonlinear_arith);
                            }
                        }
                        phase = phase.advance(steps, groups);
                        proof {
                            k = k + 1;
                        }
                    },
                }
            },
            _ => {
                proof {
                    assert forall|t: nat, g: nat|
                        t + 1 < steps && g < groups implies #[trigger] update_recorded(update, *tr, t, g) by {
                        assert(t * n + g < (steps as nat - 1) * n) by (nonlinear_arith)
                            requires
                                t + 1 < steps,
                                g < n,
                        ;
                    }
                }
                return Ok(());
            },
        }
    }
}

/// `t * n + g` splits back into `t` and `g` by division by `n`.
proof fn lemma_rank_split(t: nat, g: nat, n: nat)
    requires
        g < n,
    ensures
        (t * n + g) / n == t,
        (t * n + g) % n == g,
{
    vstd::arithmetic::div_mod::lemma_fundamental_div_mod_converse(
        (t * n + g) as int,
        n as int,
        t as int,
        g as int,
    );
}

} // verus!
