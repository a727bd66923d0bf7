//! Two-stage lexicographic scheduling: stage one minimises the total
//! scheduled credits; stage two holds that total and minimises the spread of
//! semester loads around their mean. The solves themselves are done by the
//! caller, which hands each outcome back to `TwoStagePlanner::step`.
use vstd::prelude::*;
use vstd::arithmetic::div_mod::lemma_fundamental_div_mod_converse;
use crate::catalog::{Course, CourseCode, GenEd};
use crate::context::{all_terms, column_terms, dims_ok, lemma_var_bound, var_of, ModelBuilderContext, Toggles};
use crate::linear::{add_constraint, check_assignment, eval_expr, expr_value, has, lemma_has_kept, new_var, unit_terms, Cmp, LinExpr, Model, Term};
use crate::pipeline::{build_model_pipeline, ctx_ready, lemma_pipeline_kept, pipeline_constraints, pipeline_encoded};
use crate::prereqs::codes_unique;
use crate::geneds::{extends_model, geneds_ok};

verus! {

/// Bound of the load, deviation and absolute-deviation variables.
pub const LOAD_BOUND: i64 = 0x3fff_ffff_ffff_ffff;

/// Lower bound of the load and deviation variables.
pub const NEG_LOAD_BOUND: i64 = -0x3fff_ffff_ffff_ffff;

/// `floor(t / n_sem)`.
pub fn floor_mean(t: i64, n_sem: usize) -> (r: i64)
    requires
        n_sem > 0,
    ensures
        r as int == t as int / n_sem as int,
{
    let s = n_sem as i128;
    let q = t as i128;
    if q >= 0 {
        let r = q / s;
        assert(r <= q) by (nonlinear_arith) requires r == q / s, q >= 0, s > 0;
        r as i64
    } else {
        let x = -q;
        let a = (x + s - 1) / s;
        proof {
            let rem = (x + s - 1) as int % (s as int);
            vstd::arithmetic::div_mod::lemma_fundamental_div_mod((x + s - 1) as int, s as int);
            assert(x + s - 1 == s * a + rem);
            assert(0 <= rem < s);
            assert(q == (-a) * s + (s - 1 - rem)) by (nonlinear_arith)
                requires x + s - 1 == s * a + rem, q == -x;
            lemma_fundamental_div_mod_converse(q as int, s as int, -a as int, s - 1 - rem);
            assert(0 <= a <= x) by (nonlinear_arith) requires x > 0, s > 0, x + s - 1 == s * a + rem, 0 <= rem < s;
        }
        (-a) as i64
    }
}

/// Semesters `0..k` have their load, deviation and absolute-deviation
/// variables at `base + 3s`, `+1`, `+2`, with their ranges in `d`.
pub open spec fn balance_vars(d: Seq<(i64, i64)>, base: int, lv: Seq<usize>, dv: Seq<usize>, av: Seq<usize>, k: int) -> bool {
    forall|t: int| 0 <= t < k ==> #[trigger] lv[t] == base + 3 * t
        && dv[t] == base + 3 * t + 1 && av[t] == base + 3 * t + 2
        && d[base + 3 * t] == (NEG_LOAD_BOUND, LOAD_BOUND)
        && d[base + 3 * t + 1] == (NEG_LOAD_BOUND, LOAD_BOUND)
        && d[base + 3 * t + 2] == (0i64, LOAD_BOUND)
}

/// `c` is one of the four balance constraints of semester `s`, with that
/// semester's variables at `base + 3s`, `+1`, `+2`.
pub open spec fn is_balance_constraint(c: crate::linear::Constraint, courses: Seq<Course>, n_sem: int, mean: i64, base: int, s: int) -> bool {
    let l = (base + 3 * s) as usize;
    let d = (base + 3 * s + 1) as usize;
    let a = (base + 3 * s + 2) as usize;
    ||| crate::linear::matches_shape(c, column_terms(courses, n_sem, s, courses.len() as int).push(Term { var: l, coeff: -1i64 }), 0, Cmp::Eq, 0)
    ||| crate::linear::matches_shape(c, pair(d, 1, l, -1i64), mean, Cmp::Eq, 0)
    ||| crate::linear::matches_shape(c, pair(a, 1, d, -1i64), 0, Cmp::Ge, 0)
    ||| crate::linear::matches_shape(c, pair(a, 1, d, 1), 0, Cmp::Ge, 0)
}

/// `c` is a balance constraint of some semester.
pub open spec fn is_some_balance(c: crate::linear::Constraint, courses: Seq<Course>, n_sem: int, mean: i64, base: int) -> bool {
    exists|s: int| 0 <= s < n_sem && #[trigger] is_balance_constraint(c, courses, n_sem, mean, base, s)
}

/// `c1 * x[v1] + c2 * x[v2]`.
pub open spec fn pair(v1: usize, c1: i64, v2: usize, c2: i64) -> Seq<Term> {
    seq![Term { var: v1, coeff: c1 }, Term { var: v2, coeff: c2 }]
}

/// Stage two's balance rules, with new load, deviation and
/// absolute-deviation variables `lv`, `dv`, `av` per semester, numbered
/// from `base` on and the model's last variables: `load_s = credits in s`,
/// `dev_s = load_s - mean`, `abs_s >= dev_s`, `abs_s >= -dev_s`, and the
/// objective is the sum of the `abs_s`.
pub open spec fn balance_encoded(m: Model, base: int, courses: Seq<Course>, n_sem: int, mean: i64, lv: Seq<usize>, dv: Seq<usize>, av: Seq<usize>) -> bool {
    let n = courses.len() as int;
    &&& lv.len() == n_sem && dv.len() == n_sem && av.len() == n_sem
    &&& m.domains@.len() == base + 3 * n_sem
    &&& forall|s: int| 0 <= s < n_sem ==> #[trigger] lv[s] == base + 3 * s && dv[s] == base + 3 * s + 1 && av[s] == base + 3 * s + 2
        && m.domains@[base + 3 * s] == (NEG_LOAD_BOUND, LOAD_BOUND) && m.domains@[base + 3 * s + 1] == (NEG_LOAD_BOUND, LOAD_BOUND)
        && m.domains@[base + 3 * s + 2] == (0i64, LOAD_BOUND)
    &&& forall|s: int| 0 <= s < n_sem ==> #[trigger] has(m.constraints@,
        column_terms(courses, n_sem, s, n).push(Term { var: lv[s], coeff: -1i64 }), 0, Cmp::Eq, 0)
    &&& forall|s: int| 0 <= s < n_sem ==> #[trigger] has(m.constraints@,
        pair(dv[s], 1, lv[s], -1i64), mean, Cmp::Eq, 0)
    &&& forall|s: int| 0 <= s < n_sem ==> #[trigger] has(m.constraints@,
        pair(av[s], 1, dv[s], -1i64), 0, Cmp::Ge, 0)
    &&& forall|s: int| 0 <= s < n_sem ==> #[trigger] has(m.constraints@,
        pair(av[s], 1, dv[s], 1), 0, Cmp::Ge, 0)
    &&& m.objective.terms@ == unit_terms(av)
    &&& m.objective.constant == 0
}

/// Adds stage two's load-balance variables and constraints around the mean
/// `floor(min_credits / n_sem)` and makes the sum of absolute deviations
/// the objective.
#[verifier::spinoff_prover]
pub fn add_balance_objective(m: &mut Model, courses: &Vec<Course>, n_sem: usize, min_credits: i64)
    requires
        dims_ok(courses@.len() as int, n_sem as int),
    ensures
        final(m).domains@.len() >= old(m).domains@.len(),
        final(m).domains@.subrange(0, old(m).domains@.len() as int) == old(m).domains@,
        final(m).constraints@.len() >= old(m).constraints@.len(),
        final(m).constraints@.subrange(0, old(m).constraints@.len() as int) == old(m).constraints@,
        exists|lv: Seq<usize>, dv: Seq<usize>, av: Seq<usize>| #[trigger] balance_encoded(*final(m), old(m).domains@.len() as int,
            courses@, n_sem as int, (min_credits as int / n_sem as int) as i64, lv, dv, av),
        final(m).constraints@.len() == old(m).constraints@.len() + 4 * n_sem,
        forall|k: int| old(m).constraints@.len() <= k < final(m).constraints@.len() ==> is_some_balance(
            #[trigger] final(m).constraints@[k], courses@, n_sem as int, (min_credits as int / n_sem as int) as i64,
            old(m).domains@.len() as int),
{
    let ghost m0 = *m;
    let mean = floor_mean(min_credits, n_sem);
    let n = courses.len();
    let mut lv: Vec<usize> = Vec::new();
    let mut dv: Vec<usize> = Vec::new();
    let mut av: Vec<usize> = Vec::new();
    let mut s: usize = 0;
    assert(m.domains@.subrange(0, m0.domains@.len() as int) =~= m0.domains@);
    assert(m.constraints@.subrange(0, m0.constraints@.len() as int) =~= m0.constraints@);
    while s < n_sem
        invariant
            n == courses@.len(),
            dims_ok(n as int, n_sem as int),
            s <= n_sem,
            lv@.len() == s && dv@.len() == s && av@.len() == s,
            m.domains@.len() == m0.domains@.len() + 3 * s,
            balance_vars(m.domains@, m0.domains@.len() as int, lv@, dv@, av@, s as int),
            m.domains@.len() >= m0.domains@.len(),
            m.domains@.subrange(0, m0.domains@.len() as int) == m0.domains@,
            m.constraints@.len() >= m0.constraints@.len(),
            m.constraints@.subrange(0, m0.constraints@.len() as int) == m0.constraints@,
            m.constraints@.len() == m0.constraints@.len() + 4 * s,
            forall|k: int| m0.constraints@.len() <= k < m.constraints@.len() ==> is_some_balance(
                #[trigger] m.constraints@[k], courses@, n_sem as int, mean, m0.domains@.len() as int),
            forall|t: int| 0 <= t < s ==> #[trigger] has(m.constraints@,
                column_terms(courses@, n_sem as int, t, n as int).push(Term { var: lv@[t], coeff: -1i64 }), 0, Cmp::Eq, 0),
            forall|t: int| 0 <= t < s ==> #[trigger] has(m.constraints@,
                pair(dv@[t], 1, lv@[t], -1i64), mean, Cmp::Eq, 0),
            forall|t: int| 0 <= t < s ==> #[trigger] has(m.constraints@,
                pair(av@[t], 1, dv@[t], -1i64), 0, Cmp::Ge, 0),
            forall|t: int| 0 <= t < s ==> #[trigger] has(m.constraints@,
                pair(av@[t], 1, dv@[t], 1), 0, Cmp::Ge, 0),
        decreases n_sem - s,
    {
        let ghost m1 = *m;
        let l = new_var(m, NEG_LOAD_BOUND, LOAD_BOUND);
        let d = new_var(m, NEG_LOAD_BOUND, LOAD_BOUND);
        let a = new_var(m, 0, LOAD_BOUND);
        let ghost md = m.domains@;
        assert(md == m1.domains@.push((NEG_LOAD_BOUND, LOAD_BOUND)).push((NEG_LOAD_BOUND, LOAD_BOUND)).push((0i64, LOAD_BOUND)));
        let mut terms: Vec<Term> = Vec::new();
        let mut i: usize = 0;
        while i < n
            invariant
                n == courses@.len(),
                dims_ok(n as int, n_sem as int),
                s < n_sem,
                i <= n,
                terms@ == column_terms(courses@, n_sem as int, s as int, i as int),
            decreases n - i,
        {
            proof { lemma_var_bound(i as int, s as int, n as int, n_sem as int); }
            terms.push(Term { var: i * n_sem + s, coeff: courses[i].credits });
            i = i + 1;
            assert(terms@ =~= column_terms(courses@, n_sem as int, s as int, i as int));
        }
        terms.push(Term { var: l, coeff: -1i64 });
        let ghost t_load = terms@;
        add_constraint(m, LinExpr { terms, constant: 0 }, Cmp::Eq, 0);
        let ghost ma = *m;
        add_constraint(m, LinExpr { terms: vec![Term { var: d, coeff: 1 }, Term { var: l, coeff: -1i64 }], constant: mean }, Cmp::Eq, 0);
        let ghost mb = *m;
        add_constraint(m, LinExpr { terms: vec![Term { var: a, coeff: 1 }, Term { var: d, coeff: -1i64 }], constant: 0 }, Cmp::Ge, 0);
        let ghost mc = *m;
        add_constraint(m, LinExpr { terms: vec![Term { var: a, coeff: 1 }, Term { var: d, coeff: 1 }], constant: 0 }, Cmp::Ge, 0);
        proof {
            let base = m0.domains@.len() as int;
            assert(l == base + 3 * s && d == base + 3 * s + 1 && a == base + 3 * s + 2) by {
                assert(balance_vars(m1.domains@, base, lv@, dv@, av@, s as int));
            }
            let k1 = m1.constraints@.len() as int;
            assert forall|k: int| m0.constraints@.len() <= k < m.constraints@.len() implies is_some_balance(
                #[trigger] m.constraints@[k], courses@, n_sem as int, mean, base) by {
                if k < k1 {
                    assert(m.constraints@[k] == m1.constraints@[k]);
                } else {
                    let c = m.constraints@[k];
                    if k == k1 {
                        assert(c == ma.constraints@[k1]);
                        assert(crate::linear::matches_shape(c, t_load, 0, Cmp::Eq, 0));
                    } else if k == k1 + 1 {
                        assert(c == mb.constraints@[k]);
                    } else if k == k1 + 2 {
                        assert(c == mc.constraints@[k]);
                    }
                    assert(is_balance_constraint(c, courses@, n_sem as int, mean, base, s as int));
                }
            }
        }
        proof {
            assert(m.constraints@.subrange(0, m1.constraints@.len() as int) =~= m1.constraints@);
            assert(m.domains@.subrange(0, m0.domains@.len() as int) =~= m0.domains@);
            assert(m.constraints@.subrange(0, m0.constraints@.len() as int) =~= m0.constraints@);
            assert(m.constraints@.subrange(0, ma.constraints@.len() as int) =~= ma.constraints@);
            assert(m.constraints@.subrange(0, mb.constraints@.len() as int) =~= mb.constraints@);
            lemma_has_kept(ma.constraints@, m.constraints@, t_load, 0, Cmp::Eq, 0);
            lemma_has_kept(mb.constraints@, m.constraints@, pair(d, 1, l, -1i64), mean, Cmp::Eq, 0);
            lemma_has_kept(mc.constraints@, m.constraints@, pair(a, 1, d, -1i64), 0, Cmp::Ge, 0);
        }
        let ghost lv0 = lv@;
        let ghost dv0 = dv@;
        let ghost av0 = av@;
        lv.push(l);
        dv.push(d);
        av.push(a);
        proof {
            assert forall|t: int| 0 <= t < s + 1 implies #[trigger] has(m.constraints@,
                column_terms(courses@, n_sem as int, t, n as int).push(Term { var: lv@[t], coeff: -1i64 }), 0, Cmp::Eq, 0) by {
                if t < s {
                    assert(lv@[t] == lv0[t]);
                    lemma_has_kept(m1.constraints@, m.constraints@,
                        column_terms(courses@, n_sem as int, t, n as int).push(Term { var: lv0[t], coeff: -1i64 }), 0, Cmp::Eq, 0);
                }
            }
            assert forall|t: int| 0 <= t < s + 1 implies #[trigger] has(m.constraints@,
                pair(dv@[t], 1, lv@[t], -1i64), mean, Cmp::Eq, 0) by {
                if t < s {
                    assert(lv@[t] == lv0[t] && dv@[t] == dv0[t]);
                    lemma_has_kept(m1.constraints@, m.constraints@,
                        pair(dv0[t], 1, lv0[t], -1i64), mean, Cmp::Eq, 0);
                }
            }
            assert forall|t: int| 0 <= t < s + 1 implies #[trigger] has(m.constraints@,
                pair(av@[t], 1, dv@[t], -1i64), 0, Cmp::Ge, 0) by {
                if t < s {
                    assert(av@[t] == av0[t] && dv@[t] == dv0[t]);
                    lemma_has_kept(m1.constraints@, m.constraints@,
                        pair(av0[t], 1, dv0[t], -1i64), 0, Cmp::Ge, 0);
                }
            }
            assert forall|t: int| 0 <= t < s + 1 implies #[trigger] has(m.constraints@,
                pair(av@[t], 1, dv@[t], 1), 0, Cmp::Ge, 0) by {
                if t < s {
                    assert(av@[t] == av0[t] && dv@[t] == dv0[t]);
                    lemma_has_kept(m1.constraints@, m.constraints@,
                        pair(av0[t], 1, dv0[t], 1), 0, Cmp::Ge, 0);
                }
            }
        }
        s = s + 1;
        proof {
            assert(m.domains@ == md);
            assert forall|t: int| 0 <= t < s implies #[trigger] lv@[t] == m0.domains@.len() + 3 * t
                && dv@[t] == m0.domains@.len() + 3 * t + 1 && av@[t] == m0.domains@.len() + 3 * t + 2
                && m.domains@[m0.domains@.len() + 3 * t] == (NEG_LOAD_BOUND, LOAD_BOUND)
                && m.domains@[m0.domains@.len() + 3 * t + 1] == (NEG_LOAD_BOUND, LOAD_BOUND)
                && m.domains@[m0.domains@.len() + 3 * t + 2] == (0i64, LOAD_BOUND) by {
                if t < s - 1 {
                    assert(balance_vars(m1.domains@, m0.domains@.len() as int, lv0, dv0, av0, s - 1));
                    assert(lv0[t] == m0.domains@.len() + 3 * t);
                    let b = m0.domains@.len() + 3 * t;
                    assert(md[b] == m1.domains@[b] && md[b + 1] == m1.domains@[b + 1] && md[b + 2] == m1.domains@[b + 2]);
                    assert(lv@[t] == lv0[t] && dv@[t] == dv0[t] && av@[t] == av0[t]);
                } else {
                    assert(l == m1.domains@.len() && d == l + 1 && a == l + 2);
                    assert(lv@[t] == l && dv@[t] == d && av@[t] == a);
                }
            }
            assert(balance_vars(m.domains@, m0.domains@.len() as int, lv@, dv@, av@, s as int));
        }
    }
    let mut obj: Vec<Term> = Vec::new();
    let mut j: usize = 0;
    while j < av.len()
        invariant
            j <= av@.len(),
            obj@ == unit_terms(av@.subrange(0, j as int)),
        decreases av@.len() - j,
    {
        obj.push(Term { var: av[j], coeff: 1 });
        j = j + 1;
        assert(obj@ =~= unit_terms(av@.subrange(0, j as int)));
    }
    assert(av@.subrange(0, j as int) =~= av@);
    m.objective = LinExpr { terms: obj, constant: 0 };
    assert(mean == (min_credits as int / n_sem as int) as i64);
    assert(balance_encoded(*m, m0.domains@.len() as int, courses@, n_sem as int, mean, lv@, dv@, av@));
}

/// The codes of courses `0..k` that `vals` places in semester `s`.
pub open spec fn codes_in(courses: Seq<Course>, vals: Seq<i64>, n_sem: int, s: int, k: int) -> Seq<CourseCode>
    decreases k,
{
    if k <= 0 {
        Seq::empty()
    } else if vals[var_of(k - 1, s, n_sem)] == 1 {
        codes_in(courses, vals, n_sem, s, k - 1).push(courses[k - 1].code)
    } else {
        codes_in(courses, vals, n_sem, s, k - 1)
    }
}

/// Reads the schedule off solver values: for each semester, the codes of
/// the courses whose variable is one, in course order.
pub fn schedule_from(courses: &Vec<Course>, n_sem: usize, vals: &Vec<i64>) -> (r: Vec<Vec<CourseCode>>)
    requires
        dims_ok(courses@.len() as int, n_sem as int),
        vals@.len() >= courses@.len() * n_sem,
    ensures
        r@.len() == n_sem,
        forall|s: int| 0 <= s < n_sem ==> (#[trigger] r@[s])@ == codes_in(courses@, vals@, n_sem as int, s, courses@.len() as int),
{
    let n = courses.len();
    let mut r: Vec<Vec<CourseCode>> = Vec::new();
    let mut s: usize = 0;
    while s < n_sem
        invariant
            n == courses@.len(),
            dims_ok(n as int, n_sem as int),
            vals@.len() >= n * n_sem,
            s <= n_sem,
            r@.len() == s,
            forall|t: int| 0 <= t < s ==> (#[trigger] r@[t])@ == codes_in(courses@, vals@, n_sem as int, t, n as int),
        decreases n_sem - s,
    {
        let mut sem: Vec<CourseCode> = Vec::new();
        let mut i: usize = 0;
        while i < n
            invariant
                n == courses@.len(),
                dims_ok(n as int, n_sem as int),
                vals@.len() >= n * n_sem,
                s < n_sem,
                i <= n,
                sem@ == codes_in(courses@, vals@, n_sem as int, s as int, i as int),
            decreases n - i,
        {
            proof { lemma_var_bound(i as int, s as int, n as int, n_sem as int); }
            if vals[i * n_sem + s] == 1 {
                sem.push(courses[i].code);
            }
            i = i + 1;
        }
        r.push(sem);
        s = s + 1;
    }
    r
}

/// What the backend reported for one solve.
#[derive(Clone, Debug)]
pub enum SolveResult {
    /// A feasible (or optimal) assignment: one value per model variable.
    Solved(Vec<i64>),
    /// Infeasible, or no solution within the time budget.
    NoSolution,
}

#[derive(Clone, Copy, Debug, PartialEq, Eq, Structural)]
pub enum ScheduleError {
    /// No schedule meets the hard constraints.
    Stage1Infeasible,
    /// Rebalancing failed although stage one found a schedule.
    Stage2Infeasible,
    /// The values handed back do not cover the decision matrix.
    MalformedSolution,
    /// Stage one's total credits leave `i64`.
    CreditOverflow,
    /// Both stages are over.
    Finished,
}

#[derive(Clone, Copy, Debug, PartialEq, Eq, Structural)]
pub enum Phase {
    Stage1,
    Stage2 { min_credits: i64 },
    Done,
}

/// What the caller does next.
#[derive(Clone, Debug)]
pub enum Action {
    /// Solve the planner's `pending` model and hand the outcome to `step`.
    Solve,
    /// Replace the schedule's semesters with these course lists.
    Commit(Vec<Vec<CourseCode>>),
    /// Stop with this error; the schedule stays as it was.
    Fail(ScheduleError),
}

/// The decisions of the two-stage scheduler over one catalog.
pub struct TwoStagePlanner<'a> {
    pub courses: &'a Vec<Course>,
    pub num_semesters: usize,
    pub max_credits_per_semester: i64,
    pub prereqs: &'a Vec<(CourseCode, CourseCode)>,
    pub geneds: Option<&'a Vec<GenEd>>,
    pub phase: Phase,
    /// The model whose solution `step` expects next.
    pub pending: Model,
}

pub open spec fn all_on() -> Toggles {
    Toggles { prereqs: true, geneds: true, semester_limit: true }
}

impl<'a> TwoStagePlanner<'a> {
    pub open spec fn ready(&self) -> bool {
        &&& dims_ok(self.courses@.len() as int, self.num_semesters as int)
        &&& codes_unique(self.courses@)
        &&& self.geneds matches Some(gs) ==> geneds_ok(gs@, self.courses@.len() as int)
    }

    /// `ctx` holds this planner's catalog with `toggles` and `min_credits`.
    pub open spec fn describes(&self, ctx: ModelBuilderContext, toggles: Toggles, min_credits: Option<i64>) -> bool {
        &&& ctx.courses == self.courses
        &&& ctx.num_semesters == self.num_semesters
        &&& ctx.max_credits_per_semester == self.max_credits_per_semester
        &&& ctx.prereqs == self.prereqs
        &&& ctx.geneds == self.geneds
        &&& ctx.toggles == toggles
        &&& ctx.min_credits == min_credits
    }

    /// `m` holds every rule of this catalog under `toggles`, with the exact
    /// total `min_credits` when one is given.
    pub open spec fn compiles_to(&self, toggles: Toggles, min_credits: Option<i64>, m: Model) -> bool {
        exists|ctx: ModelBuilderContext| #[trigger] pipeline_constraints(ctx, m) && self.describes(ctx, toggles, min_credits)
    }

    /// `compiles_to`, from a fresh context, with the exactness that
    /// `pipeline_exact` states when no GenEd rules are compiled.
    pub open spec fn compiles_exactly(&self, toggles: Toggles, min_credits: Option<i64>, m: Model) -> bool {
        exists|ctx: ModelBuilderContext| #[trigger] pipeline_constraints(ctx, m) && self.describes(ctx, toggles, min_credits)
            && crate::pipeline::pipeline_exact(ctx, m) && ctx.model.constraints@.len() == 0
            && ctx.model.domains@.len() == self.courses@.len() * self.num_semesters
    }

    /// Stage two's model from a fresh context; without GenEd rules it holds
    /// the decision matrix, then the balance variables, and no constraint
    /// but the compiled ones and the balance ones.
    pub open spec fn stage2_exact(&self, min_credits: i64, m: Model) -> bool {
        let n = self.courses@.len() * self.num_semesters;
        exists|ctx: ModelBuilderContext| #[trigger] pipeline_constraints(ctx, m) && self.describes(ctx, all_on(), Some(min_credits))
            && ctx.model.constraints@.len() == 0 && ctx.model.domains@.len() == n
            && (!(ctx.toggles.geneds && ctx.geneds is Some) ==> m.domains@.len() == n + 3 * self.num_semesters
                && forall|k: int| 0 <= k < m.constraints@.len() ==> crate::pipeline::plain_allowed(ctx, #[trigger] m.constraints@[k])
                    || is_some_balance(m.constraints@[k], self.courses@, self.num_semesters as int,
                        (min_credits as int / self.num_semesters as int) as i64, n as int))
    }

    /// The total credits that `vals` schedules.
    pub open spec fn total_of(&self, vals: Seq<i64>) -> int {
        crate::linear::sum_terms(all_terms(self.courses@, self.num_semesters as int,
            self.courses@.len() * self.num_semesters), vals.map_values(|v: i64| v as int))
    }

    /// The total of `vals` can be summed within `i64`.
    pub open spec fn total_evaluable(&self, vals: Seq<i64>) -> bool {
        &&& crate::linear::evaluable(all_terms(self.courses@, self.num_semesters as int,
            self.courses@.len() * self.num_semesters), vals.map_values(|v: i64| v as int))
        &&& crate::linear::fits_i64(self.total_of(vals))
    }

    /// `pending` is the model of the current phase: stage one's compiled
    /// rules (exact without GenEd rules), or stage two's rules with the total
    /// held and the balance objective.
    pub open spec fn pending_ok(&self) -> bool {
        match self.phase {
            Phase::Stage1 => self.compiles_to(all_on(), None, self.pending)
                && self.compiles_exactly(all_on(), None, self.pending)
                && self.pending.objective.terms@ == all_terms(self.courses@, self.num_semesters as int,
                    self.courses@.len() * self.num_semesters)
                && self.pending.objective.constant == 0,
            Phase::Stage2 { min_credits } => self.compiles_to(all_on(), Some(min_credits), self.pending)
                && self.stage2_exact(min_credits, self.pending)
                && exists|base: int, lv: Seq<usize>, dv: Seq<usize>, av: Seq<usize>| #[trigger] balance_encoded(self.pending,
                    base, self.courses@, self.num_semesters as int,
                    (min_credits as int / self.num_semesters as int) as i64, lv, dv, av),
            Phase::Done => true,
        }
    }

    /// `vals` satisfies `pending`, with every constraint sum within `i64`.
    pub open spec fn accepts(&self, vals: Seq<i64>) -> bool {
        crate::linear::satisfies(self.pending, vals.map_values(|v: i64| v as int))
            && crate::linear::all_evaluable(self.pending, vals.map_values(|v: i64| v as int))
    }

    pub fn new(
        courses: &'a Vec<Course>,
        num_semesters: usize,
        max_credits_per_semester: i64,
        prereqs: &'a Vec<(CourseCode, CourseCode)>,
        geneds: Option<&'a Vec<GenEd>>,
    ) -> (p: Self)
        requires
            dims_ok(courses@.len() as int, num_semesters as int),
            codes_unique(courses@),
            geneds matches Some(gs) ==> geneds_ok(gs@, courses@.len() as int),
        ensures
            p.courses == courses,
            p.num_semesters == num_semesters,
            p.max_credits_per_semester == max_credits_per_semester,
            p.prereqs == prereqs,
            p.geneds == geneds,
            p.phase == Phase::Stage1,
            p.ready(),
            p.pending_ok(),
    {
        let mut p = TwoStagePlanner {
            courses, num_semesters, max_credits_per_semester, prereqs, geneds, phase: Phase::Stage1,
            pending: Model { domains: Vec::new(), constraints: Vec::new(), objective: LinExpr { terms: Vec::new(), constant: 0 } },
        };
        let m = p.model_with(Toggles { prereqs: true, geneds: true, semester_limit: true }, None);
        let ghost p0 = p;
        p.pending = m;
        proof { lemma_same_catalog(p0, p, all_on(), None, m); }
        p
    }

    /// The model compiled from this catalog with `toggles`, objective the
    /// total scheduled credits.
    pub fn model_with(&self, toggles: Toggles, min_credits: Option<i64>) -> (m: Model)
        requires
            self.ready(),
        ensures
            self.compiles_to(toggles, min_credits, m),
            self.compiles_exactly(toggles, min_credits, m),
            m.objective.terms@ == all_terms(self.courses@, self.num_semesters as int,
                self.courses@.len() * self.num_semesters),
            m.objective.constant == 0,
    {
        let mut ctx = ModelBuilderContext::new_with_toggles(self.courses, self.num_semesters,
            self.max_credits_per_semester, self.prereqs, self.geneds, toggles);
        if let Some(t) = min_credits {
            ctx.set_min_credits(t);
        }
        let ghost c0 = ctx;
        build_model_pipeline(&mut ctx);
        assert(pipeline_constraints(c0, ctx.model) && self.describes(c0, toggles, min_credits));
        assert(crate::pipeline::pipeline_exact(c0, ctx.model) && c0.model.constraints@.len() == 0);
        ctx.model
    }

    /// The models of the diagnostic sweep after a failed stage one: with
    /// prerequisites off, GenEds off, the semester limit off, and all on.
    /// Their outcomes only inform the operator.
    pub fn diagnostic_models(&self) -> (r: Vec<(Toggles, Model)>)
        requires
            self.ready(),
        ensures
            r@.len() == 4,
            r@[0].0 == (Toggles { prereqs: false, geneds: true, semester_limit: true }),
            r@[1].0 == (Toggles { prereqs: true, geneds: false, semester_limit: true }),
            r@[2].0 == (Toggles { prereqs: true, geneds: true, semester_limit: false }),
            r@[3].0 == all_on(),
            forall|k: int| 0 <= k < 4 ==> self.compiles_to((#[trigger] r@[k]).0, None, r@[k].1),
    {
        let mut r: Vec<(Toggles, Model)> = Vec::new();
        let t0 = Toggles { prereqs: false, geneds: true, semester_limit: true };
        let t1 = Toggles { prereqs: true, geneds: false, semester_limit: true };
        let t2 = Toggles { prereqs: true, geneds: true, semester_limit: false };
        let t3 = Toggles { prereqs: true, geneds: true, semester_limit: true };
        r.push((t0, self.model_with(t0, None)));
        r.push((t1, self.model_with(t1, None)));
        r.push((t2, self.model_with(t2, None)));
        r.push((t3, self.model_with(t3, None)));
        r
    }

    /// Stage two's model: stage one's rules, total credits held at
    /// `min_credits`, minimise the spread of semester loads.
    pub fn stage2_model(&self, min_credits: i64) -> (m: Model)
        requires
            self.ready(),
        ensures
            self.compiles_to(all_on(), Some(min_credits), m),
            exists|base: int, lv: Seq<usize>, dv: Seq<usize>, av: Seq<usize>| #[trigger] balance_encoded(m, base, self.courses@,
                self.num_semesters as int, (min_credits as int / self.num_semesters as int) as i64, lv, dv, av),
            self.stage2_exact(min_credits, m),
    {
        let mut m = self.model_with(Toggles { prereqs: true, geneds: true, semester_limit: true }, Some(min_credits));
        let ghost m1 = m;
        add_balance_objective(&mut m, self.courses, self.num_semesters, min_credits);
        proof {
            let (lv, dv, av) = choose|lv: Seq<usize>, dv: Seq<usize>, av: Seq<usize>| #[trigger] balance_encoded(m, m1.domains@.len() as int,
                self.courses@, self.num_semesters as int, (min_credits as int / self.num_semesters as int) as i64, lv, dv, av);
            assert(balance_encoded(m, m1.domains@.len() as int,
                self.courses@, self.num_semesters as int, (min_credits as int / self.num_semesters as int) as i64, lv, dv, av));
            let ctx = choose|ctx: ModelBuilderContext| #[trigger] pipeline_constraints(ctx, m1) && self.describes(ctx, all_on(), Some(min_credits));
            lemma_pipeline_kept(ctx, m1, m);
            assert(pipeline_constraints(ctx, m) && self.describes(ctx, all_on(), Some(min_credits)));
            let n = self.courses@.len() * self.num_semesters;
            let cx = choose|cx: ModelBuilderContext| #[trigger] pipeline_constraints(cx, m1) && self.describes(cx, all_on(), Some(min_credits))
                && crate::pipeline::pipeline_exact(cx, m1) && cx.model.constraints@.len() == 0
                && cx.model.domains@.len() == n;
            lemma_pipeline_kept(cx, m1, m);
            if !(cx.toggles.geneds && cx.geneds is Some) {
                assert forall|k: int| 0 <= k < m.constraints@.len() implies crate::pipeline::plain_allowed(cx, #[trigger] m.constraints@[k])
                    || is_some_balance(m.constraints@[k], self.courses@, self.num_semesters as int,
                        (min_credits as int / self.num_semesters as int) as i64, n as int) by {
                    if k < m1.constraints@.len() {
                        assert(m.constraints@[k] == m.constraints@.subrange(0, m1.constraints@.len() as int)[k]);
                        assert(crate::pipeline::plain_allowed(cx, m1.constraints@[k]));
                    }
                }
            }
            assert(pipeline_constraints(cx, m) && self.describes(cx, all_on(), Some(min_credits))
                && cx.model.constraints@.len() == 0 && cx.model.domains@.len() == n);
        }
        m
    }

    /// Takes the outcome of solving `pending` and decides what comes next.
    pub fn step(&mut self, outcome: SolveResult) -> (a: Action)
        requires
            old(self).ready(),
            old(self).pending_ok(),
        ensures
            final(self).courses == old(self).courses,
            final(self).num_semesters == old(self).num_semesters,
            final(self).max_credits_per_semester == old(self).max_credits_per_semester,
            final(self).prereqs == old(self).prereqs,
            final(self).geneds == old(self).geneds,
            final(self).ready(),
            final(self).pending_ok(),
            ({
                let n = old(self).courses@.len() * old(self).num_semesters;
                match (old(self).phase, outcome) {
                    (Phase::Stage1, SolveResult::NoSolution) =>
                        a == Action::Fail(ScheduleError::Stage1Infeasible) && final(self).phase == Phase::Done,
                    (Phase::Stage2 { .. }, SolveResult::NoSolution) =>
                        a == Action::Fail(ScheduleError::Stage2Infeasible) && final(self).phase == Phase::Done,
                    (Phase::Done, _) =>
                        a == Action::Fail(ScheduleError::Finished) && final(self).phase == Phase::Done,
                    (Phase::Stage1, SolveResult::Solved(vals)) =>
                        if vals@.len() < n || !old(self).accepts(vals@) {
                            a == Action::Fail(ScheduleError::MalformedSolution) && final(self).phase == Phase::Done
                        } else if !old(self).total_evaluable(vals@) {
                            a == Action::Fail(ScheduleError::CreditOverflow) && final(self).phase == Phase::Done
                        } else {
                            a == Action::Solve && (final(self).phase matches Phase::Stage2 { min_credits }
                                && min_credits == old(self).total_of(vals@))
                        },
                    (Phase::Stage2 { min_credits }, SolveResult::Solved(vals)) =>
                        if vals@.len() < n || !old(self).accepts(vals@) {
                            a == Action::Fail(ScheduleError::MalformedSolution) && final(self).phase == Phase::Done
                        } else {
                            final(self).phase == Phase::Done && (a matches Action::Commit(sched)
                                && sched@.len() == old(self).num_semesters
                                && forall|s: int| 0 <= s < old(self).num_semesters ==> (#[trigger] sched@[s])@
                                    == codes_in(old(self).courses@, vals@, old(self).num_semesters as int, s, old(self).courses@.len() as int))
                        },
                }
            }),
    {
        let ghost p0 = *self;
        let n = self.courses.len() * self.num_semesters;
        match self.phase {
            Phase::Done => Action::Fail(ScheduleError::Finished),
            Phase::Stage1 => {
                match outcome {
                    SolveResult::NoSolution => {
                        self.phase = Phase::Done;
                        Action::Fail(ScheduleError::Stage1Infeasible)
                    },
                    SolveResult::Solved(vals) => {
                        if vals.len() < n || !check_assignment(&self.pending, &vals) {
                            self.phase = Phase::Done;
                            return Action::Fail(ScheduleError::MalformedSolution);
                        }
                        let ctx = ModelBuilderContext::new_with_toggles(self.courses, self.num_semesters,
                            self.max_credits_per_semester, self.prereqs, self.geneds, Toggles { prereqs: true, geneds: true, semester_limit: true });
                        let total = ctx.total_credits_expr();
                        let r = eval_expr(&total, &vals);
                        proof {
                            let ai = vals@.map_values(|v: i64| v as int);
                            assert(crate::linear::expr_value(total, ai) == self.total_of(vals@));
                            assert(r is Some <==> self.total_evaluable(vals@));
                        }
                        match r {
                            None => {
                                self.phase = Phase::Done;
                                Action::Fail(ScheduleError::CreditOverflow)
                            },
                            Some(t) => {
                                let m2 = self.stage2_model(t);
                                self.pending = m2;
                                self.phase = Phase::Stage2 { min_credits: t };
                                proof { lemma_same_catalog(p0, *self, all_on(), Some(t), m2); }
                                Action::Solve
                            },
                        }
                    },
                }
            },
            Phase::Stage2 { min_credits } => {
                match outcome {
                    SolveResult::NoSolution => {
                        self.phase = Phase::Done;
                        Action::Fail(ScheduleError::Stage2Infeasible)
                    },
                    SolveResult::Solved(vals) => {
                        if vals.len() < n || !check_assignment(&self.pending, &vals) {
                            self.phase = Phase::Done;
                            return Action::Fail(ScheduleError::MalformedSolution);
                        }
                        let sched = schedule_from(self.courses, self.num_semesters, &vals);
                        self.phase = Phase::Done;
                        Action::Commit(sched)
                    },
                }
            },
        }
    }
}

/// Two planners over the same catalog compile the same models.
pub proof fn lemma_same_catalog(p: TwoStagePlanner, q: TwoStagePlanner, toggles: Toggles, min_credits: Option<i64>, m: Model)
    requires
        p.courses == q.courses,
        p.num_semesters == q.num_semesters,
        p.max_credits_per_semester == q.max_credits_per_semester,
        p.prereqs == q.prereqs,
        p.geneds == q.geneds,
    ensures
        p.compiles_to(toggles, min_credits, m) ==> q.compiles_to(toggles, min_credits, m),
        p.compiles_exactly(toggles, min_credits, m) ==> q.compiles_exactly(toggles, min_credits, m),
        min_credits matches Some(t) ==> (p.stage2_exact(t, m) ==> q.stage2_exact(t, m)),
{
    if let Some(t) = min_credits {
        if p.stage2_exact(t, m) {
            let n = p.courses@.len() * p.num_semesters;
            let ctx = choose|ctx: ModelBuilderContext| #[trigger] pipeline_constraints(ctx, m) && p.describes(ctx, all_on(), Some(t))
                && ctx.model.constraints@.len() == 0 && ctx.model.domains@.len() == n
                && (!(ctx.toggles.geneds && ctx.geneds is Some) ==> m.domains@.len() == n + 3 * p.num_semesters
                    && forall|k: int| 0 <= k < m.constraints@.len() ==> crate::pipeline::plain_allowed(ctx, #[trigger] m.constraints@[k])
                        || is_some_balance(m.constraints@[k], p.courses@, p.num_semesters as int,
                            (t as int / p.num_semesters as int) as i64, n as int));
            assert(q.describes(ctx, all_on(), Some(t)));
        }
    }
    if p.compiles_to(toggles, min_credits, m) {
        let ctx = choose|ctx: ModelBuilderContext| #[trigger] pipeline_constraints(ctx, m) && p.describes(ctx, toggles, min_credits);
        assert(q.describes(ctx, toggles, min_credits));
    }
    if p.compiles_exactly(toggles, min_credits, m) {
        let ctx = choose|ctx: ModelBuilderContext| #[trigger] pipeline_constraints(ctx, m) && p.describes(ctx, toggles, min_credits)
            && crate::pipeline::pipeline_exact(ctx, m) && ctx.model.constraints@.len() == 0
            && ctx.model.domains@.len() == p.courses@.len() * p.num_semesters;
        assert(q.describes(ctx, toggles, min_credits));
    }
}

} // verus!
