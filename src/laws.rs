//! What every assignment that satisfies a compiled model guarantees of the
//! schedule it encodes.
use vstd::prelude::*;
use crate::catalog::Course;
use crate::context::{all_terms, column_terms, dims_ok, lemma_var_bound, matrix_ok, row_terms, var_of, ModelBuilderContext};
use crate::linear::{constraint_holds, expr_value, has, matches_shape, satisfies, sum_terms, Cmp, Model, Term};
use crate::pipeline::{pipeline_constraints, pipeline_exact, plain_allowed};
use crate::two_stage::{balance_encoded, is_balance_constraint, is_some_balance, pair, LOAD_BOUND, NEG_LOAD_BOUND};
use crate::context::{is_cap_constraint, is_required_row, is_row_constraint};
use crate::prereqs::is_some_prereq;
use crate::rows::{picked, rows_terms};
use crate::geneds::{
    assigned_terms, assignment_encoded, coverage_terms, elective_listing, eligible, foundation_table, of_kind, req_at, req_count, shared_electives, sp_capped,
    neg_row, GenEdKind,
};
use crate::linear::unit_terms;
use crate::prereqs::{is_prereq_constraint, prereq_terms};

verus! {

/// The number of semesters `0..k` in which `a` places course `i`.
pub open spec fn row_sum(a: Seq<int>, i: int, n_sem: int, k: int) -> int {
    sum_terms(row_terms(i, n_sem, k), a)
}

/// The credits that `a` places in semester `s`, over courses `0..k`.
pub open spec fn load(courses: Seq<Course>, a: Seq<int>, n_sem: int, s: int, k: int) -> int
    decreases k,
{
    if k <= 0 {
        0
    } else {
        load(courses, a, n_sem, s, k - 1) + if a[var_of(k - 1, s, n_sem)] == 1 { courses[k - 1].credits as int } else { 0 }
    }
}

/// The decision variables of `a` are all zero or one.
pub open spec fn decisions_boolean(a: Seq<int>, n: int, n_sem: int) -> bool {
    forall|v: int| 0 <= v < n * n_sem ==> 0 <= #[trigger] a[v] <= 1
}

pub proof fn lemma_decisions_boolean(m: Model, a: Seq<int>, n: int, n_sem: int)
    requires
        matrix_ok(m, n, n_sem),
        satisfies(m, a),
    ensures
        decisions_boolean(a, n, n_sem),
{
    assert forall|v: int| 0 <= v < n * n_sem implies 0 <= #[trigger] a[v] <= 1 by {
        assert(m.domains@[v] == (0i64, 1i64));
    }
}

pub proof fn lemma_has_holds(m: Model, a: Seq<int>, terms: Seq<Term>, constant: i64, cmp: Cmp, rhs: i64)
    requires
        satisfies(m, a),
        has(m.constraints@, terms, constant, cmp, rhs),
    ensures
        crate::linear::cmp_holds(cmp, sum_terms(terms, a) + constant, rhs as int),
{
    let k = choose|k: int| 0 <= k < m.constraints@.len() && #[trigger] matches_shape(m.constraints@[k], terms, constant, cmp, rhs);
    assert(constraint_holds(m.constraints@[k], a));
}

pub proof fn lemma_row_step(a: Seq<int>, i: int, n_sem: int, k: int)
    requires
        k > 0,
    ensures
        row_sum(a, i, n_sem, k) == row_sum(a, i, n_sem, k - 1) + a[var_of(i, k - 1, n_sem) as usize as int],
{
    assert(row_terms(i, n_sem, k).drop_last() =~= row_terms(i, n_sem, k - 1));
}

/// With boolean decisions, a row sum only grows with more semesters.
pub proof fn lemma_row_mono(a: Seq<int>, i: int, n: int, n_sem: int, t: int, k: int)
    requires
        decisions_boolean(a, n, n_sem),
        dims_ok(n, n_sem),
        0 <= i < n,
        0 <= t <= k <= n_sem,
    ensures
        row_sum(a, i, n_sem, k) >= row_sum(a, i, n_sem, t),
        row_sum(a, i, n_sem, k) >= 0,
    decreases k,
{
    if k > 0 {
        lemma_row_step(a, i, n_sem, k);
        lemma_var_bound(i, k - 1, n, n_sem);
        if t < k {
            lemma_row_mono(a, i, n, n_sem, t, k - 1);
        } else {
            lemma_row_mono(a, i, n, n_sem, 0, k - 1);
        }
    } else {
        assert(row_terms(i, n_sem, 0) =~= Seq::<Term>::empty());
    }
}

/// With boolean decisions, course `i` placed in semester `s < k` adds one to
/// its row sum over `0..k`.
pub proof fn lemma_row_counts(a: Seq<int>, i: int, n: int, n_sem: int, s: int, k: int)
    requires
        decisions_boolean(a, n, n_sem),
        dims_ok(n, n_sem),
        0 <= i < n,
        0 <= s < k <= n_sem,
    ensures
        row_sum(a, i, n_sem, k) >= row_sum(a, i, n_sem, s) + a[var_of(i, s, n_sem)],
{
    lemma_row_step(a, i, n_sem, s + 1);
    lemma_var_bound(i, s, n, n_sem);
    assert(var_of(i, s, n_sem) as usize as int == var_of(i, s, n_sem));
    lemma_row_mono(a, i, n, n_sem, s + 1, k);
}

/// No duplication: in any assignment that satisfies a compiled model, no
/// course occupies two semesters.
pub proof fn lemma_no_duplication(ctx: ModelBuilderContext, m: Model, a: Seq<int>, i: int, s1: int, s2: int)
    requires
        pipeline_constraints(ctx, m),
        satisfies(m, a),
        0 <= i < ctx.courses@.len(),
        0 <= s1 < s2 < ctx.num_semesters,
    ensures
        !(a[var_of(i, s1, ctx.num_semesters as int)] == 1 && a[var_of(i, s2, ctx.num_semesters as int)] == 1),
{
    let n = ctx.courses@.len() as int;
    let n_sem = ctx.num_semesters as int;
    lemma_decisions_boolean(m, a, n, n_sem);
    assert(has(m.constraints@, row_terms(i, n_sem, n_sem), 0, Cmp::Le, 1));
    lemma_has_holds(m, a, row_terms(i, n_sem, n_sem), 0, Cmp::Le, 1);
    lemma_row_counts(a, i, n, n_sem, s2, n_sem);
    lemma_row_counts(a, i, n, n_sem, s1, s2);
    lemma_row_mono(a, i, n, n_sem, 0, s1);
}

/// Required courses: a satisfying assignment schedules every required course
/// exactly once.
pub proof fn lemma_required_scheduled(ctx: ModelBuilderContext, m: Model, a: Seq<int>, i: int)
    requires
        pipeline_constraints(ctx, m),
        satisfies(m, a),
        0 <= i < ctx.courses@.len(),
        ctx.courses@[i].required,
    ensures
        row_sum(a, i, ctx.num_semesters as int, ctx.num_semesters as int) == 1,
{
    let n_sem = ctx.num_semesters as int;
    assert(has(m.constraints@, row_terms(i, n_sem, n_sem), 0, Cmp::Le, 1));
    assert(has(m.constraints@, row_terms(i, n_sem, n_sem), 0, Cmp::Ge, 1));
    lemma_has_holds(m, a, row_terms(i, n_sem, n_sem), 0, Cmp::Le, 1);
    lemma_has_holds(m, a, row_terms(i, n_sem, n_sem), 0, Cmp::Ge, 1);
}

pub proof fn lemma_prereq_value(a: Seq<int>, before: int, after: int, n_sem: int, s: int, k: int)
    requires
        0 <= k,
    ensures
        sum_terms(prereq_terms(before, after, n_sem, s, k), a)
            == a[var_of(after, s, n_sem) as usize as int] - row_sum(a, before, n_sem, k),
    decreases k,
{
    if k > 0 {
        assert(prereq_terms(before, after, n_sem, s, k).drop_last() =~= prereq_terms(before, after, n_sem, s, k - 1));
        lemma_prereq_value(a, before, after, n_sem, s, k - 1);
        lemma_row_step(a, before, n_sem, k);
    } else {
        let t = prereq_terms(before, after, n_sem, s, 0);
        assert(t.drop_last() =~= Seq::<Term>::empty());
        assert(row_terms(before, n_sem, 0) =~= Seq::<Term>::empty());
    }
}

/// Prerequisite ordering: when prerequisites are on and an edge names two
/// listed courses, a satisfying assignment that schedules both places the
/// prerequisite in an earlier semester.
pub proof fn lemma_prereq_order(ctx: ModelBuilderContext, m: Model, a: Seq<int>, e: int, b: int, f: int, sb: int, sf: int)
    requires
        pipeline_constraints(ctx, m),
        satisfies(m, a),
        ctx.toggles.prereqs,
        0 <= e < ctx.prereqs@.len(),
        0 <= b < ctx.courses@.len(),
        0 <= f < ctx.courses@.len(),
        ctx.courses@[b].code == ctx.prereqs@[e].0,
        ctx.courses@[f].code == ctx.prereqs@[e].1,
        0 <= sb < ctx.num_semesters,
        0 <= sf < ctx.num_semesters,
        a[var_of(b, sb, ctx.num_semesters as int)] == 1,
        a[var_of(f, sf, ctx.num_semesters as int)] == 1,
    ensures
        sb < sf,
{
    let n = ctx.courses@.len() as int;
    let n_sem = ctx.num_semesters as int;
    lemma_decisions_boolean(m, a, n, n_sem);
    assert(crate::prereqs::has_prereq(m.constraints@, b, f, n_sem, sf));
    let k = choose|k: int| 0 <= k < m.constraints@.len() && is_prereq_constraint(#[trigger] m.constraints@[k], b, f, n_sem, sf);
    assert(constraint_holds(m.constraints@[k], a));
    lemma_prereq_value(a, b, f, n_sem, sf, sf);
    lemma_var_bound(f, sf, n, n_sem);
    lemma_var_bound(b, sb, n, n_sem);
    assert(has(m.constraints@, row_terms(b, n_sem, n_sem), 0, Cmp::Le, 1));
    lemma_has_holds(m, a, row_terms(b, n_sem, n_sem), 0, Cmp::Le, 1);
    if sb >= sf {
        lemma_row_counts(a, b, n, n_sem, sb, n_sem);
        lemma_row_mono(a, b, n, n_sem, sf, sb);
    }
}

pub proof fn lemma_column_value(courses: Seq<Course>, a: Seq<int>, n: int, n_sem: int, s: int, k: int)
    requires
        decisions_boolean(a, n, n_sem),
        dims_ok(n, n_sem),
        n == courses.len(),
        0 <= s < n_sem,
        0 <= k <= n,
    ensures
        sum_terms(column_terms(courses, n_sem, s, k), a) == load(courses, a, n_sem, s, k),
    decreases k,
{
    if k > 0 {
        assert(column_terms(courses, n_sem, s, k).drop_last() =~= column_terms(courses, n_sem, s, k - 1));
        lemma_column_value(courses, a, n, n_sem, s, k - 1);
        lemma_var_bound(k - 1, s, n, n_sem);
        let v = var_of(k - 1, s, n_sem);
        assert(v as usize as int == v);
        assert(0 <= a[v] <= 1);
        let c = courses[k - 1].credits as int;
        if a[v] == 1 {
            assert(c * a[v] == c);
        } else {
            assert(a[v] == 0);
            assert(c * a[v] == 0);
        }
    } else {
        assert(column_terms(courses, n_sem, s, 0) =~= Seq::<Term>::empty());
    }
}

/// Credit cap: with the semester limit on, a satisfying assignment places at
/// most `max_credits_per_semester` credits in every semester.
pub proof fn lemma_credit_cap(ctx: ModelBuilderContext, m: Model, a: Seq<int>, s: int)
    requires
        pipeline_constraints(ctx, m),
        satisfies(m, a),
        ctx.toggles.semester_limit,
        0 <= s < ctx.num_semesters,
    ensures
        load(ctx.courses@, a, ctx.num_semesters as int, s, ctx.courses@.len() as int) <= ctx.max_credits_per_semester,
{
    let n = ctx.courses@.len() as int;
    let n_sem = ctx.num_semesters as int;
    lemma_decisions_boolean(m, a, n, n_sem);
    assert(has(m.constraints@, column_terms(ctx.courses@, n_sem, s, n), 0, Cmp::Le, ctx.max_credits_per_semester));
    lemma_has_holds(m, a, column_terms(ctx.courses@, n_sem, s, n), 0, Cmp::Le, ctx.max_credits_per_semester);
    lemma_column_value(ctx.courses@, a, n, n_sem, s, n);
}

/// Optimality preservation: a model compiled with the exact total
/// `min_credits` admits only assignments whose scheduled credits add up to
/// exactly that total.
pub proof fn lemma_total_held(ctx: ModelBuilderContext, m: Model, a: Seq<int>, min_credits: i64)
    requires
        pipeline_constraints(ctx, m),
        satisfies(m, a),
        ctx.min_credits == Some(min_credits),
    ensures
        sum_terms(all_terms(ctx.courses@, ctx.num_semesters as int, ctx.courses@.len() * ctx.num_semesters), a)
            == min_credits,
{
    let n = ctx.courses@.len() as int;
    let n_sem = ctx.num_semesters as int;
    lemma_has_holds(m, a, all_terms(ctx.courses@, n_sem, n * n_sem), 0, Cmp::Eq, min_credits);
}

pub proof fn lemma_sum_concat(x: Seq<Term>, y: Seq<Term>, a: Seq<int>)
    ensures
        sum_terms(x + y, a) == sum_terms(x, a) + sum_terms(y, a),
    decreases y.len(),
{
    if y.len() > 0 {
        assert((x + y).drop_last() =~= x + y.drop_last());
        lemma_sum_concat(x, y.drop_last(), a);
    } else {
        assert(x + y =~= x);
    }
}

/// How many courses of `idx` (with repeats) `a` schedules.
pub open spec fn scheduled_count(a: Seq<int>, idx: Seq<int>, n_sem: int) -> int
    decreases idx.len(),
{
    if idx.len() == 0 {
        0
    } else {
        scheduled_count(a, idx.drop_last(), n_sem) + row_sum(a, idx.last(), n_sem, n_sem)
    }
}

/// `sum(a[vars[j]])`.
pub open spec fn sum_at(a: Seq<int>, vars: Seq<usize>) -> int
    decreases vars.len(),
{
    if vars.len() == 0 {
        0
    } else {
        sum_at(a, vars.drop_last()) + a[vars.last() as int]
    }
}

pub proof fn lemma_rows_value(courses: Seq<Course>, idx: Seq<int>, n_sem: int, a: Seq<int>)
    ensures
        sum_terms(rows_terms(courses, idx, false, n_sem), a) == scheduled_count(a, idx, n_sem),
    decreases idx.len(),
{
    if idx.len() > 0 {
        lemma_rows_value(courses, idx.drop_last(), n_sem, a);
        let last = Seq::new(n_sem as nat, |s: int|
            Term { var: var_of(idx.last(), s, n_sem) as usize, coeff: crate::rows::weight(courses, idx.last(), false) });
        assert(last =~= row_terms(idx.last(), n_sem, n_sem));
        lemma_sum_concat(rows_terms(courses, idx.drop_last(), false, n_sem), last, a);
    }
}

pub proof fn lemma_unit_value(vars: Seq<usize>, a: Seq<int>)
    ensures
        sum_terms(unit_terms(vars), a) == sum_at(a, vars),
    decreases vars.len(),
{
    if vars.len() > 0 {
        assert(unit_terms(vars).drop_last() =~= unit_terms(vars.drop_last()));
        lemma_unit_value(vars.drop_last(), a);
    } else {
        assert(unit_terms(vars) =~= Seq::<Term>::empty());
    }
}

pub proof fn lemma_neg_row_value(a: Seq<int>, i: int, n_sem: int, k: int)
    requires
        0 <= k <= n_sem,
    ensures
        sum_terms(neg_row(i, n_sem).subrange(0, k), a) == -row_sum(a, i, n_sem, k),
    decreases k,
{
    if k > 0 {
        assert(neg_row(i, n_sem).subrange(0, k).drop_last() =~= neg_row(i, n_sem).subrange(0, k - 1));
        lemma_neg_row_value(a, i, n_sem, k - 1);
        lemma_row_step(a, i, n_sem, k);
    } else {
        assert(neg_row(i, n_sem).subrange(0, 0) =~= Seq::<Term>::empty());
        assert(row_terms(i, n_sem, 0) =~= Seq::<Term>::empty());
    }
}

pub proof fn lemma_picked_has(courses: Seq<Course>, p: spec_fn(Course) -> bool, k: int, i: int)
    requires
        0 <= i < k <= courses.len(),
        p(courses[i]),
    ensures
        exists|j: int| 0 <= j < picked(courses, p, k).len() && #[trigger] picked(courses, p, k)[j] == i,
    decreases k,
{
    if i < k - 1 {
        lemma_picked_has(courses, p, k - 1, i);
        let j = choose|j: int| 0 <= j < picked(courses, p, k - 1).len() && #[trigger] picked(courses, p, k - 1)[j] == i;
        if p(courses[k - 1]) {
            assert(picked(courses, p, k) == picked(courses, p, k - 1).push(k - 1));
            assert(picked(courses, p, k)[j] == i);
        } else {
            assert(picked(courses, p, k) == picked(courses, p, k - 1));
        }
        assert(0 <= j < picked(courses, p, k).len() && picked(courses, p, k)[j] == i);
    } else {
        let prev = picked(courses, p, k - 1);
        assert(picked(courses, p, k) == prev.push(k - 1));
        assert(picked(courses, p, k)[prev.len() as int] == i);
    }
}

pub proof fn lemma_count_ge_member(a: Seq<int>, idx: Seq<int>, n: int, n_sem: int, j: int)
    requires
        decisions_boolean(a, n, n_sem),
        dims_ok(n, n_sem),
        forall|q: int| 0 <= q < idx.len() ==> 0 <= #[trigger] idx[q] < n,
        0 <= j < idx.len(),
    ensures
        scheduled_count(a, idx, n_sem) >= row_sum(a, idx[j], n_sem, n_sem),
    decreases idx.len(),
{
    lemma_count_nonneg(a, idx.drop_last(), n, n_sem);
    lemma_row_mono(a, idx.last(), n, n_sem, 0, n_sem);
    if j < idx.len() - 1 {
        lemma_count_ge_member(a, idx.drop_last(), n, n_sem, j);
        lemma_row_mono(a, idx.last(), n, n_sem, 0, n_sem);
    }
}

pub proof fn lemma_count_nonneg(a: Seq<int>, idx: Seq<int>, n: int, n_sem: int)
    requires
        decisions_boolean(a, n, n_sem),
        dims_ok(n, n_sem),
        forall|q: int| 0 <= q < idx.len() ==> 0 <= #[trigger] idx[q] < n,
    ensures
        scheduled_count(a, idx, n_sem) >= 0,
    decreases idx.len(),
{
    if idx.len() > 0 {
        lemma_count_nonneg(a, idx.drop_last(), n, n_sem);
        lemma_row_mono(a, idx.last(), n, n_sem, 0, n_sem);
    }
}

/// Foundation coverage: in a satisfying assignment, every Foundation's
/// scheduled listed electives plus the listed required courses assigned to
/// it (one assignment variable each) reach its required number; a required
/// course assigned elsewhere does not count.
pub proof fn lemma_foundation_coverage(ctx: ModelBuilderContext, m: Model, a: Seq<int>, f: int)
    requires
        pipeline_constraints(ctx, m),
        satisfies(m, a),
        ctx.toggles.geneds,
        ctx.geneds is Some,
        0 <= f < of_kind(ctx.geneds.unwrap()@, GenEdKind::Foundation, ctx.geneds.unwrap()@.len() as int).len(),
    ensures
        exists|tab: Seq<Seq<usize>>| #[trigger] foundation_table(ctx.model, m, ctx.courses@, ctx.num_semesters as int,
            ctx.geneds.unwrap()@, of_kind(ctx.geneds.unwrap()@, GenEdKind::Foundation, ctx.geneds.unwrap()@.len() as int), tab)
            && scheduled_count(a, picked(ctx.courses@, elective_listing(req_at(ctx.geneds.unwrap()@,
                of_kind(ctx.geneds.unwrap()@, GenEdKind::Foundation, ctx.geneds.unwrap()@.len() as int), f)), ctx.courses@.len() as int),
                ctx.num_semesters as int)
            + sum_terms(assigned_terms(ctx.courses@, ctx.geneds.unwrap()@,
                of_kind(ctx.geneds.unwrap()@, GenEdKind::Foundation, ctx.geneds.unwrap()@.len() as int), tab, f, ctx.courses@.len() as int), a)
            >= req_count(req_at(ctx.geneds.unwrap()@,
                of_kind(ctx.geneds.unwrap()@, GenEdKind::Foundation, ctx.geneds.unwrap()@.len() as int), f), ctx.courses@),
{
    let gs = ctx.geneds.unwrap()@;
    let fidx = of_kind(gs, GenEdKind::Foundation, gs.len() as int);
    let req = req_at(gs, fidx, f);
    let n = ctx.courses@.len() as int;
    let n_sem = ctx.num_semesters as int;
    let tab = choose|tab: Seq<Seq<usize>>| #[trigger] foundation_table(ctx.model, m, ctx.courses@, n_sem, gs, fidx, tab);
    let idx = picked(ctx.courses@, elective_listing(req), n);
    let t = coverage_terms(ctx.courses@, n_sem, gs, fidx, tab, f);
    assert(has(m.constraints@, t, 0, Cmp::Ge, req_count(req, ctx.courses@)));
    lemma_has_holds(m, a, t, 0, Cmp::Ge, req_count(req, ctx.courses@));
    lemma_sum_concat(rows_terms(ctx.courses@, idx, false, n_sem), assigned_terms(ctx.courses@, gs, fidx, tab, f, n), a);
    lemma_rows_value(ctx.courses@, idx, n_sem, a);
}

/// Foundation exclusivity for electives: a non-required course that two
/// Foundations both list is never scheduled, so it counts toward neither
/// twice.
pub proof fn lemma_no_shared_elective(ctx: ModelBuilderContext, m: Model, a: Seq<int>, f: int, g: int, i: int)
    requires
        pipeline_constraints(ctx, m),
        satisfies(m, a),
        ctx.toggles.geneds,
        ctx.geneds is Some,
        0 <= f < g < of_kind(ctx.geneds.unwrap()@, GenEdKind::Foundation, ctx.geneds.unwrap()@.len() as int).len(),
        0 <= i < ctx.courses@.len(),
        ({
            let gs = ctx.geneds.unwrap()@;
            let fidx = of_kind(gs, GenEdKind::Foundation, gs.len() as int);
            (shared_electives(req_at(gs, fidx, f), req_at(gs, fidx, g)))(ctx.courses@[i])
        }),
    ensures
        row_sum(a, i, ctx.num_semesters as int, ctx.num_semesters as int) == 0,
{
    let gs = ctx.geneds.unwrap()@;
    let fidx = of_kind(gs, GenEdKind::Foundation, gs.len() as int);
    let p = shared_electives(req_at(gs, fidx, f), req_at(gs, fidx, g));
    let n = ctx.courses@.len() as int;
    let n_sem = ctx.num_semesters as int;
    let idx = picked(ctx.courses@, p, n);
    lemma_decisions_boolean(m, a, n, n_sem);
    let tab = choose|tab: Seq<Seq<usize>>| #[trigger] foundation_table(ctx.model, m, ctx.courses@, n_sem, gs, fidx, tab);
    assert(has(m.constraints@, rows_terms(ctx.courses@, idx, false, n_sem), 0, Cmp::Le, 0));
    lemma_has_holds(m, a, rows_terms(ctx.courses@, idx, false, n_sem), 0, Cmp::Le, 0);
    lemma_rows_value(ctx.courses@, idx, n_sem, a);
    crate::rows::lemma_picked_bounds(ctx.courses@, p, n);
    lemma_picked_has(ctx.courses@, p, n, i);
    let j = choose|j: int| 0 <= j < idx.len() && #[trigger] idx[j] == i;
    lemma_count_ge_member(a, idx, n, n_sem, j);
    lemma_row_mono(a, i, n, n_sem, 0, n_sem);
}

/// Foundation assignment: a required course that some Foundation lists has
/// one assignment variable per such Foundation, and in a satisfying
/// assignment they add up to the course's in-schedule indicator (one when
/// scheduled, zero when not) and to at most one.
pub proof fn lemma_required_assigned(ctx: ModelBuilderContext, m: Model, a: Seq<int>, i: int)
    requires
        pipeline_constraints(ctx, m),
        satisfies(m, a),
        ctx.toggles.geneds,
        ctx.geneds is Some,
        0 <= i < ctx.courses@.len(),
        ctx.courses@[i].required,
        ({
            let gs = ctx.geneds.unwrap()@;
            eligible(gs, of_kind(gs, GenEdKind::Foundation, gs.len() as int), ctx.courses@[i].code,
                of_kind(gs, GenEdKind::Foundation, gs.len() as int).len() as int).len() > 0
        }),
    ensures
        exists|vars: Seq<usize>| {
            let gs = ctx.geneds.unwrap()@;
            let fidx = of_kind(gs, GenEdKind::Foundation, gs.len() as int);
            &&& vars.len() == eligible(gs, fidx, ctx.courses@[i].code, fidx.len() as int).len()
            &&& #[trigger] sum_at(a, vars) == row_sum(a, i, ctx.num_semesters as int, ctx.num_semesters as int)
            &&& sum_at(a, vars) <= 1
            &&& forall|j: int| 0 <= j < vars.len() ==> 0 <= a[#[trigger] vars[j] as int] <= 1
        },
{
    let gs = ctx.geneds.unwrap()@;
    let fidx = of_kind(gs, GenEdKind::Foundation, gs.len() as int);
    let n_sem = ctx.num_semesters as int;
    let c = eligible(gs, fidx, ctx.courses@[i].code, fidx.len() as int).len() as int;
    assert(ctx.courses@[i].required);
    let tab = choose|tab: Seq<Seq<usize>>| #[trigger] foundation_table(ctx.model, m, ctx.courses@, n_sem, gs, fidx, tab);
    let vars = tab[i];
    assert(assignment_encoded(ctx.model, m, i, n_sem, c, vars));
    lemma_has_holds(m, a, unit_terms(vars) + neg_row(i, n_sem), 0, Cmp::Eq, 0);
    lemma_has_holds(m, a, unit_terms(vars), 0, Cmp::Le, 1);
    lemma_sum_concat(unit_terms(vars), neg_row(i, n_sem), a);
    lemma_unit_value(vars, a);
    lemma_neg_row_value(a, i, n_sem, n_sem);
    assert(neg_row(i, n_sem).subrange(0, n_sem) =~= neg_row(i, n_sem));
    assert forall|j: int| 0 <= j < vars.len() implies 0 <= a[#[trigger] vars[j] as int] <= 1 by {
        assert(m.domains@[vars[j] as int] == (0i64, 1i64));
        assert(0 <= vars[j] < m.domains@.len());
    }
}

/// Skill & Perspective cap: a course that more than three S&P categories
/// list is credited, in a satisfying assignment, to at most three of them.
pub proof fn lemma_sp_cap(ctx: ModelBuilderContext, m: Model, a: Seq<int>, i: int)
    requires
        pipeline_constraints(ctx, m),
        satisfies(m, a),
        ctx.toggles.geneds,
        ctx.geneds is Some,
        0 <= i < ctx.courses@.len(),
        ({
            let gs = ctx.geneds.unwrap()@;
            eligible(gs, of_kind(gs, GenEdKind::SkillAndPerspective, gs.len() as int), ctx.courses@[i].code,
                of_kind(gs, GenEdKind::SkillAndPerspective, gs.len() as int).len() as int).len() > 3
        }),
    ensures
        exists|vars: Seq<usize>| {
            let gs = ctx.geneds.unwrap()@;
            let sidx = of_kind(gs, GenEdKind::SkillAndPerspective, gs.len() as int);
            &&& vars.len() == eligible(gs, sidx, ctx.courses@[i].code, sidx.len() as int).len()
            &&& #[trigger] sum_at(a, vars) <= 3
            &&& forall|j: int| 0 <= j < vars.len() ==> 0 <= a[#[trigger] vars[j] as int] <= 1
        },
{
    let gs = ctx.geneds.unwrap()@;
    let sidx = of_kind(gs, GenEdKind::SkillAndPerspective, gs.len() as int);
    let n_sem = ctx.num_semesters as int;
    let c = eligible(gs, sidx, ctx.courses@[i].code, sidx.len() as int).len() as int;
    let vars = choose|vars: Seq<usize>| #[trigger] sp_capped(ctx.model, m, i, n_sem, c, vars);
    lemma_has_holds(m, a, unit_terms(vars), 0, Cmp::Le, 3);
    lemma_unit_value(vars, a);
    assert forall|j: int| 0 <= j < vars.len() implies 0 <= a[#[trigger] vars[j] as int] <= 1 by {
        assert(m.domains@[vars[j] as int] == (0i64, 1i64));
        assert(0 <= vars[j] < m.domains@.len());
    }
}

/// `a` satisfies `m` and no satisfying assignment has a smaller objective.
pub open spec fn is_optimal(m: Model, a: Seq<int>) -> bool {
    &&& satisfies(m, a)
    &&& forall|c: Seq<int>| #[trigger] satisfies(m, c) ==> expr_value(m.objective, a) <= expr_value(m.objective, c)
}

/// Any two optimal assignments of one model have the same objective value:
/// the same total credits in stage one, the same deviation sum in stage two.
pub proof fn lemma_optimum_value_unique(m: Model, a: Seq<int>, b: Seq<int>)
    requires
        is_optimal(m, a),
        is_optimal(m, b),
    ensures
        expr_value(m.objective, a) == expr_value(m.objective, b),
{
    assert(satisfies(m, a) && satisfies(m, b));
}

/// A 0/1 placement (one value per course and semester) that meets the
/// rules of `ctx` other than GenEds: each course at most once, required
/// courses scheduled, with the semester limit on each semester's credits at
/// most the cap, with prerequisites on a course placed in semester `s` only
/// when its prerequisite is placed before `s`, and the total when one is set.
pub open spec fn valid_placement(ctx: ModelBuilderContext, x: Seq<int>) -> bool {
    let n = ctx.courses@.len() as int;
    let n_sem = ctx.num_semesters as int;
    &&& x.len() == n * n_sem
    &&& decisions_boolean(x, n, n_sem)
    &&& forall|i: int| 0 <= i < n ==> #[trigger] row_sum(x, i, n_sem, n_sem) <= 1
    &&& forall|i: int| 0 <= i < n && (#[trigger] ctx.courses@[i]).required ==> row_sum(x, i, n_sem, n_sem) >= 1
    &&& ctx.toggles.semester_limit ==> forall|s: int| 0 <= s < n_sem
        ==> #[trigger] load(ctx.courses@, x, n_sem, s, n) <= ctx.max_credits_per_semester
    &&& ctx.toggles.prereqs ==> forall|e: int, b: int, f: int, s: int|
        #![trigger x[var_of(f, s, n_sem)], row_sum(x, b, n_sem, s), ctx.prereqs@[e]]
        0 <= e < ctx.prereqs@.len() && 0 <= b < n && 0 <= f < n && 0 <= s < n_sem
        && ctx.courses@[b].code == ctx.prereqs@[e].0 && ctx.courses@[f].code == ctx.prereqs@[e].1
        ==> x[var_of(f, s, n_sem)] <= row_sum(x, b, n_sem, s)
    &&& ctx.min_credits matches Some(t) ==> sum_terms(all_terms(ctx.courses@, n_sem, n * n_sem), x) == t
}

pub proof fn lemma_sum_extended(t: Seq<Term>, x: Seq<int>, y: Seq<int>)
    requires
        forall|j: int| 0 <= j < t.len() ==> (#[trigger] t[j]).var < x.len(),
        x.len() <= y.len(),
        forall|v: int| 0 <= v < x.len() ==> #[trigger] y[v] == x[v],
    ensures
        sum_terms(t, y) == sum_terms(t, x),
    decreases t.len(),
{
    if t.len() > 0 {
        assert(t.last() == t[t.len() - 1]);
        lemma_sum_extended(t.drop_last(), x, y);
    }
}

/// A constraint that `plain_allowed` names holds of every valid placement,
/// and refers to decision variables only.
pub proof fn lemma_plain_holds(ctx: ModelBuilderContext, c: crate::linear::Constraint, x: Seq<int>)
    requires
        dims_ok(ctx.courses@.len() as int, ctx.num_semesters as int),
        plain_allowed(ctx, c),
        valid_placement(ctx, x),
    ensures
        constraint_holds(c, x),
        forall|j: int| 0 <= j < c.expr.terms@.len() ==> (#[trigger] c.expr.terms@[j]).var < x.len(),
{
    let n = ctx.courses@.len() as int;
    let n_sem = ctx.num_semesters as int;
    if exists|i: int| 0 <= i < n && #[trigger] is_row_constraint(c, i, n_sem) {
        let i = choose|i: int| 0 <= i < n && #[trigger] is_row_constraint(c, i, n_sem);
        assert(row_sum(x, i, n_sem, n_sem) <= 1);
        assert forall|j: int| 0 <= j < c.expr.terms@.len() implies (#[trigger] c.expr.terms@[j]).var < x.len() by {
            lemma_var_bound(i, j, n, n_sem);
        }
    } else if is_required_row(c, ctx.courses@, n_sem) {
        let i = choose|i: int| 0 <= i < n && (#[trigger] ctx.courses@[i]).required
            && c.expr.terms@ == row_terms(i, n_sem, n_sem) && c.expr.constant == 0 && c.cmp == Cmp::Ge && c.rhs == 1;
        assert(row_sum(x, i, n_sem, n_sem) >= 1);
        assert forall|j: int| 0 <= j < c.expr.terms@.len() implies (#[trigger] c.expr.terms@[j]).var < x.len() by {
            lemma_var_bound(i, j, n, n_sem);
        }
    } else if ctx.toggles.semester_limit && exists|s: int| 0 <= s < n_sem
        && #[trigger] is_cap_constraint(c, ctx.courses@, n_sem, s, ctx.max_credits_per_semester) {
        let s = choose|s: int| 0 <= s < n_sem && #[trigger] is_cap_constraint(c, ctx.courses@, n_sem, s, ctx.max_credits_per_semester);
        lemma_column_value(ctx.courses@, x, n, n_sem, s, n);
        assert(load(ctx.courses@, x, n_sem, s, n) <= ctx.max_credits_per_semester);
        assert forall|j: int| 0 <= j < c.expr.terms@.len() implies (#[trigger] c.expr.terms@[j]).var < x.len() by {
            lemma_var_bound(j, s, n, n_sem);
        }
    } else if ctx.toggles.prereqs && is_some_prereq(c, ctx.courses@, n_sem, ctx.prereqs@) {
        let (e, b, f, s) = choose|e: int, b: int, f: int, s: int| 0 <= e < ctx.prereqs@.len() && 0 <= b < n && 0 <= f < n && 0 <= s < n_sem
            && ctx.courses@[b].code == ctx.prereqs@[e].0 && ctx.courses@[f].code == ctx.prereqs@[e].1
            && is_prereq_constraint(c, b, f, n_sem, s);
        lemma_prereq_value(x, b, f, n_sem, s, s);
        lemma_var_bound(f, s, n, n_sem);
        assert(var_of(f, s, n_sem) as usize as int == var_of(f, s, n_sem));
        assert(x[var_of(f, s, n_sem)] <= row_sum(x, b, n_sem, s));
        assert forall|j: int| 0 <= j < c.expr.terms@.len() implies (#[trigger] c.expr.terms@[j]).var < x.len() by {
            if j > 0 {
                lemma_var_bound(b, j - 1, n, n_sem);
            }
        }
    } else {
        assert(ctx.min_credits is Some);
        assert forall|j: int| 0 <= j < c.expr.terms@.len() implies (#[trigger] c.expr.terms@[j]).var < x.len() by {}
    }
}

/// Completeness without GenEd rules: every valid placement satisfies the
/// model compiled from a fresh context, so the model excludes no valid
/// schedule.
pub proof fn lemma_valid_placement_solves(ctx: ModelBuilderContext, m: Model, x: Seq<int>)
    requires
        pipeline_constraints(ctx, m),
        pipeline_exact(ctx, m),
        ctx.model.constraints@.len() == 0,
        ctx.model.domains@.len() == ctx.courses@.len() * ctx.num_semesters,
        !(ctx.toggles.geneds && ctx.geneds is Some),
        valid_placement(ctx, x),
    ensures
        satisfies(m, x),
{
    let n = ctx.courses@.len() as int;
    let n_sem = ctx.num_semesters as int;
    assert forall|v: int| 0 <= v < x.len() implies m.domains@[v].0 <= #[trigger] x[v] <= m.domains@[v].1 by {
        assert(m.domains@[v] == (0i64, 1i64));
    }
    assert forall|k: int| 0 <= k < m.constraints@.len() implies constraint_holds(#[trigger] m.constraints@[k], x) by {
        lemma_plain_holds(ctx, m.constraints@[k], x);
    }
}

/// Stage one's optimum is the minimum over valid placements: no valid
/// placement schedules fewer credits than an optimal assignment of a model
/// compiled without GenEd rules.
pub proof fn lemma_optimum_below_valid(ctx: ModelBuilderContext, m: Model, a: Seq<int>, x: Seq<int>)
    requires
        pipeline_constraints(ctx, m),
        pipeline_exact(ctx, m),
        ctx.model.constraints@.len() == 0,
        ctx.model.domains@.len() == ctx.courses@.len() * ctx.num_semesters,
        !(ctx.toggles.geneds && ctx.geneds is Some),
        is_optimal(m, a),
        valid_placement(ctx, x),
    ensures
        expr_value(m.objective, a) <= expr_value(m.objective, x),
{
    lemma_valid_placement_solves(ctx, m, x);
}

pub proof fn lemma_pair_value(v1: usize, c1: i64, v2: usize, c2: i64, y: Seq<int>)
    ensures
        sum_terms(pair(v1, c1, v2, c2), y) == c1 * y[v1 as int] + c2 * y[v2 as int],
{
    let one = seq![Term { var: v1, coeff: c1 }];
    assert(pair(v1, c1, v2, c2).drop_last() =~= one);
    assert(one.drop_last() =~= Seq::<Term>::empty());
    assert(sum_terms(Seq::<Term>::empty(), y) == 0);
    assert(one.last() == Term { var: v1, coeff: c1 });
    assert(sum_terms(one, y) == c1 * y[v1 as int]);
}

/// `x` followed, per semester, by its load, the load's deviation from
/// `mean`, and that deviation's absolute value.
pub open spec fn with_balance(courses: Seq<Course>, x: Seq<int>, n_sem: int, mean: i64) -> Seq<int> {
    x + Seq::new((3 * n_sem) as nat, |j: int| {
        let l = load(courses, x, n_sem, j / 3, courses.len() as int);
        if j % 3 == 0 { l } else if j % 3 == 1 { l - mean } else if l - mean >= 0 { l - mean } else { mean - l }
    })
}

/// Completeness of stage two without GenEd rules: a valid placement of
/// total `min_credits`, extended by its loads and deviations, satisfies
/// the stage-two model, so that model excludes no valid schedule of that
/// total and its optimum is no worse balanced than any of them.
pub proof fn lemma_stage2_complete(ctx: ModelBuilderContext, m: Model, min_credits: i64, x: Seq<int>,
    lv: Seq<usize>, dv: Seq<usize>, av: Seq<usize>)
    requires
        pipeline_constraints(ctx, m),
        ctx.min_credits == Some(min_credits),
        ctx.model.domains@.len() == ctx.courses@.len() * ctx.num_semesters,
        !(ctx.toggles.geneds && ctx.geneds is Some),
        m.domains@.len() == ctx.courses@.len() * ctx.num_semesters + 3 * ctx.num_semesters,
        balance_encoded(m, (ctx.courses@.len() * ctx.num_semesters) as int, ctx.courses@, ctx.num_semesters as int,
            (min_credits as int / ctx.num_semesters as int) as i64, lv, dv, av),
        forall|k: int| 0 <= k < m.constraints@.len() ==> plain_allowed(ctx, #[trigger] m.constraints@[k])
            || is_some_balance(m.constraints@[k], ctx.courses@, ctx.num_semesters as int,
                (min_credits as int / ctx.num_semesters as int) as i64, (ctx.courses@.len() * ctx.num_semesters) as int),
        valid_placement(ctx, x),
        forall|s: int| 0 <= s < ctx.num_semesters ==> {
            let l = #[trigger] load(ctx.courses@, x, ctx.num_semesters as int, s, ctx.courses@.len() as int);
            let dev = l - (min_credits as int / ctx.num_semesters as int);
            NEG_LOAD_BOUND <= l <= LOAD_BOUND && NEG_LOAD_BOUND <= dev <= LOAD_BOUND
        },
    ensures
        satisfies(m, with_balance(ctx.courses@, x, ctx.num_semesters as int,
            (min_credits as int / ctx.num_semesters as int) as i64)),
{
    let n = ctx.courses@.len() as int;
    let n_sem = ctx.num_semesters as int;
    let nn = n * n_sem;
    let mean = (min_credits as int / n_sem) as i64;
    assert(mean as int == min_credits as int / n_sem) by {
        let t = min_credits as int;
        let q = t / n_sem;
        vstd::arithmetic::div_mod::lemma_fundamental_div_mod(t, n_sem);
        let r = t % n_sem;
        assert(0 <= r < n_sem);
        assert(i64::MIN <= q <= i64::MAX) by (nonlinear_arith)
            requires t == n_sem * q + r, 0 <= r < n_sem, n_sem >= 1, i64::MIN <= t <= i64::MAX;
    }
    let y = with_balance(ctx.courses@, x, n_sem, mean);
    assert forall|v: int| 0 <= v < x.len() implies #[trigger] y[v] == x[v] by {}
    assert forall|v: int| 0 <= v < y.len() implies m.domains@[v].0 <= #[trigger] y[v] <= m.domains@[v].1 by {
        if v < nn {
            assert(m.domains@[v] == (0i64, 1i64));
        } else {
            let j = v - nn;
            let s = j / 3;
            assert(0 <= s < n_sem && j == 3 * s + j % 3 && 0 <= j % 3 < 3);
            assert(lv[s] == nn + 3 * s);
            let l = load(ctx.courses@, x, n_sem, s, n);
            assert(NEG_LOAD_BOUND <= l <= LOAD_BOUND);
        }
    }
    assert forall|k: int| 0 <= k < m.constraints@.len() implies constraint_holds(#[trigger] m.constraints@[k], y) by {
        let c = m.constraints@[k];
        if plain_allowed(ctx, c) {
            lemma_plain_holds(ctx, c, x);
            lemma_sum_extended(c.expr.terms@, x, y);
        } else {
            let s = choose|s: int| 0 <= s < n_sem && #[trigger] is_balance_constraint(c, ctx.courses@, n_sem, mean, nn, s);
            let l = load(ctx.courses@, x, n_sem, s, n);
            let li = nn + 3 * s;
            assert(y[li] == l && y[li + 1] == l - mean && y[li + 2] == (if l - mean >= 0 { l - mean } else { mean - l })) by {
                assert((3 * s) / 3 == s && (3 * s) % 3 == 0);
                assert((3 * s + 1) / 3 == s && (3 * s + 1) % 3 == 1);
                assert((3 * s + 2) / 3 == s && (3 * s + 2) % 3 == 2);
            }
            let col = column_terms(ctx.courses@, n_sem, s, n);
            assert forall|j: int| 0 <= j < col.len() implies (#[trigger] col[j]).var < x.len() by {
                lemma_var_bound(j, s, n, n_sem);
            }
            lemma_sum_extended(col, x, y);
            lemma_column_value(ctx.courses@, x, n, n_sem, s, n);
            crate::linear::lemma_sum_terms_push(col, Term { var: li as usize, coeff: -1i64 }, y);
            let l_u = li as usize;
            let d_u = (li + 1) as usize;
            let a_u = (li + 2) as usize;
            assert(balance_encoded(m, nn, ctx.courses@, n_sem, mean, lv, dv, av));
            assert(lv[s] == nn + 3 * s);
            assert(lv[s] == li && dv[s] == li + 1 && av[s] == li + 2);
            assert(l_u as int == li && d_u as int == li + 1 && a_u as int == li + 2);
            if crate::linear::matches_shape(c, col.push(Term { var: l_u, coeff: -1i64 }), 0, Cmp::Eq, 0) {
                assert(sum_terms(col, y) == l);
                assert(constraint_holds(c, y));
            } else if crate::linear::matches_shape(c, pair(d_u, 1, l_u, -1i64), mean, Cmp::Eq, 0) {
                lemma_pair_value(d_u, 1, l_u, -1i64, y);
                assert(constraint_holds(c, y));
            } else if crate::linear::matches_shape(c, pair(a_u, 1, d_u, -1i64), 0, Cmp::Ge, 0) {
                lemma_pair_value(a_u, 1, d_u, -1i64, y);
                assert(constraint_holds(c, y));
            } else {
                lemma_pair_value(a_u, 1, d_u, 1, y);
                assert(constraint_holds(c, y));
            }
        }
    }
}

/// Stage two's optimum is the best balance among valid placements of its
/// total (models without GenEd rules): no such placement, extended by its
/// loads and deviations, has a smaller sum of absolute deviations.
pub proof fn lemma_stage2_optimum_balanced(ctx: ModelBuilderContext, m: Model, min_credits: i64, a: Seq<int>, x: Seq<int>,
    lv: Seq<usize>, dv: Seq<usize>, av: Seq<usize>)
    requires
        pipeline_constraints(ctx, m),
        ctx.min_credits == Some(min_credits),
        ctx.model.domains@.len() == ctx.courses@.len() * ctx.num_semesters,
        !(ctx.toggles.geneds && ctx.geneds is Some),
        m.domains@.len() == ctx.courses@.len() * ctx.num_semesters + 3 * ctx.num_semesters,
        balance_encoded(m, (ctx.courses@.len() * ctx.num_semesters) as int, ctx.courses@, ctx.num_semesters as int,
            (min_credits as int / ctx.num_semesters as int) as i64, lv, dv, av),
        forall|k: int| 0 <= k < m.constraints@.len() ==> plain_allowed(ctx, #[trigger] m.constraints@[k])
            || is_some_balance(m.constraints@[k], ctx.courses@, ctx.num_semesters as int,
                (min_credits as int / ctx.num_semesters as int) as i64, (ctx.courses@.len() * ctx.num_semesters) as int),
        valid_placement(ctx, x),
        forall|s: int| 0 <= s < ctx.num_semesters ==> {
            let l = #[trigger] load(ctx.courses@, x, ctx.num_semesters as int, s, ctx.courses@.len() as int);
            let dev = l - (min_credits as int / ctx.num_semesters as int);
            NEG_LOAD_BOUND <= l <= LOAD_BOUND && NEG_LOAD_BOUND <= dev <= LOAD_BOUND
        },
        is_optimal(m, a),
    ensures
        expr_value(m.objective, a) <= expr_value(m.objective, with_balance(ctx.courses@, x, ctx.num_semesters as int,
            (min_credits as int / ctx.num_semesters as int) as i64)),
{
    lemma_stage2_complete(ctx, m, min_credits, x, lv, dv, av);
}

} // verus!
