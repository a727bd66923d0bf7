//! The decision matrix, the "scheduled at most once" rows and the
//! per-semester credit cap.
use vstd::prelude::*;
use crate::catalog::{Course, CourseCode, GenEd};
use crate::linear::{add_constraint, has, lemma_has_kept, Cmp, Constraint, LinExpr, Model, Term};

verus! {

/// Which constraint groups are compiled into the model.
#[derive(Clone, Copy, Debug, PartialEq, Eq)]
pub struct Toggles {
    pub prereqs: bool,
    pub geneds: bool,
    pub semester_limit: bool,
}

/// Everything one solve needs: the live model, the catalog data it is built
/// from and the active constraint groups. Variable `i * num_semesters + s`
/// is true iff course `i` occupies semester `s`.
#[derive(Clone, Debug)]
pub struct ModelBuilderContext<'a> {
    pub model: Model,
    pub courses: &'a Vec<Course>,
    pub num_semesters: usize,
    pub max_credits_per_semester: i64,
    /// Edges `(before, after)`.
    pub prereqs: &'a Vec<(CourseCode, CourseCode)>,
    pub geneds: Option<&'a Vec<GenEd>>,
    pub toggles: Toggles,
    /// Total scheduled credits that the model must meet exactly.
    pub min_credits: Option<i64>,
}

pub open spec fn var_of(i: int, s: int, n_sem: int) -> int {
    i * n_sem + s
}

/// The row of course `i`, semesters `0..k`.
pub open spec fn row_terms(i: int, n_sem: int, k: int) -> Seq<Term> {
    Seq::new(k as nat, |s: int| Term { var: var_of(i, s, n_sem) as usize, coeff: 1 })
}

/// The credit-weighted column of semester `s`, courses `0..k`.
pub open spec fn column_terms(courses: Seq<Course>, n_sem: int, s: int, k: int) -> Seq<Term> {
    Seq::new(k as nat, |i: int| Term { var: var_of(i, s, n_sem) as usize, coeff: courses[i].credits })
}

/// Every course and semester, course-major.
pub open spec fn all_terms(courses: Seq<Course>, n_sem: int, k: int) -> Seq<Term> {
    Seq::new(k as nat, |v: int| Term { var: v as usize, coeff: courses[v / n_sem].credits })
}

/// `e` is the "in-schedule" expression of course `i`.
pub open spec fn is_in_schedule(e: LinExpr, i: int, n_sem: int) -> bool {
    e.terms@ == row_terms(i, n_sem, n_sem) && e.constant == 0
}

pub open spec fn is_row_constraint(c: Constraint, i: int, n_sem: int) -> bool {
    is_in_schedule(c.expr, i, n_sem) && c.cmp == Cmp::Le && c.rhs == 1
}

/// `c` says that some required course is scheduled.
pub open spec fn is_required_row(c: Constraint, courses: Seq<Course>, n_sem: int) -> bool {
    exists|i: int| 0 <= i < courses.len() && (#[trigger] courses[i]).required
        && c.expr.terms@ == row_terms(i, n_sem, n_sem) && c.expr.constant == 0 && c.cmp == Cmp::Ge && c.rhs == 1
}

pub open spec fn is_cap_constraint(c: Constraint, courses: Seq<Course>, n_sem: int, s: int, max: i64) -> bool {
    &&& c.expr.terms@ == column_terms(courses, n_sem, s, courses.len() as int)
    &&& c.expr.constant == 0
    &&& c.cmp == Cmp::Le
    &&& c.rhs == max
}

/// `new` is `old` followed by `count` more constraints.
pub open spec fn extends(old: Seq<Constraint>, new: Seq<Constraint>, count: int) -> bool {
    new.len() == old.len() + count && new.subrange(0, old.len() as int) == old
}

/// Most decision variables a model may have: the backend numbers its
/// variables in 32 bits.
pub const VAR_LIMIT: usize = 0x7fff_ffff;

/// The decision matrix fits the backend and has at least one semester.
pub open spec fn dims_ok(n: int, n_sem: int) -> bool {
    n * n_sem <= VAR_LIMIT && n_sem > 0
}

/// The model starts with the decision matrix, all boolean.
pub open spec fn matrix_ok(m: Model, n: int, n_sem: int) -> bool {
    &&& dims_ok(n, n_sem)
    &&& m.domains@.len() >= n * n_sem
    &&& forall|v: int| 0 <= v < n * n_sem ==> #[trigger] m.domains@[v] == (0i64, 1i64)
}

pub open spec fn ctx_ok(ctx: ModelBuilderContext) -> bool {
    matrix_ok(ctx.model, ctx.courses@.len() as int, ctx.num_semesters as int)
}

pub proof fn lemma_var_bound(i: int, s: int, n: int, n_sem: int)
    requires
        0 <= i < n,
        0 <= s < n_sem,
    ensures
        0 <= var_of(i, s, n_sem) < n * n_sem,
{
    assert(i * n_sem + s < n * n_sem) by (nonlinear_arith)
        requires 0 <= i < n, 0 <= s < n_sem;
    assert(0 <= i * n_sem) by (nonlinear_arith)
        requires 0 <= i, 0 <= s < n_sem;
}

/// The "in-schedule" expression of course `i`: the sum of its row.
pub fn in_schedule_expr(i: usize, n: usize, n_sem: usize) -> (e: LinExpr)
    requires
        i < n,
        dims_ok(n as int, n_sem as int),
    ensures
        is_in_schedule(e, i as int, n_sem as int),
{
    let mut terms: Vec<Term> = Vec::new();
    let mut s: usize = 0;
    while s < n_sem
        invariant
            i < n,
            dims_ok(n as int, n_sem as int),
            s <= n_sem,
            terms@ == row_terms(i as int, n_sem as int, s as int),
        decreases n_sem - s,
    {
        proof { lemma_var_bound(i as int, s as int, n as int, n_sem as int); }
        terms.push(Term { var: i * n_sem + s, coeff: 1 });
        s = s + 1;
        assert(terms@ =~= row_terms(i as int, n_sem as int, s as int));
    }
    LinExpr { terms, constant: 0 }
}

impl<'a> ModelBuilderContext<'a> {
    /// A fresh context whose model holds the boolean decision matrix and
    /// nothing else.
    pub fn new_with_toggles(
        courses: &'a Vec<Course>,
        num_semesters: usize,
        max_credits_per_semester: i64,
        prereqs: &'a Vec<(CourseCode, CourseCode)>,
        geneds: Option<&'a Vec<GenEd>>,
        toggles: Toggles,
    ) -> (ctx: Self)
        requires
            dims_ok(courses@.len() as int, num_semesters as int),
        ensures
            ctx_ok(ctx),
            ctx.courses == courses,
            ctx.num_semesters == num_semesters,
            ctx.max_credits_per_semester == max_credits_per_semester,
            ctx.prereqs == prereqs,
            ctx.geneds == geneds,
            ctx.toggles == toggles,
            ctx.min_credits is None,
            ctx.model.domains@.len() == courses@.len() * num_semesters,
            ctx.model.constraints@.len() == 0,
            ctx.model.objective.terms@.len() == 0,
            ctx.model.objective.constant == 0,
    {
        let total = courses.len() * num_semesters;
        let mut domains: Vec<(i64, i64)> = Vec::new();
        let mut v: usize = 0;
        while v < total
            invariant
                v <= total,
                domains@.len() == v,
                forall|w: int| 0 <= w < v ==> #[trigger] domains@[w] == (0i64, 1i64),
            decreases total - v,
        {
            domains.push((0, 1));
            v = v + 1;
        }
        let model = Model {
            domains,
            constraints: Vec::new(),
            objective: LinExpr { terms: Vec::new(), constant: 0 },
        };
        ModelBuilderContext {
            model,
            courses,
            num_semesters,
            max_credits_per_semester,
            prereqs,
            geneds,
            toggles,
            min_credits: None,
        }
    }

    /// Sets the exact total that the model's scheduled credits must meet.
    pub fn set_min_credits(&mut self, min_credits: i64)
        ensures
            *final(self) == (ModelBuilderContext { min_credits: Some(min_credits), ..*old(self) }),
    {
        self.min_credits = Some(min_credits);
    }

    /// The credit-weighted sum over the whole decision matrix.
    pub fn total_credits_expr(&self) -> (e: LinExpr)
        requires
            dims_ok(self.courses@.len() as int, self.num_semesters as int),
        ensures
            e.constant == 0,
            e.terms@ == all_terms(self.courses@, self.num_semesters as int,
                self.courses@.len() * self.num_semesters),
    {
        let n = self.courses.len();
        let n_sem = self.num_semesters;
        let mut terms: Vec<Term> = Vec::new();
        let mut i: usize = 0;
        while i < n
            invariant
                n == self.courses@.len(),
                n_sem == self.num_semesters,
                dims_ok(n as int, n_sem as int),
                i <= n,
                terms@ == all_terms(self.courses@, n_sem as int, i * n_sem),
            decreases n - i,
        {
            let mut s: usize = 0;
            while s < n_sem
                invariant
                    n == self.courses@.len(),
                    n_sem == self.num_semesters,
                    dims_ok(n as int, n_sem as int),
                    i < n,
                    s <= n_sem,
                    terms@ == all_terms(self.courses@, n_sem as int, i * n_sem + s),
                decreases n_sem - s,
            {
                proof {
                    lemma_var_bound(i as int, s as int, n as int, n_sem as int);
                    assert((i * n_sem + s) / (n_sem as int) == i) by (nonlinear_arith)
                        requires 0 <= s < n_sem, 0 <= i;
                }
                terms.push(Term { var: i * n_sem + s, coeff: self.courses[i].credits });
                s = s + 1;
                assert(terms@ =~= all_terms(self.courses@, n_sem as int, i * n_sem + s));
            }
            assert(i * n_sem + n_sem == (i + 1) * n_sem) by (nonlinear_arith);
            i = i + 1;
        }
        LinExpr { terms, constant: 0 }
    }
}

/// Adds, for every course, "its row sums to at most one", then, for every
/// required course, "its row sums to at least one".
pub fn add_course_constraints(ctx: &mut ModelBuilderContext)
    requires
        ctx_ok(*old(ctx)),
    ensures
        *final(ctx) == (ModelBuilderContext { model: final(ctx).model, ..*old(ctx) }),
        final(ctx).model.domains@ == old(ctx).model.domains@,
        final(ctx).model.objective == old(ctx).model.objective,
        final(ctx).model.constraints@.len() >= old(ctx).model.constraints@.len() + old(ctx).courses@.len(),
        extends(old(ctx).model.constraints@, final(ctx).model.constraints@,
            final(ctx).model.constraints@.len() - old(ctx).model.constraints@.len()),
        forall|i: int| 0 <= i < old(ctx).courses@.len() ==> is_row_constraint(
            #[trigger] final(ctx).model.constraints@[old(ctx).model.constraints@.len() + i], i,
            old(ctx).num_semesters as int),
        forall|i: int| 0 <= i < old(ctx).courses@.len() && (#[trigger] old(ctx).courses@[i]).required
            ==> has(final(ctx).model.constraints@, row_terms(i, old(ctx).num_semesters as int, old(ctx).num_semesters as int), 0, Cmp::Ge, 1),
        forall|k: int| old(ctx).model.constraints@.len() + old(ctx).courses@.len() <= k < final(ctx).model.constraints@.len()
            ==> is_required_row(#[trigger] final(ctx).model.constraints@[k], old(ctx).courses@, old(ctx).num_semesters as int),
{
    let ghost c0 = ctx.model.constraints@;
    let n = ctx.courses.len();
    let n_sem = ctx.num_semesters;
    let mut i: usize = 0;
    assert(c0.subrange(0, c0.len() as int) =~= c0);
    while i < n
        invariant
            n == ctx.courses@.len(),
            n_sem == ctx.num_semesters,
            ctx_ok(*ctx),
            *ctx == (ModelBuilderContext { model: ctx.model, ..*old(ctx) }),
            ctx.model.domains@ == old(ctx).model.domains@,
            ctx.model.objective == old(ctx).model.objective,
            c0 == old(ctx).model.constraints@,
            i <= n,
            extends(c0, ctx.model.constraints@, i as int),
            forall|k: int| 0 <= k < i ==> is_row_constraint(#[trigger] ctx.model.constraints@[c0.len() + k], k, n_sem as int),
        decreases n - i,
    {
        let e = in_schedule_expr(i, n, n_sem);
        add_constraint(&mut ctx.model, e, Cmp::Le, 1);
        i = i + 1;
        assert(ctx.model.constraints@.subrange(0, c0.len() as int) =~= c0);
    }
    let ghost c1 = ctx.model.constraints@;
    let mut i: usize = 0;
    while i < n
        invariant
            n == ctx.courses@.len(),
            n_sem == ctx.num_semesters,
            ctx_ok(*ctx),
            *ctx == (ModelBuilderContext { model: ctx.model, ..*old(ctx) }),
            ctx.model.domains@ == old(ctx).model.domains@,
            ctx.model.objective == old(ctx).model.objective,
            c0 == old(ctx).model.constraints@,
            c1.len() == c0.len() + n,
            forall|k: int| 0 <= k < n ==> is_row_constraint(#[trigger] c1[c0.len() + k], k, n_sem as int),
            c1.subrange(0, c0.len() as int) == c0,
            i <= n,
            ctx.model.constraints@.len() >= c1.len(),
            ctx.model.constraints@.subrange(0, c1.len() as int) == c1,
            forall|k: int| 0 <= k < i && (#[trigger] ctx.courses@[k]).required
                ==> has(ctx.model.constraints@, row_terms(k, n_sem as int, n_sem as int), 0, Cmp::Ge, 1),
            forall|k: int| c1.len() <= k < ctx.model.constraints@.len()
                ==> is_required_row(#[trigger] ctx.model.constraints@[k], ctx.courses@, n_sem as int),
        decreases n - i,
    {
        if ctx.courses[i].required {
            let ghost cb = ctx.model.constraints@;
            let e = in_schedule_expr(i, n, n_sem);
            add_constraint(&mut ctx.model, e, Cmp::Ge, 1);
            proof {
                assert(ctx.model.constraints@.subrange(0, c1.len() as int) =~= cb.subrange(0, c1.len() as int));
                assert forall|k: int| c1.len() <= k < ctx.model.constraints@.len()
                    implies is_required_row(#[trigger] ctx.model.constraints@[k], ctx.courses@, n_sem as int) by {
                    if k < cb.len() {
                        assert(ctx.model.constraints@[k] == cb[k]);
                    } else {
                        assert(ctx.courses@[i as int].required);
                    }
                }
                assert forall|k: int| 0 <= k < i && (#[trigger] ctx.courses@[k]).required
                    implies has(ctx.model.constraints@, row_terms(k, n_sem as int, n_sem as int), 0, Cmp::Ge, 1) by {
                    lemma_has_kept(cb, ctx.model.constraints@, row_terms(k, n_sem as int, n_sem as int), 0, Cmp::Ge, 1);
                }
            }
        }
        i = i + 1;
    }
    proof {
        let cf = ctx.model.constraints@;
        assert(cf.subrange(0, c0.len() as int) =~= c1.subrange(0, c0.len() as int));
        assert forall|k: int| 0 <= k < n implies is_row_constraint(#[trigger] cf[c0.len() + k], k, n_sem as int) by {
            assert(cf[c0.len() + k] == cf.subrange(0, c1.len() as int)[c0.len() + k]);
        }
    }
}

/// Adds, when the semester limit is on, "each semester's credit-weighted sum
/// is at most `max_credits_per_semester`".
pub fn add_semester_constraints(ctx: &mut ModelBuilderContext)
    requires
        ctx_ok(*old(ctx)),
    ensures
        *final(ctx) == (ModelBuilderContext { model: final(ctx).model, ..*old(ctx) }),
        final(ctx).model.domains@ == old(ctx).model.domains@,
        final(ctx).model.objective == old(ctx).model.objective,
        extends(old(ctx).model.constraints@, final(ctx).model.constraints@,
            if old(ctx).toggles.semester_limit { old(ctx).num_semesters as int } else { 0 }),
        old(ctx).toggles.semester_limit ==> forall|s: int| 0 <= s < old(ctx).num_semesters ==> is_cap_constraint(
            #[trigger] final(ctx).model.constraints@[old(ctx).model.constraints@.len() + s], old(ctx).courses@,
            old(ctx).num_semesters as int, s, old(ctx).max_credits_per_semester),
{
    if !ctx.toggles.semester_limit {
        assert(ctx.model.constraints@.subrange(0, ctx.model.constraints@.len() as int) =~= ctx.model.constraints@);
        return;
    }
    let ghost c0 = ctx.model.constraints@;
    let n = ctx.courses.len();
    let n_sem = ctx.num_semesters;
    let max = ctx.max_credits_per_semester;
    let mut s: usize = 0;
    assert(c0.subrange(0, c0.len() as int) =~= c0);
    while s < n_sem
        invariant
            n == ctx.courses@.len(),
            n_sem == ctx.num_semesters,
            max == ctx.max_credits_per_semester,
            ctx_ok(*ctx),
            *ctx == (ModelBuilderContext { model: ctx.model, ..*old(ctx) }),
            ctx.model.domains@ == old(ctx).model.domains@,
            ctx.model.objective == old(ctx).model.objective,
            c0 == old(ctx).model.constraints@,
            s <= n_sem,
            extends(c0, ctx.model.constraints@, s as int),
            forall|k: int| 0 <= k < s ==> is_cap_constraint(#[trigger] ctx.model.constraints@[c0.len() + k],
                ctx.courses@, n_sem as int, k, max),
        decreases n_sem - s,
    {
        let mut terms: Vec<Term> = Vec::new();
        let mut i: usize = 0;
        while i < n
            invariant
                n == ctx.courses@.len(),
                n_sem == ctx.num_semesters,
                ctx_ok(*ctx),
                s < n_sem,
                i <= n,
                terms@ == column_terms(ctx.courses@, n_sem as int, s as int, i as int),
            decreases n - i,
        {
            proof { lemma_var_bound(i as int, s as int, n as int, n_sem as int); }
            terms.push(Term { var: i * n_sem + s, coeff: ctx.courses[i].credits });
            i = i + 1;
            assert(terms@ =~= column_terms(ctx.courses@, n_sem as int, s as int, i as int));
        }
        add_constraint(&mut ctx.model, LinExpr { terms, constant: 0 }, Cmp::Le, max);
        s = s + 1;
        assert(ctx.model.constraints@.subrange(0, c0.len() as int) =~= c0);
    }
}

} // verus!
