//! Prerequisite ordering: a course may occupy semester `s` only if its
//! prerequisite occupies an earlier one.
use vstd::prelude::*;
use crate::catalog::{find_course, Course, CourseCode};
use crate::context::{ctx_ok, extends, lemma_var_bound, var_of, ModelBuilderContext};
use crate::linear::{add_constraint, Cmp, Constraint, LinExpr, Term};

verus! {

/// `x[after][s] - sum(t < k) x[before][t]`.
pub open spec fn prereq_terms(before: int, after: int, n_sem: int, s: int, k: int) -> Seq<Term> {
    seq![Term { var: var_of(after, s, n_sem) as usize, coeff: 1 }] + Seq::new(k as nat, |t: int|
        Term { var: var_of(before, t, n_sem) as usize, coeff: -1i64 })
}

/// `c` says: course `after` in semester `s` needs course `before` in a
/// semester below `s`.
pub open spec fn is_prereq_constraint(c: Constraint, before: int, after: int, n_sem: int, s: int) -> bool {
    &&& c.expr.terms@ == prereq_terms(before, after, n_sem, s, s)
    &&& c.expr.constant == 0
    &&& c.cmp == Cmp::Le
    &&& c.rhs == 0
}

/// Some constraint of `cs` orders `before` ahead of `after` at semester `s`.
pub open spec fn has_prereq(cs: Seq<Constraint>, before: int, after: int, n_sem: int, s: int) -> bool {
    exists|k: int| 0 <= k < cs.len() && is_prereq_constraint(#[trigger] cs[k], before, after, n_sem, s)
}

/// `c` is the ordering constraint, at some semester, of the two courses of
/// some edge.
pub open spec fn is_some_prereq(c: Constraint, courses: Seq<Course>, n_sem: int, edges: Seq<(CourseCode, CourseCode)>) -> bool {
    exists|e: int, b: int, f: int, s: int| 0 <= e < edges.len() && 0 <= b < courses.len() && 0 <= f < courses.len() && 0 <= s < n_sem
        && courses[b].code == edges[e].0 && courses[f].code == edges[e].1
        && is_prereq_constraint(c, b, f, n_sem, s)
}

/// No two courses share a code.
pub open spec fn codes_unique(courses: Seq<Course>) -> bool {
    forall|i: int, j: int| 0 <= i < courses.len() && 0 <= j < courses.len() && i != j
        ==> courses[i].code != courses[j].code
}

/// Adds, when prerequisites are on, the ordering constraints of every edge
/// whose two courses are both in the course list. An edge naming a course
/// that is not in the list is skipped; the course list is the active set of
/// courses, so a course outside it is one that no requirement needs here.
pub fn add_prereq_constraints(ctx: &mut ModelBuilderContext)
    requires
        ctx_ok(*old(ctx)),
        codes_unique(old(ctx).courses@),
    ensures
        *final(ctx) == (ModelBuilderContext { model: final(ctx).model, ..*old(ctx) }),
        final(ctx).model.domains@ == old(ctx).model.domains@,
        final(ctx).model.objective == old(ctx).model.objective,
        final(ctx).model.constraints@.len() >= old(ctx).model.constraints@.len(),
        extends(old(ctx).model.constraints@, final(ctx).model.constraints@,
            final(ctx).model.constraints@.len() - old(ctx).model.constraints@.len()),
        !old(ctx).toggles.prereqs ==> final(ctx).model.constraints@ == old(ctx).model.constraints@,
        old(ctx).toggles.prereqs ==> forall|e: int, b: int, f: int, s: int|
            #![trigger has_prereq(final(ctx).model.constraints@, b, f, old(ctx).num_semesters as int, s), old(ctx).prereqs@[e]]
            0 <= e < old(ctx).prereqs@.len() && 0 <= b < old(ctx).courses@.len() && 0 <= f < old(ctx).courses@.len()
            && 0 <= s < old(ctx).num_semesters
            && old(ctx).courses@[b].code == old(ctx).prereqs@[e].0 && old(ctx).courses@[f].code == old(ctx).prereqs@[e].1
            ==> has_prereq(final(ctx).model.constraints@, b, f, old(ctx).num_semesters as int, s),
        forall|k: int| old(ctx).model.constraints@.len() <= k < final(ctx).model.constraints@.len()
            ==> is_some_prereq(#[trigger] final(ctx).model.constraints@[k], old(ctx).courses@,
                old(ctx).num_semesters as int, old(ctx).prereqs@),
{
    let ghost c0 = ctx.model.constraints@;
    assert(c0.subrange(0, c0.len() as int) =~= c0);
    if !ctx.toggles.prereqs {
        return;
    }
    let n = ctx.courses.len();
    let n_sem = ctx.num_semesters;
    let mut e: usize = 0;
    while e < ctx.prereqs.len()
        invariant
            n == ctx.courses@.len(),
            n_sem == ctx.num_semesters,
            ctx_ok(*ctx),
            codes_unique(ctx.courses@),
            ctx.toggles.prereqs,
            *ctx == (ModelBuilderContext { model: ctx.model, ..*old(ctx) }),
            ctx.model.domains@ == old(ctx).model.domains@,
            ctx.model.objective == old(ctx).model.objective,
            c0 == old(ctx).model.constraints@,
            e <= ctx.prereqs@.len(),
            ctx.model.constraints@.len() >= c0.len(),
            extends(c0, ctx.model.constraints@, ctx.model.constraints@.len() - c0.len()),
            forall|e2: int, b: int, f: int, s: int|
                #![trigger has_prereq(ctx.model.constraints@, b, f, n_sem as int, s), ctx.prereqs@[e2]]
                0 <= e2 < e && 0 <= b < n && 0 <= f < n && 0 <= s < n_sem
                && ctx.courses@[b].code == ctx.prereqs@[e2].0 && ctx.courses@[f].code == ctx.prereqs@[e2].1
                ==> has_prereq(ctx.model.constraints@, b, f, n_sem as int, s),
            forall|k: int| c0.len() <= k < ctx.model.constraints@.len()
                ==> is_some_prereq(#[trigger] ctx.model.constraints@[k], ctx.courses@, n_sem as int, ctx.prereqs@),
        decreases ctx.prereqs@.len() - e,
    {
        let (before_code, after_code) = ctx.prereqs[e];
        let ob = find_course(ctx.courses, before_code);
        let of = find_course(ctx.courses, after_code);
        if let (Some(b), Some(f)) = (ob, of) {
            let ghost start = ctx.model.constraints@.len();
            let ghost snap = ctx.model.constraints@;
            let mut s: usize = 0;
            while s < n_sem
                invariant
                    n == ctx.courses@.len(),
                    n_sem == ctx.num_semesters,
                    ctx_ok(*ctx),
                    b < n,
                    f < n,
                    *ctx == (ModelBuilderContext { model: ctx.model, ..*old(ctx) }),
                    ctx.model.domains@ == old(ctx).model.domains@,
                    ctx.model.objective == old(ctx).model.objective,
                    c0 == old(ctx).model.constraints@,
                    s <= n_sem,
                    e < ctx.prereqs@.len(),
                    ctx.courses@[b as int].code == ctx.prereqs@[e as int].0,
                    ctx.courses@[f as int].code == ctx.prereqs@[e as int].1,
                    start >= c0.len(),
                    ctx.model.constraints@.len() == start + s,
                    extends(c0, ctx.model.constraints@, ctx.model.constraints@.len() - c0.len()),
                    forall|t: int| 0 <= t < s ==> #[trigger] is_prereq_constraint(
                        ctx.model.constraints@[start + t], b as int, f as int, n_sem as int, t),
                    snap.len() == start,
                    forall|k: int| 0 <= k < start ==> ctx.model.constraints@[k] == snap[k],
                    forall|k: int| c0.len() <= k < ctx.model.constraints@.len()
                        ==> is_some_prereq(#[trigger] ctx.model.constraints@[k], ctx.courses@, n_sem as int, ctx.prereqs@),
                decreases n_sem - s,
            {
                let mut terms: Vec<Term> = Vec::new();
                proof { lemma_var_bound(f as int, s as int, n as int, n_sem as int); }
                terms.push(Term { var: f * n_sem + s, coeff: 1 });
                let mut t: usize = 0;
                while t < s
                    invariant
                        n == ctx.courses@.len(),
                        n_sem == ctx.num_semesters,
                        ctx_ok(*ctx),
                        b < n,
                        f < n,
                        t <= s < n_sem,
                        terms@ == prereq_terms(b as int, f as int, n_sem as int, s as int, t as int),
                    decreases s - t,
                {
                    proof { lemma_var_bound(b as int, t as int, n as int, n_sem as int); }
                    terms.push(Term { var: b * n_sem + t, coeff: -1i64 });
                    t = t + 1;
                    assert(terms@ =~= prereq_terms(b as int, f as int, n_sem as int, s as int, t as int));
                }
                let ghost before_push = ctx.model.constraints@;
                add_constraint(&mut ctx.model, LinExpr { terms, constant: 0 }, Cmp::Le, 0);
                proof {
                    assert(ctx.model.constraints@.subrange(0, c0.len() as int) =~= before_push.subrange(0, c0.len() as int));
                    assert forall|k: int| c0.len() <= k < ctx.model.constraints@.len()
                        implies is_some_prereq(#[trigger] ctx.model.constraints@[k], ctx.courses@, n_sem as int, ctx.prereqs@) by {
                        if k < before_push.len() {
                            assert(ctx.model.constraints@[k] == before_push[k]);
                        } else {
                            assert(is_prereq_constraint(ctx.model.constraints@[k], b as int, f as int, n_sem as int, s as int));
                            assert(ctx.courses@[b as int].code == ctx.prereqs@[e as int].0);
                        }
                    }
                }
                s = s + 1;
            }
            proof {
                assert forall|e2: int, b2: int, f2: int, s2: int|
                    #![trigger has_prereq(ctx.model.constraints@, b2, f2, n_sem as int, s2), ctx.prereqs@[e2]]
                    0 <= e2 < e + 1 && 0 <= b2 < n && 0 <= f2 < n && 0 <= s2 < n_sem
                    && ctx.courses@[b2].code == ctx.prereqs@[e2].0 && ctx.courses@[f2].code == ctx.prereqs@[e2].1
                    implies has_prereq(ctx.model.constraints@, b2, f2, n_sem as int, s2) by {
                    if e2 == e {
                        assert(b2 == b && f2 == f);
                        assert(is_prereq_constraint(ctx.model.constraints@[start + s2], b2, f2, n_sem as int, s2));
                    } else {
                        assert(has_prereq(snap, b2, f2, n_sem as int, s2));
                        let k = choose|k: int| 0 <= k < snap.len()
                            && is_prereq_constraint(#[trigger] snap[k], b2, f2, n_sem as int, s2);
                        assert(ctx.model.constraints@[k] == snap[k]);
                    }
                }
            }
        }
        e = e + 1;
    }
}

} // verus!
