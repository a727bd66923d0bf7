//! Assembles the active constraint groups into one model.
use vstd::prelude::*;
use crate::catalog::Course;
use crate::context::{
    add_course_constraints, add_semester_constraints, all_terms, column_terms, ctx_ok, extends,
    is_cap_constraint, is_required_row, is_row_constraint, matrix_ok, row_terms, ModelBuilderContext,
};
use crate::geneds::{add_gened_constraints, extends_model, geneds_encoded, geneds_ok, grows, lemma_grows_refl, lemma_grows_trans};
use crate::linear::{add_constraint, has, lemma_has_kept, matches_shape, Cmp, Model};
use crate::prereqs::{add_prereq_constraints, codes_unique, has_prereq, is_prereq_constraint, is_some_prereq};

verus! {

/// The context's data may be compiled: the matrix fits, codes are unique and
/// the GenEd lists fit.
pub open spec fn ctx_ready(ctx: ModelBuilderContext) -> bool {
    &&& ctx_ok(ctx)
    &&& codes_unique(ctx.courses@)
    &&& ctx.geneds matches Some(gs) ==> geneds_ok(gs@, ctx.courses@.len() as int)
}

/// Every prerequisite edge whose two courses are listed orders them.
pub open spec fn prereqs_encoded(cs: Seq<crate::linear::Constraint>, courses: Seq<Course>, n_sem: int, edges: Seq<(u64, u64)>) -> bool {
    forall|e: int, b: int, f: int, s: int| #![trigger has_prereq(cs, b, f, n_sem, s), edges[e]]
        0 <= e < edges.len() && 0 <= b < courses.len() && 0 <= f < courses.len() && 0 <= s < n_sem
        && courses[b].code == edges[e].0 && courses[f].code == edges[e].1
        ==> has_prereq(cs, b, f, n_sem, s)
}

/// The model that `build_model_pipeline` compiles from `ctx`.
pub open spec fn pipeline_encoded(ctx: ModelBuilderContext, m: Model) -> bool {
    let n = ctx.courses@.len() as int;
    let n_sem = ctx.num_semesters as int;
    &&& pipeline_constraints(ctx, m)
    &&& pipeline_exact(ctx, m)
    &&& m.objective.terms@ == all_terms(ctx.courses@, n_sem, n * n_sem)
    &&& m.objective.constant == 0
}

/// The constraints that `build_model_pipeline` compiles from `ctx`.
pub open spec fn pipeline_constraints(ctx: ModelBuilderContext, m: Model) -> bool {
    let n = ctx.courses@.len() as int;
    let n_sem = ctx.num_semesters as int;
    &&& matrix_ok(m, n, n_sem)
    &&& forall|i: int| 0 <= i < n ==> #[trigger] has(m.constraints@, row_terms(i, n_sem, n_sem), 0, Cmp::Le, 1)
    &&& forall|i: int| 0 <= i < n && (#[trigger] ctx.courses@[i]).required
        ==> has(m.constraints@, row_terms(i, n_sem, n_sem), 0, Cmp::Ge, 1)
    &&& ctx.toggles.semester_limit ==> forall|s: int| 0 <= s < n_sem ==> #[trigger] has(m.constraints@,
        column_terms(ctx.courses@, n_sem, s, n), 0, Cmp::Le, ctx.max_credits_per_semester)
    &&& ctx.toggles.prereqs ==> prereqs_encoded(m.constraints@, ctx.courses@, n_sem, ctx.prereqs@)
    &&& ctx.toggles.geneds ==> (ctx.geneds matches Some(gs) ==> geneds_encoded(ctx.model, m, ctx.courses@, n_sem, gs@))
    &&& ctx.min_credits matches Some(t) ==> has(m.constraints@, all_terms(ctx.courses@, n_sem, n * n_sem), 0, Cmp::Eq, t)
}

/// `c` is one of the constraints that the course, semester, prerequisite
/// and total-credit groups of `ctx` compile.
pub open spec fn plain_allowed(ctx: ModelBuilderContext, c: crate::linear::Constraint) -> bool {
    let n = ctx.courses@.len() as int;
    let n_sem = ctx.num_semesters as int;
    ||| exists|i: int| 0 <= i < n && #[trigger] is_row_constraint(c, i, n_sem)
    ||| is_required_row(c, ctx.courses@, n_sem)
    ||| ctx.toggles.semester_limit && exists|s: int| 0 <= s < n_sem
        && #[trigger] is_cap_constraint(c, ctx.courses@, n_sem, s, ctx.max_credits_per_semester)
    ||| ctx.toggles.prereqs && is_some_prereq(c, ctx.courses@, n_sem, ctx.prereqs@)
    ||| (ctx.min_credits matches Some(t) && matches_shape(c, all_terms(ctx.courses@, n_sem, n * n_sem), 0, Cmp::Eq, t))
}

/// Compiled from a fresh context without GenEd rules, the model holds the
/// decision matrix and no constraint but the ones `plain_allowed` names.
pub open spec fn pipeline_exact(ctx: ModelBuilderContext, m: Model) -> bool {
    let n = ctx.courses@.len() as int;
    let n_sem = ctx.num_semesters as int;
    ctx.model.constraints@.len() == 0 && ctx.model.domains@.len() == n * n_sem
        && !(ctx.toggles.geneds && ctx.geneds is Some)
        ==> m.domains@.len() == n * n_sem
            && forall|k: int| 0 <= k < m.constraints@.len() ==> plain_allowed(ctx, #[trigger] m.constraints@[k])
}

/// Extending a model keeps what the pipeline compiled into it.
pub proof fn lemma_pipeline_kept(ctx: ModelBuilderContext, m1: Model, m2: Model)
    requires
        pipeline_constraints(ctx, m1),
        extends_model(m1, m2),
    ensures
        pipeline_constraints(ctx, m2),
{
    let n = ctx.courses@.len() as int;
    let n_sem = ctx.num_semesters as int;
    assert forall|v: int| 0 <= v < n * n_sem implies #[trigger] m2.domains@[v] == (0i64, 1i64) by {
        assert(m2.domains@[v] == m2.domains@.subrange(0, m1.domains@.len() as int)[v]);
    }
    assert forall|i: int| 0 <= i < n implies #[trigger] has(m2.constraints@, row_terms(i, n_sem, n_sem), 0, Cmp::Le, 1) by {
        lemma_has_kept(m1.constraints@, m2.constraints@, row_terms(i, n_sem, n_sem), 0, Cmp::Le, 1);
    }
    assert forall|i: int| 0 <= i < n && (#[trigger] ctx.courses@[i]).required
        implies has(m2.constraints@, row_terms(i, n_sem, n_sem), 0, Cmp::Ge, 1) by {
        lemma_has_kept(m1.constraints@, m2.constraints@, row_terms(i, n_sem, n_sem), 0, Cmp::Ge, 1);
    }
    if ctx.toggles.semester_limit {
        assert forall|s: int| 0 <= s < n_sem implies #[trigger] has(m2.constraints@,
            column_terms(ctx.courses@, n_sem, s, n), 0, Cmp::Le, ctx.max_credits_per_semester) by {
            lemma_has_kept(m1.constraints@, m2.constraints@, column_terms(ctx.courses@, n_sem, s, n), 0, Cmp::Le, ctx.max_credits_per_semester);
        }
    }
    if ctx.toggles.prereqs {
        lemma_prereqs_kept(m1, m2, ctx.courses@, n_sem, ctx.prereqs@);
    }
    if let Some(t) = ctx.min_credits {
        lemma_has_kept(m1.constraints@, m2.constraints@, all_terms(ctx.courses@, n_sem, n * n_sem), 0, Cmp::Eq, t);
    }
    if ctx.toggles.geneds {
        if let Some(gs) = ctx.geneds {
            let m0 = ctx.model;
            crate::geneds::lemma_geneds_widen_ext(m0, m1, m2, ctx.courses@, n_sem, gs@);
        }
    }
}

proof fn lemma_same_domains_grows(m0: Model, m1: Model)
    requires
        m1.domains@ == m0.domains@,
        m1.constraints@.len() >= m0.constraints@.len(),
        extends(m0.constraints@, m1.constraints@, m1.constraints@.len() - m0.constraints@.len()),
    ensures
        grows(m0, m1),
{
    assert(m1.domains@.subrange(0, m0.domains@.len() as int) =~= m0.domains@);
}

proof fn lemma_prereqs_kept(m0: Model, m1: Model, courses: Seq<Course>, n_sem: int, edges: Seq<(u64, u64)>)
    requires
        prereqs_encoded(m0.constraints@, courses, n_sem, edges),
        extends_model(m0, m1),
    ensures
        prereqs_encoded(m1.constraints@, courses, n_sem, edges),
{
    assert forall|e: int, b: int, f: int, s: int| #![trigger has_prereq(m1.constraints@, b, f, n_sem, s), edges[e]]
        0 <= e < edges.len() && 0 <= b < courses.len() && 0 <= f < courses.len() && 0 <= s < n_sem
        && courses[b].code == edges[e].0 && courses[f].code == edges[e].1
        implies has_prereq(m1.constraints@, b, f, n_sem, s) by {
        assert(has_prereq(m0.constraints@, b, f, n_sem, s));
        let k = choose|k: int| 0 <= k < m0.constraints@.len() && is_prereq_constraint(#[trigger] m0.constraints@[k], b, f, n_sem, s);
        assert(m1.constraints@[k] == m1.constraints@.subrange(0, m0.constraints@.len() as int)[k]);
    }
}

/// Compiles the active constraint groups of `ctx` into its model, with the
/// total-credit equality when a floor is set, and sets the objective to the
/// total scheduled credits.
pub fn build_model_pipeline(ctx: &mut ModelBuilderContext)
    requires
        ctx_ready(*old(ctx)),
    ensures
        *final(ctx) == (ModelBuilderContext { model: final(ctx).model, ..*old(ctx) }),
        pipeline_encoded(*old(ctx), final(ctx).model),
{
    let ghost c0 = *ctx;
    let ghost n = ctx.courses@.len() as int;
    let ghost n_sem = ctx.num_semesters as int;
    let ghost m0 = ctx.model;
    add_course_constraints(ctx);
    let ghost m1 = ctx.model;
    proof {
        lemma_same_domains_grows(m0, m1);
        assert forall|i: int| 0 <= i < n implies #[trigger] has(m1.constraints@, row_terms(i, n_sem, n_sem), 0, Cmp::Le, 1) by {
            let k = m0.constraints@.len() + i;
            assert(is_row_constraint(m1.constraints@[k], i, n_sem));
            assert(matches_shape(m1.constraints@[k], row_terms(i, n_sem, n_sem), 0, Cmp::Le, 1));
        }
    }
    add_semester_constraints(ctx);
    let ghost m2 = ctx.model;
    proof {
        lemma_same_domains_grows(m1, m2);
        if c0.toggles.semester_limit {
            assert forall|s: int| 0 <= s < n_sem implies #[trigger] has(m2.constraints@,
                column_terms(c0.courses@, n_sem, s, n), 0, Cmp::Le, c0.max_credits_per_semester) by {
                let k = m1.constraints@.len() + s;
                assert(is_cap_constraint(m2.constraints@[k], c0.courses@, n_sem, s, c0.max_credits_per_semester));
                assert(matches_shape(m2.constraints@[k], column_terms(c0.courses@, n_sem, s, n), 0, Cmp::Le, c0.max_credits_per_semester));
            }
        }
    }
    add_prereq_constraints(ctx);
    let ghost m3 = ctx.model;
    proof {
        lemma_same_domains_grows(m2, m3);
        if c0.toggles.prereqs {
            assert forall|e: int, b: int, f: int, s: int| #![trigger has_prereq(m3.constraints@, b, f, n_sem, s), c0.prereqs@[e]]
                0 <= e < c0.prereqs@.len() && 0 <= b < n && 0 <= f < n && 0 <= s < n_sem
                && c0.courses@[b].code == c0.prereqs@[e].0 && c0.courses@[f].code == c0.prereqs@[e].1
                implies has_prereq(m3.constraints@, b, f, n_sem, s) by {
                assert(has_prereq(m3.constraints@, b, f, n_sem, s));
            }
        }
    }
    add_gened_constraints(ctx);
    let ghost m4 = ctx.model;
    if let Some(t) = ctx.min_credits {
        let e = ctx.total_credits_expr();
        add_constraint(&mut ctx.model, e, Cmp::Eq, t);
        proof {
            assert(ctx.model.domains@.subrange(0, m4.domains@.len() as int) =~= m4.domains@);
        }
    }
    let ghost m5 = ctx.model;
    proof {
        if c0.min_credits is None {
            lemma_grows_refl(m4);
        }
        assert(grows(m4, m5));
    }
    let obj = ctx.total_credits_expr();
    ctx.model.objective = obj;
    let ghost m6 = ctx.model;
    proof {
        assert(m6.domains@.subrange(0, m5.domains@.len() as int) =~= m5.domains@);
        assert(m6.constraints@.subrange(0, m5.constraints@.len() as int) =~= m5.constraints@);
        assert(grows(m5, m6));
        lemma_grows_trans(m4, m5, m6);
        lemma_grows_trans(m3, m4, m6);
        lemma_grows_trans(m2, m3, m6);
        lemma_grows_trans(m1, m2, m6);
        lemma_grows_trans(m0, m1, m6);
        assert forall|i: int| 0 <= i < n implies #[trigger] has(m6.constraints@, row_terms(i, n_sem, n_sem), 0, Cmp::Le, 1) by {
            lemma_has_kept(m1.constraints@, m6.constraints@, row_terms(i, n_sem, n_sem), 0, Cmp::Le, 1);
        }
        assert forall|i: int| 0 <= i < n && (#[trigger] c0.courses@[i]).required
            implies has(m6.constraints@, row_terms(i, n_sem, n_sem), 0, Cmp::Ge, 1) by {
            lemma_has_kept(m1.constraints@, m6.constraints@, row_terms(i, n_sem, n_sem), 0, Cmp::Ge, 1);
        }
        if c0.toggles.semester_limit {
            assert forall|s: int| 0 <= s < n_sem implies #[trigger] has(m6.constraints@,
                column_terms(c0.courses@, n_sem, s, n), 0, Cmp::Le, c0.max_credits_per_semester) by {
                lemma_has_kept(m2.constraints@, m6.constraints@, column_terms(c0.courses@, n_sem, s, n), 0, Cmp::Le, c0.max_credits_per_semester);
            }
        }
        if c0.toggles.prereqs {
            lemma_prereqs_kept(m3, m6, c0.courses@, n_sem, c0.prereqs@);
        }
        if let Some(t) = c0.min_credits {
            lemma_has_kept(m5.constraints@, m6.constraints@, all_terms(c0.courses@, n_sem, n * n_sem), 0, Cmp::Eq, t);
        }
        assert forall|v: int| 0 <= v < n * n_sem implies #[trigger] m6.domains@[v] == (0i64, 1i64) by {
            assert(m6.domains@[v] == m6.domains@.subrange(0, m0.domains@.len() as int)[v]);
        }
        if c0.model.constraints@.len() == 0 && c0.model.domains@.len() == n * n_sem
            && !(c0.toggles.geneds && c0.geneds is Some) {
            assert forall|k: int| 0 <= k < m6.constraints@.len() implies plain_allowed(c0, #[trigger] m6.constraints@[k]) by {
                let c = m6.constraints@[k];
                if k < m1.constraints@.len() {
                    assert(c == m6.constraints@.subrange(0, m1.constraints@.len() as int)[k]);
                    if k < n {
                        assert(is_row_constraint(m1.constraints@[0 + k], k, n_sem));
                    } else {
                        assert(is_required_row(m1.constraints@[k], c0.courses@, n_sem));
                    }
                } else if k < m2.constraints@.len() {
                    assert(c == m6.constraints@.subrange(0, m2.constraints@.len() as int)[k]);
                    let s = k - m1.constraints@.len();
                    assert(is_cap_constraint(m2.constraints@[m1.constraints@.len() + s], c0.courses@, n_sem, s, c0.max_credits_per_semester));
                } else if k < m3.constraints@.len() {
                    assert(c == m6.constraints@.subrange(0, m3.constraints@.len() as int)[k]);
                    assert(is_some_prereq(m3.constraints@[k], c0.courses@, n_sem, c0.prereqs@));
                } else {
                    assert(m4 == m3);
                    assert(c == m5.constraints@[k]);
                }
            }
            assert(m6.domains@ == m0.domains@);
        }
        if c0.toggles.geneds {
            if let Some(gs) = c0.geneds {
                lemma_grows_trans(m0, m1, m2);
                lemma_grows_trans(m0, m2, m3);
                crate::geneds::lemma_geneds_widen(m0, m3, m4, m6, c0.courses@, n_sem, gs@);
            }
        }
    }
}

} // verus!
