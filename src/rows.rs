//! Sums of "in-schedule" rows over the courses that a predicate picks.
use vstd::prelude::*;
use crate::catalog::Course;
use crate::context::{dims_ok, lemma_var_bound, var_of};
use crate::linear::{LinExpr, Term};

verus! {

/// The indices `0..k` of the courses that `p` picks, in order.
pub open spec fn picked(courses: Seq<Course>, p: spec_fn(Course) -> bool, k: int) -> Seq<int>
    decreases k,
{
    if k <= 0 {
        Seq::empty()
    } else if p(courses[k - 1]) {
        picked(courses, p, k - 1).push(k - 1)
    } else {
        picked(courses, p, k - 1)
    }
}

/// The coefficient that course `i` carries: its credits, or one.
pub open spec fn weight(courses: Seq<Course>, i: int, by_credits: bool) -> i64 {
    if by_credits { courses[i].credits } else { 1 }
}

/// The rows of the courses `idx`, one after the other, each term weighted.
pub open spec fn rows_terms(courses: Seq<Course>, idx: Seq<int>, by_credits: bool, n_sem: int) -> Seq<Term>
    decreases idx.len(),
{
    if idx.len() == 0 {
        Seq::empty()
    } else {
        rows_terms(courses, idx.drop_last(), by_credits, n_sem) + Seq::new(n_sem as nat, |s: int|
            Term { var: var_of(idx.last(), s, n_sem) as usize, coeff: weight(courses, idx.last(), by_credits) })
    }
}

pub proof fn lemma_picked_bounds(courses: Seq<Course>, p: spec_fn(Course) -> bool, k: int)
    requires
        0 <= k <= courses.len(),
    ensures
        picked(courses, p, k).len() <= k,
        forall|j: int| 0 <= j < picked(courses, p, k).len() ==> 0 <= #[trigger] picked(courses, p, k)[j] < k,
        forall|j: int| 0 <= j < picked(courses, p, k).len() ==> p(courses[#[trigger] picked(courses, p, k)[j]]),
    decreases k,
{
    if k > 0 {
        lemma_picked_bounds(courses, p, k - 1);
    }
}

/// Appends to `terms` the row of course `i`, weighted.
pub fn push_row(terms: &mut Vec<Term>, courses: &Vec<Course>, i: usize, by_credits: bool, n_sem: usize)
    requires
        i < courses@.len(),
        dims_ok(courses@.len() as int, n_sem as int),
    ensures
        final(terms)@ == old(terms)@ + Seq::new(n_sem as nat, |s: int|
            Term { var: var_of(i as int, s, n_sem as int) as usize, coeff: weight(courses@, i as int, by_credits) }),
{
    let ghost t0 = terms@;
    let w: i64 = if by_credits { courses[i].credits } else { 1 };
    let mut s: usize = 0;
    while s < n_sem
        invariant
            i < courses@.len(),
            dims_ok(courses@.len() as int, n_sem as int),
            s <= n_sem,
            w == weight(courses@, i as int, by_credits),
            terms@ == t0 + Seq::new(s as nat, |t: int|
                Term { var: var_of(i as int, t, n_sem as int) as usize, coeff: w }),
        decreases n_sem - s,
    {
        proof { lemma_var_bound(i as int, s as int, courses@.len() as int, n_sem as int); }
        terms.push(Term { var: i * n_sem + s, coeff: w });
        s = s + 1;
        assert(terms@ =~= t0 + Seq::new(s as nat, |t: int|
            Term { var: var_of(i as int, t, n_sem as int) as usize, coeff: w }));
    }
}

/// The sum of the (weighted) rows of the courses that `p` picks.
/// `pick` is given as the list of the answers, one per course.
pub(crate) fn picked_rows_expr(courses: &Vec<Course>, pick: &Vec<bool>, by_credits: bool, n_sem: usize, Ghost(p): Ghost<spec_fn(Course) -> bool>) -> (r: (LinExpr, usize))
    requires
        dims_ok(courses@.len() as int, n_sem as int),
        pick@.len() == courses@.len(),
        forall|i: int| 0 <= i < courses@.len() ==> pick@[i] == p(#[trigger] courses@[i]),
    ensures
        r.0.constant == 0,
        r.0.terms@ == rows_terms(courses@, picked(courses@, p, courses@.len() as int), by_credits, n_sem as int),
        r.1 == picked(courses@, p, courses@.len() as int).len(),
{
    let mut terms: Vec<Term> = Vec::new();
    let mut count: usize = 0;
    let mut i: usize = 0;
    while i < courses.len()
        invariant
            dims_ok(courses@.len() as int, n_sem as int),
            pick@.len() == courses@.len(),
            forall|j: int| 0 <= j < courses@.len() ==> pick@[j] == p(#[trigger] courses@[j]),
            i <= courses@.len(),
            count == picked(courses@, p, i as int).len(),
            terms@ == rows_terms(courses@, picked(courses@, p, i as int), by_credits, n_sem as int),
        decreases courses@.len() - i,
    {
        proof { lemma_picked_bounds(courses@, p, i as int); }
        if pick[i] {
            push_row(&mut terms, courses, i, by_credits, n_sem);
            count = count + 1;
            assert(picked(courses@, p, i + 1).drop_last() =~= picked(courses@, p, i as int));
        }
        i = i + 1;
    }
    (LinExpr { terms, constant: 0 }, count)
}

} // verus!
