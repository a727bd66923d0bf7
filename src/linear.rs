//! A solver-independent linear constraint model: integer variables with
//! bounded domains, linear constraints over them and a linear objective.
use vstd::prelude::*;

verus! {

/// One term `coeff * x[var]` of a linear expression.
#[derive(Clone, Copy, Debug, PartialEq, Eq)]
pub struct Term {
    pub var: usize,
    pub coeff: i64,
}

/// `sum(terms) + constant`.
#[derive(Clone, Debug)]
pub struct LinExpr {
    pub terms: Vec<Term>,
    pub constant: i64,
}

#[derive(Clone, Copy, Debug, PartialEq, Eq)]
pub enum Cmp {
    Le,
    Ge,
    Eq,
}

/// `expr <cmp> rhs`.
#[derive(Clone, Debug)]
pub struct Constraint {
    pub expr: LinExpr,
    pub cmp: Cmp,
    pub rhs: i64,
}

/// Variables (each with an inclusive domain), constraints and an objective
/// to be minimised.
#[derive(Clone, Debug)]
pub struct Model {
    pub domains: Vec<(i64, i64)>,
    pub constraints: Vec<Constraint>,
    pub objective: LinExpr,
}

pub open spec fn sum_terms(terms: Seq<Term>, a: Seq<int>) -> int
    decreases terms.len(),
{
    if terms.len() == 0 {
        0
    } else {
        sum_terms(terms.drop_last(), a) + terms.last().coeff * a[terms.last().var as int]
    }
}

pub open spec fn expr_value(e: LinExpr, a: Seq<int>) -> int {
    sum_terms(e.terms@, a) + e.constant
}

pub open spec fn cmp_holds(cmp: Cmp, lhs: int, rhs: int) -> bool {
    match cmp {
        Cmp::Le => lhs <= rhs,
        Cmp::Ge => lhs >= rhs,
        Cmp::Eq => lhs == rhs,
    }
}

pub open spec fn constraint_holds(c: Constraint, a: Seq<int>) -> bool {
    cmp_holds(c.cmp, expr_value(c.expr, a), c.rhs as int)
}

pub open spec fn in_domains(domains: Seq<(i64, i64)>, a: Seq<int>) -> bool {
    &&& a.len() == domains.len()
    &&& forall|v: int| 0 <= v < a.len() ==> domains[v].0 <= #[trigger] a[v] <= domains[v].1
}

/// `a` gives every variable a value in its domain and meets every constraint.
pub open spec fn satisfies(m: Model, a: Seq<int>) -> bool {
    &&& in_domains(m.domains@, a)
    &&& forall|k: int| 0 <= k < m.constraints@.len() ==> constraint_holds(#[trigger] m.constraints@[k], a)
}

/// Some constraint of `cs` is `sum(terms) + constant <cmp> rhs`.
pub open spec fn has(cs: Seq<Constraint>, terms: Seq<Term>, constant: i64, cmp: Cmp, rhs: i64) -> bool {
    exists|k: int| 0 <= k < cs.len() && #[trigger] matches_shape(cs[k], terms, constant, cmp, rhs)
}

pub open spec fn matches_shape(c: Constraint, terms: Seq<Term>, constant: i64, cmp: Cmp, rhs: i64) -> bool {
    c.expr.terms@ == terms && c.expr.constant == constant && c.cmp == cmp && c.rhs == rhs
}

/// `terms` with every coefficient one.
pub open spec fn unit_terms(vars: Seq<usize>) -> Seq<Term> {
    Seq::new(vars.len(), |j: int| Term { var: vars[j], coeff: 1 })
}

pub proof fn lemma_has_kept(old: Seq<Constraint>, new: Seq<Constraint>, terms: Seq<Term>, constant: i64, cmp: Cmp, rhs: i64)
    requires
        has(old, terms, constant, cmp, rhs),
        old.len() <= new.len(),
        new.subrange(0, old.len() as int) == old,
    ensures
        has(new, terms, constant, cmp, rhs),
{
    let k = choose|k: int| 0 <= k < old.len() && #[trigger] matches_shape(old[k], terms, constant, cmp, rhs);
    assert(new[k] == new.subrange(0, old.len() as int)[k]);
}

pub proof fn lemma_sum_terms_push(terms: Seq<Term>, t: Term, a: Seq<int>)
    ensures
        sum_terms(terms.push(t), a) == sum_terms(terms, a) + t.coeff * a[t.var as int],
{
    assert(terms.push(t).drop_last() =~= terms);
}

/// Adds a fresh variable with domain `[lo, hi]` and returns its index.
pub fn new_var(m: &mut Model, lo: i64, hi: i64) -> (v: usize)
    ensures
        v == old(m).domains@.len(),
        final(m).domains@ == old(m).domains@.push((lo, hi)),
        final(m).constraints@ == old(m).constraints@,
        final(m).objective == old(m).objective,
{
    let v = m.domains.len();
    m.domains.push((lo, hi));
    v
}

/// Adds the constraint `expr <cmp> rhs`.
pub fn add_constraint(m: &mut Model, expr: LinExpr, cmp: Cmp, rhs: i64)
    ensures
        has(final(m).constraints@, expr.terms@, expr.constant, cmp, rhs),
        final(m).constraints@.subrange(0, old(m).constraints@.len() as int) == old(m).constraints@,
        final(m).domains@ == old(m).domains@,
        final(m).constraints@ == old(m).constraints@.push(Constraint { expr, cmp, rhs }),
        final(m).objective == old(m).objective,
{
    let ghost e = expr;
    m.constraints.push(Constraint { expr, cmp, rhs });
    assert(matches_shape(m.constraints@[m.constraints@.len() - 1], e.terms@, e.constant, cmp, rhs));
    assert(m.constraints@.subrange(0, old(m).constraints@.len() as int) =~= old(m).constraints@);
}

pub open spec fn fits_i64(x: int) -> bool {
    i64::MIN <= x <= i64::MAX
}

/// Every term of `terms` names a variable of `a`, and each product and each
/// running sum, term by term, fits in `i64`.
pub open spec fn evaluable(terms: Seq<Term>, a: Seq<int>) -> bool
    decreases terms.len(),
{
    if terms.len() == 0 {
        true
    } else {
        let t = terms.last();
        &&& evaluable(terms.drop_last(), a)
        &&& t.var < a.len()
        &&& fits_i64(t.coeff * a[t.var as int])
        &&& fits_i64(sum_terms(terms.drop_last(), a) + t.coeff * a[t.var as int])
    }
}

pub proof fn lemma_evaluable_prefix(terms: Seq<Term>, a: Seq<int>, j: int)
    requires
        evaluable(terms, a),
        0 <= j <= terms.len(),
    ensures
        evaluable(terms.subrange(0, j), a),
    decreases terms.len(),
{
    if j < terms.len() {
        assert(terms.drop_last() =~= terms.subrange(0, terms.len() - 1));
        lemma_evaluable_prefix(terms.drop_last(), a, j);
        assert(terms.drop_last().subrange(0, j) =~= terms.subrange(0, j));
    } else {
        assert(terms.subrange(0, j) =~= terms);
    }
}

/// The value of `e` under `a`; `None` exactly when a variable is out of
/// range or a product or running sum leaves `i64`.
pub fn eval_expr(e: &LinExpr, a: &Vec<i64>) -> (r: Option<i64>)
    ensures
        r is Some <==> evaluable(e.terms@, a@.map_values(|v: i64| v as int))
            && fits_i64(expr_value(*e, a@.map_values(|v: i64| v as int))),
        r matches Some(x) ==> x as int == expr_value(*e, a@.map_values(|v: i64| v as int)),
{
    let ghost ai = a@.map_values(|v: i64| v as int);
    let mut acc: i64 = 0;
    let mut k: usize = 0;
    while k < e.terms.len()
        invariant
            k <= e.terms@.len(),
            ai == a@.map_values(|v: i64| v as int),
            ai.len() == a@.len(),
            evaluable(e.terms@.subrange(0, k as int), ai),
            acc as int == sum_terms(e.terms@.subrange(0, k as int), ai),
        decreases e.terms@.len() - k,
    {
        let t = e.terms[k];
        let ghost pre = e.terms@.subrange(0, k as int);
        let ghost next_seq = e.terms@.subrange(0, k + 1);
        proof {
            assert(next_seq =~= pre.push(t));
            assert(next_seq.drop_last() =~= pre);
        }
        if t.var >= a.len() {
            proof {
                if evaluable(e.terms@, ai) {
                    lemma_evaluable_prefix(e.terms@, ai, k + 1);
                }
            }
            return None;
        }
        let p = match t.coeff.checked_mul(a[t.var]) {
            Some(p) => p,
            None => {
                proof {
                    if evaluable(e.terms@, ai) {
                        lemma_evaluable_prefix(e.terms@, ai, k + 1);
                    }
                }
                return None;
            },
        };
        let next = match acc.checked_add(p) {
            Some(n) => n,
            None => {
                proof {
                    if evaluable(e.terms@, ai) {
                        lemma_evaluable_prefix(e.terms@, ai, k + 1);
                    }
                }
                return None;
            },
        };
        proof {
            lemma_sum_terms_push(pre, t, ai);
        }
        acc = next;
        k = k + 1;
    }
    assert(e.terms@.subrange(0, k as int) =~= e.terms@);
    acc.checked_add(e.constant)
}

/// Every constraint's expression can be evaluated in `i64` under `a`.
pub open spec fn all_evaluable(m: Model, a: Seq<int>) -> bool {
    forall|k: int| 0 <= k < m.constraints@.len() ==> evaluable((#[trigger] m.constraints@[k]).expr.terms@, a)
        && fits_i64(expr_value(m.constraints@[k].expr, a))
}

/// Whether `a` satisfies `m`, for assignments whose constraint expressions
/// evaluate within `i64`; `false` for the others.
pub fn check_assignment(m: &Model, a: &Vec<i64>) -> (r: bool)
    ensures
        r == (satisfies(*m, a@.map_values(|v: i64| v as int)) && all_evaluable(*m, a@.map_values(|v: i64| v as int))),
{
    let ghost ai = a@.map_values(|v: i64| v as int);
    if a.len() != m.domains.len() {
        return false;
    }
    let mut v: usize = 0;
    while v < a.len()
        invariant
            a@.len() == m.domains@.len(),
            ai == a@.map_values(|v: i64| v as int),
            v <= a@.len(),
            forall|w: int| 0 <= w < v ==> m.domains@[w].0 <= #[trigger] ai[w] <= m.domains@[w].1,
        decreases a@.len() - v,
    {
        let (lo, hi) = m.domains[v];
        if a[v] < lo || a[v] > hi {
            assert(!(m.domains@[v as int].0 <= ai[v as int] <= m.domains@[v as int].1));
            return false;
        }
        v = v + 1;
    }
    let mut k: usize = 0;
    while k < m.constraints.len()
        invariant
            ai == a@.map_values(|v: i64| v as int),
            k <= m.constraints@.len(),
            in_domains(m.domains@, ai),
            forall|j: int| 0 <= j < k ==> constraint_holds(#[trigger] m.constraints@[j], ai),
            forall|j: int| 0 <= j < k ==> evaluable((#[trigger] m.constraints@[j]).expr.terms@, ai)
                && fits_i64(expr_value(m.constraints@[j].expr, ai)),
        decreases m.constraints@.len() - k,
    {
        let c = &m.constraints[k];
        let x = match eval_expr(&c.expr, a) {
            Some(x) => x,
            None => {
                assert(!(evaluable(m.constraints@[k as int].expr.terms@, ai) && fits_i64(expr_value(m.constraints@[k as int].expr, ai))));
                return false;
            },
        };
        let ok = match c.cmp {
            Cmp::Le => x <= c.rhs,
            Cmp::Ge => x >= c.rhs,
            Cmp::Eq => x == c.rhs,
        };
        if !ok {
            assert(!constraint_holds(m.constraints@[k as int], ai));
            return false;
        }
        k = k + 1;
    }
    true
}

} // verus!
