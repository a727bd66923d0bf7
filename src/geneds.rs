//! General-education rules: Core requirements, mutually exclusive
//! Foundations, and the Skill & Perspective multiplicity cap.
use vstd::prelude::*;
use crate::catalog::{Course, CourseCode, GenEd, GenEdReq};
use crate::context::{dims_ok, in_schedule_expr, row_terms, var_of, lemma_var_bound, ModelBuilderContext};
use crate::linear::{add_constraint, has, lemma_has_kept, new_var, unit_terms, Cmp, LinExpr, Model, Term};
use crate::rows::{picked, picked_rows_expr, rows_terms, lemma_picked_bounds};

verus! {

/// Longest list a requirement may hold; the backend counts in 32 bits.
pub const LIST_LIMIT: usize = 0x7fff_ffff;

pub open spec fn req_of(g: GenEd) -> GenEdReq {
    match g {
        GenEd::Core { req } => req,
        GenEd::Foundation { req } => req,
        GenEd::SkillAndPerspective { req } => req,
    }
}

/// `c` is one of the codes that `req` lists (in any option).
pub open spec fn req_listed(req: GenEdReq, c: CourseCode) -> bool {
    match req {
        GenEdReq::CourseSet(cs) => cs@.contains(c),
        GenEdReq::SetOpts(os) => opts_list(os@, c),
        GenEdReq::Courses { num, courses } => courses@.contains(c),
        GenEdReq::Credits { num, courses } => courses@.contains(c),
    }
}

/// Some option of `os` lists `c`.
pub open spec fn opts_list(os: Seq<Vec<CourseCode>>, c: CourseCode) -> bool {
    exists|o: int| 0 <= o < os.len() && (#[trigger] os[o])@.contains(c)
}

pub open spec fn listing(req: GenEdReq) -> spec_fn(Course) -> bool {
    |c: Course| req_listed(req, c.code)
}

pub open spec fn codes_pick(codes: Seq<CourseCode>) -> spec_fn(Course) -> bool {
    |c: Course| codes.contains(c.code)
}

/// How many courses of the list `codes` names.
pub open spec fn present(courses: Seq<Course>, codes: Seq<CourseCode>) -> int {
    picked(courses, codes_pick(codes), courses.len() as int).len() as int
}

/// The most listed courses that any option of `os` names.
pub open spec fn max_present(courses: Seq<Course>, os: Seq<Vec<CourseCode>>) -> int
    decreases os.len(),
{
    if os.len() == 0 {
        0
    } else {
        let m = max_present(courses, os.drop_last());
        let p = present(courses, os.last()@);
        if p > m { p } else { m }
    }
}

/// How many eligible courses a Foundation asks for; codes absent from the
/// course list are dropped first.
pub open spec fn req_count(req: GenEdReq, courses: Seq<Course>) -> i64 {
    match req {
        GenEdReq::CourseSet(cs) => present(courses, cs@) as i64,
        GenEdReq::SetOpts(os) => if os@.len() == 0 { 1 } else { max_present(courses, os@) as i64 },
        GenEdReq::Courses { num, courses: cs } => num,
        GenEdReq::Credits { num, courses: cs } => num,
    }
}

pub open spec fn req_ok(req: GenEdReq) -> bool {
    match req {
        GenEdReq::CourseSet(cs) => cs@.len() <= LIST_LIMIT,
        GenEdReq::SetOpts(os) => os@.len() <= LIST_LIMIT
            && forall|o: int| 0 <= o < os@.len() ==> (#[trigger] os@[o])@.len() <= LIST_LIMIT,
        GenEdReq::Courses { num, courses } => courses@.len() <= LIST_LIMIT,
        GenEdReq::Credits { num, courses } => courses@.len() <= LIST_LIMIT,
    }
}

/// Every requirement's lists fit the backend's 32-bit counts, and so does
/// the course list.
pub open spec fn geneds_ok(gs: Seq<GenEd>, n: int) -> bool {
    &&& n <= LIST_LIMIT
    &&& gs.len() <= LIST_LIMIT
    &&& forall|j: int| 0 <= j < gs.len() ==> req_ok(req_of(#[trigger] gs[j]))
}

#[derive(Clone, Copy, Debug, PartialEq, Eq, Structural)]
pub enum GenEdKind {
    Core,
    Foundation,
    SkillAndPerspective,
}

pub open spec fn kind_of(g: GenEd) -> GenEdKind {
    match g {
        GenEd::Core { .. } => GenEdKind::Core,
        GenEd::Foundation { .. } => GenEdKind::Foundation,
        GenEd::SkillAndPerspective { .. } => GenEdKind::SkillAndPerspective,
    }
}

/// The indices `0..k` of the requirements of `gs` of kind `kind`.
pub open spec fn of_kind(gs: Seq<GenEd>, kind: GenEdKind, k: int) -> Seq<usize>
    decreases k,
{
    if k <= 0 {
        Seq::empty()
    } else if kind_of(gs[k - 1]) == kind {
        of_kind(gs, kind, k - 1).push((k - 1) as usize)
    } else {
        of_kind(gs, kind, k - 1)
    }
}

/// The positions, within `idx`, of the requirements of `gs` that list `c`.
pub open spec fn eligible(gs: Seq<GenEd>, idx: Seq<usize>, c: CourseCode, k: int) -> Seq<int>
    decreases k,
{
    if k <= 0 {
        Seq::empty()
    } else if req_listed(req_of(gs[idx[k - 1] as int]), c) {
        eligible(gs, idx, c, k - 1).push(k - 1)
    } else {
        eligible(gs, idx, c, k - 1)
    }
}

/// `-1` times the row of course `i`.
pub open spec fn neg_row(i: int, n_sem: int) -> Seq<Term> {
    Seq::new(n_sem as nat, |s: int| Term { var: var_of(i, s, n_sem) as usize, coeff: -1i64 })
}

/// `m` keeps the variables and constraints of `m0`, and may add more.
pub open spec fn extends_model(m0: Model, m: Model) -> bool {
    &&& m.domains@.len() >= m0.domains@.len()
    &&& m.domains@.subrange(0, m0.domains@.len() as int) == m0.domains@
    &&& m.constraints@.len() >= m0.constraints@.len()
    &&& m.constraints@.subrange(0, m0.constraints@.len() as int) == m0.constraints@
}

/// `m` grew from `m0`: the old variables and constraints are kept, and
/// every new variable is boolean.
pub open spec fn grows(m0: Model, m: Model) -> bool {
    &&& extends_model(m0, m)
    &&& forall|v: int| m0.domains@.len() <= v < m.domains@.len() ==> #[trigger] m.domains@[v] == (0i64, 1i64)
}

pub proof fn lemma_grows_trans(m0: Model, m1: Model, m2: Model)
    requires
        grows(m0, m1),
        grows(m1, m2),
    ensures
        grows(m0, m2),
{
    assert(m2.domains@.subrange(0, m0.domains@.len() as int) =~= m1.domains@.subrange(0, m0.domains@.len() as int));
    assert(m2.constraints@.subrange(0, m0.constraints@.len() as int) =~= m1.constraints@.subrange(0, m0.constraints@.len() as int));
    assert forall|v: int| m0.domains@.len() <= v < m2.domains@.len() implies #[trigger] m2.domains@[v] == (0i64, 1i64) by {
        if v < m1.domains@.len() {
            assert(m2.domains@[v] == m2.domains@.subrange(0, m1.domains@.len() as int)[v]);
        }
    }
}

pub proof fn lemma_grows_refl(m: Model)
    ensures
        grows(m, m),
{
    assert(m.domains@.subrange(0, m.domains@.len() as int) =~= m.domains@);
    assert(m.constraints@.subrange(0, m.constraints@.len() as int) =~= m.constraints@);
}

/// `codes` lists `c`.
pub fn contains_code(codes: &Vec<CourseCode>, c: CourseCode) -> (r: bool)
    ensures
        r == codes@.contains(c),
{
    let mut k: usize = 0;
    while k < codes.len()
        invariant
            k <= codes@.len(),
            forall|j: int| 0 <= j < k ==> codes@[j] != c,
        decreases codes@.len() - k,
    {
        if codes[k] == c {
            return true;
        }
        k = k + 1;
    }
    false
}

/// `req` lists `c` (in any option).
pub fn req_lists(req: &GenEdReq, c: CourseCode) -> (r: bool)
    ensures
        r == req_listed(*req, c),
{
    match req {
        GenEdReq::CourseSet(cs) => contains_code(cs, c),
        GenEdReq::SetOpts(os) => {
            let mut o: usize = 0;
            while o < os.len()
                invariant
                    *req == GenEdReq::SetOpts(*os),
                    o <= os@.len(),
                    forall|j: int| 0 <= j < o ==> !(#[trigger] os@[j])@.contains(c),
                decreases os@.len() - o,
            {
                if contains_code(&os[o], c) {
                    assert(os@[o as int]@.contains(c));
                    assert(opts_list(os@, c));
                    return true;
                }
                o = o + 1;
            }
            false
        },
        GenEdReq::Courses { num, courses } => contains_code(courses, c),
        GenEdReq::Credits { num, courses } => contains_code(courses, c),
    }
}

/// For each course, whether `codes` lists its code.
pub fn pick_codes(courses: &Vec<Course>, codes: &Vec<CourseCode>) -> (r: Vec<bool>)
    ensures
        r@.len() == courses@.len(),
        forall|i: int| 0 <= i < courses@.len() ==> r@[i] == (codes_pick(codes@))(#[trigger] courses@[i]),
{
    let mut r: Vec<bool> = Vec::new();
    let mut i: usize = 0;
    while i < courses.len()
        invariant
            i <= courses@.len(),
            r@.len() == i,
            forall|j: int| 0 <= j < i ==> r@[j] == (codes_pick(codes@))(#[trigger] courses@[j]),
        decreases courses@.len() - i,
    {
        r.push(contains_code(codes, courses[i].code));
        i = i + 1;
    }
    r
}

/// `v` stands for "every course of option `codes` is scheduled": with `n`
/// such courses, `rows + n * v <= 2n` and `rows - n * v >= 0`.
pub open spec fn option_linked(cs: Seq<crate::linear::Constraint>, courses: Seq<Course>, codes: Seq<CourseCode>, n_sem: int, v: usize) -> bool {
    let idx = picked(courses, codes_pick(codes), courses.len() as int);
    let t = rows_terms(courses, idx, false, n_sem);
    let k = idx.len() as i64;
    &&& has(cs, t.push(Term { var: v, coeff: k }), 0, Cmp::Le, (2 * k) as i64)
    &&& has(cs, t.push(Term { var: v, coeff: (-k) as i64 }), 0, Cmp::Ge, 0)
}

/// Indicator `inds[o]` stands for option `o`, and one of them is true.
pub open spec fn opts_encoded(m0: Model, m: Model, courses: Seq<Course>, n_sem: int, os: Seq<Vec<CourseCode>>, inds: Seq<usize>) -> bool {
    &&& inds.len() == os.len()
    &&& forall|o: int| 0 <= o < os.len() ==> m0.domains@.len() <= #[trigger] inds[o] < m.domains@.len()
    &&& forall|o: int| 0 <= o < os.len() ==> option_linked(m.constraints@, courses, (#[trigger] os[o])@, n_sem, inds[o])
    &&& os.len() > 0 ==> has(m.constraints@, unit_terms(inds), 0, Cmp::Ge, 1)
}

/// What a Core requirement adds to the model.
pub open spec fn core_encoded(m0: Model, m: Model, courses: Seq<Course>, n_sem: int, req: GenEdReq) -> bool {
    match req {
        GenEdReq::CourseSet(cs) => forall|i: int| 0 <= i < courses.len() && cs@.contains(#[trigger] courses[i].code)
            ==> has(m.constraints@, row_terms(i, n_sem, n_sem), 0, Cmp::Ge, 1),
        GenEdReq::SetOpts(os) => exists|inds: Seq<usize>| #[trigger] opts_encoded(m0, m, courses, n_sem, os@, inds),
        GenEdReq::Courses { num, courses: cs } =>
            has(m.constraints@, rows_terms(courses, picked(courses, codes_pick(cs@), courses.len() as int), false, n_sem), 0, Cmp::Ge, num),
        GenEdReq::Credits { num, courses: cs } =>
            has(m.constraints@, rows_terms(courses, picked(courses, codes_pick(cs@), courses.len() as int), true, n_sem), 0, Cmp::Ge, num),
    }
}

/// Adds the constraints of one Core requirement.
pub fn add_core_constraints(m: &mut Model, courses: &Vec<Course>, n_sem: usize, req: &GenEdReq)
    requires
        dims_ok(courses@.len() as int, n_sem as int),
        courses@.len() <= LIST_LIMIT,
        req_ok(*req),
    ensures
        grows(*old(m), *final(m)),
        core_encoded(*old(m), *final(m), courses@, n_sem as int, *req),
{
    let ghost m0 = *m;
    proof { lemma_grows_refl(*m); }
    let n = courses.len();
    match req {
        GenEdReq::CourseSet(cs) => {
            let mut i: usize = 0;
            while i < n
                invariant
                    n == courses@.len(),
                    dims_ok(courses@.len() as int, n_sem as int),
                    i <= n,
                    grows(m0, *m),
                    forall|j: int| 0 <= j < i && cs@.contains(#[trigger] courses@[j].code)
                        ==> has(m.constraints@, row_terms(j, n_sem as int, n_sem as int), 0, Cmp::Ge, 1),
                decreases n - i,
            {
                if contains_code(cs, courses[i].code) {
                    let ghost m1 = *m;
                    let e = in_schedule_expr(i, n, n_sem);
                    add_constraint(m, e, Cmp::Ge, 1);
                    proof {
                        assert(grows(m1, *m)) by { lemma_grows_refl(m1); }
                        lemma_grows_trans(m0, m1, *m);
                        assert forall|j: int| 0 <= j < i && cs@.contains(#[trigger] courses@[j].code)
                            implies has(m.constraints@, row_terms(j, n_sem as int, n_sem as int), 0, Cmp::Ge, 1) by {
                            lemma_has_kept(m1.constraints@, m.constraints@, row_terms(j, n_sem as int, n_sem as int), 0, Cmp::Ge, 1);
                        }
                    }
                }
                i = i + 1;
            }
        },
        GenEdReq::SetOpts(os) => {
            let mut inds: Vec<usize> = Vec::new();
            let mut o: usize = 0;
            while o < os.len()
                invariant
                    *req == GenEdReq::SetOpts(*os),
                    req_ok(*req),
                    n == courses@.len(),
                    n <= LIST_LIMIT,
                    dims_ok(courses@.len() as int, n_sem as int),
                    o <= os@.len(),
                    inds@.len() == o,
                    grows(m0, *m),
                    forall|p: int| 0 <= p < o ==> m0.domains@.len() <= #[trigger] inds@[p] < m.domains@.len(),
                    forall|p: int| 0 <= p < o ==> option_linked(m.constraints@, courses@, (#[trigger] os@[p])@, n_sem as int, inds@[p]),
                decreases os@.len() - o,
            {
                let ghost m1 = *m;
                let pick = pick_codes(courses, &os[o]);
                let ghost p = codes_pick(os@[o as int]@);
                proof { lemma_picked_bounds(courses@, p, n as int); }
                let (e1, k) = picked_rows_expr(courses, &pick, false, n_sem, Ghost(p));
                let (e2, _k2) = picked_rows_expr(courses, &pick, false, n_sem, Ghost(p));
                let v = new_var(m, 0, 1);
                let kk = k as i64;
                let mut t1 = e1.terms;
                t1.push(Term { var: v, coeff: kk });
                let mut t2 = e2.terms;
                t2.push(Term { var: v, coeff: -kk });
                add_constraint(m, LinExpr { terms: t1, constant: 0 }, Cmp::Le, 2 * kk);
                let ghost m2 = *m;
                add_constraint(m, LinExpr { terms: t2, constant: 0 }, Cmp::Ge, 0);
                proof {
                    lemma_has_kept(m2.constraints@, m.constraints@, t1@, 0, Cmp::Le, (2 * kk) as i64);
                    assert(m.domains@.subrange(0, m1.domains@.len() as int) =~= m1.domains@);
                    assert(m.constraints@.subrange(0, m1.constraints@.len() as int) =~= m1.constraints@);
                    assert(grows(m1, *m));
                    lemma_grows_trans(m0, m1, *m);
                    assert(option_linked(m.constraints@, courses@, os@[o as int]@, n_sem as int, v));
                    assert forall|q: int| 0 <= q < o implies option_linked(m.constraints@, courses@, (#[trigger] os@[q])@, n_sem as int, inds@[q]) by {
                        let idx = picked(courses@, codes_pick(os@[q]@), n as int);
                        let t = rows_terms(courses@, idx, false, n_sem as int);
                        let kq = idx.len() as i64;
                        lemma_has_kept(m1.constraints@, m.constraints@, t.push(Term { var: inds@[q], coeff: kq }), 0, Cmp::Le, (2 * kq) as i64);
                        lemma_has_kept(m1.constraints@, m.constraints@, t.push(Term { var: inds@[q], coeff: (-kq) as i64 }), 0, Cmp::Ge, 0);
                    }
                }
                inds.push(v);
                o = o + 1;
            }
            if os.len() > 0 {
                let ghost m1 = *m;
                let mut terms: Vec<Term> = Vec::new();
                let mut j: usize = 0;
                while j < inds.len()
                    invariant
                        j <= inds@.len(),
                        terms@ == unit_terms(inds@.subrange(0, j as int)),
                    decreases inds@.len() - j,
                {
                    terms.push(Term { var: inds[j], coeff: 1 });
                    j = j + 1;
                    assert(terms@ =~= unit_terms(inds@.subrange(0, j as int)));
                }
                assert(inds@.subrange(0, j as int) =~= inds@);
                add_constraint(m, LinExpr { terms, constant: 0 }, Cmp::Ge, 1);
                proof {
                    assert(m.domains@ == m1.domains@);
                    assert(m.domains@.subrange(0, m1.domains@.len() as int) =~= m1.domains@);
                    assert(grows(m1, *m));
                    lemma_grows_trans(m0, m1, *m);
                    assert forall|q: int| 0 <= q < os@.len() implies option_linked(m.constraints@, courses@, (#[trigger] os@[q])@, n_sem as int, inds@[q]) by {
                        let idx = picked(courses@, codes_pick(os@[q]@), n as int);
                        let t = rows_terms(courses@, idx, false, n_sem as int);
                        let kq = idx.len() as i64;
                        lemma_has_kept(m1.constraints@, m.constraints@, t.push(Term { var: inds@[q], coeff: kq }), 0, Cmp::Le, (2 * kq) as i64);
                        lemma_has_kept(m1.constraints@, m.constraints@, t.push(Term { var: inds@[q], coeff: (-kq) as i64 }), 0, Cmp::Ge, 0);
                    }
                }
            }
            assert(opts_encoded(m0, *m, courses@, n_sem as int, os@, inds@));
        },
        GenEdReq::Courses { num, courses: cs } => {
            let pick = pick_codes(courses, cs);
            let (e, _k) = picked_rows_expr(courses, &pick, false, n_sem, Ghost(codes_pick(cs@)));
            add_constraint(m, e, Cmp::Ge, *num);
            proof {
                assert(m.domains@.subrange(0, m0.domains@.len() as int) =~= m0.domains@);
            }
        },
        GenEdReq::Credits { num, courses: cs } => {
            let pick = pick_codes(courses, cs);
            let (e, _k) = picked_rows_expr(courses, &pick, true, n_sem, Ghost(codes_pick(cs@)));
            add_constraint(m, e, Cmp::Ge, *num);
            proof {
                assert(m.domains@.subrange(0, m0.domains@.len() as int) =~= m0.domains@);
            }
        },
    }
}

/// For each course, whether `req` lists its code.
pub fn pick_listed(courses: &Vec<Course>, req: &GenEdReq) -> (r: Vec<bool>)
    ensures
        r@.len() == courses@.len(),
        forall|i: int| 0 <= i < courses@.len() ==> r@[i] == (listing(*req))(#[trigger] courses@[i]),
{
    let mut r: Vec<bool> = Vec::new();
    let mut i: usize = 0;
    while i < courses.len()
        invariant
            i <= courses@.len(),
            r@.len() == i,
            forall|j: int| 0 <= j < i ==> r@[j] == (listing(*req))(#[trigger] courses@[j]),
        decreases courses@.len() - i,
    {
        r.push(req_lists(req, courses[i].code));
        i = i + 1;
    }
    r
}

/// How many courses of the list `codes` names.
pub fn present_count(courses: &Vec<Course>, codes: &Vec<CourseCode>) -> (r: usize)
    ensures
        r == present(courses@, codes@),
        r <= courses@.len(),
{
    let pick = pick_codes(courses, codes);
    let ghost p = codes_pick(codes@);
    let mut r: usize = 0;
    let mut i: usize = 0;
    while i < courses.len()
        invariant
            pick@.len() == courses@.len(),
            forall|j: int| 0 <= j < courses@.len() ==> pick@[j] == p(#[trigger] courses@[j]),
            i <= courses@.len(),
            r == picked(courses@, p, i as int).len(),
            r <= i,
        decreases courses@.len() - i,
    {
        if pick[i] {
            r = r + 1;
        }
        i = i + 1;
    }
    r
}

/// How many eligible courses a Foundation with requirement `req` asks for.
pub fn required_count(courses: &Vec<Course>, req: &GenEdReq) -> (r: i64)
    requires
        courses@.len() <= LIST_LIMIT,
    ensures
        r == req_count(*req, courses@),
{
    match req {
        GenEdReq::CourseSet(cs) => present_count(courses, cs) as i64,
        GenEdReq::SetOpts(os) => {
            if os.len() == 0 {
                return 1;
            }
            let mut best: usize = 0;
            let mut o: usize = 0;
            while o < os.len()
                invariant
                    *req == GenEdReq::SetOpts(*os),
                    courses@.len() <= LIST_LIMIT,
                    o <= os@.len(),
                    best == max_present(courses@, os@.subrange(0, o as int)),
                    best <= courses@.len(),
                decreases os@.len() - o,
            {
                assert(os@.subrange(0, o + 1).drop_last() =~= os@.subrange(0, o as int));
                let p = present_count(courses, &os[o]);
                if p > best {
                    best = p;
                }
                o = o + 1;
            }
            assert(os@.subrange(0, o as int) =~= os@);
            best as i64
        },
        GenEdReq::Courses { num, courses: _ } => *num,
        GenEdReq::Credits { num, courses: _ } => *num,
    }
}

/// The requirement of entry `f` of the index list `idx` into `gs`.
pub open spec fn req_at(gs: Seq<GenEd>, idx: Seq<usize>, f: int) -> GenEdReq {
    req_of(gs[idx[f] as int])
}

/// The elective courses that two Foundations both list.
pub open spec fn shared_electives(rf: GenEdReq, rg: GenEdReq) -> spec_fn(Course) -> bool {
    |c: Course| req_listed(rf, c.code) && req_listed(rg, c.code) && !c.required
}

/// `vars[j] <= in_schedule(i)` for each `j`; the variables are new and
/// boolean.
pub open spec fn choices_encoded(m0: Model, m: Model, i: int, n_sem: int, vars: Seq<usize>) -> bool {
    &&& forall|j: int| 0 <= j < vars.len() ==> m0.domains@.len() <= #[trigger] vars[j] < m.domains@.len()
    &&& forall|j: int| 0 <= j < vars.len() ==> m.domains@[#[trigger] vars[j] as int] == (0i64, 1i64)
    &&& forall|j: int| 0 <= j < vars.len()
        ==> has(m.constraints@, seq![Term { var: #[trigger] vars[j], coeff: 1 }] + neg_row(i, n_sem), 0, Cmp::Le, 0)
}

/// A required course's assignment variables: one per eligible Foundation,
/// summing to its in-schedule indicator and to at most one.
pub open spec fn assignment_encoded(m0: Model, m: Model, i: int, n_sem: int, count: int, vars: Seq<usize>) -> bool {
    &&& vars.len() == count
    &&& choices_encoded(m0, m, i, n_sem, vars)
    &&& has(m.constraints@, unit_terms(vars) + neg_row(i, n_sem), 0, Cmp::Eq, 0)
    &&& has(m.constraints@, unit_terms(vars), 0, Cmp::Le, 1)
}

/// A course's "used for category" variables, at most three of them true.
pub open spec fn sp_capped(m0: Model, m: Model, i: int, n_sem: int, count: int, vars: Seq<usize>) -> bool {
    &&& vars.len() == count
    &&& choices_encoded(m0, m, i, n_sem, vars)
    &&& has(m.constraints@, unit_terms(vars), 0, Cmp::Le, 3)
}

pub proof fn lemma_choices_kept(m0: Model, m1: Model, m2: Model, i: int, n_sem: int, vars: Seq<usize>)
    requires
        choices_encoded(m0, m1, i, n_sem, vars),
        extends_model(m1, m2),
    ensures
        choices_encoded(m0, m2, i, n_sem, vars),
{
    assert forall|j: int| 0 <= j < vars.len() implies has(m2.constraints@,
        seq![Term { var: #[trigger] vars[j], coeff: 1 }] + neg_row(i, n_sem), 0, Cmp::Le, 0) by {
        lemma_has_kept(m1.constraints@, m2.constraints@, seq![Term { var: vars[j], coeff: 1 }] + neg_row(i, n_sem), 0, Cmp::Le, 0);
    }
    assert forall|j: int| 0 <= j < vars.len() implies m2.domains@[#[trigger] vars[j] as int] == (0i64, 1i64) by {
        assert(m2.domains@[vars[j] as int] == m2.domains@.subrange(0, m1.domains@.len() as int)[vars[j] as int]);
    }
}

/// `unit_terms(vars)`, then `-1` times the row of course `i` if asked.
pub fn unit_sum(vars: &Vec<usize>, minus_row: Option<usize>, n: usize, n_sem: usize) -> (r: LinExpr)
    requires
        dims_ok(n as int, n_sem as int),
        minus_row matches Some(i) ==> i < n,
    ensures
        r.constant == 0,
        minus_row is None ==> r.terms@ == unit_terms(vars@),
        minus_row matches Some(i) ==> r.terms@ == unit_terms(vars@) + neg_row(i as int, n_sem as int),
{
    let mut terms: Vec<Term> = Vec::new();
    let mut j: usize = 0;
    while j < vars.len()
        invariant
            j <= vars@.len(),
            terms@ == unit_terms(vars@.subrange(0, j as int)),
        decreases vars@.len() - j,
    {
        terms.push(Term { var: vars[j], coeff: 1 });
        j = j + 1;
        assert(terms@ =~= unit_terms(vars@.subrange(0, j as int)));
    }
    assert(vars@.subrange(0, j as int) =~= vars@);
    if let Some(i) = minus_row {
        let ghost t0 = terms@;
        let mut s: usize = 0;
        while s < n_sem
            invariant
                dims_ok(n as int, n_sem as int),
                i < n,
                s <= n_sem,
                terms@ == t0 + neg_row(i as int, n_sem as int).subrange(0, s as int),
            decreases n_sem - s,
        {
            proof { lemma_var_bound(i as int, s as int, n as int, n_sem as int); }
            terms.push(Term { var: i * n_sem + s, coeff: -1 });
            s = s + 1;
            assert(terms@ =~= t0 + neg_row(i as int, n_sem as int).subrange(0, s as int));
        }
        assert(neg_row(i as int, n_sem as int).subrange(0, s as int) =~= neg_row(i as int, n_sem as int));
    }
    LinExpr { terms, constant: 0 }
}

/// Adds `count` new boolean variables, each at most course `i`'s
/// in-schedule indicator, and returns them.
pub fn add_choice_vars(m: &mut Model, n: usize, n_sem: usize, i: usize, count: usize) -> (vars: Vec<usize>)
    requires
        dims_ok(n as int, n_sem as int),
        i < n,
    ensures
        grows(*old(m), *final(m)),
        vars@.len() == count,
        choices_encoded(*old(m), *final(m), i as int, n_sem as int, vars@),
{
    let ghost m0 = *m;
    proof { lemma_grows_refl(*m); }
    let mut vars: Vec<usize> = Vec::new();
    let mut j: usize = 0;
    while j < count
        invariant
            dims_ok(n as int, n_sem as int),
            i < n,
            j <= count,
            vars@.len() == j,
            grows(m0, *m),
            choices_encoded(m0, *m, i as int, n_sem as int, vars@),
        decreases count - j,
    {
        let ghost m1 = *m;
        let v = new_var(m, 0, 1);
        let e = unit_sum(&vec![v], Some(i), n, n_sem);
        let ghost et = e.terms@;
        proof {
            assert(unit_terms(seq![v]) =~= seq![Term { var: v, coeff: 1 }]);
        }
        add_constraint(m, e, Cmp::Le, 0);
        proof {
            assert(m.domains@.subrange(0, m1.domains@.len() as int) =~= m1.domains@);
            assert(grows(m1, *m));
            lemma_grows_trans(m0, m1, *m);
            lemma_choices_kept(m0, m1, *m, i as int, n_sem as int, vars@);
        }
        vars.push(v);
        j = j + 1;
        proof {
            assert forall|q: int| 0 <= q < vars@.len() implies m.domains@[#[trigger] vars@[q] as int] == (0i64, 1i64) by {
                if q < vars@.len() - 1 {
                    assert(vars@[q] == vars@.drop_last()[q]);
                }
            }
            assert forall|q: int| 0 <= q < vars@.len() implies has(m.constraints@,
                seq![Term { var: #[trigger] vars@[q], coeff: 1 }] + neg_row(i as int, n_sem as int), 0, Cmp::Le, 0) by {
                if q < vars@.len() - 1 {
                    assert(vars@[q] == vars@.drop_last()[q]);
                } else {
                    assert(et == seq![Term { var: v, coeff: 1 }] + neg_row(i as int, n_sem as int));
                }
            }
        }
    }
    vars
}

pub proof fn lemma_choices_widen(m0: Model, m1: Model, m2: Model, m3: Model, i: int, n_sem: int, vars: Seq<usize>)
    requires
        grows(m0, m1),
        choices_encoded(m1, m2, i, n_sem, vars),
        extends_model(m2, m3),
    ensures
        choices_encoded(m0, m3, i, n_sem, vars),
{
    lemma_choices_kept(m1, m2, m3, i, n_sem, vars);
}

pub proof fn lemma_assignment_widen(m0: Model, m1: Model, m2: Model, m3: Model, i: int, n_sem: int, count: int, vars: Seq<usize>)
    requires
        grows(m0, m1),
        assignment_encoded(m1, m2, i, n_sem, count, vars),
        extends_model(m2, m3),
    ensures
        assignment_encoded(m0, m3, i, n_sem, count, vars),
{
    lemma_choices_widen(m0, m1, m2, m3, i, n_sem, vars);
    lemma_has_kept(m2.constraints@, m3.constraints@, unit_terms(vars) + neg_row(i, n_sem), 0, Cmp::Eq, 0);
    lemma_has_kept(m2.constraints@, m3.constraints@, unit_terms(vars), 0, Cmp::Le, 1);
}

pub proof fn lemma_sp_widen(m0: Model, m1: Model, m2: Model, m3: Model, i: int, n_sem: int, count: int, vars: Seq<usize>)
    requires
        grows(m0, m1),
        sp_capped(m1, m2, i, n_sem, count, vars),
        extends_model(m2, m3),
    ensures
        sp_capped(m0, m3, i, n_sem, count, vars),
{
    lemma_choices_widen(m0, m1, m2, m3, i, n_sem, vars);
    lemma_has_kept(m2.constraints@, m3.constraints@, unit_terms(vars), 0, Cmp::Le, 3);
}

/// How many of the first `upto` requirements `idx` into `gs` list `c`.
pub fn count_eligible(gs: &Vec<GenEd>, idx: &Vec<usize>, c: CourseCode, upto: usize) -> (r: usize)
    requires
        forall|f: int| 0 <= f < idx@.len() ==> #[trigger] idx@[f] < gs@.len(),
        upto <= idx@.len(),
    ensures
        r == eligible(gs@, idx@, c, upto as int).len(),
{
    let mut r: usize = 0;
    let mut f: usize = 0;
    while f < upto
        invariant
            forall|h: int| 0 <= h < idx@.len() ==> #[trigger] idx@[h] < gs@.len(),
            upto <= idx@.len(),
            f <= upto,
            r == eligible(gs@, idx@, c, f as int).len(),
            r <= f,
        decreases upto - f,
    {
        let g = &gs[idx[f]];
        let req = match g {
            GenEd::Core { req } => req,
            GenEd::Foundation { req } => req,
            GenEd::SkillAndPerspective { req } => req,
        };
        if req_lists(req, c) {
            r = r + 1;
        }
        f = f + 1;
    }
    r
}

/// The requirement of a GenEd.
pub fn gened_req(g: &GenEd) -> (r: &GenEdReq)
    ensures
        *r == req_of(*g),
{
    match g {
        GenEd::Core { req } => req,
        GenEd::Foundation { req } => req,
        GenEd::SkillAndPerspective { req } => req,
    }
}

/// The listed courses of a Foundation that are not required.
pub open spec fn elective_listing(req: GenEdReq) -> spec_fn(Course) -> bool {
    |c: Course| req_listed(req, c.code) && !c.required
}

/// For each required course `0..k` that Foundation `f` lists, its
/// assignment variable for `f` (its eligible Foundations are numbered in
/// order, so that variable is entry `eligible(.., f).len()` of its row in
/// `tab`).
pub open spec fn assigned_terms(courses: Seq<Course>, gs: Seq<GenEd>, fidx: Seq<usize>, tab: Seq<Seq<usize>>, f: int, k: int) -> Seq<Term>
    decreases k,
{
    if k <= 0 {
        Seq::empty()
    } else if courses[k - 1].required && req_listed(req_at(gs, fidx, f), courses[k - 1].code) {
        assigned_terms(courses, gs, fidx, tab, f, k - 1).push(
            Term { var: tab[k - 1][eligible(gs, fidx, courses[k - 1].code, f).len() as int], coeff: 1 })
    } else {
        assigned_terms(courses, gs, fidx, tab, f, k - 1)
    }
}

/// Foundation `f`'s coverage sum: the rows of its listed electives and the
/// assignment variables, for `f`, of its listed required courses.
pub open spec fn coverage_terms(courses: Seq<Course>, n_sem: int, gs: Seq<GenEd>, fidx: Seq<usize>, tab: Seq<Seq<usize>>, f: int) -> Seq<Term> {
    rows_terms(courses, picked(courses, elective_listing(req_at(gs, fidx, f)), courses.len() as int), false, n_sem)
        + assigned_terms(courses, gs, fidx, tab, f, courses.len() as int)
}

/// The Foundation rules, with `tab[i]` the assignment variables of course
/// `i`, one per Foundation that lists it, in order.
pub open spec fn foundation_table(m0: Model, m: Model, courses: Seq<Course>, n_sem: int, gs: Seq<GenEd>, fidx: Seq<usize>, tab: Seq<Seq<usize>>) -> bool {
    let n = courses.len() as int;
    &&& tab.len() == n
    &&& forall|i: int| 0 <= i < n && (#[trigger] courses[i]).required && eligible(gs, fidx, courses[i].code, fidx.len() as int).len() > 0
        ==> assignment_encoded(m0, m, i, n_sem, eligible(gs, fidx, courses[i].code, fidx.len() as int).len() as int, tab[i])
    &&& forall|f: int| 0 <= f < fidx.len() ==> #[trigger] has(m.constraints@,
        coverage_terms(courses, n_sem, gs, fidx, tab, f), 0, Cmp::Ge, req_count(req_at(gs, fidx, f), courses))
    &&& forall|f: int, g: int| 0 <= f < g < fidx.len() ==> #[trigger] has(m.constraints@,
        rows_terms(courses, picked(courses, shared_electives(req_at(gs, fidx, f), req_at(gs, fidx, g)), n), false, n_sem),
        0, Cmp::Le, 0)
}

/// What the Foundations `fidx` (indices into `gs`) add to the model.
pub open spec fn foundations_encoded(m0: Model, m: Model, courses: Seq<Course>, n_sem: int, gs: Seq<GenEd>, fidx: Seq<usize>) -> bool {
    exists|tab: Seq<Seq<usize>>| #[trigger] foundation_table(m0, m, courses, n_sem, gs, fidx, tab)
}

pub proof fn lemma_eligible_mono(gs: Seq<GenEd>, idx: Seq<usize>, c: CourseCode, j: int, k: int)
    requires
        0 <= j <= k,
    ensures
        eligible(gs, idx, c, j).len() <= eligible(gs, idx, c, k).len(),
    decreases k,
{
    if j < k {
        lemma_eligible_mono(gs, idx, c, j, k - 1);
    }
}

/// A Foundation `f` that lists `c` has an entry in `c`'s eligible list.
pub proof fn lemma_eligible_pos(gs: Seq<GenEd>, idx: Seq<usize>, c: CourseCode, f: int, k: int)
    requires
        0 <= f < k,
        req_listed(req_at(gs, idx, f), c),
    ensures
        eligible(gs, idx, c, f).len() < eligible(gs, idx, c, k).len(),
{
    lemma_eligible_mono(gs, idx, c, f + 1, k);
}

/// Adds the Foundation rules for the requirements `fidx` (indices into
/// `gs`): each scheduled required course assigned to exactly one Foundation
/// that lists it; each Foundation's coverage counted from its listed
/// electives and the required courses assigned to it; no elective shared by
/// two of them.
pub fn add_foundation_constraints(m: &mut Model, courses: &Vec<Course>, n_sem: usize, gs: &Vec<GenEd>, fidx: &Vec<usize>)
    requires
        dims_ok(courses@.len() as int, n_sem as int),
        geneds_ok(gs@, courses@.len() as int),
        forall|f: int| 0 <= f < fidx@.len() ==> #[trigger] fidx@[f] < gs@.len(),
    ensures
        grows(*old(m), *final(m)),
        foundations_encoded(*old(m), *final(m), courses@, n_sem as int, gs@, fidx@),
{
    let ghost m0 = *m;
    proof { lemma_grows_refl(*m); }
    let n = courses.len();
    let nf = fidx.len();
    // assignment variables of required courses
    let mut tab: Vec<Vec<usize>> = Vec::new();
    let ghost mut tabs: Seq<Seq<usize>> = Seq::empty();
    let mut i: usize = 0;
    while i < n
        invariant
            n == courses@.len(),
            nf == fidx@.len(),
            dims_ok(n as int, n_sem as int),
            forall|h: int| 0 <= h < fidx@.len() ==> #[trigger] fidx@[h] < gs@.len(),
            i <= n,
            grows(m0, *m),
            tab@.len() == i,
            tabs.len() == i,
            forall|j: int| 0 <= j < i ==> (#[trigger] tab@[j])@ == tabs[j],
            forall|j: int| 0 <= j < i && (#[trigger] courses@[j]).required && eligible(gs@, fidx@, courses@[j].code, nf as int).len() > 0
                ==> assignment_encoded(m0, *m, j, n_sem as int, eligible(gs@, fidx@, courses@[j].code, nf as int).len() as int, tabs[j]),
        decreases n - i,
    {
        let c = courses[i];
        let ghost m1 = *m;
        let cnt = count_eligible(gs, fidx, c.code, nf);
        if c.required && cnt > 0 {
            let vars = add_choice_vars(m, n, n_sem, i, cnt);
            let ghost m2 = *m;
            let e1 = unit_sum(&vars, Some(i), n, n_sem);
            add_constraint(m, e1, Cmp::Eq, 0);
            let ghost m3 = *m;
            let e2 = unit_sum(&vars, None, n, n_sem);
            add_constraint(m, e2, Cmp::Le, 1);
            proof {
                assert(m3.domains@.subrange(0, m2.domains@.len() as int) =~= m2.domains@);
                assert(m.domains@.subrange(0, m3.domains@.len() as int) =~= m3.domains@);
                assert(grows(m2, m3));
                assert(grows(m3, *m));
                lemma_grows_trans(m2, m3, *m);
                lemma_grows_trans(m1, m2, *m);
                lemma_grows_trans(m0, m1, *m);
                lemma_choices_kept(m1, m2, *m, i as int, n_sem as int, vars@);
                lemma_has_kept(m3.constraints@, m.constraints@, unit_terms(vars@) + neg_row(i as int, n_sem as int), 0, Cmp::Eq, 0);
                assert(assignment_encoded(m1, *m, i as int, n_sem as int, cnt as int, vars@));
                lemma_grows_refl(*m);
                lemma_assignment_widen(m0, m1, *m, *m, i as int, n_sem as int, cnt as int, vars@);
                assert forall|j: int| 0 <= j < i && (#[trigger] courses@[j]).required && eligible(gs@, fidx@, courses@[j].code, nf as int).len() > 0
                    implies assignment_encoded(m0, *m, j, n_sem as int, eligible(gs@, fidx@, courses@[j].code, nf as int).len() as int, tabs[j]) by {
                    lemma_grows_refl(m0);
                    lemma_assignment_widen(m0, m0, m1, *m, j, n_sem as int,
                        eligible(gs@, fidx@, courses@[j].code, nf as int).len() as int, tabs[j]);
                }
            }
            proof { tabs = tabs.push(vars@); }
            tab.push(vars);
        } else {
            proof { tabs = tabs.push(Seq::empty()); }
            tab.push(Vec::new());
            assert(tab@[i as int]@ =~= tabs[i as int]);
        }
        i = i + 1;
    }
    let ghost m_assign = *m;
    proof { lemma_grows_refl(*m); }
    // coverage
    let mut f: usize = 0;
    while f < nf
        invariant
            n == courses@.len(),
            nf == fidx@.len(),
            dims_ok(n as int, n_sem as int),
            geneds_ok(gs@, n as int),
            forall|h: int| 0 <= h < fidx@.len() ==> #[trigger] fidx@[h] < gs@.len(),
            tab@.len() == n,
            tabs.len() == n,
            forall|j: int| 0 <= j < n ==> (#[trigger] tab@[j])@ == tabs[j],
            forall|j: int| 0 <= j < n && (#[trigger] courses@[j]).required && eligible(gs@, fidx@, courses@[j].code, nf as int).len() > 0
                ==> assignment_encoded(m0, m_assign, j, n_sem as int, eligible(gs@, fidx@, courses@[j].code, nf as int).len() as int, tabs[j]),
            f <= nf,
            grows(m0, m_assign),
            grows(m_assign, *m),
            forall|h: int| 0 <= h < f ==> #[trigger] has(m.constraints@,
                coverage_terms(courses@, n_sem as int, gs@, fidx@, tabs, h), 0, Cmp::Ge, req_count(req_at(gs@, fidx@, h), courses@)),
        decreases nf - f,
    {
        let ghost m1 = *m;
        let req = gened_req(&gs[fidx[f]]);
        let mut pick: Vec<bool> = Vec::new();
        let mut k: usize = 0;
        while k < n
            invariant
                n == courses@.len(),
                k <= n,
                pick@.len() == k,
                forall|j: int| 0 <= j < k ==> pick@[j] == (elective_listing(*req))(#[trigger] courses@[j]),
            decreases n - k,
        {
            let c = courses[k];
            pick.push(!c.required && req_lists(req, c.code));
            k = k + 1;
        }
        let (e, _cnt) = picked_rows_expr(courses, &pick, false, n_sem, Ghost(elective_listing(*req)));
        let mut terms = e.terms;
        let ghost base = terms@;
        let mut k: usize = 0;
        while k < n
            invariant
                n == courses@.len(),
                nf == fidx@.len(),
                f < nf,
                *req == req_at(gs@, fidx@, f as int),
                forall|h: int| 0 <= h < fidx@.len() ==> #[trigger] fidx@[h] < gs@.len(),
                tab@.len() == n,
                tabs.len() == n,
                forall|j: int| 0 <= j < n ==> (#[trigger] tab@[j])@ == tabs[j],
                forall|j: int| 0 <= j < n && (#[trigger] courses@[j]).required && eligible(gs@, fidx@, courses@[j].code, nf as int).len() > 0
                    ==> assignment_encoded(m0, m_assign, j, n_sem as int, eligible(gs@, fidx@, courses@[j].code, nf as int).len() as int, tabs[j]),
                k <= n,
                terms@ == base + assigned_terms(courses@, gs@, fidx@, tabs, f as int, k as int),
            decreases n - k,
        {
            let c = courses[k];
            if c.required && req_lists(req, c.code) {
                let pos = count_eligible(gs, fidx, c.code, f);
                proof {
                    lemma_eligible_pos(gs@, fidx@, c.code, f as int, nf as int);
                    assert(courses@[k as int].required);
                    assert(tabs[k as int].len() == eligible(gs@, fidx@, c.code, nf as int).len());
                }
                let v = tab[k][pos];
                terms.push(Term { var: v, coeff: 1 });
                assert(terms@ =~= base + assigned_terms(courses@, gs@, fidx@, tabs, f as int, k + 1));
            }
            k = k + 1;
        }
        let need = required_count(courses, req);
        let ghost tt = terms@;
        add_constraint(m, LinExpr { terms, constant: 0 }, Cmp::Ge, need);
        proof {
            assert(tt == coverage_terms(courses@, n_sem as int, gs@, fidx@, tabs, f as int));
            assert(m.domains@.subrange(0, m1.domains@.len() as int) =~= m1.domains@);
            assert(grows(m1, *m));
            lemma_grows_trans(m_assign, m1, *m);
            assert forall|h: int| 0 <= h < f + 1 implies #[trigger] has(m.constraints@,
                coverage_terms(courses@, n_sem as int, gs@, fidx@, tabs, h), 0, Cmp::Ge, req_count(req_at(gs@, fidx@, h), courses@)) by {
                if h < f {
                    lemma_has_kept(m1.constraints@, m.constraints@,
                        coverage_terms(courses@, n_sem as int, gs@, fidx@, tabs, h), 0, Cmp::Ge, req_count(req_at(gs@, fidx@, h), courses@));
                }
            }
        }
        f = f + 1;
    }
    let ghost m_cov = *m;
    proof { lemma_grows_refl(*m); }
    // pairwise: no shared elective
    let mut f: usize = 0;
    while f < nf
        invariant
            n == courses@.len(),
            nf == fidx@.len(),
            dims_ok(n as int, n_sem as int),
            forall|h: int| 0 <= h < fidx@.len() ==> #[trigger] fidx@[h] < gs@.len(),
            f <= nf,
            grows(m_cov, *m),
            forall|a: int, b: int| 0 <= a < b < nf && a < f ==> #[trigger] has(m.constraints@,
                rows_terms(courses@, picked(courses@, shared_electives(req_at(gs@, fidx@, a), req_at(gs@, fidx@, b)), n as int), false, n_sem as int),
                0, Cmp::Le, 0),
        decreases nf - f,
    {
        let rf = gened_req(&gs[fidx[f]]);
        let mut g: usize = f + 1;
        while g < nf
            invariant
                n == courses@.len(),
                nf == fidx@.len(),
                dims_ok(n as int, n_sem as int),
                forall|h: int| 0 <= h < fidx@.len() ==> #[trigger] fidx@[h] < gs@.len(),
                f < nf,
                f + 1 <= g <= nf,
                *rf == req_at(gs@, fidx@, f as int),
                grows(m_cov, *m),
                forall|a: int, b: int| 0 <= a < b < nf && (a < f || (a == f && b < g)) ==> #[trigger] has(m.constraints@,
                    rows_terms(courses@, picked(courses@, shared_electives(req_at(gs@, fidx@, a), req_at(gs@, fidx@, b)), n as int), false, n_sem as int),
                    0, Cmp::Le, 0),
            decreases nf - g,
        {
            let ghost m1 = *m;
            let rg = gened_req(&gs[fidx[g]]);
            let mut pick: Vec<bool> = Vec::new();
            let mut i: usize = 0;
            while i < n
                invariant
                    n == courses@.len(),
                    i <= n,
                    pick@.len() == i,
                    forall|j: int| 0 <= j < i ==> pick@[j] == (shared_electives(*rf, *rg))(#[trigger] courses@[j]),
                decreases n - i,
            {
                let c = courses[i];
                let both = !c.required && req_lists(rf, c.code) && req_lists(rg, c.code);
                pick.push(both);
                i = i + 1;
            }
            let (e, _k) = picked_rows_expr(courses, &pick, false, n_sem, Ghost(shared_electives(*rf, *rg)));
            add_constraint(m, e, Cmp::Le, 0);
            proof {
                assert(m.domains@.subrange(0, m1.domains@.len() as int) =~= m1.domains@);
                assert(grows(m1, *m));
                lemma_grows_trans(m_cov, m1, *m);
                assert forall|a: int, b: int| 0 <= a < b < nf && (a < f || (a == f && b < g + 1)) implies #[trigger] has(m.constraints@,
                    rows_terms(courses@, picked(courses@, shared_electives(req_at(gs@, fidx@, a), req_at(gs@, fidx@, b)), n as int), false, n_sem as int),
                    0, Cmp::Le, 0) by {
                    if a < f || b < g {
                        lemma_has_kept(m1.constraints@, m.constraints@,
                            rows_terms(courses@, picked(courses@, shared_electives(req_at(gs@, fidx@, a), req_at(gs@, fidx@, b)), n as int), false, n_sem as int),
                            0, Cmp::Le, 0);
                    }
                }
            }
            g = g + 1;
        }
        f = f + 1;
    }
    proof {
        lemma_grows_trans(m_assign, m_cov, *m);
        lemma_grows_trans(m0, m_assign, *m);
        assert forall|h: int| 0 <= h < nf implies #[trigger] has(m.constraints@,
            coverage_terms(courses@, n_sem as int, gs@, fidx@, tabs, h), 0, Cmp::Ge, req_count(req_at(gs@, fidx@, h), courses@)) by {
            lemma_has_kept(m_cov.constraints@, m.constraints@,
                coverage_terms(courses@, n_sem as int, gs@, fidx@, tabs, h), 0, Cmp::Ge, req_count(req_at(gs@, fidx@, h), courses@));
        }
        assert forall|j: int| 0 <= j < n && (#[trigger] courses@[j]).required && eligible(gs@, fidx@, courses@[j].code, nf as int).len() > 0
            implies assignment_encoded(m0, *m, j, n_sem as int, eligible(gs@, fidx@, courses@[j].code, nf as int).len() as int, tabs[j]) by {
            lemma_grows_refl(m0);
            lemma_assignment_widen(m0, m0, m_assign, *m, j, n_sem as int,
                eligible(gs@, fidx@, courses@[j].code, nf as int).len() as int, tabs[j]);
        }
        assert(foundation_table(m0, *m, courses@, n_sem as int, gs@, fidx@, tabs));
    }
}

pub proof fn lemma_of_kind_bounds(gs: Seq<GenEd>, kind: GenEdKind, k: int)
    requires
        0 <= k <= gs.len(),
    ensures
        forall|f: int| 0 <= f < of_kind(gs, kind, k).len() ==> #[trigger] of_kind(gs, kind, k)[f] < k,
    decreases k,
{
    if k > 0 {
        lemma_of_kind_bounds(gs, kind, k - 1);
        let prev = of_kind(gs, kind, k - 1);
        assert forall|f: int| 0 <= f < of_kind(gs, kind, k).len() implies #[trigger] of_kind(gs, kind, k)[f] < k by {
            if f < prev.len() {
                assert(prev[f] < k - 1);
            }
        }
    }
}

/// The indices of the requirements of `gs` of kind `kind`, in order.
pub fn kind_indices(gs: &Vec<GenEd>, kind: GenEdKind) -> (r: Vec<usize>)
    ensures
        r@ == of_kind(gs@, kind, gs@.len() as int),
        forall|f: int| 0 <= f < r@.len() ==> #[trigger] r@[f] < gs@.len(),
{
    let mut r: Vec<usize> = Vec::new();
    let mut j: usize = 0;
    while j < gs.len()
        invariant
            j <= gs@.len(),
            r@ == of_kind(gs@, kind, j as int),
        decreases gs@.len() - j,
    {
        let k = match &gs[j] {
            GenEd::Core { .. } => GenEdKind::Core,
            GenEd::Foundation { .. } => GenEdKind::Foundation,
            GenEd::SkillAndPerspective { .. } => GenEdKind::SkillAndPerspective,
        };
        if k == kind {
            r.push(j);
        }
        j = j + 1;
    }
    proof { lemma_of_kind_bounds(gs@, kind, gs@.len() as int); }
    r
}

/// What the Skill & Perspective requirements `sidx` add: every course that
/// more than three of them list is credited to at most three.
pub open spec fn sp_encoded(m0: Model, m: Model, courses: Seq<Course>, n_sem: int, gs: Seq<GenEd>, sidx: Seq<usize>) -> bool {
    forall|i: int| 0 <= i < courses.len() && eligible(gs, sidx, (#[trigger] courses[i]).code, sidx.len() as int).len() > 3
        ==> exists|vars: Seq<usize>| #[trigger] sp_capped(m0, m, i, n_sem,
            eligible(gs, sidx, courses[i].code, sidx.len() as int).len() as int, vars)
}

/// Adds the Skill & Perspective cap for the requirements `sidx` (indices
/// into `gs`).
pub fn add_sp_constraints(m: &mut Model, courses: &Vec<Course>, n_sem: usize, gs: &Vec<GenEd>, sidx: &Vec<usize>)
    requires
        dims_ok(courses@.len() as int, n_sem as int),
        forall|f: int| 0 <= f < sidx@.len() ==> #[trigger] sidx@[f] < gs@.len(),
    ensures
        grows(*old(m), *final(m)),
        sp_encoded(*old(m), *final(m), courses@, n_sem as int, gs@, sidx@),
{
    let ghost m0 = *m;
    proof { lemma_grows_refl(*m); }
    let n = courses.len();
    let ns = sidx.len();
    let mut i: usize = 0;
    while i < n
        invariant
            n == courses@.len(),
            ns == sidx@.len(),
            dims_ok(n as int, n_sem as int),
            forall|h: int| 0 <= h < sidx@.len() ==> #[trigger] sidx@[h] < gs@.len(),
            i <= n,
            grows(m0, *m),
            forall|j: int| 0 <= j < i && eligible(gs@, sidx@, (#[trigger] courses@[j]).code, ns as int).len() > 3
                ==> exists|vars: Seq<usize>| #[trigger] sp_capped(m0, *m, j, n_sem as int,
                    eligible(gs@, sidx@, courses@[j].code, ns as int).len() as int, vars),
        decreases n - i,
    {
        let cnt = count_eligible(gs, sidx, courses[i].code, sidx.len());
        if cnt > 3 {
            let ghost m1 = *m;
            let vars = add_choice_vars(m, n, n_sem, i, cnt);
            let ghost m2 = *m;
            let e = unit_sum(&vars, None, n, n_sem);
            add_constraint(m, e, Cmp::Le, 3);
            proof {
                assert(m.domains@.subrange(0, m2.domains@.len() as int) =~= m2.domains@);
                assert(grows(m2, *m));
                lemma_grows_trans(m1, m2, *m);
                lemma_grows_trans(m0, m1, *m);
                lemma_choices_kept(m1, m2, *m, i as int, n_sem as int, vars@);
                assert(sp_capped(m1, *m, i as int, n_sem as int, cnt as int, vars@));
                lemma_grows_refl(*m);
                lemma_sp_widen(m0, m1, *m, *m, i as int, n_sem as int, cnt as int, vars@);
                assert forall|j: int| 0 <= j < i + 1 && eligible(gs@, sidx@, (#[trigger] courses@[j]).code, ns as int).len() > 3
                    implies exists|vs: Seq<usize>| #[trigger] sp_capped(m0, *m, j, n_sem as int,
                        eligible(gs@, sidx@, courses@[j].code, ns as int).len() as int, vs) by {
                    if j < i {
                        let vs = choose|vs: Seq<usize>| #[trigger] sp_capped(m0, m1, j, n_sem as int,
                            eligible(gs@, sidx@, courses@[j].code, ns as int).len() as int, vs);
                        lemma_grows_refl(m0);
                        lemma_sp_widen(m0, m0, m1, *m, j, n_sem as int,
                            eligible(gs@, sidx@, courses@[j].code, ns as int).len() as int, vs);
                    } else {
                        assert(sp_capped(m0, *m, j, n_sem as int, cnt as int, vars@));
                    }
                }
            }
        }
        i = i + 1;
    }
}

pub proof fn lemma_core_widen(m0: Model, m1: Model, m2: Model, m3: Model, courses: Seq<Course>, n_sem: int, req: GenEdReq)
    requires
        grows(m0, m1),
        core_encoded(m1, m2, courses, n_sem, req),
        extends_model(m2, m3),
    ensures
        core_encoded(m0, m3, courses, n_sem, req),
{
    let n = courses.len() as int;
    match req {
        GenEdReq::CourseSet(cs) => {
            assert forall|i: int| 0 <= i < n && cs@.contains(#[trigger] courses[i].code)
                implies has(m3.constraints@, row_terms(i, n_sem, n_sem), 0, Cmp::Ge, 1) by {
                lemma_has_kept(m2.constraints@, m3.constraints@, row_terms(i, n_sem, n_sem), 0, Cmp::Ge, 1);
            }
        },
        GenEdReq::SetOpts(os) => {
            let inds = choose|inds: Seq<usize>| #[trigger] opts_encoded(m1, m2, courses, n_sem, os@, inds);
            assert forall|o: int| 0 <= o < os@.len() implies option_linked(m3.constraints@, courses, (#[trigger] os@[o])@, n_sem, inds[o]) by {
                let idx = picked(courses, codes_pick(os@[o]@), n);
                let t = rows_terms(courses, idx, false, n_sem);
                let k = idx.len() as i64;
                lemma_has_kept(m2.constraints@, m3.constraints@, t.push(Term { var: inds[o], coeff: k }), 0, Cmp::Le, (2 * k) as i64);
                lemma_has_kept(m2.constraints@, m3.constraints@, t.push(Term { var: inds[o], coeff: (-k) as i64 }), 0, Cmp::Ge, 0);
            }
            if os@.len() > 0 {
                lemma_has_kept(m2.constraints@, m3.constraints@, unit_terms(inds), 0, Cmp::Ge, 1);
            }
            assert(opts_encoded(m0, m3, courses, n_sem, os@, inds));
        },
        GenEdReq::Courses { num, courses: cs } => {
            lemma_has_kept(m2.constraints@, m3.constraints@, rows_terms(courses, picked(courses, codes_pick(cs@), n), false, n_sem), 0, Cmp::Ge, num);
        },
        GenEdReq::Credits { num, courses: cs } => {
            lemma_has_kept(m2.constraints@, m3.constraints@, rows_terms(courses, picked(courses, codes_pick(cs@), n), true, n_sem), 0, Cmp::Ge, num);
        },
    }
}

pub proof fn lemma_foundations_widen(m0: Model, m1: Model, m2: Model, m3: Model, courses: Seq<Course>, n_sem: int, gs: Seq<GenEd>, fidx: Seq<usize>)
    requires
        grows(m0, m1),
        foundations_encoded(m1, m2, courses, n_sem, gs, fidx),
        extends_model(m2, m3),
    ensures
        foundations_encoded(m0, m3, courses, n_sem, gs, fidx),
{
    let n = courses.len() as int;
    let tab = choose|tab: Seq<Seq<usize>>| #[trigger] foundation_table(m1, m2, courses, n_sem, gs, fidx, tab);
    assert forall|f: int| 0 <= f < fidx.len() implies #[trigger] has(m3.constraints@,
        coverage_terms(courses, n_sem, gs, fidx, tab, f), 0, Cmp::Ge, req_count(req_at(gs, fidx, f), courses)) by {
        lemma_has_kept(m2.constraints@, m3.constraints@,
            coverage_terms(courses, n_sem, gs, fidx, tab, f), 0, Cmp::Ge, req_count(req_at(gs, fidx, f), courses));
    }
    assert forall|f: int, g: int| 0 <= f < g < fidx.len() implies #[trigger] has(m3.constraints@,
        rows_terms(courses, picked(courses, shared_electives(req_at(gs, fidx, f), req_at(gs, fidx, g)), n), false, n_sem),
        0, Cmp::Le, 0) by {
        lemma_has_kept(m2.constraints@, m3.constraints@,
            rows_terms(courses, picked(courses, shared_electives(req_at(gs, fidx, f), req_at(gs, fidx, g)), n), false, n_sem),
            0, Cmp::Le, 0);
    }
    assert forall|i: int| 0 <= i < n && (#[trigger] courses[i]).required && eligible(gs, fidx, courses[i].code, fidx.len() as int).len() > 0
        implies assignment_encoded(m0, m3, i, n_sem, eligible(gs, fidx, courses[i].code, fidx.len() as int).len() as int, tab[i]) by {
        lemma_assignment_widen(m0, m1, m2, m3, i, n_sem, eligible(gs, fidx, courses[i].code, fidx.len() as int).len() as int, tab[i]);
    }
    assert(foundation_table(m0, m3, courses, n_sem, gs, fidx, tab));
}

/// The GenEd rules of `gs` hold in `m`, built on `m0`.
pub open spec fn geneds_encoded(m0: Model, m: Model, courses: Seq<Course>, n_sem: int, gs: Seq<GenEd>) -> bool {
    &&& forall|j: int| 0 <= j < gs.len() && kind_of(#[trigger] gs[j]) == GenEdKind::Core
        ==> core_encoded(m0, m, courses, n_sem, req_of(gs[j]))
    &&& foundations_encoded(m0, m, courses, n_sem, gs, of_kind(gs, GenEdKind::Foundation, gs.len() as int))
    &&& sp_encoded(m0, m, courses, n_sem, gs, of_kind(gs, GenEdKind::SkillAndPerspective, gs.len() as int))
}

/// Adds the Core, Foundation and Skill & Perspective rules of the catalog,
/// when GenEds are on and the catalog has them; otherwise the model stays as
/// it is.
pub fn add_gened_constraints(ctx: &mut ModelBuilderContext)
    requires
        dims_ok(old(ctx).courses@.len() as int, old(ctx).num_semesters as int),
        old(ctx).geneds matches Some(gs) ==> geneds_ok(gs@, old(ctx).courses@.len() as int),
    ensures
        *final(ctx) == (ModelBuilderContext { model: final(ctx).model, ..*old(ctx) }),
        grows(old(ctx).model, final(ctx).model),
        !(old(ctx).toggles.geneds && old(ctx).geneds is Some) ==> final(ctx).model == old(ctx).model,
        old(ctx).toggles.geneds ==> (old(ctx).geneds matches Some(gs) ==> geneds_encoded(old(ctx).model,
            final(ctx).model, old(ctx).courses@, old(ctx).num_semesters as int, gs@)),
{
    proof { lemma_grows_refl(ctx.model); }
    if !ctx.toggles.geneds {
        return;
    }
    let n_sem = ctx.num_semesters;
    let ghost m0 = ctx.model;
    match ctx.geneds {
        None => {},
        Some(gs) => {
            let ghost gsv = gs@;
            let mut j: usize = 0;
            while j < gs.len()
                invariant
                    *ctx == (ModelBuilderContext { model: ctx.model, ..*old(ctx) }),
                    old(ctx).geneds == Some(gs),
                    n_sem == ctx.num_semesters,
                    dims_ok(ctx.courses@.len() as int, n_sem as int),
                    geneds_ok(gs@, ctx.courses@.len() as int),
                    gs@ == gsv,
                    j <= gs@.len(),
                    grows(m0, ctx.model),
                    forall|h: int| 0 <= h < j && kind_of(#[trigger] gs@[h]) == GenEdKind::Core
                        ==> core_encoded(m0, ctx.model, ctx.courses@, n_sem as int, req_of(gs@[h])),
                decreases gs@.len() - j,
            {
                let ghost m1 = ctx.model;
                if let GenEd::Core { req } = &gs[j] {
                    add_core_constraints(&mut ctx.model, ctx.courses, n_sem, req);
                    proof {
                        lemma_grows_trans(m0, m1, ctx.model);
                        lemma_grows_refl(ctx.model);
                        lemma_core_widen(m0, m1, ctx.model, ctx.model, ctx.courses@, n_sem as int, *req);
                        assert forall|h: int| 0 <= h < j + 1 && kind_of(#[trigger] gs@[h]) == GenEdKind::Core
                            implies core_encoded(m0, ctx.model, ctx.courses@, n_sem as int, req_of(gs@[h])) by {
                            if h < j {
                                lemma_grows_refl(m0);
                                lemma_core_widen(m0, m0, m1, ctx.model, ctx.courses@, n_sem as int, req_of(gs@[h]));
                            }
                        }
                    }
                }
                j = j + 1;
            }
            let ghost m_core = ctx.model;
            let fidx = kind_indices(gs, GenEdKind::Foundation);
            add_foundation_constraints(&mut ctx.model, ctx.courses, n_sem, gs, &fidx);
            let ghost m_found = ctx.model;
            let sidx = kind_indices(gs, GenEdKind::SkillAndPerspective);
            add_sp_constraints(&mut ctx.model, ctx.courses, n_sem, gs, &sidx);
            proof {
                lemma_grows_trans(m_core, m_found, ctx.model);
                lemma_grows_trans(m0, m_core, ctx.model);
                lemma_grows_trans(m0, m_core, m_found);
                lemma_grows_refl(ctx.model);
                lemma_foundations_widen(m0, m_core, m_found, ctx.model, ctx.courses@, n_sem as int, gs@, fidx@);
                lemma_grows_refl(m0);
                lemma_sp_widen_all(m0, m_found, ctx.model, ctx.courses@, n_sem as int, gs@, sidx@);
                assert forall|h: int| 0 <= h < gs@.len() && kind_of(#[trigger] gs@[h]) == GenEdKind::Core
                    implies core_encoded(m0, ctx.model, ctx.courses@, n_sem as int, req_of(gs@[h])) by {
                    lemma_core_widen(m0, m0, m_core, ctx.model, ctx.courses@, n_sem as int, req_of(gs@[h]));
                }
            }
        },
    }
}

pub proof fn lemma_sp_widen_all(m0: Model, m1: Model, m2: Model, courses: Seq<Course>, n_sem: int, gs: Seq<GenEd>, sidx: Seq<usize>)
    requires
        grows(m0, m1),
        sp_encoded(m1, m2, courses, n_sem, gs, sidx),
    ensures
        sp_encoded(m0, m2, courses, n_sem, gs, sidx),
{
    assert forall|i: int| 0 <= i < courses.len() && eligible(gs, sidx, (#[trigger] courses[i]).code, sidx.len() as int).len() > 3
        implies exists|vars: Seq<usize>| #[trigger] sp_capped(m0, m2, i, n_sem,
            eligible(gs, sidx, courses[i].code, sidx.len() as int).len() as int, vars) by {
        let c = eligible(gs, sidx, courses[i].code, sidx.len() as int).len() as int;
        let vs = choose|vs: Seq<usize>| #[trigger] sp_capped(m1, m2, i, n_sem, c, vs);
        lemma_grows_refl(m2);
        lemma_sp_widen(m0, m1, m2, m2, i, n_sem, c, vs);
    }
}

pub proof fn lemma_geneds_widen(m0: Model, m1: Model, m2: Model, m3: Model, courses: Seq<Course>, n_sem: int, gs: Seq<GenEd>)
    requires
        grows(m0, m1),
        grows(m1, m2),
        geneds_encoded(m1, m2, courses, n_sem, gs),
        extends_model(m2, m3),
    ensures
        geneds_encoded(m0, m3, courses, n_sem, gs),
{
    assert forall|h: int| 0 <= h < gs.len() && kind_of(#[trigger] gs[h]) == GenEdKind::Core
        implies core_encoded(m0, m3, courses, n_sem, req_of(gs[h])) by {
        lemma_core_widen(m0, m1, m2, m3, courses, n_sem, req_of(gs[h]));
    }
    lemma_foundations_widen(m0, m1, m2, m3, courses, n_sem, gs, of_kind(gs, GenEdKind::Foundation, gs.len() as int));
    lemma_grows_trans(m0, m1, m2);
    let sidx = of_kind(gs, GenEdKind::SkillAndPerspective, gs.len() as int);
    assert forall|i: int| 0 <= i < courses.len() && eligible(gs, sidx, (#[trigger] courses[i]).code, sidx.len() as int).len() > 3
        implies exists|vars: Seq<usize>| #[trigger] sp_capped(m0, m3, i, n_sem,
            eligible(gs, sidx, courses[i].code, sidx.len() as int).len() as int, vars) by {
        let c = eligible(gs, sidx, courses[i].code, sidx.len() as int).len() as int;
        let vs = choose|vs: Seq<usize>| #[trigger] sp_capped(m1, m2, i, n_sem, c, vs);
        lemma_sp_widen(m0, m1, m2, m3, i, n_sem, c, vs);
    }
}

/// Extending a model keeps its GenEd encoding.
pub proof fn lemma_geneds_widen_ext(m0: Model, m1: Model, m2: Model, courses: Seq<Course>, n_sem: int, gs: Seq<GenEd>)
    requires
        geneds_encoded(m0, m1, courses, n_sem, gs),
        extends_model(m1, m2),
    ensures
        geneds_encoded(m0, m2, courses, n_sem, gs),
{
    lemma_grows_refl(m0);
    assert forall|h: int| 0 <= h < gs.len() && kind_of(#[trigger] gs[h]) == GenEdKind::Core
        implies core_encoded(m0, m2, courses, n_sem, req_of(gs[h])) by {
        lemma_core_widen(m0, m0, m1, m2, courses, n_sem, req_of(gs[h]));
    }
    lemma_foundations_widen(m0, m0, m1, m2, courses, n_sem, gs, of_kind(gs, GenEdKind::Foundation, gs.len() as int));
    let sidx = of_kind(gs, GenEdKind::SkillAndPerspective, gs.len() as int);
    assert forall|i: int| 0 <= i < courses.len() && eligible(gs, sidx, (#[trigger] courses[i]).code, sidx.len() as int).len() > 3
        implies exists|vars: Seq<usize>| #[trigger] sp_capped(m0, m2, i, n_sem,
            eligible(gs, sidx, courses[i].code, sidx.len() as int).len() as int, vars) by {
        let c = eligible(gs, sidx, courses[i].code, sidx.len() as int).len() as int;
        let vs = choose|vs: Seq<usize>| #[trigger] sp_capped(m0, m1, i, n_sem, c, vs);
        lemma_sp_widen(m0, m0, m1, m2, i, n_sem, c, vs);
    }
}

} // verus!
