use course_scheduler::catalog::{find_course, Course, GenEd, GenEdReq};
use course_scheduler::context::{ModelBuilderContext, Toggles};
use course_scheduler::geneds::add_gened_constraints;
use course_scheduler::linear::{check_assignment, LinExpr, Model};
use course_scheduler::pipeline::build_model_pipeline;
use course_scheduler::two_stage::{
    floor_mean, schedule_from, Action, Phase, ScheduleError, SolveResult, TwoStagePlanner,
};

fn course(code: u64, credits: i64, required: bool) -> Course {
    Course { code, credits, required }
}

fn value(e: &LinExpr, a: &[i64]) -> i64 {
    e.terms.iter().map(|t| t.coeff * a[t.var]).sum::<i64>() + e.constant
}

/// Tries every 0/1 value of the first `n_bool` variables; `fill` supplies the
/// rest. Returns every satisfying assignment with its objective value.
fn feasible(m: &Model, n_bool: usize, fill: &dyn Fn(&[i64]) -> Vec<i64>) -> Vec<(i64, Vec<i64>)> {
    let mut out = Vec::new();
    for bits in 0u64..(1u64 << n_bool) {
        let dec: Vec<i64> = (0..n_bool).map(|k| ((bits >> k) & 1) as i64).collect();
        let mut a = dec.clone();
        a.extend(fill(&dec));
        if check_assignment(m, &a) {
            out.push((value(&m.objective, &a), a));
        }
    }
    out
}

fn best(m: &Model, n_bool: usize, fill: &dyn Fn(&[i64]) -> Vec<i64>) -> (i64, Vec<i64>) {
    feasible(m, n_bool, fill).into_iter().min_by_key(|(v, _)| *v).expect("a feasible assignment")
}

fn nothing(_: &[i64]) -> Vec<i64> {
    Vec::new()
}

/// The load, deviation and absolute-deviation values of stage two.
fn balance_fill(credits: Vec<i64>, n_sem: usize, mean: i64) -> impl Fn(&[i64]) -> Vec<i64> {
    move |dec: &[i64]| {
        let mut aux = Vec::new();
        for s in 0..n_sem {
            let load: i64 = (0..credits.len()).map(|i| credits[i] * dec[i * n_sem + s]).sum();
            let dev = load - mean;
            aux.extend([load, dev, dev.abs()]);
        }
        aux
    }
}

#[test]
fn two_courses_with_prerequisite_and_core_set() {
    let courses = vec![course(1, 3, true), course(2, 3, true)];
    let prereqs = vec![(1u64, 2u64)];
    let geneds = vec![GenEd::Core { req: GenEdReq::CourseSet(vec![1]) }];
    let mut planner = TwoStagePlanner::new(&courses, 2, 15, &prereqs, Some(&geneds));
    let m1 = planner.pending.clone();
    assert_eq!(m1.domains.len(), 4);
    let (total, a) = best(&m1, 4, &nothing);
    assert_eq!(total, 6);
    assert_eq!(a, vec![1, 0, 0, 1]);
    match planner.step(SolveResult::Solved(a)) {
        Action::Solve => {}
        other => panic!("expected stage two, got {:?}", other),
    }
    let m2 = planner.pending.clone();
    assert_eq!(planner.phase, Phase::Stage2 { min_credits: 6 });
    assert_eq!(m2.domains.len(), 4 + 6);
    let fill = balance_fill(vec![3, 3], 2, 3);
    let (spread, a2) = best(&m2, 4, &fill);
    assert_eq!(spread, 0);
    assert_eq!(&a2[..4], &[1, 0, 0, 1]);
    for (_, sol) in feasible(&m2, 4, &fill) {
        let credits: i64 = (0..4).map(|v| 3 * sol[v]).sum();
        assert_eq!(credits, 6);
    }
    match planner.step(SolveResult::Solved(a2)) {
        Action::Commit(s) => assert_eq!(s, vec![vec![1], vec![2]]),
        other => panic!("expected a schedule, got {:?}", other),
    }
    assert_eq!(planner.phase, Phase::Done);
}

#[test]
fn required_course_shared_by_two_foundations_is_assigned_once() {
    let courses = vec![course(10, 3, false), course(11, 3, false), course(12, 3, true), course(13, 3, false)];
    let prereqs = vec![];
    let geneds = vec![
        GenEd::Foundation { req: GenEdReq::Courses { num: 2, courses: vec![10, 11, 12] } },
        GenEd::Foundation { req: GenEdReq::Courses { num: 1, courses: vec![12, 13] } },
    ];
    let planner = TwoStagePlanner::new(&courses, 1, 100, &prereqs, Some(&geneds));
    let m = planner.pending.clone();
    // four placements, then Z's two assignment variables
    assert_eq!(m.domains.len(), 6);
    let sols = feasible(&m, 6, &nothing);
    assert!(!sols.is_empty());
    for (_, a) in &sols {
        assert_eq!(a[2], 1);
        assert_eq!(a[4] + a[5], 1);
        // Z counts only toward the Foundation it is assigned to
        assert!(a[0] + a[1] + a[4] >= 2);
        assert!(a[3] + a[5] >= 1);
    }
    // X and Z alone no longer meet both Foundations
    assert!(!sols.iter().any(|(_, a)| a[..4] == [1, 0, 1, 0]));
    let (total, _) = best(&m, 6, &nothing);
    assert_eq!(total, 9);
}

#[test]
fn every_solution_respects_rows_prerequisites_and_cap() {
    let courses = vec![course(1, 4, true), course(2, 3, false), course(3, 4, true)];
    let prereqs = vec![(1u64, 3u64), (2u64, 3u64)];
    let n_sem = 3;
    let planner = TwoStagePlanner::new(&courses, n_sem, 7, &prereqs, None);
    let m = planner.pending.clone();
    let sols = feasible(&m, 9, &nothing);
    assert!(!sols.is_empty());
    for (_, a) in &sols {
        let sem_of = |i: usize| (0..n_sem).find(|&s| a[i * n_sem + s] == 1);
        for i in 0..3 {
            assert!((0..n_sem).map(|s| a[i * n_sem + s]).sum::<i64>() <= 1);
        }
        for &(b, f) in &prereqs {
            let bi = find_course(&courses, b).unwrap();
            let fi = find_course(&courses, f).unwrap();
            if let (Some(sb), Some(sf)) = (sem_of(bi), sem_of(fi)) {
                assert!(sb < sf);
            }
            if sem_of(fi).is_some() {
                assert!(sem_of(bi).is_some());
            }
        }
        for s in 0..n_sem {
            let load: i64 = (0..3).map(|i| courses[i].credits * a[i * n_sem + s]).sum();
            assert!(load <= 7);
        }
        assert!(sem_of(0).is_some() && sem_of(2).is_some());
    }
    // course 3 needs both prerequisites first
    assert_eq!(best(&m, 9, &nothing).0, 11);
}

#[test]
fn geneds_absent_leave_the_model_as_without_them() {
    let courses = vec![course(1, 3, true), course(2, 4, false)];
    let prereqs = vec![(1u64, 2u64)];
    let with_none = TwoStagePlanner::new(&courses, 2, 10, &prereqs, None);
    let on = Toggles { prereqs: true, geneds: true, semester_limit: true };
    let off = Toggles { prereqs: true, geneds: false, semester_limit: true };
    let a = with_none.model_with(on, None);
    let geneds = vec![GenEd::Core { req: GenEdReq::CourseSet(vec![2]) }];
    let gened_off = TwoStagePlanner::new(&courses, 2, 10, &prereqs, Some(&geneds)).model_with(off, None);
    assert_eq!(a.domains, gened_off.domains);
    assert_eq!(a.constraints.len(), gened_off.constraints.len());
    let sols_a: Vec<Vec<i64>> = feasible(&a, 4, &nothing).into_iter().map(|x| x.1).collect();
    let sols_b: Vec<Vec<i64>> = feasible(&gened_off, 4, &nothing).into_iter().map(|x| x.1).collect();
    assert_eq!(sols_a, sols_b);

    let mut ctx = ModelBuilderContext::new_with_toggles(&courses, 2, 10, &prereqs, None, on);
    let before = ctx.model.constraints.len();
    add_gened_constraints(&mut ctx);
    assert_eq!(ctx.model.constraints.len(), before);
}

#[test]
fn skill_and_perspective_cap_adds_used_variables() {
    let courses = vec![course(1, 3, false)];
    let prereqs = vec![];
    let sp = |codes: Vec<u64>| GenEd::SkillAndPerspective { req: GenEdReq::CourseSet(codes) };
    let four = vec![sp(vec![1]), sp(vec![1]), sp(vec![1]), sp(vec![1])];
    let m = TwoStagePlanner::new(&courses, 1, 10, &prereqs, Some(&four)).pending.clone();
    assert_eq!(m.domains.len(), 1 + 4);
    for (_, a) in feasible(&m, 5, &nothing) {
        assert!(a[1..].iter().sum::<i64>() <= 3);
        assert!(a[1..].iter().all(|&u| u <= a[0]));
    }
    let three = vec![sp(vec![1]), sp(vec![1]), sp(vec![1])];
    let m3 = TwoStagePlanner::new(&courses, 1, 10, &prereqs, Some(&three)).pending.clone();
    assert_eq!(m3.domains.len(), 1);
}

#[test]
fn core_option_sets_need_one_whole_option() {
    let courses = vec![course(1, 3, false), course(2, 3, false), course(3, 5, false)];
    let prereqs = vec![];
    let geneds = vec![GenEd::Core { req: GenEdReq::SetOpts(vec![vec![1, 2], vec![3]]) }];
    let m = TwoStagePlanner::new(&courses, 1, 20, &prereqs, Some(&geneds)).pending.clone();
    assert_eq!(m.domains.len(), 3 + 2);
    for (_, a) in feasible(&m, 5, &nothing) {
        if a[3] == 1 {
            assert!(a[0] == 1 && a[1] == 1);
        }
        if a[4] == 1 {
            assert!(a[2] == 1);
        }
        assert!(a[3] + a[4] >= 1);
    }
    assert_eq!(best(&m, 5, &nothing).0, 5);
}

#[test]
fn core_courses_and_credits_requirements() {
    let courses = vec![course(1, 3, false), course(2, 4, false), course(3, 2, false)];
    let prereqs = vec![];
    let by_count = vec![GenEd::Core { req: GenEdReq::Courses { num: 2, courses: vec![1, 2, 3, 99] } }];
    let m = TwoStagePlanner::new(&courses, 1, 20, &prereqs, Some(&by_count)).pending.clone();
    assert_eq!(best(&m, 3, &nothing).0, 5);
    let by_credits = vec![GenEd::Core { req: GenEdReq::Credits { num: 6, courses: vec![1, 2, 3] } }];
    let m = TwoStagePlanner::new(&courses, 1, 20, &prereqs, Some(&by_credits)).pending.clone();
    assert_eq!(best(&m, 3, &nothing).0, 6);
}

#[test]
fn shared_elective_of_two_foundations_is_never_scheduled() {
    let courses = vec![course(1, 3, false), course(2, 3, false), course(3, 3, false)];
    let prereqs = vec![];
    let geneds = vec![
        GenEd::Foundation { req: GenEdReq::Courses { num: 1, courses: vec![1, 2] } },
        GenEd::Foundation { req: GenEdReq::Courses { num: 1, courses: vec![2, 3] } },
    ];
    let m = TwoStagePlanner::new(&courses, 1, 20, &prereqs, Some(&geneds)).pending.clone();
    let sols = feasible(&m, 3, &nothing);
    assert!(!sols.is_empty());
    for (_, a) in sols {
        assert_eq!(a[1], 0);
        assert!(a[0] == 1 && a[2] == 1);
    }
}

#[test]
fn pipeline_on_a_context_sets_the_total_credit_objective() {
    let courses = vec![course(1, 3, true), course(2, 5, false)];
    let prereqs = vec![];
    let on = Toggles { prereqs: true, geneds: true, semester_limit: true };
    let mut ctx = ModelBuilderContext::new_with_toggles(&courses, 2, 10, &prereqs, None, on);
    ctx.set_min_credits(8);
    build_model_pipeline(&mut ctx);
    let obj: Vec<(usize, i64)> = ctx.model.objective.terms.iter().map(|t| (t.var, t.coeff)).collect();
    assert_eq!(obj, vec![(0, 3), (1, 3), (2, 5), (3, 5)]);
    let sols = feasible(&ctx.model, 4, &nothing);
    assert!(!sols.is_empty());
    for (total, _) in sols {
        assert_eq!(total, 8);
    }
}

#[test]
fn floor_mean_rounds_down() {
    assert_eq!(floor_mean(7, 2), 3);
    assert_eq!(floor_mean(6, 2), 3);
    assert_eq!(floor_mean(-7, 2), -4);
    assert_eq!(floor_mean(0, 5), 0);
}

#[test]
fn schedule_is_read_per_semester_in_course_order() {
    let courses = vec![course(5, 3, false), course(6, 3, false), course(7, 3, false)];
    let vals = vec![0, 1, 1, 0, 0, 1];
    assert_eq!(schedule_from(&courses, 2, &vals), vec![vec![6], vec![5, 7]]);
}

#[test]
fn stage_one_without_solution_fails() {
    let courses = vec![course(1, 3, true)];
    let prereqs = vec![];
    let mut p = TwoStagePlanner::new(&courses, 1, 2, &prereqs, None);
    let m = p.pending.clone();
    assert!(feasible(&m, 1, &nothing).is_empty());
    assert_eq!(p.diagnostic_models().len(), 4);
    let relaxed = &p.diagnostic_models()[2];
    assert!(!relaxed.0.semester_limit);
    assert!(!feasible(&relaxed.1, 1, &nothing).is_empty());
    assert!(matches!(p.step(SolveResult::NoSolution), Action::Fail(ScheduleError::Stage1Infeasible)));
    assert!(matches!(p.step(SolveResult::NoSolution), Action::Fail(ScheduleError::Finished)));
}

#[test]
fn stage_two_without_solution_fails() {
    let courses = vec![course(1, 3, true)];
    let prereqs = vec![];
    let mut p = TwoStagePlanner::new(&courses, 1, 5, &prereqs, None);
    assert!(matches!(p.step(SolveResult::Solved(vec![1])), Action::Solve));
    assert!(matches!(p.step(SolveResult::NoSolution), Action::Fail(ScheduleError::Stage2Infeasible)));
}

#[test]
fn short_or_overflowing_solutions_are_rejected() {
    let courses = vec![course(1, 3, true), course(2, 3, true)];
    let prereqs = vec![];
    let mut p = TwoStagePlanner::new(&courses, 2, 5, &prereqs, None);
    assert!(matches!(p.step(SolveResult::Solved(vec![1, 0])), Action::Fail(ScheduleError::MalformedSolution)));
    let big = vec![course(1, i64::MAX, true), course(2, i64::MAX, true)];
    let mut q = TwoStagePlanner::new(&big, 2, i64::MAX, &prereqs, None);
    assert!(matches!(q.step(SolveResult::Solved(vec![1, 0, 0, 1])), Action::Fail(ScheduleError::CreditOverflow)));
}

#[test]
fn values_that_break_the_model_are_rejected() {
    let courses = vec![course(1, 3, true), course(2, 3, true)];
    let prereqs = vec![(1u64, 2u64)];
    // B before A breaks the prerequisite
    let mut p = TwoStagePlanner::new(&courses, 2, 15, &prereqs, None);
    assert!(matches!(p.step(SolveResult::Solved(vec![0, 1, 1, 0])), Action::Fail(ScheduleError::MalformedSolution)));
    // a stage-two answer with the wrong total
    let mut q = TwoStagePlanner::new(&courses, 2, 15, &prereqs, None);
    assert!(matches!(q.step(SolveResult::Solved(vec![1, 0, 0, 1])), Action::Solve));
    assert!(matches!(q.step(SolveResult::Solved(vec![1, 0, 0, 0, 3, 0, 0, 0, 3, 3])), Action::Fail(ScheduleError::MalformedSolution)));
}

#[test]
fn checker_rejects_out_of_domain_and_short_assignments() {
    let courses = vec![course(1, 3, false)];
    let prereqs = vec![];
    let m = TwoStagePlanner::new(&courses, 2, 10, &prereqs, None).pending.clone();
    assert!(check_assignment(&m, &vec![0, 1]));
    assert!(!check_assignment(&m, &vec![0, 2]));
    assert!(!check_assignment(&m, &vec![1, 1]));
    assert!(!check_assignment(&m, &vec![1]));
}

#[test]
fn find_course_looks_codes_up() {
    let courses = vec![course(4, 3, false), course(9, 2, true)];
    assert_eq!(find_course(&courses, 9), Some(1));
    assert_eq!(find_course(&courses, 5), None);
}

#[test]
fn model_without_geneds_holds_exactly_the_stated_constraints() {
    let courses = vec![course(1, 3, true), course(2, 4, false)];
    let prereqs = vec![(1u64, 2u64), (1u64, 77u64)];
    let m = TwoStagePlanner::new(&courses, 2, 10, &prereqs, None).pending.clone();
    // two rows, one required row, two semester caps, two orderings
    assert_eq!(m.constraints.len(), 7);
    assert_eq!(m.domains.len(), 4);
    let valid = vec![1, 0, 0, 1];
    assert!(check_assignment(&m, &valid));
}
