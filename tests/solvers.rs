use waterpouring::problem::Problem;
use waterpouring::problem::SolverError::{InvalidProblem, UnsolvableProblem};
use waterpouring::solvers::{test_solver, ImperativeSolver, Rec2Solver, RecSolver, Solver};
use waterpouring::state::State;

#[test]
fn imp_already_found() {
    let solver = ImperativeSolver();
    let from = "0/2, 0/1";

    assert_eq!(test_solver(from, from, &solver).unwrap(), 0)
}

#[test]
fn imp_solve_1() {
    let solver = ImperativeSolver();
    let from = "0/5, 0/3";
    let to = "4/5, 0/3";

    assert_eq!(test_solver(from, to, &solver).unwrap(), 7)
}

#[test]
fn imp_invalid_problem() {
    let solver = ImperativeSolver();
    let from = State::parse("0/8, 0/4, 0/2").unwrap();
    let to = State::parse("0/4, 0/2").unwrap();
    let problem = Problem { from, to };

    let result = solver.solve(problem.clone());

    let reason = "Should have same number of glasses".to_string();
    assert_eq!(
        result,
        Err(InvalidProblem {
            problem: problem.to_string(),
            reason,
        })
    )
}

#[test]
fn imp_no_solution() {
    let solver = ImperativeSolver();
    let from = State::parse("0/8, 0/4, 0/2").unwrap();
    let to = State::parse("1/8, 0/4, 0/2").unwrap();
    let problem = Problem { from, to };

    let result = solver.solve(problem.clone());

    assert_eq!(
        result,
        Err(UnsolvableProblem {
            problem: problem.to_string()
        })
    )
}

#[test]
fn imp_solve_2() {
    let solver = ImperativeSolver();
    let from = "0/8, 0/5";
    let to = "6/8, 0/5";

    assert_eq!(test_solver(from, to, &solver).unwrap(), 7)
}

#[test]
fn rec_already_found() {
    let solver = RecSolver();
    let from = "0/2, 0/1";

    assert_eq!(test_solver(from, from, &solver).unwrap(), 0)
}

#[test]
fn rec_solve_1() {
    let solver = RecSolver();
    let from = "0/5, 0/3";
    let to = "4/5, 0/3";

    assert_eq!(test_solver(from, to, &solver).unwrap(), 7)
}

#[test]
fn rec_invalid_problem() {
    let solver = RecSolver();
    let from = State::parse("0/8, 0/4, 0/2").unwrap();
    let to = State::parse("0/4, 0/2").unwrap();
    let problem = Problem { from, to };

    let result = solver.solve(problem.clone());

    let reason = "Should have same number of glasses".to_string();
    assert_eq!(
        result,
        Err(InvalidProblem {
            problem: problem.to_string(),
            reason,
        })
    )
}

#[test]
fn rec_no_solution() {
    let solver = RecSolver();
    let from = State::parse("0/8, 0/4, 0/2").unwrap();
    let to = State::parse("1/8, 0/4, 0/2").unwrap();
    let problem = Problem { from, to };

    let result = solver.solve(problem.clone());

    assert_eq!(
        result,
        Err(UnsolvableProblem {
            problem: problem.to_string()
        })
    )
}

#[test]
fn rec_solve_2() {
    let solver = RecSolver();
    let from = "0/8, 0/5";
    let to = "6/8, 0/5";

    assert_eq!(test_solver(from, to, &solver).unwrap(), 7)
}

#[test]
fn rec2_already_found() {
    let solver = Rec2Solver();
    let from = "0/2, 0/1";

    assert_eq!(test_solver(from, from, &solver).unwrap(), 0)
}

#[test]
fn rec2_solve_1() {
    let solver = Rec2Solver();
    let from = "0/5, 0/3";
    let to = "4/5, 0/3";

    assert_eq!(test_solver(from, to, &solver).unwrap(), 7)
}

#[test]
fn rec2_invalid_problem() {
    let solver = Rec2Solver();
    let from = State::parse("0/8, 0/4, 0/2").unwrap();
    let to = State::parse("0/4, 0/2").unwrap();
    let problem = Problem { from, to };

    let result = solver.solve(problem.clone());

    let reason = "Should have same number of glasses".to_string();
    assert_eq!(
        result,
        Err(InvalidProblem {
            problem: problem.to_string(),
            reason,
        })
    )
}

#[test]
fn rec2_no_solution() {
    let solver = Rec2Solver();
    let from = State::parse("0/8, 0/4, 0/2").unwrap();
    let to = State::parse("1/8, 0/4, 0/2").unwrap();
    let problem = Problem { from, to };

    let result = solver.solve(problem.clone());

    assert_eq!(
        result,
        Err(UnsolvableProblem {
            problem: problem.to_string()
        })
    )
}

#[test]
fn rec2_solve_2() {
    let solver = Rec2Solver();
    let from = "0/8, 0/5";
    let to = "6/8, 0/5";

    assert_eq!(test_solver(from, to, &solver).unwrap(), 7)
}
