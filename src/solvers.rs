//! The solver types. They differ only in name: each runs the one breadth-first
//! search of `solver::solve`.
use vstd::prelude::*;

use crate::problem::{invalid_reason, Problem, SolverResult};
use crate::search::{lemma_run_within, out_of_reach, within};
use crate::solver::solve_post;
use crate::state::{parse_state_text, State};

verus! {

/// Something that solves puzzles, as `solve_post` describes.
pub trait Solver {
    fn solve(&self, problem: Problem) -> (r: SolverResult)
        ensures
            solve_post(problem.from@, problem.to@, r),
    ;
}

#[derive(Debug)]
pub struct ImperativeSolver();

#[derive(Debug)]
pub struct RecSolver();

#[derive(Debug)]
pub struct Rec2Solver();

impl Solver for ImperativeSolver {
    fn solve(&self, problem: Problem) -> (r: SolverResult) {
        crate::solver::solve(&problem)
    }
}

impl Solver for RecSolver {
    fn solve(&self, problem: Problem) -> (r: SolverResult) {
        crate::solver::solve(&problem)
    }
}

impl Solver for Rec2Solver {
    fn solve(&self, problem: Problem) -> (r: SolverResult) {
        crate::solver::solve(&problem)
    }
}

/// The length of the solution that `solver` finds from the state that `input`
/// describes to the one that `output` describes; `None` when either text does
/// not read as a state or there is no solution.
pub fn test_solver<S: Solver>(input: &str, output: &str, solver: &S) -> (r: Option<usize>)
    ensures
        match (parse_state_text(input@), parse_state_text(output@)) {
            (Some(from), Some(to)) => match r {
                Some(len) => {
                    &&& invalid_reason(from, to) is None
                    &&& within(from, len as nat).contains(to)
                    &&& len > 0 ==> !within(from, (len - 1) as nat).contains(to)
                },
                None => invalid_reason(from, to) is Some || out_of_reach(from, to),
            },
            _ => r is None,
        },
{
    let from = match State::parse(input) {
        Some(s) => s,
        None => {
            return None;
        },
    };
    let to = match State::parse(output) {
        Some(s) => s,
        None => {
            return None;
        },
    };
    let problem = Problem { from, to };
    let ghost start = problem.from@;
    match solver.solve(problem) {
        Ok(ops) => {
            proof {
                lemma_run_within(start, ops@);
            }
            Some(ops.len())
        },
        Err(_) => None,
    }
}

} // verus!
