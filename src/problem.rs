use vstd::prelude::*;

use crate::glass::Glass;
use crate::operation::Operation;
use crate::state::{parse_state_text, state_text, State};

verus! {

/// A puzzle: reach the filling `to` from the filling `from`.
#[derive(Debug, PartialEq)]
pub struct Problem {
    pub from: State,
    pub to: State,
}

/// Why a search ended without a solution.
#[derive(Debug, PartialEq)]
pub enum SolverError {
    /// The two states do not describe one set of glasses; `reason` says how.
    InvalidProblem { problem: String, reason: String },
    /// No sequence of operations leads from one state to the other.
    UnsolvableProblem { problem: String },
}

impl Clone for Problem {
    fn clone(&self) -> (r: Problem)
        ensures
            r.from@ == self.from@,
            r.to@ == self.to@,
    {
        Problem { from: self.from.clone(), to: self.to.clone() }
    }
}

pub type SolverResult = Result<Vec<Operation>, SolverError>;

/// The text of a problem: `from -> to`.
pub open spec fn problem_text(from: Seq<Glass>, to: Seq<Glass>) -> Seq<char> {
    state_text(from) + " -> "@ + state_text(to)
}

/// What is wrong with a problem, if anything: fewer than two glasses, a
/// different number of glasses in the two states, or a glass whose capacity
/// differs between them (checked in that order).
pub open spec fn invalid_reason(from: Seq<Glass>, to: Seq<Glass>) -> Option<Seq<char>> {
    if from.len() < 2 {
        Some("Should have at least two glasses"@)
    } else if from.len() != to.len() {
        Some("Should have same number of glasses"@)
    } else if exists|i: int| 0 <= i < from.len() && (#[trigger] from[i]).capacity != to[i].capacity {
        Some("Should have same capacity for all glasses"@)
    } else {
        None
    }
}

/// What validation returns for `problem`, seen through the views of its parts.
pub open spec fn validation_view(r: Result<&Problem, SolverError>) -> Option<(Seq<char>, Seq<char>)> {
    match r {
        Ok(_) => None,
        Err(SolverError::InvalidProblem { problem, reason }) => Some((problem@, reason@)),
        Err(SolverError::UnsolvableProblem { problem }) => Some((problem@, Seq::empty())),
    }
}

/// The outcome of validating `problem`: the problem itself when it is valid,
/// else `InvalidProblem` with the problem's text and the reason.
pub open spec fn validated(problem: &Problem, r: Result<&Problem, SolverError>) -> bool {
    match invalid_reason(problem.from@, problem.to@) {
        None => r == Ok::<&Problem, SolverError>(problem),
        Some(why) => match r {
            Err(SolverError::InvalidProblem { problem: p, reason }) => p@ == problem_text(
                problem.from@,
                problem.to@,
            ) && reason@ == why,
            _ => false,
        },
    }
}

/// Validation depends on the problem alone: two validations of one problem
/// give the same outcome.
pub proof fn lemma_validation_idempotent(
    problem: &Problem,
    r1: Result<&Problem, SolverError>,
    r2: Result<&Problem, SolverError>,
)
    requires
        validated(problem, r1),
        validated(problem, r2),
    ensures
        r1 is Ok <==> r2 is Ok,
        validation_view(r1) == validation_view(r2),
{
}

/// Two states with different numbers of glasses, the first of them with at
/// least two, never make a valid problem: the reason names the mismatch.
pub proof fn lemma_count_mismatch_rejected(from: Seq<Glass>, to: Seq<Glass>)
    requires
        from.len() >= 2,
        from.len() != to.len(),
    ensures
        invalid_reason(from, to) == Some("Should have same number of glasses"@),
{
}

impl Problem {
    pub fn new(from: State, to: State) -> (r: Problem)
        ensures
            r.from@ == from@,
            r.to@ == to@,
    {
        Problem { from, to }
    }

    /// The problem whose two states `from` and `to` describe, when both read.
    pub fn parse(from: &str, to: &str) -> (r: Option<Problem>)
        ensures
            match r {
                Some(p) => parse_state_text(from@) == Some(p.from@) && parse_state_text(to@)
                    == Some(p.to@),
                None => parse_state_text(from@) is None || parse_state_text(to@) is None,
            },
    {
        match (State::parse(from), State::parse(to)) {
            (Some(from), Some(to)) => Some(Problem { from, to }),
            _ => None,
        }
    }

    /// The text of the problem (see `problem_text`).
    pub fn to_string(&self) -> (r: String)
        ensures
            r@ == problem_text(self.from@, self.to@),
    {
        let mut out = self.from.to_string();
        out.append(" -> ");
        let to = self.to.to_string();
        out.append(to.as_str());
        out
    }
}

/// Checks that `problem` can be searched (see `invalid_reason`).
pub fn check_solvable_problem(problem: &Problem) -> (r: Result<&Problem, SolverError>)
    ensures
        validated(problem, r),
{
    let from = problem.from.glasses();
    let to = problem.to.glasses();
    if from.len() < 2 {
        return Err(
            SolverError::InvalidProblem {
                problem: problem.to_string(),
                reason: String::from_str("Should have at least two glasses"),
            },
        );
    }
    if from.len() != to.len() {
        return Err(
            SolverError::InvalidProblem {
                problem: problem.to_string(),
                reason: String::from_str("Should have same number of glasses"),
            },
        );
    }
    let mut i: usize = 0;
    while i < from.len()
        invariant
            from@ == problem.from@,
            to@ == problem.to@,
            2 <= from@.len() == to@.len(),
            i <= from@.len(),
            forall|j: int| 0 <= j < i ==> from@[j].capacity == to@[j].capacity,
        decreases from@.len() - i,
    {
        if from[i].capacity != to[i].capacity {
            assert(problem.from@[i as int].capacity != problem.to@[i as int].capacity);
            return Err(
                SolverError::InvalidProblem {
                    problem: problem.to_string(),
                    reason: String::from_str("Should have same capacity for all glasses"),
                },
            );
        }
        i = i + 1;
    }
    Ok(problem)
}

} // verus!
