//! A solution replayed step by step, as plain data for a front end to show.
use vstd::prelude::*;

use crate::operation::Operation;
use crate::problem::{Problem, SolverError, SolverResult};
use crate::problem::invalid_reason;
use crate::search::{lemma_run_within, out_of_reach, run, shortest_solution, valid_ops};
use crate::solvers::{RecSolver, Solver};
use crate::state::{apply_spec, parse_state_text, state_text, State};

verus! {

/// The glasses an operation takes from and pours into.
#[derive(Clone, Copy, Debug, PartialEq, Eq, Structural)]
pub struct WasmOperation {
    pub from: Option<usize>,
    pub to: Option<usize>,
}

/// One line of a replay: a state, and, past the first line, the operation
/// applied to it and the state that results.
#[derive(Debug)]
pub struct WasmStep {
    pub from: String,
    pub operation: Option<WasmOperation>,
    pub to: Option<String>,
}

/// A replayed solution, or the message that says why there is none.
#[derive(Debug)]
pub struct WasmResult {
    pub error: Option<String>,
    pub steps: Vec<WasmStep>,
}

/// Emptying takes from a glass, filling pours into one, pouring does both.
pub open spec fn operation_ends(op: Operation) -> WasmOperation {
    match op {
        Operation::Empty { glass } => WasmOperation { from: Some(glass), to: None },
        Operation::Fill { glass } => WasmOperation { from: None, to: Some(glass) },
        Operation::Pour { from, to } => WasmOperation { from: Some(from), to: Some(to) },
    }
}

/// The replay line for operation `i` of `moves` from `start`.
pub open spec fn step_line(step: WasmStep, start: Seq<crate::glass::Glass>, moves: Seq<Operation>, i: int) -> bool {
    &&& step.from@ == state_text(run(start, moves.take(i)))
    &&& step.operation == Some(operation_ends(moves[i]))
    &&& step.to matches Some(t) && t@ == state_text(run(start, moves.take(i + 1)))
}

impl WasmOperation {
    pub fn new(ope: &Operation) -> (r: WasmOperation)
        ensures
            r == operation_ends(*ope),
    {
        match *ope {
            Operation::Empty { glass } => WasmOperation { from: Some(glass), to: None },
            Operation::Fill { glass } => WasmOperation { from: None, to: Some(glass) },
            Operation::Pour { from, to } => WasmOperation { from: Some(from), to: Some(to) },
        }
    }
}

impl WasmResult {
    pub fn error(message: String) -> (r: WasmResult)
        ensures
            r.error == Some(message),
            r.steps@.len() == 0,
    {
        WasmResult { error: Some(message), steps: Vec::new() }
    }

    pub fn solved(steps: Vec<WasmStep>) -> (r: WasmResult)
        ensures
            r.error is None,
            r.steps == steps,
    {
        WasmResult { error: None, steps }
    }
}

impl WasmStep {
    /// The first line of a replay: the starting state alone.
    pub fn init(state: &State) -> (r: WasmStep)
        ensures
            r.from@ == state_text(state@),
            r.operation is None,
            r.to is None,
    {
        WasmStep { from: state.to_string(), operation: None, to: None }
    }

    /// The line for `ope` applied to `state`, and the state that results.
    pub fn step(state: &State, ope: &Operation) -> (r: (WasmStep, State))
        requires
            ope.valid_for(state@.len()),
        ensures
            r.0.from@ == state_text(state@),
            r.0.operation == Some(operation_ends(*ope)),
            r.0.to matches Some(t) && t@ == state_text(apply_spec(state@, *ope)),
            r.1@ == apply_spec(state@, *ope),
    {
        let from = state.to_string();
        let operation = Some(WasmOperation::new(ope));
        let next = state.apply(*ope);
        let to = Some(next.to_string());
        (WasmStep { from, operation, to }, next)
    }
}

/// Turns the outcome of a search from `from` into a replay: each error becomes
/// its message; a solution becomes the starting line and one line per move.
pub fn transform(from: &State, result: SolverResult) -> (r: WasmResult)
    requires
        result matches Ok(moves) ==> valid_ops(moves@, from@.len()),
    ensures
        match result {
            Err(SolverError::InvalidProblem { reason, .. }) => {
                &&& r.steps@.len() == 0
                &&& r.error matches Some(e) && e@ == "Cannot solve because "@ + reason@
            },
            Err(SolverError::UnsolvableProblem { .. }) => {
                &&& r.steps@.len() == 0
                &&& r.error matches Some(e) && e@ == "No solution found!"@
            },
            Ok(moves) => {
                &&& r.error is None
                &&& r.steps@.len() == moves@.len() + 1
                &&& r.steps@[0].from@ == state_text(from@)
                &&& r.steps@[0].operation is None
                &&& r.steps@[0].to is None
                &&& forall|i: int|
                    0 <= i < moves@.len() ==> step_line(#[trigger] r.steps@[i + 1], from@, moves@, i)
            },
        },
{
    match result {
        Err(SolverError::InvalidProblem { reason, .. }) => {
            let mut message = String::from_str("Cannot solve because ");
            message.append(reason.as_str());
            WasmResult::error(message)
        },
        Err(SolverError::UnsolvableProblem { .. }) => {
            WasmResult::error(String::from_str("No solution found!"))
        },
        Ok(moves) => {
            let mut steps: Vec<WasmStep> = Vec::new();
            steps.push(WasmStep::init(from));
            let mut state = from.clone();
            let mut i: usize = 0;
            assert(moves@.take(0) =~= Seq::<Operation>::empty());
            while i < moves.len()
                invariant
                    valid_ops(moves@, from@.len()),
                    i <= moves@.len(),
                    state@ == run(from@, moves@.take(i as int)),
                    state@.len() == from@.len(),
                    steps@.len() == i + 1,
                    steps@[0].from@ == state_text(from@),
                    steps@[0].operation is None,
                    steps@[0].to is None,
                    forall|j: int| 0 <= j < i ==> step_line(#[trigger] steps@[j + 1], from@, moves@, j),
                decreases moves@.len() - i,
            {
                let m = moves[i];
                assert(moves@[i as int].valid_for(from@.len()));
                let (step, next) = WasmStep::step(&state, &m);
                let ghost before = steps@;
                steps.push(step);
                proof {
                    assert(moves@.take(i + 1).drop_last() =~= moves@.take(i as int));
                }
                state = next;
                i = i + 1;
                assert forall|j: int| 0 <= j < i implies step_line(#[trigger] steps@[j + 1], from@, moves@, j) by {
                    if j < i - 1 {
                        assert(steps@[j + 1] == before[j + 1]);
                    }
                }
            }
            WasmResult::solved(steps)
        },
    }
}

/// Reads both states, searches from the first to the second and replays what
/// the search found; `None` when either text does not read as a state.
pub fn solve_report(from: &str, to: &str) -> (r: Option<WasmResult>)
    ensures
        match (parse_state_text(from@), parse_state_text(to@)) {
            (Some(f), Some(t)) => r matches Some(res) && match invalid_reason(f, t) {
                Some(why) => {
                    &&& res.steps@.len() == 0
                    &&& res.error matches Some(e) && e@ == "Cannot solve because "@ + why
                },
                None => if out_of_reach(f, t) {
                    &&& res.steps@.len() == 0
                    &&& res.error matches Some(e) && e@ == "No solution found!"@
                } else {
                    &&& res.error is None
                    &&& res.steps@[0].from@ == state_text(f)
                    &&& res.steps@[0].operation is None
                    &&& exists|moves: Seq<Operation>|
                        {
                            &&& shortest_solution(f, t, moves)
                            &&& res.steps@.len() == moves.len() + 1
                            &&& forall|i: int|
                                0 <= i < moves.len() ==> step_line(
                                    #[trigger] res.steps@[i + 1],
                                    f,
                                    moves,
                                    i,
                                )
                        }
                },
            },
            _ => r is None,
        },
{
    let problem = match Problem::parse(from, to) {
        Some(p) => p,
        None => {
            return None;
        },
    };
    let start = problem.from.clone();
    let ghost t = problem.to@;
    let result = RecSolver().solve(problem);
    proof {
        use_type_invariant(&start);
        if result is Ok {
            lemma_run_within(start@, result->Ok_0@);
        }
    }
    Some(transform(&start, result))
}

} // verus!
