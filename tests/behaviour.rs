use waterpouring::glass::Glass;
use waterpouring::operation::Operation;
use waterpouring::problem::{check_solvable_problem, Problem, SolverError};
use waterpouring::report::{solve_report, transform, WasmOperation, WasmStep};
use waterpouring::solver::{process_state_history, solve};
use waterpouring::state::State;

fn problem_of(from: &str, to: &str) -> Problem {
    Problem::parse(from, to).unwrap()
}

fn replay(start: &State, moves: &[Operation]) -> State {
    let mut state = start.clone();
    for m in moves {
        state = state.apply(*m);
    }
    state
}

#[test]
fn text_of_a_state_reads_back() {
    for s in ["4/7, 3/5, 0/2", "0/1", "10/10, 0/123456, 4294967295/4294967295"] {
        let state = State::parse(s).unwrap();
        let again = State::parse(state.to_string().as_str()).unwrap();
        assert_eq!(again, state);
        assert_eq!(state.to_string(), s);
    }
}

#[test]
fn text_of_a_built_state_reads_back() {
    let state = State::new(vec![Glass::new(0, 9), Glass::new(12, 40), Glass::new(7, 7)]);
    assert_eq!(state.to_string(), "0/9, 12/40, 7/7");
    assert_eq!(State::parse(state.to_string().as_str()).unwrap(), state);
}

#[test]
fn state_text_trims_and_skips_empty_pieces() {
    let state = State::parse(" 4/7 ,\t3/5,, 0/2 ,").unwrap();
    assert_eq!(state.to_string(), "4/7, 3/5, 0/2");
}

#[test]
fn state_text_rejects_malformed_pieces() {
    for s in ["", " , ", "plop", "4/70/2", "4/7, 3/a, 0/2", "3", "/5", "5/", "0/0", "11/10", "4294967296/4294967297", "+1/2"] {
        assert!(State::parse(s).is_none(), "{}", s);
    }
}

#[test]
fn glass_text_is_strict() {
    assert_eq!(Glass::parse("12/40"), Some(Glass::new(12, 40)));
    assert_eq!(Glass::parse(" 4/7"), None);
    assert_eq!(Glass::parse("a/b"), None);
    assert_eq!(Glass::parse("1/2/3"), None);
    assert_eq!(Glass::parse("3"), None);
    assert_eq!(Glass::parse("0/0"), None);
    assert_eq!(Glass::parse("8/7"), None);
    assert_eq!(Glass::parse("4294967295/4294967295"), Some(Glass::new(4294967295, 4294967295)));
    assert_eq!(Glass::parse("0/4294967296"), None);
}

#[test]
fn operation_text_with_several_digits() {
    assert_eq!(Operation::pour(12, 3).as_string(), "Pour(12->3)");
    assert_eq!(Operation::fill(105).as_string(), "Fill(105)");
    assert_eq!(Operation::empty(10).as_string(), "Empty(10)");
}

#[test]
fn adding_and_removing_clamp() {
    let glass = Glass::new(3, 10);
    assert_eq!(glass.add(7), Glass::new(10, 10));
    assert_eq!(glass.add(u32::MAX), Glass::new(10, 10));
    assert_eq!(glass.sub(3), Glass::new(0, 10));
    assert_eq!(glass.sub(u32::MAX), Glass::new(0, 10));
    assert_eq!(glass.add(0), glass);
}

#[test]
fn pour_moves_what_fits() {
    let state = State::parse("4/5, 1/3, 0/2").unwrap();
    assert_eq!(state.apply(Operation::pour(0, 1)).to_string(), "2/5, 3/3, 0/2");
    assert_eq!(state.apply(Operation::pour(1, 0)).to_string(), "5/5, 0/3, 0/2");
    assert_eq!(state.apply(Operation::pour(2, 0)).to_string(), "4/5, 1/3, 0/2");
}

#[test]
fn full_and_empty_glasses_offer_nothing_useless() {
    let state = State::parse("5/5, 0/3").unwrap();
    let expected = vec![Operation::empty(0), Operation::pour(0, 1), Operation::fill(1)];
    assert_eq!(state.available_operations(), expected);
}

#[test]
fn validation_reasons() {
    let cases = [
        ("0/3", "0/3", "Should have at least two glasses"),
        ("0/8, 0/4, 0/2", "0/4, 0/2", "Should have same number of glasses"),
        ("0/8, 0/4", "0/8, 0/5", "Should have same capacity for all glasses"),
    ];
    for (from, to, reason) in cases {
        let problem = problem_of(from, to);
        let text = format!("{} -> {}", from, to);
        match check_solvable_problem(&problem) {
            Err(SolverError::InvalidProblem { problem, reason: r }) => {
                assert_eq!(problem, text);
                assert_eq!(r, reason);
            }
            other => panic!("unexpected {:?}", other),
        }
        assert_eq!(
            solve(&problem),
            Err(SolverError::InvalidProblem { problem: text, reason: reason.to_string() })
        );
    }
}

#[test]
fn validating_twice_gives_the_same_outcome() {
    for (from, to) in [("0/8, 0/4, 0/2", "0/4, 0/2"), ("0/5, 0/3", "4/5, 0/3")] {
        let problem = problem_of(from, to);
        let first = check_solvable_problem(&problem).map(|p| p.to_string());
        let second = check_solvable_problem(&problem).map(|p| p.to_string());
        assert_eq!(first, second);
    }
}

#[test]
fn solutions_replay_to_the_goal() {
    let cases = [
        ("0/5, 0/3", "4/5, 0/3", 7),
        ("0/8, 0/5", "6/8, 0/5", 7),
        ("0/2, 0/1", "0/2, 0/1", 0),
        ("0/3, 0/5", "0/3, 5/5", 1),
        ("0/3, 0/5", "3/3, 3/5", 3),
    ];
    for (from, to, len) in cases {
        let problem = problem_of(from, to);
        let moves = solve(&problem).unwrap();
        assert_eq!(moves.len(), len);
        assert_eq!(replay(&problem.from, &moves), problem.to);
    }
}

#[test]
fn larger_puzzle_is_solved() {
    let problem = problem_of("12/12, 0/8, 0/5", "6/12, 6/8, 0/5");
    let moves = solve(&problem).unwrap();
    assert_eq!(replay(&problem.from, &moves), problem.to);
}

#[test]
fn unreachable_goal_is_reported() {
    let problem = problem_of("0/8, 0/4, 0/2", "1/8, 0/4, 0/2");
    assert_eq!(
        solve(&problem),
        Err(SolverError::UnsolvableProblem { problem: "0/8, 0/4, 0/2 -> 1/8, 0/4, 0/2".to_string() })
    );
}

#[test]
fn expansion_keeps_only_new_states() {
    let state = State::parse("0/5, 0/3").unwrap();
    let mut visited = vec![state.clone(), State::parse("5/5, 0/3").unwrap()];
    let mut next = Vec::new();
    process_state_history(&mut next, &mut visited, &state, &vec![Operation::fill(1)]);
    assert_eq!(next.len(), 1);
    assert_eq!(next[0].0.to_string(), "0/5, 3/3");
    assert_eq!(next[0].1, vec![Operation::fill(1), Operation::fill(1)]);
    assert_eq!(visited.len(), 3);
    assert_eq!(visited[2], next[0].0);
}

#[test]
fn replay_lists_every_step() {
    let report = solve_report("0/5, 0/3", "4/5, 0/3").unwrap();
    assert!(report.error.is_none());
    assert_eq!(report.steps.len(), 8);
    assert_eq!(report.steps[0].from, "0/5, 0/3");
    assert!(report.steps[0].operation.is_none());
    assert_eq!(report.steps[7].to.as_deref(), Some("4/5, 0/3"));
    assert_eq!(report.steps[1].from, report.steps[0].from);
    for i in 2..8 {
        assert_eq!(Some(report.steps[i].from.clone()), report.steps[i - 1].to.clone());
    }
}

#[test]
fn replay_of_errors() {
    let invalid = solve_report("0/8, 0/4, 0/2", "0/4, 0/2").unwrap();
    assert_eq!(invalid.error.as_deref(), Some("Cannot solve because Should have same number of glasses"));
    assert!(invalid.steps.is_empty());
    let unsolvable = solve_report("0/8, 0/4, 0/2", "1/8, 0/4, 0/2").unwrap();
    assert_eq!(unsolvable.error.as_deref(), Some("No solution found!"));
    assert!(unsolvable.steps.is_empty());
    assert!(solve_report("plop", "0/1").is_none());
}

#[test]
fn replay_step_names_the_glasses() {
    let state = State::parse("4/5, 1/3, 0/2").unwrap();
    let (step, next): (WasmStep, State) = WasmStep::step(&state, &Operation::pour(0, 2));
    assert_eq!(step.from, "4/5, 1/3, 0/2");
    assert_eq!(step.to.as_deref(), Some("2/5, 1/3, 2/2"));
    assert_eq!(step.operation, Some(WasmOperation { from: Some(0), to: Some(2) }));
    assert_eq!(next.to_string(), "2/5, 1/3, 2/2");
    assert_eq!(WasmOperation::new(&Operation::fill(1)), WasmOperation { from: None, to: Some(1) });
    assert_eq!(WasmOperation::new(&Operation::empty(1)), WasmOperation { from: Some(1), to: None });
    let first = transform(&state, Ok(vec![]));
    assert_eq!(first.steps.len(), 1);
    assert!(first.steps[0].to.is_none());
}
