//! Breadth-first search for a shortest sequence of operations.
use vstd::prelude::*;

use crate::glass::Glass;
use crate::operation::Operation;
use crate::problem::{
    check_solvable_problem, invalid_reason, problem_text, Problem, SolverError, SolverResult,
};
use crate::search::{
    in_layer, lemma_run_within, lemma_state_count, lemma_within_mono, lemma_within_shape,
    lemma_within_stable, lemma_within_step, run, shortest_solution, space, out_of_reach, valid_ops,
    within,
};
use crate::state::{
    apply_spec, available_ops, changes, lemma_available_ops, lemma_unchanged, valid_glasses, State,
};

verus! {

/// States of the current layer, each with the operations that reached it.
pub type StateWithHistory = Vec<(State, Vec<Operation>)>;

/// The glasses of each state, in order.
pub open spec fn views(v: Seq<State>) -> Seq<Seq<Glass>> {
    v.map_values(|s: State| s@)
}

/// Where the operations `ops` lead from `s`, one state each.
pub open spec fn targets(s: Seq<Glass>, ops: Seq<Operation>) -> Seq<Seq<Glass>> {
    ops.map_values(|o: Operation| apply_spec(s, o))
}

/// The operations among `ops` that lead from `s` to a state seen neither in
/// `seen` nor through an earlier operation of `ops`, in order.
pub open spec fn fresh_ops(seen: Seq<Seq<Glass>>, s: Seq<Glass>, ops: Seq<Operation>) -> Seq<
    Operation,
>
    decreases ops.len(),
{
    if ops.len() == 0 {
        Seq::empty()
    } else {
        let prev = fresh_ops(seen, s, ops.drop_last());
        let t = apply_spec(s, ops.last());
        if (seen + targets(s, prev)).contains(t) {
            prev
        } else {
            prev.push(ops.last())
        }
    }
}

/// What one search step from `s` adds: the available operations that lead to
/// states not seen yet.
pub open spec fn fresh_from(seen: Seq<Seq<Glass>>, s: Seq<Glass>) -> Seq<Operation> {
    fresh_ops(seen, s, available_ops(s))
}

/// `e` is the state that `op` leads to from `s`, with the history that reached
/// `s` followed by `op`.
pub open spec fn entry_from(
    e: (State, Vec<Operation>),
    s: Seq<Glass>,
    history: Seq<Operation>,
    op: Operation,
) -> bool {
    &&& e.0@ == apply_spec(s, op)
    &&& e.1@ == history.push(op)
    &&& op.valid_for(s.len())
}

fn contains_state(v: &Vec<State>, s: &State) -> (r: bool)
    ensures
        r == views(v@).contains(s@),
{
    let mut i: usize = 0;
    while i < v.len()
        invariant
            i <= v@.len(),
            forall|j: int| 0 <= j < i ==> v@[j]@ != s@,
        decreases v@.len() - i,
    {
        if v[i] == *s {
            assert(views(v@)[i as int] == s@);
            return true;
        }
        i = i + 1;
    }
    assert forall|j: int| 0 <= j < views(v@).len() implies views(v@)[j] != s@ by {
        assert(views(v@)[j] == v@[j]@);
    }
    false
}

fn copy_ops(ops: &Vec<Operation>) -> (r: Vec<Operation>)
    ensures
        r@ == ops@,
{
    let mut r: Vec<Operation> = Vec::new();
    let mut i: usize = 0;
    while i < ops.len()
        invariant
            i <= ops@.len(),
            r@ == ops@.take(i as int),
        decreases ops@.len() - i,
    {
        r.push(ops[i]);
        i = i + 1;
        assert(r@ =~= ops@.take(i as int));
    }
    assert(r@ =~= ops@);
    r
}

/// Expands `state`, reached by `history`: each available operation, in order,
/// whose result is not in `visited` yet adds that result to `visited` and, with
/// `history` and the operation, to `new_states_with_history`.
pub fn process_state_history(
    new_states_with_history: &mut StateWithHistory,
    visited: &mut Vec<State>,
    state: &State,
    history: &Vec<Operation>,
)
    ensures
        views(final(visited)@) == views(old(visited)@) + targets(
            state@,
            fresh_from(views(old(visited)@), state@),
        ),
        final(new_states_with_history)@.len() == old(new_states_with_history)@.len() + fresh_from(
            views(old(visited)@),
            state@,
        ).len(),
        forall|i: int|
            0 <= i < old(new_states_with_history)@.len()
                ==> #[trigger] final(new_states_with_history)@[i]
                == old(new_states_with_history)@[i],
        forall|m: int|
            0 <= m < fresh_from(views(old(visited)@), state@).len() ==> entry_from(
                final(new_states_with_history)@[old(new_states_with_history)@.len() + m],
                state@,
                history@,
                #[trigger] fresh_from(views(old(visited)@), state@)[m],
            ),
        forall|m: int|
            0 <= m < available_ops(state@).len() ==> views(final(visited)@).contains(
                apply_spec(state@, #[trigger] available_ops(state@)[m]),
            ),
        views(old(visited)@).no_duplicates() ==> views(final(visited)@).no_duplicates(),
{
    proof {
        use_type_invariant(state);
        lemma_available_ops(state@);
    }
    let ghost s = state@;
    let ghost seen = views(visited@);
    let ghost new0 = new_states_with_history@;
    let ghost mut kept: Seq<Operation> = Seq::empty();
    let operations = state.available_operations();
    let mut m: usize = 0;
    assert(operations@.take(0) =~= Seq::<Operation>::empty());
    assert(views(visited@) =~= seen + targets(s, kept));
    while m < operations.len()
        invariant
            s == state@,
            valid_glasses(s),
            operations@ == available_ops(s),
            forall|op: Operation|
                #[trigger] available_ops(s).contains(op) <==> (op.valid_for(s.len()) && changes(
                    s,
                    op,
                )),
            m <= operations@.len(),
            kept == fresh_ops(seen, s, operations@.take(m as int)),
            views(visited@) == seen + targets(s, kept),
            new_states_with_history@.len() == new0.len() + kept.len(),
            forall|i: int|
                0 <= i < new0.len() ==> #[trigger] new_states_with_history@[i] == new0[i],
            forall|j: int|
                0 <= j < kept.len() ==> entry_from(
                    new_states_with_history@[new0.len() + j],
                    s,
                    history@,
                    #[trigger] kept[j],
                ),
            forall|j: int|
                0 <= j < m ==> views(visited@).contains(
                    apply_spec(s, #[trigger] operations@[j]),
                ),
            seen.no_duplicates() ==> views(visited@).no_duplicates(),
        decreases operations@.len() - m,
    {
        let op = operations[m];
        assert(available_ops(s).contains(op)) by {
            assert(available_ops(s)[m as int] == op);
        }
        let new_state = state.apply(op);
        let ghost t = new_state@;
        let ghost before = views(visited@);
        assert(operations@.take(m + 1).drop_last() =~= operations@.take(m as int));
        if !contains_state(visited, &new_state) {
            let mut new_history = copy_ops(history);
            new_history.push(op);
            new_states_with_history.push((new_state.clone(), new_history));
            visited.push(new_state);
            proof {
                kept = kept.push(op);
                assert(views(visited@) =~= before.push(t));
                assert(targets(s, kept) =~= targets(s, kept.drop_last()).push(t));
                assert(views(visited@) =~= seen + targets(s, kept));
                assert forall|j: int| 0 <= j < m + 1 implies views(visited@).contains(
                    apply_spec(s, #[trigger] operations@[j]),
                ) by {
                    if j < m {
                        let x = apply_spec(s, operations@[j]);
                        let w = choose|w: int| 0 <= w < before.len() && before[w] == x;
                        assert(views(visited@)[w] == x);
                    } else {
                        assert(views(visited@)[before.len() as int] == t);
                    }
                }
                if seen.no_duplicates() {
                    assert forall|a: int, b: int|
                        0 <= a < views(visited@).len() && 0 <= b < views(visited@).len() && a
                            != b implies views(visited@)[a] != views(visited@)[b] by {
                        if a < before.len() && b < before.len() {
                            assert(views(visited@)[a] == before[a]);
                            assert(views(visited@)[b] == before[b]);
                        } else if a < before.len() {
                            assert(views(visited@)[a] == before[a]);
                        } else if b < before.len() {
                            assert(views(visited@)[b] == before[b]);
                        }
                    }
                }
                assert forall|j: int| 0 <= j < kept.len() implies entry_from(
                    new_states_with_history@[new0.len() + j],
                    s,
                    history@,
                    #[trigger] kept[j],
                ) by {
                    if j < kept.len() - 1 {
                        assert(kept[j] == kept.drop_last()[j]);
                    }
                }
            }
        }
        m = m + 1;
    }
    assert(operations@.take(m as int) =~= operations@);
}

/// What a search returns for the problem `from -> to`: a shortest solution
/// when the goal can be reached, `UnsolvableProblem` when it cannot, and
/// `InvalidProblem` with its reason when the problem fails validation. Each
/// error carries the problem's text.
pub open spec fn solve_post(from: Seq<Glass>, to: Seq<Glass>, r: SolverResult) -> bool {
    match r {
        Ok(ops) => invalid_reason(from, to) is None && shortest_solution(from, to, ops@),
        Err(SolverError::InvalidProblem { problem, reason }) => invalid_reason(from, to) == Some(
            reason@,
        ) && problem@ == problem_text(from, to),
        Err(SolverError::UnsolvableProblem { problem }) => invalid_reason(from, to) is None
            && out_of_reach(from, to) && problem@ == problem_text(from, to),
    }
}

/// One layer of the search: the frontier holds exactly the states `k`
/// operations away from `start`, each with a valid history of that length.
pub open spec fn frontier_ok(start: Seq<Glass>, k: nat, frontier: Seq<(State, Vec<Operation>)>) -> bool {
    &&& forall|i: int|
        0 <= i < frontier.len() ==> {
            &&& in_layer(start, k, (#[trigger] frontier[i]).0@)
            &&& frontier[i].1@.len() == k
            &&& valid_ops(frontier[i].1@, start.len())
            &&& run(start, frontier[i].1@) == frontier[i].0@
        }
    &&& forall|t: Seq<Glass>|
        #[trigger] in_layer(start, k, t) ==> exists|i: int|
            0 <= i < frontier.len() && (#[trigger] frontier[i]).0@ == t
}

/// Searches `problem` breadth-first, layer by layer, keeping every state seen
/// so far and never expanding one twice (see `solve_post`).
pub fn solve(problem: &Problem) -> (r: SolverResult)
    ensures
        solve_post(problem.from@, problem.to@, r),
{
    match check_solvable_problem(problem) {
        Err(e) => {
            return Err(e);
        },
        Ok(_) => {},
    }
    proof {
        use_type_invariant(&problem.from);
    }
    let ghost start = problem.from@;
    let ghost goal = problem.to@;
    let ghost n = start.len();
    let mut frontier: StateWithHistory = Vec::new();
    frontier.push((problem.from.clone(), Vec::new()));
    let mut visited: Vec<State> = Vec::new();
    visited.push(problem.from.clone());
    let ghost mut k: nat = 0;
    proof {
        assert(views(visited@) =~= seq![start]);
        assert forall|a: Seq<Glass>| views(visited@).to_set().contains(a) <==> a == start by {
            if a == start {
                assert(views(visited@)[0] == start);
            }
        }
        assert(views(visited@).to_set() =~= within(start, 0));
        assert(frontier@[0].1@ =~= Seq::<Operation>::empty());
        assert forall|t: Seq<Glass>| #[trigger] in_layer(start, 0, t) implies exists|i: int|
            0 <= i < frontier@.len() && (#[trigger] frontier@[i]).0@ == t by {
            assert(frontier@[0].0@ == t);
        }
        lemma_state_count(start, views(visited@));
    }
    loop
        invariant
            start == problem.from@,
            goal == problem.to@,
            n == start.len(),
            valid_glasses(start),
            invalid_reason(start, goal) is None,
            views(visited@).no_duplicates(),
            views(visited@).to_set() == within(start, k),
            frontier_ok(start, k, frontier@),
            k > 0 ==> !within(start, (k - 1) as nat).contains(goal),
            visited@.len() <= space(start),
        decreases space(start) - visited@.len(),
    {
        let mut j: usize = 0;
        while j < frontier.len()
            invariant
                start == problem.from@,
                goal == problem.to@,
                n == start.len(),
                valid_glasses(start),
                invalid_reason(start, goal) is None,
                views(visited@).no_duplicates(),
                views(visited@).to_set() == within(start, k),
                frontier_ok(start, k, frontier@),
                k > 0 ==> !within(start, (k - 1) as nat).contains(goal),
                visited@.len() <= space(start),
                j <= frontier@.len(),
                forall|x: int| 0 <= x < j ==> (#[trigger] frontier@[x]).0@ != goal,
            decreases frontier@.len() - j,
        {
            if frontier[j].0 == problem.to {
                let ghost e = frontier@[j as int];
                let found = frontier.remove(j);
                assert(found == e);
                return Ok(found.1);
            }
            j = j + 1;
        }
        assert(!within(start, k).contains(goal)) by {
            if within(start, k).contains(goal) {
                assert(in_layer(start, k, goal));
                let x = choose|x: int| 0 <= x < frontier@.len() && (#[trigger] frontier@[x]).0@ == goal;
            }
        }
        let ghost seen = views(visited@);
        let mut next: StateWithHistory = Vec::new();
        let mut i: usize = 0;
        while i < frontier.len()
            invariant
                start == problem.from@,
                n == start.len(),
                valid_glasses(start),
                i <= frontier@.len(),
                frontier_ok(start, k, frontier@),
                seen.no_duplicates(),
                seen.to_set() == within(start, k),
                views(visited@).no_duplicates(),
                views(visited@).len() == seen.len() + next@.len(),
                forall|x: int| 0 <= x < seen.len() ==> #[trigger] views(visited@)[x] == seen[x],
                forall|e: int|
                    0 <= e < next@.len() ==> (#[trigger] next@[e]).0@ == views(visited@)[seen.len()
                        + e],
                forall|e: int|
                    0 <= e < next@.len() ==> {
                        &&& (#[trigger] next@[e]).1@.len() == k + 1
                        &&& valid_ops(next@[e].1@, n)
                        &&& run(start, next@[e].1@) == next@[e].0@
                    },
                forall|t: Seq<Glass>|
                    #[trigger] views(visited@).contains(t) ==> within(start, k + 1).contains(t),
                forall|x: int, op: Operation|
                    0 <= x < i && op.valid_for(n) ==> views(visited@).contains(
                        #[trigger] apply_spec((#[trigger] frontier@[x]).0@, op),
                    ),
            decreases frontier@.len() - i,
        {
            let ghost vis_before = views(visited@);
            let ghost next_before = next@;
            let ghost s = frontier@[i as int].0@;
            let ghost h = frontier@[i as int].1@;
            process_state_history(&mut next, &mut visited, &frontier[i].0, &frontier[i].1);
            proof {
                lemma_within_shape(start, k);
                assert(within(start, k).contains(s));
                lemma_available_ops(s);
                let fresh = fresh_from(vis_before, s);
                assert forall|x: int| 0 <= x < seen.len() implies #[trigger] views(visited@)[x]
                    == seen[x] by {
                    assert(views(visited@)[x] == vis_before[x]);
                }
                assert forall|e: int| 0 <= e < next@.len() implies (#[trigger] next@[e]).0@
                    == views(visited@)[seen.len() + e] && next@[e].1@.len() == k + 1 && valid_ops(
                    next@[e].1@,
                    n,
                ) && run(start, next@[e].1@) == next@[e].0@ by {
                    if e < next_before.len() {
                        assert(next@[e] == next_before[e]);
                        assert(views(visited@)[seen.len() + e] == vis_before[seen.len() + e]);
                    } else {
                        let m = e - next_before.len();
                        let op = fresh[m];
                        assert(entry_from(next@[next_before.len() + m], s, h, op));
                        assert(views(visited@)[seen.len() + e] == targets(s, fresh)[m]);
                        let p = next@[e].1@;
                        assert(p.drop_last() =~= h);
                        assert(valid_ops(p, n)) by {
                            assert forall|y: int| 0 <= y < p.len() implies (#[trigger] p[y]).valid_for(n) by {
                                if y < h.len() {
                                    assert(p[y] == h[y]);
                                }
                            }
                        }
                    }
                }
                assert forall|t: Seq<Glass>| #[trigger] views(visited@).contains(t) implies within(
                    start,
                    k + 1,
                ).contains(t) by {
                    let w = choose|w: int| 0 <= w < views(visited@).len() && views(visited@)[w] == t;
                    if w < vis_before.len() {
                        assert(vis_before[w] == t);
                        assert(vis_before.contains(t));
                    } else {
                        let m = w - vis_before.len();
                        assert(views(visited@) == vis_before + targets(s, fresh));
                        assert(targets(s, fresh)[m] == t);
                        assert(targets(s, fresh)[m] == apply_spec(s, fresh[m]));
                        assert(entry_from(next@[next_before.len() + m], s, h, fresh[m]));
                        assert(fresh[m].valid_for(s.len()));
                        lemma_within_step(start, k, s, fresh[m]);
                    }
                }
                assert forall|x: int, op: Operation| 0 <= x < i + 1 && op.valid_for(n) implies views(
                    visited@,
                ).contains(#[trigger] apply_spec((#[trigger] frontier@[x]).0@, op)) by {
                    if x < i {
                        let y = apply_spec(frontier@[x].0@, op);
                        assert(vis_before.contains(y));
                        let w = choose|w: int| 0 <= w < vis_before.len() && vis_before[w] == y;
                        assert(views(visited@)[w] == y);
                    } else if changes(s, op) {
                        assert(available_ops(s).contains(op));
                        let m = choose|m: int| 0 <= m < available_ops(s).len() && available_ops(s)[m] == op;
                        assert(views(visited@).contains(apply_spec(s, available_ops(s)[m])));
                    } else {
                        lemma_unchanged(s, op);
                        assert(seen.to_set().contains(s));
                        let w = choose|w: int| 0 <= w < seen.len() && seen[w] == s;
                        assert(views(visited@)[w] == s);
                    }
                }
            }
            i = i + 1;
        }
        proof {
            lemma_within_shape(start, k + 1);
            lemma_within_mono(start, k, k + 1);
            let vis = views(visited@);
            assert forall|t: Seq<Glass>| within(start, k + 1).contains(t) implies vis.contains(t) by {
                if within(start, k).contains(t) {
                    assert(seen.to_set().contains(t));
                    let w = choose|w: int| 0 <= w < seen.len() && seen[w] == t;
                    assert(vis[w] == t);
                } else {
                    let prev = within(start, k);
                    let (s, op) = choose|s: Seq<Glass>, op: Operation|
                        prev.contains(s) && op.valid_for(s.len()) && #[trigger] apply_spec(s, op) == t;
                    lemma_within_shape(start, k);
                    if k > 0 && within(start, (k - 1) as nat).contains(s) {
                        lemma_within_step(start, (k - 1) as nat, s, op);
                    } else {
                        assert(in_layer(start, k, s));
                        let x = choose|x: int| 0 <= x < frontier@.len() && (#[trigger] frontier@[x]).0@ == s;
                        assert(vis.contains(apply_spec(frontier@[x].0@, op)));
                    }
                }
            }
            assert(vis.to_set() =~= within(start, k + 1));
            assert forall|w: int| 0 <= w < vis.len() implies valid_glasses(#[trigger] vis[w])
                && crate::state::same_capacities(vis[w], start) by {
                assert(vis.contains(vis[w]));
            }
            lemma_state_count(start, vis);
        }
        if next.len() == 0 {
            proof {
                assert(views(visited@) =~= seen);
                assert(within(start, k + 1) =~= within(start, k));
                assert forall|m: nat| !(#[trigger] within(start, m)).contains(goal) by {
                    if m >= k {
                        lemma_within_stable(start, k, m);
                    } else {
                        lemma_within_mono(start, m, k);
                    }
                }
            }
            return Err(SolverError::UnsolvableProblem { problem: problem.to_string() });
        }
        proof {
            let vis = views(visited@);
            assert forall|e: int| 0 <= e < next@.len() implies in_layer(start, k + 1, (#[trigger] next@[e]).0@) by {
                let t = next@[e].0@;
                assert(vis[seen.len() + e] == t);
                assert(vis.contains(t));
                if within(start, k).contains(t) {
                    assert(seen.to_set().contains(t));
                    let w = choose|w: int| 0 <= w < seen.len() && seen[w] == t;
                    assert(vis[w] == t);
                }
            }
            assert forall|t: Seq<Glass>| #[trigger] in_layer(start, k + 1, t) implies exists|e: int|
                0 <= e < next@.len() && (#[trigger] next@[e]).0@ == t by {
                assert(vis.to_set().contains(t));
                let w = choose|w: int| 0 <= w < vis.len() && vis[w] == t;
                if w < seen.len() {
                    assert(seen[w] == t);
                    assert(seen.to_set().contains(t));
                }
                assert(next@[w - seen.len()].0@ == t);
            }
        }
        frontier = next;
        proof {
            k = k + 1;
        }
    }
}

} // verus!
