//! The state space of a puzzle: which states a number of operations can reach,
//! and how many states there can be.
use vstd::prelude::*;
use vstd::set_lib::{lemma_int_range, lemma_len_subset, set_int_range};

use crate::glass::Glass;
use crate::operation::Operation;
use crate::state::{apply_spec, lemma_apply_keeps_shape, same_capacities, valid_glasses};

verus! {

/// Each operation names glasses among the first `n`.
pub open spec fn valid_ops(ops: Seq<Operation>, n: nat) -> bool {
    forall|i: int| 0 <= i < ops.len() ==> (#[trigger] ops[i]).valid_for(n)
}

/// The glasses after applying `ops` in order to `start`.
pub open spec fn run(start: Seq<Glass>, ops: Seq<Operation>) -> Seq<Glass>
    decreases ops.len(),
{
    if ops.len() == 0 {
        start
    } else {
        apply_spec(run(start, ops.drop_last()), ops.last())
    }
}

/// The states that `start` reaches with at most `k` operations.
pub open spec fn within(start: Seq<Glass>, k: nat) -> Set<Seq<Glass>>
    decreases k,
{
    if k == 0 {
        set![start]
    } else {
        let prev = within(start, (k - 1) as nat);
        prev.union(
            Set::new(
                |t: Seq<Glass>|
                    exists|s: Seq<Glass>, op: Operation|
                        prev.contains(s) && op.valid_for(s.len()) && #[trigger] apply_spec(s, op)
                            == t,
            ),
        )
    }
}

/// `t` takes exactly `k` operations to reach from `start`, no fewer.
pub open spec fn in_layer(start: Seq<Glass>, k: nat, t: Seq<Glass>) -> bool {
    within(start, k).contains(t) && (k == 0 || !within(start, (k - 1) as nat).contains(t))
}

/// `ops` leads from `start` to `goal`, and no shorter sequence of operations does.
pub open spec fn shortest_solution(start: Seq<Glass>, goal: Seq<Glass>, ops: Seq<Operation>) -> bool {
    &&& valid_ops(ops, start.len())
    &&& run(start, ops) == goal
    &&& ops.len() > 0 ==> !within(start, (ops.len() - 1) as nat).contains(goal)
}

/// No number of operations reaches `goal` from `start`.
pub open spec fn out_of_reach(start: Seq<Glass>, goal: Seq<Glass>) -> bool {
    forall|k: nat| !(#[trigger] within(start, k)).contains(goal)
}

/// One more operation from a state within `k` steps lands within `k + 1`.
pub proof fn lemma_within_step(start: Seq<Glass>, k: nat, s: Seq<Glass>, op: Operation)
    requires
        within(start, k).contains(s),
        op.valid_for(s.len()),
    ensures
        within(start, k + 1).contains(apply_spec(s, op)),
{
    let prev = within(start, k);
    assert(within(start, (k + 1 - 1) as nat) == prev);
    assert(prev.contains(s) && op.valid_for(s.len()) && apply_spec(s, op) == apply_spec(s, op));
}

/// Every state within reach has valid glasses with the capacities of `start`.
pub proof fn lemma_within_shape(start: Seq<Glass>, k: nat)
    requires
        valid_glasses(start),
    ensures
        forall|t: Seq<Glass>|
            #[trigger] within(start, k).contains(t) ==> valid_glasses(t) && same_capacities(
                t,
                start,
            ),
    decreases k,
{
    if k > 0 {
        lemma_within_shape(start, (k - 1) as nat);
        let prev = within(start, (k - 1) as nat);
        assert forall|t: Seq<Glass>| #[trigger] within(start, k).contains(t) implies valid_glasses(t)
            && same_capacities(t, start) by {
            if !prev.contains(t) {
                let (s, op) = choose|s: Seq<Glass>, op: Operation|
                    prev.contains(s) && op.valid_for(s.len()) && #[trigger] apply_spec(s, op) == t;
                lemma_apply_keeps_shape(s, op);
            }
        }
    } else {
        assert forall|i: int| 0 <= i < start.len() implies (#[trigger] start[i]).capacity
            == start[i].capacity by {}
    }
}

/// More operations reach at least as much.
pub proof fn lemma_within_mono(start: Seq<Glass>, j: nat, k: nat)
    requires
        j <= k,
    ensures
        within(start, j).subset_of(within(start, k)),
    decreases k,
{
    if j < k {
        lemma_within_mono(start, j, (k - 1) as nat);
    }
}

/// Once one more operation reaches nothing new, nothing more ever does.
pub proof fn lemma_within_stable(start: Seq<Glass>, k: nat, m: nat)
    requires
        within(start, k + 1) == within(start, k),
        k <= m,
    ensures
        within(start, m) == within(start, k),
    decreases m,
{
    if m > k {
        lemma_within_stable(start, k, (m - 1) as nat);
        assert(within(start, m) =~= within(start, k + 1));
    }
}

/// A sequence of valid operations reaches, within its own length, the state it
/// ends in, which has valid glasses with the capacities of `start`.
pub proof fn lemma_run_within(start: Seq<Glass>, ops: Seq<Operation>)
    requires
        valid_glasses(start),
        valid_ops(ops, start.len()),
    ensures
        within(start, ops.len()).contains(run(start, ops)),
        valid_glasses(run(start, ops)),
        same_capacities(run(start, ops), start),
    decreases ops.len(),
{
    lemma_within_shape(start, ops.len());
    if ops.len() > 0 {
        let init = ops.drop_last();
        assert(valid_ops(init, start.len())) by {
            assert forall|i: int| 0 <= i < init.len() implies (#[trigger] init[i]).valid_for(
                start.len(),
            ) by {
                assert(init[i] == ops[i]);
            }
        }
        lemma_run_within(start, init);
        assert(ops.last().valid_for(start.len()));
        lemma_within_step(start, init.len(), run(start, init), ops.last());
    }
}

/// A solution that the search returns is a shortest one: every sequence of
/// valid operations from `start` to `goal` is at least as long.
pub proof fn lemma_shortest(
    start: Seq<Glass>,
    goal: Seq<Glass>,
    ops: Seq<Operation>,
    other: Seq<Operation>,
)
    requires
        valid_glasses(start),
        shortest_solution(start, goal, ops),
        valid_ops(other, start.len()),
        run(start, other) == goal,
    ensures
        ops.len() <= other.len(),
{
    lemma_run_within(start, other);
    if other.len() < ops.len() {
        lemma_within_mono(start, other.len(), (ops.len() - 1) as nat);
    }
}

/// When the search finds the goal out of reach, no sequence of valid
/// operations leads there.
pub proof fn lemma_no_path(start: Seq<Glass>, goal: Seq<Glass>, other: Seq<Operation>)
    requires
        valid_glasses(start),
        out_of_reach(start, goal),
        valid_ops(other, start.len()),
    ensures
        run(start, other) != goal,
{
    lemma_run_within(start, other);
}

/// The number of fillings of glasses with the capacities of `s`: the product
/// of `capacity + 1` over the glasses.
pub open spec fn space(s: Seq<Glass>) -> nat
    decreases s.len(),
{
    if s.len() == 0 {
        1
    } else {
        space(s.drop_last()) * (s.last().capacity as nat + 1)
    }
}

/// A number for each filling, below `space`: the fillings read as digits of a
/// number whose positions count `capacity + 1` apart.
spec fn code(s: Seq<Glass>) -> nat
    decreases s.len(),
{
    if s.len() == 0 {
        0
    } else {
        code(s.drop_last()) + s.last().current as nat * space(s.drop_last())
    }
}

spec fn fillings_valid(s: Seq<Glass>) -> bool {
    forall|i: int| 0 <= i < s.len() ==> (#[trigger] s[i]).current <= s[i].capacity
}

proof fn lemma_space_caps(a: Seq<Glass>, b: Seq<Glass>)
    requires
        same_capacities(a, b),
    ensures
        space(a) == space(b),
        space(a) >= 1,
    decreases a.len(),
{
    if a.len() > 0 {
        lemma_space_caps(a.drop_last(), b.drop_last());
        let m = space(a.drop_last());
        let c = a.last().capacity as nat + 1;
        assert(m * c >= 1) by (nonlinear_arith)
            requires
                m >= 1,
                c >= 1,
        ;
    }
}

proof fn lemma_code_bound(s: Seq<Glass>)
    requires
        fillings_valid(s),
    ensures
        code(s) < space(s),
    decreases s.len(),
{
    if s.len() > 0 {
        let init = s.drop_last();
        assert(fillings_valid(init)) by {
            assert forall|i: int| 0 <= i < init.len() implies (#[trigger] init[i]).current
                <= init[i].capacity by {
                assert(init[i] == s[i]);
            }
        }
        lemma_code_bound(init);
        let m = space(init);
        let x = code(init);
        let c = s.last().current as nat;
        let cap = s.last().capacity as nat;
        assert(s.last().current <= s.last().capacity);
        assert(x + c * m < m * (cap + 1)) by (nonlinear_arith)
            requires
                x < m,
                c <= cap,
        ;
    }
}

proof fn lemma_code_injective(a: Seq<Glass>, b: Seq<Glass>)
    requires
        same_capacities(a, b),
        fillings_valid(a),
        fillings_valid(b),
        code(a) == code(b),
    ensures
        a == b,
    decreases a.len(),
{
    if a.len() > 0 {
        let ia = a.drop_last();
        let ib = b.drop_last();
        assert(fillings_valid(ia)) by {
            assert forall|i: int| 0 <= i < ia.len() implies (#[trigger] ia[i]).current
                <= ia[i].capacity by {
                assert(ia[i] == a[i]);
            }
        }
        assert(fillings_valid(ib)) by {
            assert forall|i: int| 0 <= i < ib.len() implies (#[trigger] ib[i]).current
                <= ib[i].capacity by {
                assert(ib[i] == b[i]);
            }
        }
        assert(same_capacities(ia, ib)) by {
            assert forall|i: int| 0 <= i < ia.len() implies (#[trigger] ia[i]).capacity
                == ib[i].capacity by {
                assert(ia[i] == a[i]);
                assert(ib[i] == b[i]);
            }
        }
        lemma_space_caps(ia, ib);
        lemma_code_bound(ia);
        lemma_code_bound(ib);
        let m = space(ia);
        let x = code(ia);
        let y = code(ib);
        let c1 = a.last().current as nat;
        let c2 = b.last().current as nat;
        assert(c1 == c2 && x == y) by (nonlinear_arith)
            requires
                x < m,
                y < m,
                x + c1 * m == y + c2 * m,
        {
            if c1 < c2 {
                assert(c1 * m + m <= c2 * m);
            } else if c2 < c1 {
                assert(c2 * m + m <= c1 * m);
            }
        }
        lemma_code_injective(ia, ib);
        assert(a.last() == b.last());
        assert forall|i: int| 0 <= i < a.len() implies a[i] == b[i] by {
            if i < a.len() - 1 {
                assert(a[i] == ia[i]);
                assert(b[i] == ib[i]);
            }
        }
        assert(a =~= b);
    }
}

/// However long a search runs, it meets at most as many distinct states as
/// there are fillings of the glasses of `start`, the product of
/// `capacity + 1` over them.
pub proof fn lemma_state_count(start: Seq<Glass>, states: Seq<Seq<Glass>>)
    requires
        states.no_duplicates(),
        forall|i: int|
            0 <= i < states.len() ==> valid_glasses(#[trigger] states[i]) && same_capacities(
                states[i],
                start,
            ),
    ensures
        states.len() <= space(start),
{
    let codes = states.map_values(|t: Seq<Glass>| code(t) as int);
    assert forall|i: int| 0 <= i < states.len() implies fillings_valid(#[trigger] states[i]) by {
        let t = states[i];
        assert forall|j: int| 0 <= j < t.len() implies (#[trigger] t[j]).current
            <= t[j].capacity by {
            assert(t[j].wf());
        }
    }
    assert(codes.no_duplicates()) by {
        assert forall|i: int, j: int|
            0 <= i < codes.len() && 0 <= j < codes.len() && i != j implies codes[i]
            != codes[j] by {
            if codes[i] == codes[j] {
                assert(same_capacities(states[i], states[j])) by {
                    assert forall|g: int| 0 <= g < states[i].len() implies (
                    #[trigger] states[i][g]).capacity == states[j][g].capacity by {
                        assert(states[i][g].capacity == start[g].capacity);
                        assert(states[j][g].capacity == start[g].capacity);
                    }
                }
                lemma_code_injective(states[i], states[j]);
            }
        }
    }
    codes.unique_seq_to_set();
    let range = set_int_range(0, space(start) as int);
    lemma_int_range(0, space(start) as int);
    assert(codes.to_set().subset_of(range)) by {
        assert forall|c: int| codes.to_set().contains(c) implies range.contains(c) by {
            let i = choose|i: int| 0 <= i < codes.len() && codes[i] == c;
            lemma_code_bound(states[i]);
            lemma_space_caps(states[i], start);
        }
    }
    lemma_len_subset(codes.to_set(), range);
}

} // verus!
