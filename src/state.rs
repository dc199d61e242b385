use vstd::prelude::*;

use crate::glass::{glass_text, lemma_glass_text_parses, parse_glass_text, Glass};
use crate::operation::Operation;
use crate::text::{
    all_digits, char_is_space, chars_of, is_space, lemma_decimal, lemma_split_concat,
    lemma_split_no_comma, lemma_trim_padded, split_commas, trim, trim_end, trim_start,
};

verus! {

/// Glasses that can make up a state: at least one, each of them valid.
pub open spec fn valid_glasses(gs: Seq<Glass>) -> bool {
    &&& 0 < gs.len() <= usize::MAX
    &&& forall|i: int| 0 <= i < gs.len() ==> (#[trigger] gs[i]).wf()
}

/// The glasses after `op`; only the glasses that `op` names change.
pub open spec fn apply_spec(s: Seq<Glass>, op: Operation) -> Seq<Glass> {
    match op {
        Operation::Empty { glass } => s.update(glass as int, s[glass as int].spec_emptied()),
        Operation::Fill { glass } => s.update(glass as int, s[glass as int].spec_fill()),
        Operation::Pour { from, to } => s.update(
            from as int,
            s[from as int].spec_sub(s[to as int].spec_remaining()),
        ).update(to as int, s[to as int].spec_add(s[from as int].current as int)),
    }
}

/// `op` changes the glasses: it fills a glass that is not full, empties one
/// that is not empty, or pours from a glass that is not empty into one that
/// is not full.
pub open spec fn changes(s: Seq<Glass>, op: Operation) -> bool {
    match op {
        Operation::Empty { glass } => !s[glass as int].spec_empty(),
        Operation::Fill { glass } => !s[glass as int].spec_full(),
        Operation::Pour { from, to } => !s[from as int].spec_empty() && !s[to as int].spec_full(),
    }
}

/// Pours from glass `i` into the glasses before `j` that are not full.
pub open spec fn pours_from(s: Seq<Glass>, i: int, j: int) -> Seq<Operation>
    decreases j,
{
    if j <= 0 {
        Seq::empty()
    } else {
        let prev = pours_from(s, i, j - 1);
        if !s[j - 1].spec_full() && i != j - 1 {
            prev.push(Operation::Pour { from: i as usize, to: (j - 1) as usize })
        } else {
            prev
        }
    }
}

/// The operations of glass `i`: fill it unless it is full; unless it is empty,
/// empty it and then pour it into each other glass that is not full.
pub open spec fn glass_ops(s: Seq<Glass>, i: int) -> Seq<Operation> {
    (if !s[i].spec_full() {
        seq![Operation::Fill { glass: i as usize }]
    } else {
        Seq::empty()
    }) + (if !s[i].spec_empty() {
        seq![Operation::Empty { glass: i as usize }] + pours_from(s, i, s.len() as int)
    } else {
        Seq::empty()
    })
}

/// The operations of the glasses before `k`, glass by glass.
pub open spec fn ops_upto(s: Seq<Glass>, k: int) -> Seq<Operation>
    decreases k,
{
    if k <= 0 {
        Seq::empty()
    } else {
        ops_upto(s, k - 1) + glass_ops(s, k - 1)
    }
}

/// Every operation that changes `s`, in the order in which the search tries them.
pub open spec fn available_ops(s: Seq<Glass>) -> Seq<Operation> {
    ops_upto(s, s.len() as int)
}

/// The text of a state: its glasses' texts joined by `", "`.
pub open spec fn state_text(gs: Seq<Glass>) -> Seq<char>
    decreases gs.len(),
{
    if gs.len() == 0 {
        Seq::empty()
    } else if gs.len() == 1 {
        glass_text(gs[0])
    } else {
        state_text(gs.drop_last()) + seq![',', ' '] + glass_text(gs.last())
    }
}

/// The glasses read so far, `gs`, followed by the one piece of text `seg`
/// between two commas: a piece that is only white space adds nothing, any other
/// must read as a glass once trimmed.
pub open spec fn push_segment(gs: Seq<Glass>, seg: Seq<char>) -> Option<Seq<Glass>> {
    let t = trim(seg);
    if t.len() == 0 {
        Some(gs)
    } else {
        match parse_glass_text(t) {
            Some(g) => Some(gs.push(g)),
            None => None,
        }
    }
}

/// The glasses that the pieces `segs` describe, if each of them reads.
pub open spec fn parse_segments(segs: Seq<Seq<char>>) -> Option<Seq<Glass>>
    decreases segs.len(),
{
    if segs.len() == 0 {
        Some(Seq::empty())
    } else {
        match parse_segments(segs.drop_last()) {
            Some(gs) => push_segment(gs, segs.last()),
            None => None,
        }
    }
}

/// The glasses that `s` lists: `current/capacity` pieces separated by commas,
/// white space around a piece ignored, empty pieces skipped, at least one glass.
pub open spec fn parse_state_text(s: Seq<char>) -> Option<Seq<Glass>> {
    match parse_segments(split_commas(s)) {
        Some(gs) => if gs.len() > 0 {
            Some(gs)
        } else {
            None
        },
        None => None,
    }
}

proof fn lemma_glass_text_shape(g: Glass)
    ensures
        glass_text(g).len() > 0,
        forall|i: int| 0 <= i < glass_text(g).len() ==> #[trigger] glass_text(g)[i] != ',',
        !is_space(glass_text(g)[0]),
        !is_space(glass_text(g).last()),
{
    let a = crate::text::decimal(g.current as nat);
    let b = crate::text::decimal(g.capacity as nat);
    lemma_decimal(g.current as nat);
    lemma_decimal(g.capacity as nat);
    let t = glass_text(g);
    assert forall|i: int| 0 <= i < t.len() implies #[trigger] t[i] != ',' by {
        if i < a.len() {
            assert(t[i] == a[i]);
        } else if i > a.len() {
            assert(t[i] == b[i - a.len() - 1]);
        }
    }
    assert(t[0] == a[0]);
    assert(t.last() == b.last());
}

proof fn lemma_segments_of_text(gs: Seq<Glass>)
    requires
        valid_glasses(gs),
    ensures
        parse_segments(split_commas(state_text(gs))) == Some(gs),
    decreases gs.len(),
{
    let g = gs.last();
    assert(g.wf());
    let t = glass_text(g);
    lemma_glass_text_shape(g);
    lemma_glass_text_parses(g);
    if gs.len() == 1 {
        lemma_split_no_comma(t);
        lemma_trim_padded(Seq::empty(), t);
        assert(Seq::<char>::empty() + t =~= t);
        assert(trim(t) == t);
        assert(state_text(gs) == t);
        assert(split_commas(t) == seq![t]);
        assert(seq![t].drop_last() =~= Seq::<Seq<char>>::empty());
        assert(parse_segments(Seq::<Seq<char>>::empty()) == Some(Seq::<Glass>::empty()));
        assert(push_segment(Seq::<Glass>::empty(), t) == Some(Seq::<Glass>::empty().push(g)));
        assert(parse_segments(seq![t]) == Some(Seq::<Glass>::empty().push(g)));
        assert(Seq::<Glass>::empty().push(g) =~= gs);
    } else {
        let init = gs.drop_last();
        assert(valid_glasses(init)) by {
            assert forall|i: int| 0 <= i < init.len() implies (#[trigger] init[i]).wf() by {
                assert(init[i] == gs[i]);
            }
        }
        lemma_segments_of_text(init);
        let padded = seq![' '] + t;
        assert(state_text(gs) =~= state_text(init) + seq![','] + padded);
        lemma_split_concat(state_text(init), padded);
        assert forall|i: int| 0 <= i < padded.len() implies padded[i] != ',' by {
            if i > 0 {
                assert(padded[i] == t[i - 1]);
            }
        }
        lemma_split_no_comma(padded);
        lemma_trim_padded(seq![' '], t);
        let segs = split_commas(state_text(gs));
        assert(segs.drop_last() =~= split_commas(state_text(init)));
        assert(segs.last() == padded);
        assert(trim(padded) == t);
        assert(push_segment(init, padded) == Some(init.push(g)));
        assert(init.push(g) =~= gs);
    }
}

/// Reading back the text of a valid state gives that state again.
pub proof fn lemma_round_trip(s: State)
    requires
        s.wf(),
    ensures
        parse_state_text(state_text(s@)) == Some(s@),
{
    lemma_segments_of_text(s@);
}

/// Every pour that `pours_from` lists is valid and changes `s`, and each one
/// that would do so is listed.
proof fn lemma_pours_from(s: Seq<Glass>, i: int, j: int)
    requires
        0 <= i < s.len(),
        !s[i].spec_empty(),
        j <= s.len() <= usize::MAX,
    ensures
        forall|m: int|
            0 <= m < pours_from(s, i, j).len() ==> (#[trigger] pours_from(s, i, j)[m]).valid_for(
                s.len(),
            ) && changes(s, pours_from(s, i, j)[m]),
        forall|t: int|
            0 <= t < j && t != i && !s[t].spec_full() ==> pours_from(s, i, j).contains(
                Operation::Pour { from: i as usize, to: t as usize },
            ),
    decreases j,
{
    if j > 0 {
        lemma_pours_from(s, i, j - 1);
        let prev = pours_from(s, i, j - 1);
        let cur = pours_from(s, i, j);
        assert forall|m: int| 0 <= m < cur.len() implies (#[trigger] cur[m]).valid_for(s.len())
            && changes(s, cur[m]) by {
            if m < prev.len() {
                assert(cur[m] == prev[m]);
            }
        }
        assert forall|t: int|
            0 <= t < j && t != i && !s[t].spec_full() implies cur.contains(
            Operation::Pour { from: i as usize, to: t as usize },
        ) by {
            let op = Operation::Pour { from: i as usize, to: t as usize };
            if t < j - 1 {
                let m = choose|m: int| 0 <= m < prev.len() && prev[m] == op;
                assert(cur[m] == op);
            } else {
                assert(cur[cur.len() - 1] == op);
            }
        }
    }
}

/// Every operation of `ops_upto(s, k)` is valid and changes `s`, and every
/// valid operation that changes `s` and acts from a glass before `k` is listed.
proof fn lemma_ops_upto(s: Seq<Glass>, k: int)
    requires
        valid_glasses(s),
        0 <= k <= s.len(),
    ensures
        forall|m: int|
            0 <= m < ops_upto(s, k).len() ==> (#[trigger] ops_upto(s, k)[m]).valid_for(s.len())
                && changes(s, ops_upto(s, k)[m]),
        forall|op: Operation|
            op.valid_for(s.len()) && changes(s, op) && source_of(op) < k ==> ops_upto(
                s,
                k,
            ).contains(op),
    decreases k,
{
    if k > 0 {
        lemma_ops_upto(s, k - 1);
        let i = k - 1;
        if !s[i].spec_empty() {
            lemma_pours_from(s, i, s.len() as int);
        }
        let prev = ops_upto(s, i);
        let g = glass_ops(s, i);
        let cur = ops_upto(s, k);
        assert(cur == prev + g);
        assert forall|m: int| 0 <= m < cur.len() implies (#[trigger] cur[m]).valid_for(s.len())
            && changes(s, cur[m]) by {
            if m < prev.len() {
                assert(cur[m] == prev[m]);
            } else {
                let gm = m - prev.len();
                assert(cur[m] == g[gm]);
                let p = pours_from(s, i, s.len() as int);
                if !s[i].spec_full() {
                    if gm >= 2 {
                        assert(g[gm] == p[gm - 2]);
                    }
                } else {
                    if gm >= 1 {
                        assert(g[gm] == p[gm - 1]);
                    }
                }
            }
        }
        assert forall|op: Operation|
            op.valid_for(s.len()) && changes(s, op) && source_of(op) < k implies cur.contains(
            op,
        ) by {
            if source_of(op) < i {
                let m = choose|m: int| 0 <= m < prev.len() && prev[m] == op;
                assert(cur[m] == op);
            } else {
                let p = pours_from(s, i, s.len() as int);
                let off: int = if !s[i].spec_full() {
                    1
                } else {
                    0
                };
                match op {
                    Operation::Fill { glass } => {
                        assert(cur[prev.len() as int] == op);
                    },
                    Operation::Empty { glass } => {
                        assert(cur[prev.len() + off] == op);
                    },
                    Operation::Pour { from, to } => {
                        assert(p.contains(op));
                        let m = choose|m: int| 0 <= m < p.len() && p[m] == op;
                        assert(cur[prev.len() + off + 1 + m] == op);
                    },
                }
            }
        }
    }
}

/// The glass that an operation takes from or acts on.
pub open spec fn source_of(op: Operation) -> int {
    match op {
        Operation::Empty { glass } => glass as int,
        Operation::Fill { glass } => glass as int,
        Operation::Pour { from, to } => from as int,
    }
}

/// The available operations are exactly the valid operations that change the state.
pub proof fn lemma_available_ops(s: Seq<Glass>)
    requires
        valid_glasses(s),
    ensures
        forall|op: Operation|
            #[trigger] available_ops(s).contains(op) <==> (op.valid_for(s.len()) && changes(s, op)),
{
    lemma_ops_upto(s, s.len() as int);
    assert forall|op: Operation| #[trigger] available_ops(s).contains(op) implies (op.valid_for(
        s.len(),
    ) && changes(s, op)) by {
        let m = choose|m: int| 0 <= m < available_ops(s).len() && available_ops(s)[m] == op;
        assert(available_ops(s)[m].valid_for(s.len()));
    }
}

/// A valid operation that does not change the state leaves it as it is.
pub proof fn lemma_unchanged(s: Seq<Glass>, op: Operation)
    requires
        valid_glasses(s),
        op.valid_for(s.len()),
        !changes(s, op),
    ensures
        apply_spec(s, op) == s,
{
    match op {
        Operation::Empty { glass } => {
            assert(s[glass as int].wf());
            assert(apply_spec(s, op) =~= s);
        },
        Operation::Fill { glass } => {
            assert(s[glass as int].wf());
            assert(apply_spec(s, op) =~= s);
        },
        Operation::Pour { from, to } => {
            assert(s[from as int].wf());
            assert(s[to as int].wf());
            assert(apply_spec(s, op) =~= s);
        },
    }
}

/// An operation keeps the number of glasses, each capacity and the validity of
/// each glass.
pub proof fn lemma_apply_keeps_shape(s: Seq<Glass>, op: Operation)
    requires
        valid_glasses(s),
        op.valid_for(s.len()),
    ensures
        valid_glasses(apply_spec(s, op)),
        same_capacities(apply_spec(s, op), s),
{
    let t = apply_spec(s, op);
    assert forall|i: int| 0 <= i < t.len() implies (#[trigger] t[i]).wf() && t[i].capacity
        == s[i].capacity by {
        assert(s[i].wf());
        match op {
            Operation::Pour { from, to } => {
                assert(s[from as int].wf());
                assert(s[to as int].wf());
            },
            _ => {},
        }
    }
}

/// Two sequences of glasses of one length with equal capacities, glass by glass.
pub open spec fn same_capacities(a: Seq<Glass>, b: Seq<Glass>) -> bool {
    a.len() == b.len() && forall|i: int| 0 <= i < a.len() ==> (#[trigger] a[i]).capacity
        == b[i].capacity
}

/// Reads one piece of a state's text into `glasses` (see `push_segment`).
fn push_segment_exec(glasses: &mut Vec<Glass>, seg: &Vec<char>) -> (ok: bool)
    requires
        forall|j: int| 0 <= j < old(glasses)@.len() ==> (#[trigger] old(glasses)@[j]).wf(),
    ensures
        match push_segment(old(glasses)@, seg@) {
            Some(gs) => ok && final(glasses)@ == gs,
            None => !ok,
        },
        forall|j: int| 0 <= j < final(glasses)@.len() ==> (#[trigger] final(glasses)@[j]).wf(),
{
    let n = seg.len();
    let mut lo: usize = 0;
    assert(seg@.subrange(0, n as int) =~= seg@);
    while lo < n && char_is_space(seg[lo])
        invariant
            n == seg@.len(),
            lo <= n,
            trim_start(seg@.subrange(lo as int, n as int)) == trim_start(seg@),
        decreases n - lo,
    {
        assert(seg@.subrange(lo as int, n as int).drop_first() =~= seg@.subrange(
            lo + 1,
            n as int,
        ));
        lo = lo + 1;
    }
    let mut hi: usize = n;
    while hi > lo && char_is_space(seg[hi - 1])
        invariant
            n == seg@.len(),
            lo <= hi <= n,
            trim_end(seg@.subrange(lo as int, hi as int)) == trim(seg@),
        decreases hi,
    {
        assert(seg@.subrange(lo as int, hi as int).drop_last() =~= seg@.subrange(
            lo as int,
            hi - 1,
        ));
        hi = hi - 1;
    }
    let ghost t = seg@.subrange(lo as int, hi as int);
    assert(trim(seg@) == t);
    if lo == hi {
        return true;
    }
    let mut piece: Vec<char> = Vec::new();
    let mut k: usize = lo;
    while k < hi
        invariant
            lo <= k <= hi <= n == seg@.len(),
            t == seg@.subrange(lo as int, hi as int),
            piece@ == t.take(k - lo),
        decreases hi - k,
    {
        piece.push(seg[k]);
        k = k + 1;
        assert(piece@ =~= t.take(k - lo));
    }
    assert(piece@ =~= t);
    match Glass::parse_chars(&piece) {
        Some(g) => {
            glasses.push(g);
            true
        },
        None => false,
    }
}

/// An ordered, non-empty collection of glasses.
#[derive(Debug, Hash)]
pub struct State {
    glasses: Vec<Glass>,
}

impl Clone for State {
    fn clone(&self) -> (r: State)
        ensures
            r@ == self@,
    {
        proof {
            use_type_invariant(self);
        }
        State { glasses: self.glasses() }
    }
}

impl PartialEq for State {
    fn eq(&self, other: &State) -> (r: bool) {
        let n = self.glasses.len();
        if n != other.glasses.len() {
            return false;
        }
        let mut i: usize = 0;
        while i < n
            invariant
                n == self@.len() == other@.len(),
                i <= n,
                forall|j: int| 0 <= j < i ==> self@[j] == other@[j],
            decreases n - i,
        {
            if self.glasses[i] != other.glasses[i] {
                return false;
            }
            i = i + 1;
        }
        assert(self@ =~= other@);
        true
    }
}

impl Eq for State {

}

impl vstd::std_specs::cmp::PartialEqSpecImpl for State {
    open spec fn obeys_eq_spec() -> bool {
        true
    }

    open spec fn eq_spec(&self, other: &State) -> bool {
        self@ == other@
    }
}

impl View for State {
    type V = Seq<Glass>;

    closed spec fn view(&self) -> Seq<Glass> {
        self.glasses@
    }
}

impl State {
    /// Every state holds at least one glass, each of them valid.
    #[verifier::type_invariant]
    pub open spec fn wf(&self) -> bool {
        valid_glasses(self@)
    }

    pub fn new(glasses: Vec<Glass>) -> (r: State)
        requires
            valid_glasses(glasses@),
        ensures
            r@ == glasses@,
            r.wf(),
    {
        State { glasses }
    }

    pub fn glasses(&self) -> (r: Vec<Glass>)
        ensures
            r@ == self@,
    {
        let mut r: Vec<Glass> = Vec::new();
        let mut i: usize = 0;
        while i < self.glasses.len()
            invariant
                i <= self.glasses@.len(),
                r@ == self.glasses@.take(i as int),
            decreases self.glasses@.len() - i,
        {
            r.push(self.glasses[i]);
            i = i + 1;
            assert(r@ =~= self.glasses@.take(i as int));
        }
        assert(r@ =~= self.glasses@);
        r
    }

    /// The state that `s` describes (see `parse_state_text`).
    pub fn parse(s: &str) -> (r: Option<State>)
        ensures
            match r {
                Some(st) => parse_state_text(s@) == Some(st@) && st.wf(),
                None => parse_state_text(s@) is None,
            },
    {
        let cs = chars_of(s);
        let n = cs.len();
        let mut glasses: Vec<Glass> = Vec::new();
        let mut seg: Vec<char> = Vec::new();
        let mut ok = true;
        let ghost mut done: Seq<Seq<char>> = Seq::empty();
        let mut i: usize = 0;
        assert(cs@.take(0) =~= Seq::<char>::empty());
        assert(seg@ =~= Seq::<char>::empty());
        while i < n
            invariant
                n == cs@.len(),
                i <= n,
                split_commas(cs@.take(i as int)) == done.push(seg@),
                ok ==> parse_segments(done) == Some(glasses@),
                !ok ==> parse_segments(done) is None,
                forall|j: int| 0 <= j < glasses@.len() ==> (#[trigger] glasses@[j]).wf(),
            decreases n - i,
        {
            let c = cs[i];
            let ghost before = cs@.take(i as int);
            assert(cs@.take(i + 1).drop_last() =~= before);
            if c == ',' {
                if ok {
                    ok = push_segment_exec(&mut glasses, &seg);
                }
                proof {
                    assert(done.push(seg@).drop_last() =~= done);
                    done = done.push(seg@);
                }
                seg = Vec::new();
                assert(split_commas(cs@.take(i + 1)) =~= done.push(seg@));
            } else {
                seg.push(c);
                assert(split_commas(cs@.take(i + 1)) =~= done.push(seg@));
            }
            i = i + 1;
        }
        assert(cs@.take(n as int) =~= cs@);
        assert(done.push(seg@).drop_last() =~= done);
        if ok {
            ok = push_segment_exec(&mut glasses, &seg);
        }
        if ok && glasses.len() > 0 {
            assert(valid_glasses(glasses@));
            Some(State::new(glasses))
        } else {
            None
        }
    }

    /// The text of the state (see `state_text`).
    pub fn to_string(&self) -> (r: String)
        ensures
            r@ == state_text(self@),
    {
        proof {
            use_type_invariant(self);
        }
        let n = self.glasses.len();
        let mut out = self.glasses[0].to_string();
        let mut i: usize = 1;
        proof {
            reveal_strlit(", ");
            assert(self@.take(1).len() == 1);
        }
        while i < n
            invariant
                n == self@.len(),
                1 <= i <= n,
                out@ == state_text(self@.take(i as int)),
            decreases n - i,
        {
            proof {
                reveal_strlit(", ");
            }
            out.append(", ");
            let g = self.glasses[i].to_string();
            out.append(g.as_str());
            i = i + 1;
            let ghost p = self@.take(i as int);
            assert(p.drop_last() =~= self@.take(i - 1));
            assert(p.last() == self@[i - 1]);
            assert(state_text(p) == state_text(p.drop_last()) + seq![',', ' '] + glass_text(
                p.last(),
            ));
            assert(out@ =~= state_text(p));
        }
        assert(self@.take(n as int) =~= self@);
        out
    }

    pub fn len(&self) -> (r: usize)
        ensures
            r == self@.len(),
    {
        self.glasses.len()
    }

    /// The state after `operation`.
    pub fn apply(&self, operation: Operation) -> (r: State)
        requires
            operation.valid_for(self@.len()),
        ensures
            r@ == apply_spec(self@, operation),
            r.wf(),
    {
        proof {
            use_type_invariant(self);
        }
        let ghost target = apply_spec(self@, operation);
        let n = self.glasses.len();
        let mut next: Vec<Glass> = Vec::new();
        let mut idx: usize = 0;
        while idx < n
            invariant
                self.wf(),
                operation.valid_for(self@.len()),
                n == self@.len(),
                target == apply_spec(self@, operation),
                idx <= n,
                next@ == target.take(idx as int),
            decreases n - idx,
        {
            let g = self.glasses[idx];
            let next_glass = match operation {
                Operation::Empty { glass } => if idx == glass {
                    g.empty()
                } else {
                    g
                },
                Operation::Fill { glass } => if idx == glass {
                    g.fill()
                } else {
                    g
                },
                Operation::Pour { from, to } => if idx == from {
                    g.sub(self.glasses[to].remaining_capacity())
                } else if idx == to {
                    g.add(self.glasses[from].current)
                } else {
                    g
                },
            };
            next.push(next_glass);
            idx = idx + 1;
            assert(next@ =~= target.take(idx as int));
        }
        assert(next@ =~= target);
        assert(valid_glasses(target)) by {
            assert forall|i: int| 0 <= i < target.len() implies (#[trigger] target[i]).wf() by {
                assert(self@[i].wf());
            }
        }
        State::new(next)
    }

    /// The operations that change this state, in a fixed order: glass by glass,
    /// first filling it, then emptying it, then pouring it into each other glass
    /// in turn.
    pub fn available_operations(&self) -> (r: Vec<Operation>)
        ensures
            r@ == available_ops(self@),
    {
        let ghost s = self@;
        let n = self.glasses.len();
        let mut result: Vec<Operation> = Vec::new();
        let mut index: usize = 0;
        while index < n
            invariant
                s == self@,
                n == s.len(),
                index <= n,
                result@ == ops_upto(s, index as int),
            decreases n - index,
        {
            let glass = self.glasses[index];
            let ghost before = result@;
            let ghost fill_part = if !glass.spec_full() {
                seq![Operation::Fill { glass: index }]
            } else {
                Seq::<Operation>::empty()
            };
            if !glass.is_full() {
                result.push(Operation::fill(index));
            }
            assert(result@ =~= before + fill_part);
            if !glass.is_empty() {
                result.push(Operation::empty(index));
                let mut dest: usize = 0;
                while dest < n
                    invariant
                        s == self@,
                        n == s.len(),
                        index < n,
                        dest <= n,
                        result@ == before + fill_part + (seq![Operation::Empty { glass: index }]
                            + pours_from(s, index as int, dest as int)),
                    decreases n - dest,
                {
                    if !self.glasses[dest].is_full() && index != dest {
                        result.push(Operation::pour(index, dest));
                    }
                    dest = dest + 1;
                    assert(result@ =~= before + fill_part + (seq![
                        Operation::Empty { glass: index },
                    ] + pours_from(s, index as int, dest as int)));
                }
            }
            assert(result@ =~= ops_upto(s, index + 1));
            index = index + 1;
        }
        result
    }
}

} // verus!
