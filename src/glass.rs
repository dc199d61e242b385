use vstd::prelude::*;

use crate::text::{all_digits, chars_of, decimal, is_digit, lemma_decimal, parse_u32, push_decimal, value_of};

verus! {

/// The text of a glass: `current/capacity`, both in decimal.
pub open spec fn glass_text(g: Glass) -> Seq<char> {
    decimal(g.current as nat) + seq!['/'] + decimal(g.capacity as nat)
}

/// `t` is digits, then a slash at `i`, then digits.
pub open spec fn glass_split_at(t: Seq<char>, i: int) -> bool {
    &&& 0 < i < t.len() - 1
    &&& t[i] == '/'
    &&& all_digits(t.take(i))
    &&& all_digits(t.skip(i + 1))
}

/// The glass that `t` describes, if `t` reads `current/capacity` in decimal and
/// these make a valid glass.
pub open spec fn parse_glass_text(t: Seq<char>) -> Option<Glass> {
    if exists|i: int| glass_split_at(t, i) {
        let i = choose|i: int| glass_split_at(t, i);
        let current = value_of(t.take(i));
        let capacity = value_of(t.skip(i + 1));
        if 0 < capacity <= u32::MAX && current <= capacity {
            Some(Glass { capacity: capacity as u32, current: current as u32 })
        } else {
            None
        }
    } else {
        None
    }
}

/// Only one slash can stand between the two numbers.
pub proof fn lemma_glass_split_unique(t: Seq<char>, i: int, j: int)
    requires
        glass_split_at(t, i),
        glass_split_at(t, j),
    ensures
        i == j,
{
    if i < j {
        assert(t.skip(i + 1)[j - i - 1] == t[j]);
        assert(!is_digit(t[j]));
    } else if j < i {
        assert(t.skip(j + 1)[i - j - 1] == t[i]);
        assert(!is_digit(t[i]));
    }
}

/// The text of a valid glass reads back as that glass.
pub proof fn lemma_glass_text_parses(g: Glass)
    requires
        g.wf(),
    ensures
        parse_glass_text(glass_text(g)) == Some(g),
{
    let t = glass_text(g);
    let a = decimal(g.current as nat);
    let b = decimal(g.capacity as nat);
    lemma_decimal(g.current as nat);
    lemma_decimal(g.capacity as nat);
    let k = a.len() as int;
    assert(t.take(k) =~= a);
    assert(t.skip(k + 1) =~= b);
    assert(glass_split_at(t, k));
    let i = choose|i: int| glass_split_at(t, i);
    lemma_glass_split_unique(t, i, k);
}

/// One container: a fixed capacity and the amount it currently holds.
#[derive(Clone, Copy, Debug, PartialEq, Eq, Structural, Hash)]
pub struct Glass {
    pub capacity: u32,
    pub current: u32,
}

impl Glass {
    /// A glass is valid when it can hold something and holds no more than it can.
    pub open spec fn wf(self) -> bool {
        0 < self.capacity && self.current <= self.capacity
    }

    pub open spec fn spec_full(self) -> bool {
        self.current == self.capacity
    }

    pub open spec fn spec_empty(self) -> bool {
        self.current == 0
    }

    pub open spec fn spec_remaining(self) -> int {
        self.capacity - self.current
    }

    /// The glass filled to the brim.
    pub open spec fn spec_fill(self) -> Glass {
        Glass { capacity: self.capacity, current: self.capacity }
    }

    /// The glass emptied.
    pub open spec fn spec_emptied(self) -> Glass {
        Glass { capacity: self.capacity, current: 0 }
    }

    /// The glass after `amount` is poured in, clamped to its capacity.
    pub open spec fn spec_add(self, amount: int) -> Glass {
        Glass {
            capacity: self.capacity,
            current: if self.current + amount >= self.capacity {
                self.capacity
            } else {
                (self.current + amount) as u32
            },
        }
    }

    /// The glass after `amount` is poured out, clamped at zero.
    pub open spec fn spec_sub(self, amount: int) -> Glass {
        Glass {
            capacity: self.capacity,
            current: if amount >= self.current {
                0
            } else {
                (self.current - amount) as u32
            },
        }
    }

    pub fn new(current: u32, capacity: u32) -> (r: Glass)
        requires
            capacity > 0,
            current <= capacity,
        ensures
            r == (Glass { capacity, current }),
            r.wf(),
    {
        Glass { capacity, current }
    }

    pub fn new_empty(capacity: u32) -> (r: Glass)
        requires
            capacity > 0,
        ensures
            r == (Glass { capacity, current: 0 }),
            r.wf(),
    {
        Glass::new(0, capacity)
    }

    pub fn empty(&self) -> (r: Glass)
        requires
            self.wf(),
        ensures
            r == self.spec_emptied(),
            r.wf(),
    {
        Glass::new_empty(self.capacity)
    }

    pub fn fill(&self) -> (r: Glass)
        requires
            self.wf(),
        ensures
            r == self.spec_fill(),
            r.wf(),
    {
        Glass::new(self.capacity, self.capacity)
    }

    pub fn is_empty(&self) -> (r: bool)
        ensures
            r == self.spec_empty(),
    {
        self.current == 0
    }

    pub fn is_full(&self) -> (r: bool)
        ensures
            r == self.spec_full(),
    {
        self.current == self.capacity
    }

    pub fn remaining_capacity(&self) -> (r: u32)
        requires
            self.wf(),
        ensures
            r == self.spec_remaining(),
    {
        self.capacity - self.current
    }

    /// The glass that the characters `t` describe (see `parse_glass_text`).
    pub fn parse_chars(t: &Vec<char>) -> (r: Option<Glass>)
        ensures
            r == parse_glass_text(t@),
            r matches Some(g) ==> g.wf(),
    {
        let n = t.len();
        let mut p: usize = 0;
        while p < n && t[p] != '/'
            invariant
                p <= n == t@.len(),
                forall|j: int| 0 <= j < p ==> t@[j] != '/',
            decreases n - p,
        {
            p = p + 1;
        }
        if p == n {
            assert(!exists|i: int| glass_split_at(t@, i));
            return None;
        }
        let ghost ts = t@;
        assert(ts.take(p as int) =~= ts.subrange(0, p as int));
        assert(ts.skip(p + 1) =~= ts.subrange(p + 1, n as int));
        proof {
            if exists|i: int| glass_split_at(ts, i) {
                let i = choose|i: int| glass_split_at(ts, i);
                if i < p {
                    assert(ts[i] != '/');
                } else if p < i {
                    assert(ts.take(i)[p as int] == ts[p as int]);
                    assert(!is_digit(ts[p as int]));
                }
                assert(i == p);
            }
        }
        let current = parse_u32(t, 0, p);
        let capacity = parse_u32(t, p + 1, n);
        match (current, capacity) {
            (Some(current), Some(capacity)) => {
                assert(glass_split_at(ts, p as int));
                if capacity > 0 && current <= capacity {
                    Some(Glass::new(current, capacity))
                } else {
                    None
                }
            },
            _ => None,
        }
    }

    /// The glass that `s` describes: `current/capacity` in decimal, nothing else.
    pub fn parse(s: &str) -> (r: Option<Glass>)
        ensures
            r == parse_glass_text(s@),
            r matches Some(g) ==> g.wf(),
    {
        let t = chars_of(s);
        Glass::parse_chars(&t)
    }

    /// The text of the glass, `current/capacity`.
    pub fn to_string(&self) -> (r: String)
        ensures
            r@ == glass_text(*self),
    {
        let mut out = String::new();
        push_decimal(&mut out, self.current as usize);
        out.append("/");
        push_decimal(&mut out, self.capacity as usize);
        proof {
            reveal_strlit("/");
        }
        assert(out@ =~= glass_text(*self));
        out
    }

    /// Pours `amount` in; whatever does not fit overflows.
    pub fn add(self, amount: u32) -> (r: Glass)
        requires
            self.wf(),
        ensures
            r == self.spec_add(amount as int),
            r.wf(),
    {
        if amount >= self.capacity - self.current {
            Glass::new(self.capacity, self.capacity)
        } else {
            Glass::new(self.current + amount, self.capacity)
        }
    }

    /// Pours `amount` out; a glass never holds less than nothing.
    pub fn sub(self, amount: u32) -> (r: Glass)
        requires
            self.wf(),
        ensures
            r == self.spec_sub(amount as int),
            r.wf(),
    {
        if amount >= self.current {
            Glass::new_empty(self.capacity)
        } else {
            Glass::new(self.current - amount, self.capacity)
        }
    }
}

} // verus!
