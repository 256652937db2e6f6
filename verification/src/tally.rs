//! The sweep over all pattern lengths.

use crate::pattern::{lemma_total_counts_patterns, patterns_of};
use crate::step::{lemma_next_total_bound, sweep, total, Step};
use vstd::prelude::*;

verus! {

/// The longest pattern: all nine points.
pub const LONGEST: u32 = 9;

/// The shortest pattern that counts towards the grand total.
pub const SHORTEST_COUNTED: u32 = 5;

/// The number of patterns of every length from `first` to `last`.
pub open spec fn total_between(first: nat, last: nat) -> nat
    decreases last,
{
    if last < first || last == 0 {
        0
    } else {
        total_between(first, (last - 1) as nat) + total(sweep(last))
    }
}

/// Nine to the power of `exponent`.
pub open spec fn nine_to(exponent: nat) -> nat
    decreases exponent,
{
    if exponent == 0 {
        1
    } else {
        9 * nine_to((exponent - 1) as nat)
    }
}

/// The powers of nine up to the ninth, which is the largest of them.
pub proof fn lemma_nine_to(exponent: nat)
    requires
        exponent <= 9,
    ensures
        nine_to(exponent) <= nine_to(9),
        nine_to(9) == 387420489,
    decreases 9 - exponent,
{
    reveal_with_fuel(nine_to, 10);
    if exponent < 9 {
        lemma_nine_to(exponent + 1);
    }
}

/// The number of patterns of each length, and of the lengths that count.
pub struct Tally {
    /// At index `k` the number of patterns of `k + 1` points.
    pub by_length: Vec<u32>,
    /// The number of patterns of five points or more.
    pub long_total: u32,
}

/// Counts the patterns of one to nine points, one length after the other,
/// and adds up those of five points or more.
pub fn tally() -> (result: Tally)
    ensures
        result.by_length@.len() == 9,
        forall|k: int| 0 <= k < 9 ==> #[trigger] result.by_length@[k] == total(sweep((k + 1) as nat)),
        forall|k: int|
            0 <= k < 9 ==> #[trigger] result.by_length@[k] == patterns_of((k + 1) as nat).len(),
        result.long_total == total_between(5, 9),
        result.long_total == patterns_of(5).len() + patterns_of(6).len() + patterns_of(7).len()
            + patterns_of(8).len() + patterns_of(9).len(),
        result.by_length@[0] == 9,
{
    let mut current: Step = Step::init();
    let mut by_length: Vec<u32> = Vec::new();
    let first: u32 = current.current_possibilities();
    by_length.push(first);
    let mut long_total: u32 = 0;
    let mut length: u32 = 1;
    proof {
        reveal_with_fuel(nine_to, 2);
        reveal_with_fuel(total_between, 2);
    }
    while length < LONGEST
        invariant
            1 <= length <= 9,
            current.wf(),
            current@ == sweep(length as nat),
            total(current@) <= nine_to(length as nat),
            by_length@.len() == length,
            by_length@[0] == 9,
            forall|k: int| 0 <= k < length ==> #[trigger] by_length@[k] == total(sweep((k + 1) as nat)),
            long_total == total_between(5, length as nat),
            long_total <= length * 387420489,
        decreases 9 - length,
    {
        proof {
            lemma_next_total_bound(current@);
            lemma_nine_to(length as nat + 1);
        }
        current = current.next_step();
        length = length + 1;
        let count: u32 = current.current_possibilities();
        by_length.push(count);
        if length >= SHORTEST_COUNTED {
            long_total = long_total + count;
        }
    }
    proof {
        assert forall|k: int| 0 <= k < 9 implies #[trigger] by_length@[k] == patterns_of(
            (k + 1) as nat,
        ).len() by {
            lemma_total_counts_patterns((k + 1) as nat);
        }
        lemma_total_counts_patterns(5);
        lemma_total_counts_patterns(6);
        lemma_total_counts_patterns(7);
        lemma_total_counts_patterns(8);
        lemma_total_counts_patterns(9);
        reveal_with_fuel(total_between, 10);
    }
    Tally { by_length, long_total }
}

} // verus!
