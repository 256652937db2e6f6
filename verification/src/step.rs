//! The patterns of one length, counted by the position they end in, and the
//! move from one length to the next.

use crate::position::{lemma_single_point, lemma_swipe, point_count, swipe, Position, POSITIONS};
use vstd::prelude::*;

verus! {

/// The sum of the first `n` counts.
pub open spec fn sum_to(counts: Seq<nat>, n: int) -> nat
    decreases n,
{
    if n <= 0 {
        0
    } else {
        sum_to(counts, n - 1) + counts[n - 1]
    }
}

/// The sum of all counts.
pub open spec fn total(counts: Seq<nat>) -> nat {
    sum_to(counts, counts.len() as int)
}

/// What the patterns ending in `source` add to those ending in `target`:
/// all of them where one stroke leads from `source` to `target`, none
/// otherwise.
pub open spec fn gain(counts: Seq<nat>, source: int, target: int) -> nat {
    if swipe(source as usize, (target % 9) as usize) == Some(target as usize) {
        counts[source]
    } else {
        0
    }
}

/// What the patterns ending in a code below `sources` add to those ending
/// in `target`.
pub open spec fn inflow(counts: Seq<nat>, target: int, sources: int) -> nat
    decreases sources,
{
    if sources <= 0 {
        0
    } else {
        inflow(counts, target, sources - 1) + gain(counts, sources - 1, target)
    }
}

/// The counts of the patterns that are one point longer: each code takes
/// the counts of all codes from which one stroke leads to it.
pub open spec fn next_counts(counts: Seq<nat>) -> Seq<nat> {
    Seq::new(POSITIONS as nat, |target: int| inflow(counts, target, POSITIONS as int))
}

/// The counts of the patterns of one point: one for each code made of a
/// single point that is also the last.
pub open spec fn initial_counts() -> Seq<nat> {
    Seq::new(
        POSITIONS as nat,
        |code: int|
            if code / 9 == (1usize << ((code % 9) as usize)) {
                1nat
            } else {
                0nat
            },
    )
}

/// The counts of the patterns of `length` points, for `length` from one on.
pub open spec fn sweep(length: nat) -> Seq<nat>
    decreases length,
{
    if length <= 1 {
        initial_counts()
    } else {
        next_counts(sweep((length - 1) as nat))
    }
}

/// Whether every code with a count holds exactly `length` points.
pub open spec fn all_at_length(counts: Seq<nat>, length: nat) -> bool {
    forall|code: int|
        0 <= code < counts.len() && #[trigger] counts[code] != 0 ==> point_count(
            (code / 9) as usize,
        ) == length
}

/// The counts after the codes below `sources` have handed on all they
/// have, and the code `sources` what goes to the points below `points`.
pub open spec fn partial_counts(counts: Seq<nat>, sources: int, points: int) -> Seq<nat> {
    Seq::new(
        POSITIONS as nat,
        |target: int|
            inflow(counts, target, sources) + if target % 9 < points {
                gain(counts, sources, target)
            } else {
                0
            },
    )
}

/// The counts held in a table of machine integers.
pub open spec fn counts_of(table: Seq<u32>) -> Seq<nat> {
    table.map_values(|count: u32| count as nat)
}

/// A longer prefix sums to no less.
pub proof fn lemma_sum_monotone(counts: Seq<nat>, shorter: int, longer: int)
    requires
        shorter <= longer,
    ensures
        sum_to(counts, shorter) <= sum_to(counts, longer),
    decreases longer - shorter,
{
    if shorter < longer {
        lemma_sum_monotone(counts, shorter, longer - 1);
    }
}

/// No count is above the total.
pub proof fn lemma_count_below_total(counts: Seq<nat>, code: int)
    requires
        0 <= code < counts.len(),
    ensures
        counts[code] <= total(counts),
{
    lemma_sum_monotone(counts, code + 1, counts.len() as int);
}

/// Changing one count changes each prefix sum that reaches it by the
/// difference.
pub proof fn lemma_sum_update(counts: Seq<nat>, code: int, count: nat, n: int)
    requires
        0 <= code < counts.len(),
        0 <= n <= counts.len(),
    ensures
        sum_to(counts.update(code, count), n) == if code < n {
            sum_to(counts, n) - counts[code] + count
        } else {
            sum_to(counts, n) as int
        },
    decreases n,
{
    if n > 0 {
        lemma_sum_update(counts, code, count, n - 1);
    }
}

/// A table of zeroes sums to zero.
pub proof fn lemma_sum_zero(counts: Seq<nat>, n: int)
    requires
        n <= counts.len(),
        forall|code: int| 0 <= code < counts.len() ==> counts[code] == 0,
    ensures
        sum_to(counts, n) == 0,
    decreases n,
{
    if n > 0 {
        lemma_sum_zero(counts, n - 1);
    }
}

/// More sources hand on no less.
pub proof fn lemma_inflow_monotone(counts: Seq<nat>, target: int, fewer: int, more: int)
    requires
        fewer <= more,
    ensures
        inflow(counts, target, fewer) <= inflow(counts, target, more),
    decreases more - fewer,
{
    if fewer < more {
        lemma_inflow_monotone(counts, target, fewer, more - 1);
    }
}

/// Where no source adds to a code, nothing flows into it.
pub proof fn lemma_inflow_zero(counts: Seq<nat>, target: int, sources: int)
    requires
        forall|source: int| 0 <= source < sources ==> gain(counts, source, target) == 0,
    ensures
        inflow(counts, target, sources) == 0,
    decreases sources,
{
    if sources > 0 {
        lemma_inflow_zero(counts, target, sources - 1);
    }
}

/// Handing on to one more point changes at most the count of the code that
/// the stroke leads to.
pub proof fn lemma_partial_point(counts: Seq<nat>, source: int, point: int)
    requires
        0 <= source < POSITIONS,
        0 <= point < 9,
    ensures
        partial_counts(counts, source, point + 1) == match swipe(source as usize, point as usize) {
            Some(target) => partial_counts(counts, source, point).update(
                target as int,
                partial_counts(counts, source, point)[target as int] + counts[source],
            ),
            None => partial_counts(counts, source, point),
        },
{
    lemma_swipe(source as usize, point as usize);
    let before = partial_counts(counts, source, point);
    let after = partial_counts(counts, source, point + 1);
    match swipe(source as usize, point as usize) {
        Some(target) => {
            let changed = before.update(target as int, before[target as int] + counts[source]);
            assert forall|code: int| 0 <= code < POSITIONS implies after[code]
                == changed[code] by {
                if code % 9 == point && code != target {
                    assert(code as usize != target);
                }
            }
            assert(after =~= changed);
        },
        None => {
            assert(after =~= before);
        },
    }
}

/// Once a code has handed on to all nine points it has handed on all it has.
pub proof fn lemma_partial_source(counts: Seq<nat>, source: int)
    requires
        0 <= source < POSITIONS,
    ensures
        partial_counts(counts, source, 9) == partial_counts(counts, source + 1, 0),
        counts[source] == 0 ==> partial_counts(counts, source, 0) == partial_counts(
            counts,
            source + 1,
            0,
        ),
{
    assert(partial_counts(counts, source, 9) =~= partial_counts(counts, source + 1, 0));
    if counts[source] == 0 {
        assert(partial_counts(counts, source, 0) =~= partial_counts(counts, source + 1, 0));
    }
}

/// Before any code has handed anything on every count is zero, and after
/// all have, the counts are those of the next length.
pub proof fn lemma_partial_ends(counts: Seq<nat>)
    ensures
        forall|code: int| 0 <= code < POSITIONS ==> partial_counts(counts, 0, 0)[code] == 0,
        partial_counts(counts, POSITIONS as int, 0) == next_counts(counts),
{
    assert(partial_counts(counts, POSITIONS as int, 0) =~= next_counts(counts));
}

/// What has been handed on so far is at most nine times the counts of the
/// codes that are done, and the count of the current code once for each
/// point that it has been tried on.
pub proof fn lemma_partial_total(counts: Seq<nat>, source: int, point: int)
    requires
        counts.len() == POSITIONS,
        0 <= source <= POSITIONS,
        0 <= point <= 9,
        source == POSITIONS ==> point == 0,
    ensures
        total(partial_counts(counts, source, point)) <= 9 * sum_to(counts, source) + if point
            == 0 {
            0
        } else {
            point * counts[source]
        },
    decreases source, point,
{
    let here = partial_counts(counts, source, point);
    if point > 0 {
        lemma_partial_total(counts, source, point - 1);
        lemma_partial_point(counts, source, point - 1);
        let before = partial_counts(counts, source, point - 1);
        lemma_swipe(source as usize, (point - 1) as usize);
        match swipe(source as usize, (point - 1) as usize) {
            Some(target) => {
                lemma_sum_update(
                    before,
                    target as int,
                    before[target as int] + counts[source],
                    POSITIONS as int,
                );
            },
            None => {},
        }
        assert(point * counts[source] == (point - 1) * counts[source] + counts[source])
            by (nonlinear_arith);
    } else if source > 0 {
        lemma_partial_total(counts, source - 1, 9);
        lemma_partial_source(counts, source - 1);
    } else {
        lemma_partial_ends(counts);
        lemma_sum_zero(here, POSITIONS as int);
    }
}

/// The patterns of the next length are at most nine times as many.
pub proof fn lemma_next_total_bound(counts: Seq<nat>)
    requires
        counts.len() == POSITIONS,
    ensures
        total(next_counts(counts)) <= 9 * total(counts),
{
    lemma_partial_total(counts, POSITIONS as int, 0);
    lemma_partial_ends(counts);
}

/// Where every counted pattern has `length` points, every counted pattern
/// of the next length has one more.
pub proof fn lemma_next_length(counts: Seq<nat>, length: nat)
    requires
        counts.len() == POSITIONS,
        all_at_length(counts, length),
    ensures
        all_at_length(next_counts(counts), length + 1),
{
    let next = next_counts(counts);
    assert forall|code: int| 0 <= code < next.len() && #[trigger] next[code] != 0 implies point_count(
        (code / 9) as usize,
    ) == length + 1 by {
        if point_count((code / 9) as usize) != length + 1 {
            assert forall|source: int| 0 <= source < POSITIONS implies gain(counts, source, code)
                == 0 by {
                lemma_swipe(source as usize, (code % 9) as usize);
                if counts[source] != 0 {
                    assert(point_count((source / 9) as usize) == length);
                }
            }
            lemma_inflow_zero(counts, code, POSITIONS as int);
        }
    }
}

/// The patterns of one point are nine, one for each point.
pub proof fn lemma_initial_counts()
    ensures
        initial_counts().len() == POSITIONS,
        all_at_length(initial_counts(), 1),
{
    let counts = initial_counts();
    assert forall|code: int| 0 <= code < counts.len() && #[trigger] counts[code] != 0 implies point_count(
        (code / 9) as usize,
    ) == 1 by {
        lemma_single_point((code % 9) as usize);
    }
}

/// Every pattern counted after the sweep has reached `length` holds
/// exactly `length` points.
pub proof fn lemma_sweep_length(length: nat)
    requires
        length >= 1,
    ensures
        sweep(length).len() == POSITIONS,
        all_at_length(sweep(length), length),
    decreases length,
{
    if length <= 1 {
        lemma_initial_counts();
    } else {
        lemma_sweep_length((length - 1) as nat);
        lemma_next_length(sweep((length - 1) as nat), (length - 1) as nat);
    }
}

/// The number of patterns of one length that end in each position.
#[derive(Debug)]
pub struct Step {
    possibilities: Vec<u32>,
}

impl View for Step {
    type V = Seq<nat>;

    /// The count of each code.
    closed spec fn view(&self) -> Seq<nat> {
        counts_of(self.possibilities@)
    }
}

/// A table with a zero for every code.
fn empty_table() -> (table: Vec<u32>)
    ensures
        table@.len() == POSITIONS,
        forall|code: int| 0 <= code < POSITIONS ==> table@[code] == 0,
{
    let mut table: Vec<u32> = Vec::new();
    let mut code: usize = 0;
    while code < POSITIONS
        invariant
            code <= POSITIONS,
            table@.len() == code,
            forall|before: int| 0 <= before < code ==> table@[before] == 0,
        decreases POSITIONS - code,
    {
        table.push(0);
        code = code + 1;
    }
    table
}

impl Default for Step {
    /// The step in which no pattern is counted.
    fn default() -> (step: Step)
        ensures
            step.wf(),
            forall|code: int| 0 <= code < POSITIONS ==> step@[code] == 0,
            total(step@) == 0,
    {
        let possibilities: Vec<u32> = empty_table();
        proof {
            lemma_sum_zero(counts_of(possibilities@), POSITIONS as int);
        }
        Step { possibilities }
    }
}

impl Step {
    /// There is a count for every code, and the counts sum to a number that
    /// fits the machine integer they are kept in.
    pub open spec fn wf(&self) -> bool {
        &&& self@.len() == POSITIONS
        &&& total(self@) <= u32::MAX
    }

    /// The patterns of one point: each of the nine points alone, once.
    pub fn init() -> (step: Step)
        ensures
            step.wf(),
            step@ == initial_counts(),
            step@ == sweep(1),
            total(step@) == 9,
            all_at_length(step@, 1),
    {
        let mut possibilities: Vec<u32> = empty_table();
        proof {
            lemma_sum_zero(counts_of(possibilities@), POSITIONS as int);
        }
        let mut point: usize = 0;
        while point < 9
            invariant
                point <= 9,
                possibilities@.len() == POSITIONS,
                forall|code: int|
                    0 <= code < POSITIONS ==> #[trigger] possibilities@[code] == if code % 9
                        < point && code / 9 == (1usize << ((code % 9) as usize)) {
                        1u32
                    } else {
                        0u32
                    },
                sum_to(counts_of(possibilities@), POSITIONS as int) == point,
            decreases 9 - point,
        {
            let position: Position = Position::from_point(point);
            proof {
                lemma_sum_update(
                    counts_of(possibilities@),
                    position.code() as int,
                    1,
                    POSITIONS as int,
                );
                assert(counts_of(possibilities@).update(position.code() as int, 1) =~= counts_of(
                    possibilities@.update(position.code() as int, 1),
                ));
            }
            possibilities.set(position.index(), 1);
            point = point + 1;
        }
        proof {
            assert(counts_of(possibilities@) =~= initial_counts());
            lemma_initial_counts();
        }
        Step { possibilities }
    }

    /// The number of patterns that end in `position`.
    pub fn possibilities_at(&self, position: &Position) -> (count: u32)
        requires
            self.wf(),
            position.wf(),
        ensures
            count == self@[position.code() as int],
    {
        self.possibilities[position.index()]
    }

    /// The number of patterns of this length: the sum of all counts.
    pub fn current_possibilities(&self) -> (count: u32)
        requires
            self.wf(),
        ensures
            count == total(self@),
    {
        let mut count: u32 = 0;
        let mut code: usize = 0;
        while code < POSITIONS
            invariant
                code <= POSITIONS,
                self.wf(),
                count == sum_to(self@, code as int),
            decreases POSITIONS - code,
        {
            proof {
                lemma_sum_monotone(self@, code + 1, POSITIONS as int);
            }
            count = count + self.possibilities[code];
            code = code + 1;
        }
        count
    }

    /// Whether every position with a count holds exactly `step` points.
    pub fn validate(&self, step: u32) -> (valid: bool)
        requires
            self.wf(),
        ensures
            valid == all_at_length(self@, step as nat),
    {
        let mut code: usize = 0;
        while code < POSITIONS
            invariant
                code <= POSITIONS,
                self.wf(),
                forall|before: int|
                    0 <= before < code && #[trigger] self@[before] != 0 ==> point_count(
                        (before / 9) as usize,
                    ) == step,
            decreases POSITIONS - code,
        {
            let position: Position = Position::from_index(code);
            if self.possibilities[code] != 0 && position.swiped_points() != step {
                assert(self@[code as int] != 0);
                return false;
            }
            code = code + 1;
        }
        true
    }

    /// The patterns that are one point longer: every counted pattern goes
    /// on to each point that it may be swiped to.
    ///
    /// The new counts have to fit the table as this step's do. They do
    /// wherever nine times this step's total fits: see
    /// `lemma_next_total_bound`.
    pub fn next_step(&self) -> (next: Step)
        requires
            self.wf(),
            total(next_counts(self@)) <= u32::MAX,
        ensures
            next.wf(),
            next@ == next_counts(self@),
            forall|length: nat| all_at_length(self@, length) ==> all_at_length(next@, length + 1),
            forall|length: nat|
                length >= 1 && self@ == #[trigger] sweep(length) ==> next@ == sweep(length + 1),
    {
        let mut possibilities: Vec<u32> = empty_table();
        let ghost counts = self@;
        proof {
            lemma_partial_ends(counts);
            assert(counts_of(possibilities@) =~= partial_counts(counts, 0, 0));
        }
        let mut code: usize = 0;
        while code < POSITIONS
            invariant
                code <= POSITIONS,
                self.wf(),
                counts == self@,
                total(next_counts(counts)) <= u32::MAX,
                possibilities@.len() == POSITIONS,
                counts_of(possibilities@) == partial_counts(counts, code as int, 0),
            decreases POSITIONS - code,
        {
            let count: u32 = self.possibilities[code];
            proof {
                lemma_partial_source(counts, code as int);
            }
            if count != 0 {
                let current: Position = Position::from_index(code);
                let mut point: usize = 0;
                while point < 9
                    invariant
                        point <= 9,
                        code < POSITIONS,
                        current.wf(),
                        current.code() == code,
                        count == counts[code as int],
                        counts.len() == POSITIONS,
                        total(next_counts(counts)) <= u32::MAX,
                        possibilities@.len() == POSITIONS,
                        counts_of(possibilities@) == partial_counts(
                            counts,
                            code as int,
                            point as int,
                        ),
                    decreases 9 - point,
                {
                    proof {
                        lemma_partial_point(counts, code as int, point as int);
                    }
                    if let Some(target) = current.swipe_to(point) {
                        let at: usize = target.index();
                        let ghost grown = partial_counts(counts, code as int, point + 1);
                        proof {
                            lemma_inflow_monotone(counts, at as int, code + 1, POSITIONS as int);
                            lemma_count_below_total(next_counts(counts), at as int);
                            assert(grown[at as int] == inflow(counts, at as int, code + 1));
                            assert(counts_of(possibilities@)[at as int] == possibilities@[at as int]);
                        }
                        let sum: u32 = possibilities[at] + count;
                        possibilities.set(at, sum);
                        proof {
                            assert(counts_of(possibilities@) =~= grown);
                        }
                    }
                    point = point + 1;
                }
            }
            code = code + 1;
        }
        proof {
            lemma_partial_ends(counts);
            assert forall|length: nat| all_at_length(counts, length) implies all_at_length(
                next_counts(counts),
                length + 1,
            ) by {
                lemma_next_length(counts, length);
            }
        }
        Step { possibilities }
    }
}

} // verus!
