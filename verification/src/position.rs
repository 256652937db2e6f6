//! Partial patterns as dense codes, and the stroke rule.
//!
//! The keypad is laid out as
//!
//! ```text
//! 0 1 2
//! 3 4 5
//! 6 7 8
//! ```
//!
//! A partial pattern is reduced to the set of points already swiped, kept as
//! a nine-bit mask, and the point swiped last. Its code is
//! `last + 9 * mask`.

use vstd::prelude::*;

verus! {

/// Number of codes: nine last points for each of the `2^9` masks.
pub const POSITIONS: usize = 4608;

/// The code of the pair of a mask and a last point.
pub open spec fn encode(mask: usize, last: usize) -> int {
    last + 9 * mask
}

/// Whether bit `point` of `mask` is set.
pub open spec fn has_point(mask: usize, point: usize) -> bool {
    mask & (1usize << point) != 0
}

/// `mask` with bit `point` set.
pub open spec fn with_point(mask: usize, point: usize) -> usize {
    mask | (1usize << point)
}

/// How many of the points below `limit` are in `mask`.
pub open spec fn points_below(mask: usize, limit: nat) -> nat
    decreases limit,
{
    if limit == 0 {
        0
    } else {
        points_below(mask, (limit - 1) as nat) + if has_point(mask, (limit - 1) as usize) {
            1nat
        } else {
            0nat
        }
    }
}

/// How many of the nine points are in `mask`.
pub open spec fn point_count(mask: usize) -> nat {
    points_below(mask, 9)
}

/// The point that a straight stroke from `from` to `to` passes over, if any.
pub open spec fn middle(from: usize, to: usize) -> Option<usize> {
    if (from == 0 && to == 2) || (from == 2 && to == 0) {
        Some(1usize)
    } else if (from == 0 && to == 6) || (from == 6 && to == 0) {
        Some(3usize)
    } else if (from == 2 && to == 8) || (from == 8 && to == 2) {
        Some(5usize)
    } else if (from == 6 && to == 8) || (from == 8 && to == 6) {
        Some(7usize)
    } else if (from == 0 && to == 8) || (from == 8 && to == 0) || (from == 2 && to == 6) || (from
        == 6 && to == 2) || (from == 1 && to == 7) || (from == 7 && to == 1) || (from == 3 && to
        == 5) || (from == 5 && to == 3) {
        Some(4usize)
    } else {
        None
    }
}

/// Whether the pattern with code `code` may go on to `to`: `to` is new, and
/// the stroke from the last point passes over no point that is still free.
pub open spec fn can_swipe(code: usize, to: usize) -> bool {
    &&& !has_point(code / 9, to)
    &&& match middle(code % 9, to) {
        Some(m) => has_point(code / 9, m),
        None => true,
    }
}

/// The code reached from `code` by a stroke to `to`, where that is allowed.
pub open spec fn swipe(code: usize, to: usize) -> Option<usize> {
    if can_swipe(code, to) {
        Some(encode(with_point(code / 9, to), to) as usize)
    } else {
        None
    }
}

/// A stroke over a middle point is the same in both directions.
pub proof fn lemma_middle_symmetric(a: usize, b: usize)
    ensures
        middle(a, b) == middle(b, a),
{
}

/// A stroke passes over a point exactly when its ends are distinct points of
/// the keypad whose rows and columns both lie an even distance apart; the
/// point passed over is then halfway between them.
pub proof fn lemma_middle_is_halfway(a: usize, b: usize)
    ensures
        middle(a, b).is_some() <==> a < 9 && b < 9 && a != b && (a / 3 + b / 3) % 2 == 0 && (a % 3
            + b % 3) % 2 == 0,
        middle(a, b).is_some() ==> middle(a, b) == Some(((a + b) / 2) as usize),
        middle(a, b).is_some() ==> middle(a, b).unwrap() != a && middle(a, b).unwrap() != b
            && middle(a, b).unwrap() < 9,
{
}

/// A code below `POSITIONS` is the code of its own mask and last point.
pub proof fn lemma_encode_decode(code: usize)
    ensures
        encode(code / 9, code % 9) == code,
        code < POSITIONS ==> code / 9 < 512 && code % 9 < 9,
{
}

/// A mask and a last point are read back from their code.
pub proof fn lemma_decode_encode(mask: usize, last: usize)
    requires
        mask < 512,
        last < 9,
    ensures
        encode(mask, last) < POSITIONS,
        encode(mask, last) / 9 == mask,
        encode(mask, last) % 9 == last,
{
}

/// Setting a bit changes that bit and no other, and keeps a mask of nine
/// bits within nine bits.
pub proof fn lemma_with_point(mask: usize, point: usize)
    requires
        point < 9,
    ensures
        has_point(with_point(mask, point), point),
        forall|q: usize| q < 9 && q != point ==> has_point(#[trigger] with_point(mask, point), q) == has_point(mask, q),
        mask < 512 ==> with_point(mask, point) < 512,
        !has_point(mask, point) ==> with_point(mask, point) == mask + (1usize << point),
        (1usize << point) < 512,
{
    assert((mask | (1usize << point)) & (1usize << point) != 0) by (bit_vector)
        requires
            point < 9,
    ;
    assert forall|q: usize| q < 9 && q != point implies has_point(
        #[trigger] with_point(mask, point),
        q,
    ) == has_point(mask, q) by {
        assert(((mask | (1usize << point)) & (1usize << q) != 0) == (mask & (1usize << q) != 0))
            by (bit_vector)
            requires
                point < 9,
                q < 9,
                q != point,
        ;
    }
    assert(mask < 512 ==> (mask | (1usize << point)) < 512) by (bit_vector)
        requires
            point < 9,
    ;
    assert(mask & (1usize << point) == 0 ==> (mask | (1usize << point)) == mask + (1usize
        << point)) by (bit_vector)
        requires
            point < 9,
    ;
    assert((1usize << point) < 512) by (bit_vector)
        requires
            point < 9,
    ;
}

/// Setting a bit that was clear adds one to the count of every range of
/// points that holds it.
proof fn lemma_with_point_below(mask: usize, point: usize, limit: nat)
    requires
        point < 9,
        limit <= 9,
        !has_point(mask, point),
    ensures
        points_below(with_point(mask, point), limit) == points_below(mask, limit) + if point
            < limit {
            1nat
        } else {
            0nat
        },
    decreases limit,
{
    if limit > 0 {
        lemma_with_point_below(mask, point, (limit - 1) as nat);
        lemma_with_point(mask, point);
        let q: usize = (limit - 1) as usize;
        if q != point {
            assert(has_point(with_point(mask, point), q) == has_point(mask, q));
        }
    }
}

/// Setting a bit that was clear raises the number of points by one.
pub proof fn lemma_with_point_count(mask: usize, point: usize)
    requires
        point < 9,
        !has_point(mask, point),
    ensures
        point_count(with_point(mask, point)) == point_count(mask) + 1,
{
    lemma_with_point_below(mask, point, 9);
}

/// One stroke from a code leads to a code that ends in the point swiped
/// and holds one point more.
pub proof fn lemma_swipe(code: usize, to: usize)
    requires
        code < POSITIONS,
        to < 9,
    ensures
        match swipe(code, to) {
            Some(next) => next < POSITIONS && next % 9 == to && point_count(next / 9)
                == point_count(code / 9) + 1,
            None => true,
        },
{
    if swipe(code, to).is_some() {
        lemma_with_point(code / 9, to);
        lemma_with_point_count(code / 9, to);
        lemma_decode_encode((code / 9 | (1usize << to)), to);
    }
}

/// The mask of a single point holds that point and no other.
pub proof fn lemma_single_point(point: usize)
    requires
        point < 9,
    ensures
        (1usize << point) < 512,
        (1usize << point) == with_point(0, point),
        point_count(1usize << point) == 1,
        forall|q: usize| q < 9 ==> (#[trigger] has_point(1usize << point, q) <==> q == point),
{
    assert((1usize << point) == (0usize | (1usize << point))) by (bit_vector);
    assert forall|q: usize| q < 9 implies !has_point(0, q) by {
        assert(0usize & (1usize << q) == 0) by (bit_vector);
    }
    lemma_with_point(0, point);
    lemma_with_point_count(0, point);
    reveal_with_fuel(points_below, 10);
}

/// A partial pattern: the points swiped so far and the last of them, kept
/// as one code below `POSITIONS`.
#[derive(Clone, Copy, Debug, PartialEq, Eq, Structural)]
pub struct Position {
    index: usize,
}

/// The point that a straight stroke from `from` to `to` passes over, if any.
fn middle_point(from: usize, to: usize) -> (between: Option<usize>)
    ensures
        between == middle(from, to),
{
    match (from, to) {
        (0, 2) | (2, 0) => Some(1),
        (0, 6) | (6, 0) => Some(3),
        (2, 8) | (8, 2) => Some(5),
        (6, 8) | (8, 6) => Some(7),
        (0, 8) | (8, 0) | (2, 6) | (6, 2) | (1, 7) | (7, 1) | (3, 5) | (5, 3) => Some(4),
        _ => None,
    }
}

impl Position {
    /// The code of this partial pattern.
    pub closed spec fn code(&self) -> usize {
        self.index
    }

    /// Every position holds a code below `POSITIONS`.
    pub open spec fn wf(&self) -> bool {
        self.code() < POSITIONS
    }

    /// The mask of the points swiped so far.
    pub open spec fn mask(&self) -> usize {
        self.code() / 9
    }

    /// The point swiped last.
    pub open spec fn last(&self) -> usize {
        self.code() % 9
    }

    /// The number of codes, which is the length of a table indexed by them.
    pub fn all_positions_count() -> (count: usize)
        ensures
            count == POSITIONS,
            count == 9 * 512,
    {
        POSITIONS
    }

    /// The position with the given code.
    pub fn from_index(index: usize) -> (position: Position)
        requires
            index < POSITIONS,
        ensures
            position.wf(),
            position.code() == index,
    {
        Position { index }
    }

    /// The code of this position.
    pub fn index(&self) -> (index: usize)
        ensures
            index == self.code(),
    {
        self.index
    }

    /// The mask of the points swiped so far: bit `p` is set when point `p`
    /// was swiped.
    pub fn base(&self) -> (mask: usize)
        ensures
            mask == self.mask(),
    {
        self.index / 9
    }

    /// The point swiped last.
    pub fn last_swiped(&self) -> (point: usize)
        ensures
            point == self.last(),
            point < 9,
    {
        self.index % 9
    }

    /// The share of a single point in a code: nine times its bit.
    fn index_of_point(point: usize) -> (share: usize)
        requires
            point < 9,
        ensures
            share == 9 * (1usize << point),
            (1usize << point) < 512,
    {
        assert((1usize << point) < 512) by (bit_vector)
            requires
                point < 9,
        ;
        9 * (1usize << point)
    }

    /// The pattern that consists of `point` alone.
    pub fn from_point(point: usize) -> (position: Position)
        requires
            point < 9,
        ensures
            position.wf(),
            position.code() == encode(1usize << point, point),
            position.mask() == 1usize << point,
            position.last() == point,
            point_count(position.mask()) == 1,
            forall|q: usize| q < 9 ==> (#[trigger] has_point(position.mask(), q) <==> q == point),
    {
        let share: usize = Self::index_of_point(point);
        proof {
            lemma_single_point(point);
        }
        Position { index: share + point }
    }

    /// Whether `point` was swiped already.
    pub fn is_swiped(&self, point: usize) -> (swiped: bool)
        requires
            point < 9,
        ensures
            swiped == has_point(self.mask(), point),
    {
        (self.base() & (1usize << point)) != 0
    }

    /// Goes on to `next_swiped_point`, where the stroke is allowed.
    ///
    /// The stroke is refused when the point was swiped already, and when it
    /// passes over a point that was not swiped yet. Otherwise the new
    /// pattern holds the same points and the new one, which is its last.
    pub fn swipe_to(&self, next_swiped_point: usize) -> (next: Option<Position>)
        requires
            self.wf(),
            next_swiped_point < 9,
        ensures
            next.is_some() == can_swipe(self.code(), next_swiped_point),
            has_point(self.mask(), next_swiped_point) ==> next.is_none(),
            match next {
                Some(position) => {
                    &&& swipe(self.code(), next_swiped_point) == Some(position.code())
                    &&& position.wf()
                    &&& position.last() == next_swiped_point
                    &&& position.mask() == with_point(self.mask(), next_swiped_point)
                    &&& position.code() == encode(
                        with_point(self.mask(), next_swiped_point),
                        next_swiped_point,
                    )
                    &&& point_count(position.mask()) == point_count(self.mask()) + 1
                    &&& has_point(position.mask(), next_swiped_point)
                    &&& !has_point(self.mask(), next_swiped_point)
                    &&& forall|q: usize|
                        q < 9 && q != next_swiped_point ==> (#[trigger] has_point(
                            position.mask(),
                            q,
                        ) == has_point(self.mask(), q))
                },
                None => swipe(self.code(), next_swiped_point).is_none(),
            },
    {
        if self.is_swiped(next_swiped_point) {
            return None;
        }
        if let Some(between) = middle_point(self.last_swiped(), next_swiped_point) {
            proof {
                lemma_middle_is_halfway(self.last(), next_swiped_point);
            }
            if !self.is_swiped(between) {
                return None;
            }
        }
        proof {
            lemma_with_point(self.mask(), next_swiped_point);
            lemma_with_point_count(self.mask(), next_swiped_point);
            lemma_decode_encode(with_point(self.mask(), next_swiped_point), next_swiped_point);
        }
        let share: usize = Self::index_of_point(next_swiped_point);
        Some(Position { index: (self.base() * 9) + share + next_swiped_point })
    }

    /// The number of points swiped so far.
    pub fn swiped_points(&self) -> (count: u32)
        requires
            self.wf(),
        ensures
            count == point_count(self.mask()),
            count <= 9,
    {
        let mut count: u32 = 0;
        let mut point: usize = 0;
        while point < 9
            invariant
                point <= 9,
                count == points_below(self.mask(), point as nat),
                count <= point,
            decreases 9 - point,
        {
            if self.is_swiped(point) {
                count = count + 1;
            }
            point = point + 1;
        }
        count
    }
}

} // verus!

