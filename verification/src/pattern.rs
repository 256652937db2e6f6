//! Patterns as sequences of points, and what the counts of a step count.

use crate::position::{
    encode, has_point, lemma_decode_encode, lemma_middle_is_halfway, lemma_single_point,
    lemma_swipe, lemma_with_point, middle, point_count, swipe, POSITIONS,
};
use crate::step::{inflow, lemma_sweep_length, sum_to, sweep, total};
use vstd::prelude::*;
use vstd::relations::injective_on;
use vstd::set_lib::{lemma_map_size, lemma_set_disjoint_lens};

verus! {

/// The code of the position that a sequence of points ends in, where each
/// of its strokes is allowed after those before it.
pub open spec fn pattern_code(pattern: Seq<usize>) -> Option<usize>
    decreases pattern.len(),
{
    if pattern.len() == 0 || pattern.last() >= 9 {
        None
    } else if pattern.len() == 1 {
        Some(encode(1usize << pattern.last(), pattern.last()) as usize)
    } else {
        match pattern_code(pattern.drop_last()) {
            Some(code) => swipe(code, pattern.last()),
            None => None,
        }
    }
}

/// The patterns of `length` points that end in the position `code`.
pub open spec fn patterns_at(length: nat, code: int) -> Set<Seq<usize>> {
    Set::new(
        |pattern: Seq<usize>| pattern.len() == length && pattern_code(pattern) == Some(code as usize),
    )
}

/// The patterns of `length` points that end in `target` and were in
/// `source` one stroke before.
pub open spec fn patterns_through(length: nat, target: int, source: int) -> Set<Seq<usize>> {
    Set::new(
        |pattern: Seq<usize>|
            pattern.len() == length && pattern_code(pattern) == Some(target as usize)
                && pattern_code(pattern.drop_last()) == Some(source as usize),
    )
}

/// The patterns of `length` points that end in `target` and were in a
/// position with a code below `sources` one stroke before.
pub open spec fn patterns_from_below(length: nat, target: int, sources: int) -> Set<Seq<usize>> {
    Set::new(
        |pattern: Seq<usize>|
            pattern.len() == length && pattern_code(pattern) == Some(target as usize)
                && match pattern_code(pattern.drop_last()) {
                Some(code) => code < sources,
                None => false,
            },
    )
}

/// The position of a pattern has a code of the table, the pattern's last
/// point as its last, and as many points as the pattern.
pub proof fn lemma_pattern_code(pattern: Seq<usize>)
    ensures
        match pattern_code(pattern) {
            Some(code) => code < POSITIONS && code % 9 == pattern.last() && point_count(code / 9)
                == pattern.len() && pattern.len() >= 1,
            None => true,
        },
    decreases pattern.len(),
{
    if pattern.len() == 0 || pattern.last() >= 9 {
    } else if pattern.len() == 1 {
        lemma_single_point(pattern.last());
        lemma_decode_encode(1usize << pattern.last(), pattern.last());
    } else {
        lemma_pattern_code(pattern.drop_last());
        match pattern_code(pattern.drop_last()) {
            Some(code) => {
                lemma_swipe(code, pattern.last());
            },
            None => {},
        }
    }
}

/// Whether `point` is among the first `limit` points of `pattern`.
pub open spec fn occurs(pattern: Seq<usize>, point: usize, limit: int) -> bool {
    exists|at: int| 0 <= at < limit && #[trigger] pattern[at] == point
}

/// Whether the point at `at` may follow those before it: it is a point of
/// the keypad that did not occur before, and the stroke that leads to it
/// passes over no point, or over one that occurred before.
pub open spec fn stroke_allowed(pattern: Seq<usize>, at: int) -> bool {
    &&& pattern[at] < 9
    &&& !occurs(pattern, pattern[at], at)
    &&& at >= 1 ==> match middle(pattern[at - 1], pattern[at]) {
        Some(between) => occurs(pattern, between, at),
        None => true,
    }
}

/// Whether `pattern` is a pattern: at least one point, and every point
/// allowed after those before it.
pub open spec fn is_pattern(pattern: Seq<usize>) -> bool {
    &&& pattern.len() >= 1
    &&& forall|at: int| 0 <= at < pattern.len() ==> #[trigger] stroke_allowed(pattern, at)
}

/// A point occurs in a pattern when it occurs before the last point or is
/// the last point, and a point occurs before a place in a pattern when it
/// does so in the pattern without its last point.
pub proof fn lemma_occurs(pattern: Seq<usize>, point: usize)
    requires
        pattern.len() >= 1,
    ensures
        occurs(pattern, point, pattern.len() as int) <==> occurs(
            pattern.drop_last(),
            point,
            pattern.len() - 1,
        ) || pattern.last() == point,
        forall|limit: int|
            0 <= limit < pattern.len() ==> (#[trigger] occurs(pattern, point, limit) <==> occurs(
                pattern.drop_last(),
                point,
                limit,
            )),
{
    let start = pattern.drop_last();
    let length = pattern.len() as int;
    if occurs(pattern, point, length) {
        let at = choose|at: int| 0 <= at < length && #[trigger] pattern[at] == point;
        if at < length - 1 {
            assert(start[at] == point);
        }
    }
    if occurs(start, point, length - 1) {
        let at = choose|at: int| 0 <= at < length - 1 && #[trigger] start[at] == point;
        assert(pattern[at] == point);
    }
    if pattern.last() == point {
        assert(pattern[length - 1] == point);
    }
    assert forall|limit: int| 0 <= limit < pattern.len() implies (#[trigger] occurs(
        pattern,
        point,
        limit,
    ) <==> occurs(start, point, limit)) by {
        if occurs(pattern, point, limit) {
            let at = choose|at: int| 0 <= at < limit && #[trigger] pattern[at] == point;
            assert(start[at] == point);
        }
        if occurs(start, point, limit) {
            let at = choose|at: int| 0 <= at < limit && #[trigger] start[at] == point;
            assert(pattern[at] == point);
        }
    }
}

/// Up to its last point a sequence is a pattern when the sequence without
/// that point is one.
pub proof fn lemma_is_pattern_start(pattern: Seq<usize>)
    requires
        pattern.len() >= 2,
    ensures
        is_pattern(pattern) <==> is_pattern(pattern.drop_last()) && stroke_allowed(
            pattern,
            pattern.len() - 1,
        ),
{
    let start = pattern.drop_last();
    assert forall|at: int| 0 <= at < start.len() implies (stroke_allowed(pattern, at)
        <==> stroke_allowed(start, at)) by {
        lemma_occurs(pattern, pattern[at]);
        if at >= 1 {
            match middle(pattern[at - 1], pattern[at]) {
                Some(between) => {
                    lemma_occurs(pattern, between);
                },
                None => {},
            }
        }
    }
    if is_pattern(pattern) {
        assert forall|at: int| 0 <= at < start.len() implies #[trigger] stroke_allowed(
            start,
            at,
        ) by {
            assert(stroke_allowed(pattern, at));
        }
    }
    if is_pattern(start) && stroke_allowed(pattern, pattern.len() - 1) {
        assert forall|at: int| 0 <= at < pattern.len() implies #[trigger] stroke_allowed(
            pattern,
            at,
        ) by {
            if at < start.len() {
                assert(stroke_allowed(start, at));
            }
        }
    }
}

/// A sequence of points has a position exactly when it is a pattern, and
/// the position then holds the points of the pattern and no others.
pub proof fn lemma_pattern_code_is_pattern(pattern: Seq<usize>)
    ensures
        pattern_code(pattern).is_some() <==> is_pattern(pattern),
        match pattern_code(pattern) {
            Some(code) => forall|point: usize|
                point < 9 ==> (#[trigger] has_point(code / 9, point) <==> occurs(
                    pattern,
                    point,
                    pattern.len() as int,
                )),
            None => true,
        },
    decreases pattern.len(),
{
    let length = pattern.len() as int;
    if length == 0 {
    } else if length == 1 {
        if pattern.last() < 9 {
            lemma_single_point(pattern.last());
            lemma_decode_encode(1usize << pattern.last(), pattern.last());
            assert(!occurs(pattern, pattern[0], 0));
            assert forall|at: int| 0 <= at < pattern.len() implies #[trigger] stroke_allowed(
                pattern,
                at,
            ) by {}
            assert forall|point: usize| point < 9 implies (#[trigger] has_point(
                1usize << pattern.last(),
                point,
            ) <==> occurs(pattern, point, length)) by {
                if point == pattern.last() {
                    assert(pattern[0] == point);
                }
            }
        } else {
            assert(!stroke_allowed(pattern, 0));
        }
    } else {
        let start = pattern.drop_last();
        let last = pattern.last();
        lemma_pattern_code_is_pattern(start);
        lemma_pattern_code(start);
        lemma_is_pattern_start(pattern);
        lemma_occurs(pattern, last);
        match pattern_code(start) {
            Some(code) => {
                if last < 9 {
                    assert(code % 9 == pattern[length - 2]);
                    lemma_middle_is_halfway(pattern[length - 2], last);
                    match middle(pattern[length - 2], last) {
                        Some(between) => {
                            lemma_occurs(pattern, between);
                            assert(has_point(code / 9, between) <==> occurs(
                                start,
                                between,
                                length - 1,
                            ));
                        },
                        None => {},
                    }
                    assert(has_point(code / 9, last) <==> occurs(start, last, length - 1));
                    if swipe(code, last).is_some() {
                        lemma_with_point(code / 9, last);
                        lemma_decode_encode((code / 9 | (1usize << last)), last);
                        let next = swipe(code, last).unwrap();
                        assert forall|point: usize| point < 9 implies (#[trigger] has_point(
                            next / 9,
                            point,
                        ) <==> occurs(pattern, point, length)) by {
                            lemma_occurs(pattern, point);
                            assert(has_point(code / 9, point) <==> occurs(
                                start,
                                point,
                                length - 1,
                            ));
                        }
                    }
                }
            },
            None => {},
        }
    }
}

/// The patterns that reach `target` through `source` are those that end
/// in `source`, each with the stroke to the last point of `target`, where
/// that stroke leads to `target`; there are none where it does not.
pub proof fn lemma_patterns_through(length: nat, target: int, source: int)
    requires
        length >= 2,
        0 <= target < POSITIONS,
        0 <= source < POSITIONS,
        patterns_at((length - 1) as nat, source).finite(),
    ensures
        patterns_through(length, target, source).finite(),
        patterns_through(length, target, source).len() == if swipe(
            source as usize,
            (target % 9) as usize,
        ) == Some(target as usize) {
            patterns_at((length - 1) as nat, source).len()
        } else {
            0
        },
{
    let point: usize = (target % 9) as usize;
    let shorter = patterns_at((length - 1) as nat, source);
    let longer = patterns_through(length, target, source);
    assert forall|pattern: Seq<usize>| longer.contains(pattern) implies pattern.last()
        == point by {
        lemma_swipe(source as usize, pattern.last());
    }
    if swipe(source as usize, point) == Some(target as usize) {
        let stroke = |pattern: Seq<usize>| pattern.push(point);
        assert forall|a: Seq<usize>, b: Seq<usize>|
            shorter.contains(a) && shorter.contains(b) && #[trigger] stroke(a) == #[trigger] stroke(
                b,
            ) implies a == b by {
            assert(a.push(point).drop_last() =~= a);
            assert(b.push(point).drop_last() =~= b);
        }
        assert(injective_on(stroke, shorter));
        assert forall|pattern: Seq<usize>| longer.contains(pattern) implies shorter.map(
            stroke,
        ).contains(pattern) by {
            let start = pattern.drop_last();
            assert(shorter.contains(start));
            assert(stroke(start) =~= pattern);
        }
        assert forall|pattern: Seq<usize>| shorter.map(stroke).contains(pattern) implies longer.contains(
            pattern,
        ) by {
            let start = choose|start: Seq<usize>| shorter.contains(start) && stroke(start) == pattern;
            assert(start.push(point).drop_last() =~= start);
        }
        assert(shorter.map(stroke) =~= longer);
        lemma_map_size(shorter, longer, stroke);
    } else {
        assert(longer =~= Set::<Seq<usize>>::empty());
    }
}

/// As many patterns reach `target` from the positions below `sources` as
/// the counts of those positions hand on to it.
pub proof fn lemma_patterns_from_below(length: nat, target: int, sources: int)
    requires
        length >= 2,
        0 <= target < POSITIONS,
        0 <= sources <= POSITIONS,
        forall|source: int|
            0 <= source < POSITIONS ==> (#[trigger] patterns_at(
                (length - 1) as nat,
                source,
            )).finite() && sweep((length - 1) as nat)[source] == patterns_at(
                (length - 1) as nat,
                source,
            ).len(),
    ensures
        patterns_from_below(length, target, sources).finite(),
        patterns_from_below(length, target, sources).len() == inflow(
            sweep((length - 1) as nat),
            target,
            sources,
        ),
    decreases sources,
{
    let here = patterns_from_below(length, target, sources);
    if sources == 0 {
        assert(here =~= Set::<Seq<usize>>::empty());
    } else {
        let source = sources - 1;
        lemma_patterns_from_below(length, target, source);
        assert(patterns_at((length - 1) as nat, source).finite());
        lemma_patterns_through(length, target, source);
        let before = patterns_from_below(length, target, source);
        let through = patterns_through(length, target, source);
        assert(here =~= before + through);
        assert(before.disjoint(through));
        lemma_set_disjoint_lens(before, through);
    }
}

/// The count that the sweep holds for a position after `length` points is
/// the number of patterns of `length` points that end in it.
pub proof fn lemma_sweep_counts_patterns(length: nat, code: int)
    requires
        length >= 1,
        0 <= code < POSITIONS,
    ensures
        patterns_at(length, code).finite(),
        sweep(length)[code] == patterns_at(length, code).len(),
    decreases length,
{
    let here = patterns_at(length, code);
    if length == 1 {
        let point: usize = (code % 9) as usize;
        lemma_single_point(point);
        lemma_decode_encode(1usize << point, point);
        if code / 9 == (1usize << point) {
            let only = seq![point];
            assert forall|pattern: Seq<usize>| here.contains(pattern) implies pattern == only by {
                lemma_pattern_code(pattern);
                assert(pattern =~= only);
            }
            assert(here.contains(only));
            assert(here =~= set![only]);
        } else {
            assert forall|pattern: Seq<usize>| !here.contains(pattern) by {
                if here.contains(pattern) {
                    lemma_pattern_code(pattern);
                    lemma_single_point(pattern.last());
                    lemma_decode_encode(1usize << pattern.last(), pattern.last());
                }
            }
            assert(here =~= Set::<Seq<usize>>::empty());
        }
    } else {
        assert forall|source: int| 0 <= source < POSITIONS implies (#[trigger] patterns_at(
            (length - 1) as nat,
            source,
        )).finite() && sweep((length - 1) as nat)[source] == patterns_at(
            (length - 1) as nat,
            source,
        ).len() by {
            lemma_sweep_counts_patterns((length - 1) as nat, source);
        }
        lemma_patterns_from_below(length, code, POSITIONS as int);
        assert forall|pattern: Seq<usize>| here.contains(pattern) implies patterns_from_below(
            length,
            code,
            POSITIONS as int,
        ).contains(pattern) by {
            lemma_pattern_code(pattern.drop_last());
        }
        assert(here =~= patterns_from_below(length, code, POSITIONS as int));
    }
}

/// The patterns of `length` points.
pub open spec fn patterns_of(length: nat) -> Set<Seq<usize>> {
    Set::new(|pattern: Seq<usize>| pattern.len() == length && is_pattern(pattern))
}

/// The patterns of `length` points that end in a position with a code
/// below `codes`.
pub open spec fn patterns_below(length: nat, codes: int) -> Set<Seq<usize>> {
    Set::new(
        |pattern: Seq<usize>|
            pattern.len() == length && match pattern_code(pattern) {
                Some(code) => code < codes,
                None => false,
            },
    )
}

/// The counts that the sweep holds for the positions below `codes` add up
/// to the number of patterns that end in one of them.
pub proof fn lemma_patterns_below(length: nat, codes: int)
    requires
        length >= 1,
        0 <= codes <= POSITIONS,
    ensures
        patterns_below(length, codes).finite(),
        patterns_below(length, codes).len() == sum_to(sweep(length), codes),
    decreases codes,
{
    let here = patterns_below(length, codes);
    if codes == 0 {
        assert(here =~= Set::<Seq<usize>>::empty());
    } else {
        let code = codes - 1;
        lemma_patterns_below(length, code);
        lemma_sweep_counts_patterns(length, code);
        let before = patterns_below(length, code);
        let last = patterns_at(length, code);
        assert(here =~= before + last);
        assert(before.disjoint(last));
        lemma_set_disjoint_lens(before, last);
    }
}

/// The counts that the sweep holds after `length` points add up to the
/// number of patterns of `length` points.
pub proof fn lemma_total_counts_patterns(length: nat)
    requires
        length >= 1,
    ensures
        patterns_of(length).finite(),
        total(sweep(length)) == patterns_of(length).len(),
{
    lemma_sweep_length(length);
    lemma_patterns_below(length, POSITIONS as int);
    assert forall|pattern: Seq<usize>| patterns_of(length).contains(pattern)
        <==> patterns_below(length, POSITIONS as int).contains(pattern) by {
        lemma_pattern_code_is_pattern(pattern);
        lemma_pattern_code(pattern);
    }
    assert(patterns_of(length) =~= patterns_below(length, POSITIONS as int));
}

} // verus!
