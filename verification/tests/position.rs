use keypad_patterns::position::Position;

/// Every ordered pair of points whose stroke passes over a third point,
/// with that point.
const JUMPS: [(usize, usize, usize); 16] = [
    (0, 2, 1),
    (2, 0, 1),
    (0, 6, 3),
    (6, 0, 3),
    (0, 8, 4),
    (8, 0, 4),
    (2, 6, 4),
    (6, 2, 4),
    (2, 8, 5),
    (8, 2, 5),
    (6, 8, 7),
    (8, 6, 7),
    (1, 7, 4),
    (7, 1, 4),
    (3, 5, 4),
    (5, 3, 4),
];

fn jump_over(from: usize, to: usize) -> Option<usize> {
    JUMPS.iter().find(|(a, b, _)| *a == from && *b == to).map(|(_, _, m)| *m)
}

#[test]
fn table_has_a_slot_for_every_mask_and_last_point() {
    assert_eq!(Position::all_positions_count(), 4608);
    assert_eq!(Position::all_positions_count(), 9 * (1 << 9));
}

#[test]
fn single_point_decodes_to_its_bit_and_itself() {
    for point in 0..9 {
        let position = Position::from_point(point);
        assert_eq!(position.base(), 1 << point);
        assert_eq!(position.last_swiped(), point);
        assert_eq!(position.index(), point + 9 * (1 << point));
        assert_eq!(position.swiped_points(), 1);
        for other in 0..9 {
            assert_eq!(position.is_swiped(other), other == point);
        }
    }
}

#[test]
fn single_point_codes_are_exact() {
    assert_eq!(Position::from_point(0).index(), 9);
    assert_eq!(Position::from_point(1).index(), 19);
    assert_eq!(Position::from_point(4).index(), 148);
    assert_eq!(Position::from_point(8).index(), 2312);
}

#[test]
fn code_is_last_plus_nine_times_mask_for_every_code() {
    for index in 0..Position::all_positions_count() {
        let position = Position::from_index(index);
        assert_eq!(position.index(), index);
        assert_eq!(position.base(), index / 9);
        assert_eq!(position.last_swiped(), index % 9);
        assert!(position.base() < 512);
        assert_eq!(position.last_swiped() + 9 * position.base(), index);
    }
}

#[test]
fn swiped_points_counts_the_bits_of_the_mask() {
    for index in 0..Position::all_positions_count() {
        let position = Position::from_index(index);
        assert_eq!(position.swiped_points(), position.base().count_ones());
    }
    assert_eq!(Position::from_index(0).swiped_points(), 0);
    assert_eq!(Position::from_index(9 * 511 + 8).swiped_points(), 9);
    assert_eq!(Position::from_index(9 * 0b101_000_110 + 2).swiped_points(), 4);
}

#[test]
fn is_swiped_reads_the_bit_of_the_point() {
    let position = Position::from_index(9 * 0b100_010_001 + 4);
    let expected = [true, false, false, false, true, false, false, false, true];
    for point in 0..9 {
        assert_eq!(position.is_swiped(point), expected[point]);
    }
}

#[test]
fn swipe_to_a_swiped_point_is_refused() {
    for index in 0..Position::all_positions_count() {
        let position = Position::from_index(index);
        for point in 0..9 {
            if position.is_swiped(point) {
                assert!(position.swipe_to(point).is_none());
            }
        }
    }
}

#[test]
fn swipe_to_adds_exactly_the_new_point() {
    for index in 0..Position::all_positions_count() {
        let position = Position::from_index(index);
        for point in 0..9 {
            if let Some(next) = position.swipe_to(point) {
                assert!(!position.is_swiped(point));
                assert!(next.is_swiped(point));
                assert_eq!(next.last_swiped(), point);
                assert_eq!(next.base(), position.base() | (1 << point));
                assert_eq!(next.index(), point + 9 * (position.base() | (1 << point)));
                assert_eq!(next.swiped_points(), position.swiped_points() + 1);
                for other in 0..9 {
                    if other != point {
                        assert_eq!(next.is_swiped(other), position.is_swiped(other));
                    }
                }
            }
        }
    }
}

#[test]
fn swipe_to_follows_the_rule_for_every_code() {
    for index in 0..Position::all_positions_count() {
        let position = Position::from_index(index);
        for point in 0..9 {
            let blocked = match jump_over(position.last_swiped(), point) {
                Some(between) => !position.is_swiped(between),
                None => false,
            };
            let allowed = !position.is_swiped(point) && !blocked;
            assert_eq!(position.swipe_to(point).is_some(), allowed);
        }
    }
}

#[test]
fn jump_over_a_free_point_is_refused() {
    for (from, to, _) in JUMPS {
        assert!(Position::from_point(from).swipe_to(to).is_none());
    }
}

#[test]
fn jump_over_a_swiped_point_is_allowed() {
    for (from, to, between) in JUMPS {
        let start = Position::from_point(between);
        let middle = start.swipe_to(from).expect("a neighbour of the middle point");
        let end = middle.swipe_to(to).expect("the middle point is swiped");
        assert_eq!(end.last_swiped(), to);
        assert_eq!(end.base(), (1 << from) | (1 << to) | (1 << between));
        assert_eq!(end.swiped_points(), 3);
    }
}

#[test]
fn jumps_are_the_same_in_both_directions() {
    for (from, to, between) in JUMPS {
        assert_eq!(jump_over(to, from), Some(between));
        let there = Position::from_point(from).swipe_to(to).is_some();
        let back = Position::from_point(to).swipe_to(from).is_some();
        assert_eq!(there, back);
    }
}

#[test]
fn every_stroke_from_the_centre_is_allowed() {
    let centre = Position::from_point(4);
    for point in 0..9 {
        assert_eq!(centre.swipe_to(point).is_some(), point != 4);
    }
}

#[test]
fn knight_moves_and_neighbours_are_allowed() {
    let corner = Position::from_point(0);
    for point in [1, 3, 4, 5, 7] {
        let next = corner.swipe_to(point).expect("no point lies between");
        assert_eq!(next.index(), point + 9 * (1 | (1 << point)));
    }
    for point in [0, 2, 6, 8] {
        assert!(corner.swipe_to(point).is_none());
    }
}

#[test]
fn swipe_to_gives_the_exact_code() {
    let start = Position::from_point(1);
    let next = start.swipe_to(2).expect("neighbours");
    assert_eq!(next.index(), 2 + 9 * 0b110);
    let last = next.swipe_to(0).expect("point 1 is swiped");
    assert_eq!(last.index(), 9 * 0b111);
    assert_eq!(last, Position::from_index(63));
}
