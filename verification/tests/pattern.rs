use keypad_patterns::position::Position;
use keypad_patterns::step::Step;
use keypad_patterns::tally::tally;

/// The point halfway between two points that lie two rows or two columns
/// apart, in both directions, or on one line through the centre.
fn halfway(from: usize, to: usize) -> Option<usize> {
    let rows = from / 3 + to / 3;
    let columns = from % 3 + to % 3;
    if from != to && rows % 2 == 0 && columns % 2 == 0 {
        Some((from + to) / 2)
    } else {
        None
    }
}

/// Counts by hand the patterns of every length that start with `pattern`.
fn count_from(pattern: &mut Vec<usize>, by_length: &mut [u32; 9], by_position: &mut Vec<Vec<u32>>) {
    let length = pattern.len();
    by_length[length - 1] += 1;
    let mask: usize = pattern.iter().map(|point| 1 << point).sum();
    by_position[length - 1][pattern[length - 1] + 9 * mask] += 1;
    for next in 0..9 {
        if pattern.contains(&next) {
            continue;
        }
        if let Some(between) = halfway(pattern[length - 1], next) {
            if !pattern.contains(&between) {
                continue;
            }
        }
        pattern.push(next);
        count_from(pattern, by_length, by_position);
        pattern.pop();
    }
}

fn count_by_hand() -> ([u32; 9], Vec<Vec<u32>>) {
    let mut by_length = [0; 9];
    let mut by_position = vec![vec![0; Position::all_positions_count()]; 9];
    for first in 0..9 {
        let mut pattern = vec![first];
        count_from(&mut pattern, &mut by_length, &mut by_position);
    }
    (by_length, by_position)
}

#[test]
fn tally_counts_the_patterns_found_by_hand() {
    let (by_length, _) = count_by_hand();
    let result = tally();
    assert_eq!(result.by_length, by_length.to_vec());
    let long: u32 = by_length[4..].iter().sum();
    assert_eq!(result.long_total, long);
}

#[test]
fn every_step_counts_the_patterns_that_end_in_each_position() {
    let (_, by_position) = count_by_hand();
    let mut current = Step::init();
    for length in 1..=9 {
        for index in 0..Position::all_positions_count() {
            assert_eq!(
                current.possibilities_at(&Position::from_index(index)),
                by_position[length - 1][index]
            );
        }
        current = current.next_step();
    }
}

#[test]
fn a_pattern_ends_in_the_position_of_its_points() {
    let pattern = [4usize, 0, 8, 1, 7];
    let mut position = Position::from_point(pattern[0]);
    for &point in &pattern[1..] {
        position = position.swipe_to(point).expect("the centre is swiped first");
    }
    assert_eq!(position.last_swiped(), 7);
    assert_eq!(position.base(), 0b110_010_011);
    assert_eq!(position.index(), 7 + 9 * 403);
    assert!(position.swipe_to(4).is_none());
    assert!(position.swipe_to(2).is_some());
    assert_eq!(position.swiped_points(), 5);
}
