use keypad_patterns::position::Position;
use keypad_patterns::step::Step;

#[test]
fn empty_step_counts_nothing() {
    let step = Step::default();
    assert_eq!(step.current_possibilities(), 0);
    for index in 0..Position::all_positions_count() {
        assert_eq!(step.possibilities_at(&Position::from_index(index)), 0);
    }
}

#[test]
fn init_counts_each_point_once() {
    let step = Step::init();
    for index in 0..Position::all_positions_count() {
        let position = Position::from_index(index);
        let single = position.base() == 1 << position.last_swiped();
        assert_eq!(step.possibilities_at(&position), if single { 1 } else { 0 });
    }
    for point in 0..9 {
        assert_eq!(step.possibilities_at(&Position::from_point(point)), 1);
    }
}

#[test]
fn there_are_nine_patterns_of_one_point() {
    assert_eq!(Step::init().current_possibilities(), 9);
}

#[test]
fn there_are_fifty_six_patterns_of_two_points() {
    assert_eq!(Step::init().next_step().current_possibilities(), 56);
}

#[test]
fn next_step_counts_by_last_stroke() {
    let second = Step::init().next_step();
    for index in 0..Position::all_positions_count() {
        let target = Position::from_index(index);
        let mut expected = 0;
        for from in 0..9 {
            if let Some(next) = Position::from_point(from).swipe_to(target.last_swiped()) {
                if next == target {
                    expected += 1;
                }
            }
        }
        assert_eq!(second.possibilities_at(&target), expected);
    }
    assert_eq!(second.possibilities_at(&Position::from_index(1 + 9 * 0b11)), 1);
    assert_eq!(second.possibilities_at(&Position::from_index(2 + 9 * 0b101)), 0);
}

#[test]
fn next_step_adds_up_the_patterns_that_meet() {
    let third = Step::init().next_step().next_step();
    // 0-1-2 and 1-0-2 both end in point 2 with points 0, 1 and 2 swiped.
    assert_eq!(third.possibilities_at(&Position::from_index(2 + 9 * 0b111)), 2);
    // 0-2-1 and 2-0-1 jump over point 1 before it is swiped.
    assert_eq!(third.possibilities_at(&Position::from_index(1 + 9 * 0b111)), 0);
    assert_eq!(third.current_possibilities(), 320);
}

#[test]
fn validate_accepts_every_step_of_the_sweep() {
    let mut current = Step::init();
    assert!(current.validate(1));
    for length in 2..=9 {
        current = current.next_step();
        assert!(current.validate(length));
    }
}

#[test]
fn validate_refuses_another_length() {
    let mut current = Step::init();
    assert!(!current.validate(0));
    assert!(!current.validate(2));
    for length in 2..=9 {
        current = current.next_step();
        assert!(!current.validate(length - 1));
        assert!(!current.validate(length + 1));
    }
}

#[test]
fn validate_accepts_any_length_where_nothing_is_counted() {
    let step = Step::default();
    assert!(step.validate(0));
    assert!(step.validate(7));
}

#[test]
fn sweep_gives_the_known_counts() {
    let expected = [9, 56, 320, 1624, 7152, 26016, 72912, 140704, 140704];
    let mut current = Step::init();
    assert_eq!(current.current_possibilities(), expected[0]);
    for length in 1..9 {
        current = current.next_step();
        assert_eq!(current.current_possibilities(), expected[length]);
    }
}

#[test]
fn nothing_goes_on_after_nine_points() {
    let mut current = Step::init();
    for _ in 2..=9 {
        current = current.next_step();
    }
    let after = current.next_step();
    assert_eq!(after.current_possibilities(), 0);
}

#[test]
fn next_step_is_at_most_nine_times_as_many() {
    let mut current = Step::init();
    for _ in 2..=9 {
        let next = current.next_step();
        assert!(next.current_possibilities() <= 9 * current.current_possibilities());
        current = next;
    }
}
