use keypad_patterns::step::Step;
use keypad_patterns::tally::tally;

#[test]
fn tally_gives_the_count_of_every_length() {
    let result = tally();
    assert_eq!(
        result.by_length,
        vec![9, 56, 320, 1624, 7152, 26016, 72912, 140704, 140704]
    );
}

#[test]
fn tally_adds_up_five_points_and_more() {
    let result = tally();
    assert_eq!(result.long_total, 7152 + 26016 + 72912 + 140704 + 140704);
    assert_eq!(result.long_total, 387488);
    let sum: u32 = result.by_length[4..].iter().sum();
    assert_eq!(result.long_total, sum);
}

#[test]
fn tally_is_the_same_on_every_run() {
    let first = tally();
    let second = tally();
    assert_eq!(first.by_length, second.by_length);
    assert_eq!(first.long_total, second.long_total);
}

#[test]
fn tally_agrees_with_stepping_by_hand() {
    let result = tally();
    let mut current = Step::init();
    assert_eq!(result.by_length[0], current.current_possibilities());
    for length in 1..9 {
        current = current.next_step();
        assert_eq!(result.by_length[length], current.current_possibilities());
    }
}
