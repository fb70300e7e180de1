use disk_pie::color::{next_color_count, reset_color_count, ColorCounter};

#[test]
fn colors_count_up_from_zero() {
    let mut counter = ColorCounter::new();
    assert_eq!(next_color_count(&mut counter), 0);
    assert_eq!(next_color_count(&mut counter), 1);
    assert_eq!(next_color_count(&mut counter), 2);
    assert_eq!(counter.peek(), 3);
}

#[test]
fn reset_starts_the_sequence_again() {
    let mut counter = ColorCounter::new();
    next_color_count(&mut counter);
    next_color_count(&mut counter);
    reset_color_count(&mut counter);
    assert_eq!(counter.peek(), 0);
    assert_eq!(next_color_count(&mut counter), 0);
}

#[test]
fn reset_of_fresh_counter_changes_nothing() {
    let mut counter = ColorCounter::new();
    reset_color_count(&mut counter);
    assert_eq!(counter.peek(), 0);
}
