use lexi::order::{arrange, sorted_order};
use lexi::search::Timestamp;

fn at(secs: i64, nanos: u32) -> Timestamp {
    Timestamp { secs, nanos }
}

#[test]
fn times_are_sorted_in_either_direction() {
    let times = vec![at(5, 0), at(-3, 7), at(5, 1), at(0, 0)];
    assert_eq!(sorted_order(&times, true), vec![1, 3, 0, 2]);
    assert_eq!(sorted_order(&times, false), vec![2, 0, 3, 1]);
}

#[test]
fn equal_times_keep_their_order() {
    let times = vec![at(1, 0), at(2, 0), at(1, 0), at(2, 0), at(1, 0)];
    assert_eq!(sorted_order(&times, true), vec![0, 2, 4, 1, 3]);
    assert_eq!(sorted_order(&times, false), vec![1, 3, 0, 2, 4]);
}

#[test]
fn nothing_is_sorted_to_nothing() {
    assert_eq!(sorted_order(&Vec::new(), true), Vec::<usize>::new());
    assert_eq!(sorted_order(&vec![at(9, 9)], false), vec![0]);
}

#[test]
fn items_are_put_in_the_listed_order() {
    let items = vec!["a".to_string(), "b".to_string(), "c".to_string()];
    assert_eq!(arrange(items, &vec![2, 0, 1]), vec!["c", "a", "b"]);
}

#[test]
fn moments_are_counted_from_1970_in_both_directions() {
    assert_eq!(Timestamp::after_epoch(5, 7), at(5, 7));
    assert_eq!(Timestamp::before_epoch(5, 0), at(-5, 0));
    assert_eq!(Timestamp::before_epoch(5, 1), at(-6, 999_999_999));
    let times = vec![
        Timestamp::before_epoch(0, 2),
        Timestamp::after_epoch(0, 0),
        Timestamp::before_epoch(0, 1),
        Timestamp::before_epoch(1, 0),
    ];
    assert_eq!(sorted_order(&times, true), vec![3, 0, 2, 1]);
}
