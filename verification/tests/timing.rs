use clovers::timing::break_once;

#[test]
fn break_once_includes_first_match() {
    let taken = break_once(vec![1, 2, 3, 4, 5], |v: &i32| *v > 2);
    assert_eq!(taken, vec![1, 2, 3]);
}

#[test]
fn break_once_without_match_takes_all() {
    let taken = break_once(vec![1, 2, 3], |v: &i32| *v > 10);
    assert_eq!(taken, vec![1, 2, 3]);
}

#[test]
fn break_once_on_first_item() {
    let taken = break_once(vec![9, 1, 9], |v: &i32| *v == 9);
    assert_eq!(taken, vec![9]);
    let empty: Vec<i32> = break_once(Vec::new(), |v: &i32| *v == 9);
    assert!(empty.is_empty());
}
