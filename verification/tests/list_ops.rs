use poland::list::List;

#[test]
fn cons_builds_front_first() {
    let list = List::new().cons(0).cons(1).cons(2);
    let mut it = list.iter();
    assert_eq!(it.next(), Some(&2));
    assert_eq!(it.next(), Some(&1));
    assert_eq!(it.next(), Some(&0));
    assert_eq!(it.next(), None::<&i32>);
}

#[test]
fn set_repeats_a_value() {
    let list = List::new().set(4, 3);
    let mut it = list.iter();
    let mut sum: i32 = 0;
    let mut count: usize = 0;
    while let Some(x) = it.next() {
        sum += *x;
        count += 1;
    }
    assert_eq!(count, 3);
    assert_eq!(sum, 12);
}

#[test]
fn set_with_nonpositive_count_is_empty() {
    let list: List<i32> = List::new().set(7, 0);
    assert_eq!(list.iter().next(), None);
    let list: List<i32> = List::new().cons(9).set(7, -2);
    assert_eq!(list.iter().next(), None);
}
