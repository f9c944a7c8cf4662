use pleading::{Fault, Unstack};

#[test]
fn test_push() {
    let mut unstack: Unstack = Unstack::new();
    assert_eq!(unstack.len(), 0);
    assert!(unstack.is_empty());
    assert!(unstack.peek_bottom().is_err());

    let to_test = vec![420, 69, 42069, -1, -1948];
    for (size, i) in to_test.iter().enumerate() {
        unstack.push(*i);
        assert!(unstack.peek_bottom().is_ok());
        assert_eq!(unstack.peek_bottom().unwrap(), *i);
        assert_eq!(unstack.len(), size + 1);
    }

    let _ = unstack.pop();
    assert_eq!(unstack.peek_bottom().unwrap(), -1);
}

#[test]
fn test_pop() {
    let mut unstack = Unstack::new();
    assert!(unstack.is_empty());
    assert!(unstack.peek_bottom().is_err());

    unstack.push(1);
    unstack.push(2);
    unstack.push(3);
    unstack.push(4);

    let _ = unstack.pop();
    assert!(unstack.peek_bottom().is_ok());
    assert_eq!(unstack.peek_bottom().unwrap(), 3);
    let _ = unstack.pop();
    assert!(unstack.peek_bottom().is_ok());
    assert_eq!(unstack.peek_bottom().unwrap(), 2);

    assert!(!unstack.is_empty());
}

fn filled(values: &[i64]) -> Unstack {
    let mut unstack = Unstack::new();
    for value in values {
        unstack.push(*value);
    }
    unstack
}

#[test]
fn new_unstack_is_empty() {
    let mut unstack = Unstack::new();
    assert_eq!(unstack.len(), 0);
    assert!(unstack.is_empty());
    assert_eq!(unstack.drain(), Vec::<i64>::new());
}

#[test]
fn pop_returns_the_value_pushed_last() {
    let mut unstack = Unstack::new();
    unstack.push(10);
    unstack.push(42);
    assert_eq!(unstack.pop(), Ok(42));
    assert_eq!(unstack.pop(), Ok(10));
    assert!(unstack.is_empty());
}

#[test]
fn pops_return_pushes_in_reverse() {
    let values = [7, -3, 0, i64::MAX, i64::MIN, 7];
    let mut unstack = filled(&[100, 200]);
    for value in values {
        unstack.push(value);
    }
    let mut popped = Vec::new();
    for _ in 0..values.len() {
        popped.push(unstack.pop().unwrap());
    }
    assert_eq!(popped, vec![7, i64::MIN, i64::MAX, 0, -3, 7]);
    assert_eq!(unstack.drain(), vec![200, 100]);
}

#[test]
fn pop_on_empty_is_reported() {
    let mut unstack = Unstack::new();
    assert_eq!(unstack.pop(), Err(Fault::EmptyUnstack));
    assert_eq!(unstack.len(), 0);
    unstack.push(5);
    assert_eq!(unstack.pop(), Ok(5));
    assert_eq!(unstack.pop(), Err(Fault::EmptyUnstack));
}

#[test]
fn peek_reads_without_removing() {
    let mut unstack = filled(&[1, 2, 3]);
    assert_eq!(unstack.peek_bottom(), Ok(3));
    assert_eq!(unstack.peek_bottom(), Ok(3));
    assert_eq!(unstack.len(), 3);
    assert_eq!(unstack.drain(), vec![3, 2, 1]);
    assert_eq!(unstack.peek_bottom(), Err(Fault::EmptyUnstack));
}

#[test]
fn swap_at_depth_zero_changes_nothing() {
    let mut unstack = filled(&[1, 2, 3, 4]);
    assert_eq!(unstack.swap_first(0), Ok(()));
    assert_eq!(unstack.drain(), vec![4, 3, 2, 1]);

    let mut single = filled(&[9]);
    assert_eq!(single.swap_first(0), Ok(()));
    assert_eq!(single.drain(), vec![9]);
}

#[test]
fn swap_exchanges_bottom_and_depth() {
    let mut unstack = filled(&[1, 2, 3, 4, 5]);
    assert_eq!(unstack.swap_first(3), Ok(()));
    assert_eq!(unstack.len(), 5);
    assert_eq!(unstack.drain(), vec![2, 4, 3, 5, 1]);

    let mut neighbours = filled(&[1, 2, 3]);
    assert_eq!(neighbours.swap_first(1), Ok(()));
    assert_eq!(neighbours.drain(), vec![2, 3, 1]);

    let mut deepest = filled(&[1, 2, 3]);
    assert_eq!(deepest.swap_first(2), Ok(()));
    assert_eq!(deepest.drain(), vec![1, 2, 3]);
}

#[test]
fn swap_twice_restores() {
    for depth in 0..5 {
        let mut unstack = filled(&[10, 20, 30, 40, 50]);
        assert_eq!(unstack.swap_first(depth), Ok(()));
        assert_eq!(unstack.swap_first(depth), Ok(()));
        assert_eq!(unstack.drain(), vec![50, 40, 30, 20, 10]);
    }
}

#[test]
fn swap_beyond_the_values_is_underflow() {
    let mut unstack = filled(&[1, 2, 3]);
    assert_eq!(unstack.swap_first(3), Err(Fault::Underflow));
    assert_eq!(unstack.swap_first(usize::MAX), Err(Fault::Underflow));
    assert_eq!(unstack.drain(), vec![3, 2, 1]);

    let mut empty = Unstack::new();
    assert_eq!(empty.swap_first(0), Err(Fault::Underflow));
    assert!(empty.is_empty());
}

#[test]
fn duplicate_doubles_the_bottom_values() {
    let mut unstack = filled(&[1, 2, 3, 4]);
    assert_eq!(unstack.duplicate_near_bottom(2), Ok(()));
    assert_eq!(unstack.len(), 6);
    assert_eq!(unstack.drain(), vec![4, 4, 3, 3, 2, 1]);

    let mut whole = filled(&[1, 2, 3]);
    assert_eq!(whole.duplicate_near_bottom(3), Ok(()));
    assert_eq!(whole.drain(), vec![3, 3, 2, 2, 1, 1]);

    let mut one = filled(&[5, 6]);
    assert_eq!(one.duplicate_near_bottom(1), Ok(()));
    assert_eq!(one.drain(), vec![6, 6, 5]);
}

#[test]
fn duplicate_nothing_changes_nothing() {
    let mut unstack = filled(&[1, 2]);
    assert_eq!(unstack.duplicate_near_bottom(0), Ok(()));
    assert_eq!(unstack.drain(), vec![2, 1]);

    let mut empty = Unstack::new();
    assert_eq!(empty.duplicate_near_bottom(0), Ok(()));
    assert!(empty.is_empty());
}

#[test]
fn duplicate_more_than_held_is_underflow() {
    let mut unstack = filled(&[1, 2]);
    assert_eq!(unstack.duplicate_near_bottom(3), Err(Fault::Underflow));
    assert_eq!(unstack.duplicate_near_bottom(usize::MAX), Err(Fault::Underflow));
    assert_eq!(unstack.drain(), vec![2, 1]);
}

#[test]
fn discard_removes_from_the_bottom() {
    let mut unstack = filled(&[1, 2, 3, 4]);
    assert_eq!(unstack.discard(0), Ok(()));
    assert_eq!(unstack.len(), 4);
    assert_eq!(unstack.discard(3), Ok(()));
    assert_eq!(unstack.peek_bottom(), Ok(1));
    assert_eq!(unstack.discard(2), Err(Fault::Underflow));
    assert_eq!(unstack.drain(), vec![1]);
}

#[test]
fn drain_empties_bottom_first() {
    let mut unstack = filled(&[3, 4, 5]);
    assert_eq!(unstack.drain(), vec![5, 4, 3]);
    assert!(unstack.is_empty());
    assert_eq!(unstack.drain(), Vec::<i64>::new());
}

#[test]
fn render_of_empty_unstack() {
    assert_eq!(Unstack::new().render(), "[]");
}

#[test]
fn render_lists_the_bottom_last() {
    assert_eq!(filled(&[1, 2, 3]).render(), "[ 1, 2, 3 ] ");
    assert_eq!(filled(&[42]).render(), "[ 42 ] ");
    assert_eq!(filled(&[0, -7, 100]).render(), "[ 0, -7, 100 ] ");
}

#[test]
fn render_of_extreme_values() {
    assert_eq!(
        filled(&[i64::MIN, i64::MAX]).render(),
        "[ -9223372036854775808, 9223372036854775807 ] "
    );
}

#[test]
fn render_leaves_the_unstack() {
    let mut unstack = filled(&[5, 6]);
    assert_eq!(unstack.render(), "[ 5, 6 ] ");
    assert_eq!(unstack.render(), "[ 5, 6 ] ");
    assert_eq!(unstack.drain(), vec![6, 5]);
}
