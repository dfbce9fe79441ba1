use std::sync::Arc;

use functional_datastructures::stack::suffixes;
use functional_datastructures::stack::CustomStack;
use functional_datastructures::stack::Stack;
use functional_datastructures::stack::StackError;

#[test]
fn stack_empty_is_empty() {
    let stack: CustomStack<()> = CustomStack::empty();

    assert!(stack.is_empty());
    assert!(stack.size() == 0);
}

#[test]
fn stack_cons_is_not_empty() {
    let stack: CustomStack<i32> = CustomStack::empty().cons(4);

    assert!(!stack.is_empty());
    assert!(stack.size() == 1);
}

#[test]
fn stack_head_empty_error() {
    let stack: CustomStack<()> = CustomStack::empty();

    assert!(stack.head().is_err());
}

#[test]
fn stack_head_last_item() {
    let stack: CustomStack<i32> = CustomStack::empty().cons(5).cons(6);
    let head = stack.head();

    assert!(head.is_ok());
    assert!(head.unwrap() == 6);
}

#[test]
fn stack_tail_empty_is_error() {
    let stack: CustomStack<()> = CustomStack::empty();

    assert!(stack.tail().is_err());
}

#[test]
fn stack_head_after_tail() {
    let stack: CustomStack<i32> = CustomStack::empty().cons(1).cons(2).cons(3);
    let tailtail = stack.tail().unwrap().tail().unwrap();

    assert!(tailtail.head().unwrap() == 1);
}

#[test]
fn size_multiple_items() {
    let stack: CustomStack<i32> = CustomStack::empty().cons(1).cons(2).cons(3);

    assert!(stack.size() == 3);
}

#[test]
fn get_valid() {
    let stack: CustomStack<i32> = CustomStack::empty().cons(1).cons(2).cons(3);

    assert!(stack.get(1).unwrap() == 2);
}

#[test]
fn get_out_of_range() {
    let stack: CustomStack<i32> = CustomStack::empty().cons(1).cons(2).cons(3);

    assert!(stack.get(3).is_err());
}

#[test]
fn stack_cloneable() {
    let stack: CustomStack<i32> = CustomStack::empty().cons(1).cons(2).cons(3);
    let stack2 = stack.clone();

    let tailtail = stack.tail().unwrap().tail().unwrap();
    let tail = stack2.tail().unwrap();

    assert!(tailtail.head().unwrap() == 1);
    assert!(tail.head().unwrap() == 2);
}

#[test]
fn update_valid() {
    let stack: CustomStack<i32> = CustomStack::empty().cons(1).cons(2).cons(3);
    let updated = stack.clone().update(1, 10).unwrap();

    assert!(updated.size() == 3);
    assert!(updated.get(0).unwrap() == 3);
    assert!(updated.get(1).unwrap() == 10);
    assert!(updated.get(2).unwrap() == 1);

    assert!(stack.size() == 3);
    assert!(stack.get(0).unwrap() == 3);
    assert!(stack.get(1).unwrap() == 2);
    assert!(stack.get(2).unwrap() == 1);
}

#[test]
fn update_invalid() {
    let stack: CustomStack<i32> = CustomStack::empty().cons(1).cons(2).cons(3);
    let updated = stack.clone().update(4, 10);

    assert!(updated.is_err());
}

#[test]
fn suffixes_empty() {
    let stack: Arc<CustomStack<()>> = Arc::new(CustomStack::empty());
    let suffixes = suffixes(&stack);

    assert!(suffixes.size() == 1);
    assert!(suffixes.get(0).unwrap().is_empty());
}

#[test]
fn suffixes_nonempty() {
    let stack: Arc<CustomStack<i32>> = Arc::new(CustomStack::empty().cons(1).cons(2));
    let suffixes = suffixes(&stack);

    assert!(suffixes.size() == 3);

    let suffix1 = suffixes.get(0).unwrap();
    assert!(suffix1.size() == 2);
    assert!(suffix1.get(0).unwrap() == 2);
    assert!(suffix1.get(1).unwrap() == 1);

    let suffix2 = suffixes.get(1).unwrap();
    assert!(suffix2.size() == 1);
    assert!(suffix2.get(0).unwrap() == 1);

    let suffix3 = suffixes.get(2).unwrap();
    assert!(suffix3.is_empty());
}

fn items(stack: &CustomStack<i32>) -> Vec<i32> {
    let mut out = Vec::new();
    for i in 0..stack.size() {
        out.push(stack.get(i).unwrap());
    }
    out
}

#[test]
fn empty_stack_errors_name_the_kind() {
    let stack: CustomStack<i32> = CustomStack::empty();

    assert_eq!(stack.head().unwrap_err(), StackError::NoSuchElementException);
    assert_eq!(stack.tail().unwrap_err(), StackError::NoSuchElementException);
    assert_eq!(stack.size(), 0);
    assert_eq!(stack.get(0).unwrap_err(), StackError::IndexOutOfRange);
    assert_eq!(stack.update(0, 1).unwrap_err(), StackError::IndexOutOfRange);
}

#[test]
fn index_at_size_is_out_of_range() {
    let stack: CustomStack<i32> = CustomStack::empty().cons(1).cons(2).cons(3);

    assert_eq!(stack.get(0).unwrap(), 3);
    assert_eq!(stack.get(1).unwrap(), 2);
    assert_eq!(stack.get(2).unwrap(), 1);
    assert_eq!(stack.get(3).unwrap_err(), StackError::IndexOutOfRange);
    assert_eq!(stack.update(3, 9).unwrap_err(), StackError::IndexOutOfRange);
    assert_eq!(stack.get(u32::MAX).unwrap_err(), StackError::IndexOutOfRange);
}

#[test]
fn update_keeps_the_original_version() {
    let stack: CustomStack<i32> = CustomStack::empty().cons(1).cons(2).cons(3);
    let updated = stack.update(1, 10).unwrap();

    assert_eq!(items(&updated), vec![3, 10, 1]);
    assert_eq!(items(&stack), vec![3, 2, 1]);
}

#[test]
fn update_first_and_last_index() {
    let stack: CustomStack<i32> = CustomStack::empty().cons(1).cons(2).cons(3);

    assert_eq!(items(&stack.update(0, 7).unwrap()), vec![7, 2, 1]);
    assert_eq!(items(&stack.update(2, 7).unwrap()), vec![3, 2, 7]);
}

#[test]
fn cons_then_tail_and_head() {
    let stack: CustomStack<i32> = CustomStack::empty().cons(4).cons(5);
    let pushed = stack.cons(6);

    assert_eq!(pushed.head().unwrap(), 6);
    assert_eq!(items(&pushed.tail().unwrap()), items(&stack));
}

#[test]
fn size_counts_conses() {
    let mut stack: CustomStack<i32> = CustomStack::empty();
    for n in 0..50u32 {
        assert_eq!(stack.size(), n);
        stack = stack.cons(n as i32);
    }
    assert_eq!(stack.size(), 50);
}

#[test]
fn get_is_repeated_tail_then_head() {
    let stack: CustomStack<i32> = CustomStack::empty().cons(10).cons(20).cons(30).cons(40);
    for i in 0..stack.size() {
        let mut rest = Arc::new(stack.clone());
        for _ in 0..i {
            rest = rest.tail().unwrap();
        }
        assert_eq!(rest.head().unwrap(), stack.get(i).unwrap());
    }
}
