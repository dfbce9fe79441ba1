use functional_datastructures::stack::CustomStack;
use functional_datastructures::stack::Stack;

#[test]
fn lib_empty_is_empty() {
    let stack: CustomStack<()> = CustomStack::empty();

    assert!(stack.is_empty());
}

#[test]
fn lib_cons_is_not_empty() {
    let stack: CustomStack<i32> = CustomStack::empty().cons(4);

    assert!(!stack.is_empty());
}

#[test]
fn lib_head_empty_error() {
    let stack: CustomStack<()> = CustomStack::empty();

    assert!(stack.head().is_err());
}

#[test]
fn lib_head_last_item() {
    let stack: CustomStack<i32> = CustomStack::empty().cons(5).cons(6);
    let head = stack.head();

    assert!(head.is_ok());
    assert!(head.unwrap() == 6);
}

#[test]
fn lib_tail_empty_is_error() {
    let stack: CustomStack<()> = CustomStack::empty();

    assert!(stack.tail().is_err());
}

#[test]
fn lib_head_after_tail() {
    let stack: CustomStack<i32> = CustomStack::empty().cons(1).cons(2).cons(3);
    let tailtail = stack.tail().unwrap().tail().unwrap();

    assert!(tailtail.head().unwrap() == 1);
}

#[test]
fn lib_cloneable() {
    let stack: CustomStack<i32> = CustomStack::empty().cons(1).cons(2).cons(3);
    let stack2 = stack.clone();

    let tailtail = stack.tail().unwrap().tail().unwrap();
    let tail = stack2.tail().unwrap();

    assert!(tailtail.head().unwrap() == 1);
    assert!(tail.head().unwrap() == 2);
}
