use lib::stack::Stack;
use lib::test_stack;

fn values(stack: &Stack<i32>) -> Vec<i32> {
    stack.print().into_iter().copied().collect()
}

#[test]
fn stack_demo() {
    let stack = test_stack();
    assert_eq!(values(&stack), vec![3, 2, 1]);
}

#[test]
fn new_stack_prints_nothing() {
    let stack: Stack<i32> = Stack::new();
    assert!(stack.print().is_empty());
}

#[test]
fn push_puts_value_on_top() {
    let mut stack = Stack::new();
    stack.push(10);
    assert_eq!(values(&stack), vec![10]);
    stack.push(-4);
    assert_eq!(values(&stack), vec![-4, 10]);
}

#[test]
fn stack_holds_strings() {
    let mut stack = Stack::new();
    stack.push(String::from("a"));
    stack.push(String::from("b"));
    let lines: Vec<&String> = stack.print();
    assert_eq!(lines, vec!["b", "a"]);
}

#[test]
fn stack_node_new_has_nothing_below() {
    let node = lib::stack::StackNode::new(7);
    assert_eq!(node.value, 7);
    assert!(node.next.is_none());
}
