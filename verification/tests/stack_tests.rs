use cs_learning::stack::{check_balanced_parentheses, Stack};

#[test]
fn test_stack_operations() {
    let mut stack = Stack::new();
    stack.push(1);
    stack.push(2);
    stack.push(3);

    assert_eq!(stack.peek(), Some(&3));
    assert_eq!(stack.pop(), Some(3));
    assert_eq!(stack.pop(), Some(2));
    assert_eq!(stack.len(), 1);
}

#[test]
fn test_balanced_parentheses() {
    assert!(check_balanced_parentheses("()"));
    assert!(check_balanced_parentheses("()[]{}"));
    assert!(check_balanced_parentheses("{[()]}"));
    assert!(!check_balanced_parentheses("(()"));
    assert!(!check_balanced_parentheses("({)}"));
}

#[test]
fn test_balanced_ignores_other_characters() {
    assert!(check_balanced_parentheses(""));
    assert!(check_balanced_parentheses("a(b[c]d)e"));
    assert!(!check_balanced_parentheses(")("));
    assert!(!check_balanced_parentheses("]"));
}

#[test]
fn test_stack_pop_empty() {
    let mut stack: Stack<char> = Stack::new();
    assert_eq!(stack.pop(), None);
    assert_eq!(stack.peek(), None);
    assert!(stack.is_empty());
}
