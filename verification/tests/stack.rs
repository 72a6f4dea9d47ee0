use hl::{Color, Stack};

#[test]
fn new_stack_is_empty() {
    let stack = Stack::new();
    assert!(stack.items().is_empty());
    assert_eq!(stack.top(), None);
}

#[test]
fn push_appends_and_keeps_duplicates() {
    let mut stack = Stack::new();
    stack.push(Color::Red);
    stack.push(Color::Blue);
    stack.push(Color::Red);
    assert_eq!(stack.items(), &vec![Color::Red, Color::Blue, Color::Red]);
    assert_eq!(stack.top(), Some(Color::Red));
}

#[test]
fn pop_removes_last_occurrence_not_top() {
    let mut stack = Stack::new();
    stack.push(Color::Red);
    stack.push(Color::Blue);
    stack.push(Color::Red);
    stack.push(Color::Green);
    stack.pop(Color::Red);
    assert_eq!(stack.items(), &vec![Color::Red, Color::Blue, Color::Green]);
    assert_eq!(stack.top(), Some(Color::Green));
    stack.pop(Color::Red);
    assert_eq!(stack.items(), &vec![Color::Blue, Color::Green]);
}

#[test]
fn pop_of_absent_color_changes_nothing() {
    let mut stack = Stack::new();
    stack.push(Color::Red);
    stack.push(Color::Blue);
    stack.pop(Color::White);
    assert_eq!(stack.items(), &vec![Color::Red, Color::Blue]);
    let mut empty = Stack::new();
    empty.pop(Color::Red);
    assert!(empty.items().is_empty());
}

#[test]
fn pop_tells_palette_and_rgb_colors_apart() {
    let mut stack = Stack::new();
    stack.push(Color::AnsiValue(9));
    stack.push(Color::Rgb { r: 1, g: 2, b: 3 });
    stack.push(Color::AnsiValue(10));
    stack.pop(Color::Rgb { r: 1, g: 2, b: 4 });
    assert_eq!(stack.items().len(), 3);
    stack.pop(Color::AnsiValue(9));
    assert_eq!(
        stack.items(),
        &vec![Color::Rgb { r: 1, g: 2, b: 3 }, Color::AnsiValue(10)]
    );
}
