use plogcat::color::{Color, Stack};

#[test]
fn verify_color_stack_shift() {
    let mut stack = Stack::new();
    assert_eq!(stack.get_color("1"), Color::Red);
    assert_eq!(stack.get_color("2"), Color::Green);
    assert_eq!(stack.get_color("3"), Color::Yellow);
    assert_eq!(stack.get_color("4"), Color::Blue);
    assert_eq!(stack.get_color("5"), Color::Magenta);
    assert_eq!(stack.get_color("6"), Color::Cyan);
    assert_eq!(stack.get_color("7"), Color::Red);
}

#[test]
fn verify_cached_color() {
    let mut stack = Stack::new();
    assert_eq!(stack.get_color("1"), Color::Red);
    assert_eq!(stack.get_color("2"), Color::Green);
    assert_eq!(stack.get_color("1"), Color::Red);
    assert_eq!(stack.get_color("2"), Color::Green);
}

#[test]
fn new_tags_in_a_row_differ_and_keep_their_color() {
    let mut stack = Stack::new();
    let first = stack.get_color("ActivityManager");
    let second = stack.get_color("flutter");
    assert_ne!(first, second);
    stack.get_color("a");
    stack.get_color("b");
    stack.get_color("c");
    stack.get_color("d");
    stack.get_color("e");
    assert_eq!(stack.get_color("ActivityManager"), first);
    assert_eq!(stack.get_color("flutter"), second);
}

#[test]
fn seventh_tag_wraps_to_first_color_and_rotation_continues() {
    let mut stack = Stack::new();
    let tags = ["t0", "t1", "t2", "t3", "t4", "t5", "t6", "t7"];
    let colors: Vec<Color> = tags.iter().map(|t| stack.get_color(t)).collect();
    assert_eq!(colors[6], colors[0]);
    assert_eq!(colors[7], colors[1]);
    assert_eq!(colors[1], Color::Green);
}

#[test]
fn repeated_tag_does_not_turn_the_ring() {
    let mut stack = Stack::new();
    assert_eq!(stack.get_color("x"), Color::Red);
    assert_eq!(stack.get_color("x"), Color::Red);
    assert_eq!(stack.get_color("x"), Color::Red);
    assert_eq!(stack.get_color("y"), Color::Green);
}

#[test]
fn tags_differing_only_in_case_are_distinct() {
    let mut stack = Stack::new();
    assert_eq!(stack.get_color("Error"), Color::Red);
    assert_eq!(stack.get_color("error"), Color::Green);
    assert_eq!(stack.get_color(""), Color::Yellow);
}
