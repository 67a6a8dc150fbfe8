use lua_flame::folded::{sorts_before, FoldedStacks};

#[test]
fn stacks_are_counted_and_written_sorted() {
    let mut folded = FoldedStacks::new();
    for stack in ["b", "a;c", "b", "a", "b"] {
        folded.add(stack.to_string());
    }
    assert_eq!(folded.len(), 3);
    assert_eq!(folded.get("b"), Some(3));
    assert_eq!(folded.get("c"), None);
    assert_eq!(folded.stacks(), vec!["a".to_string(), "a;c".to_string(), "b".to_string()]);
    assert_eq!(folded.render(), "a 1\na;c 1\nb 3\n");
    assert!(folded.can_count(u64::MAX - 3));
    assert!(!folded.can_count(u64::MAX - 2));
}

#[test]
fn the_order_of_counting_does_not_show() {
    let mut x = FoldedStacks::new();
    let mut y = FoldedStacks::new();
    for stack in ["L:a:1", "L:b:2", "L:a:1"] {
        x.add(stack.to_string());
    }
    for stack in ["L:b:2", "L:a:1", "L:a:1"] {
        y.add(stack.to_string());
    }
    assert_eq!(x.render(), y.render());
}

#[test]
fn texts_are_sorted_by_their_bytes() {
    for (a, b) in [("", "a"), ("a", "b"), ("B", "a"), ("a", "ab"), ("z", "\u{e9}"), ("a;b", "ab")] {
        assert!(sorts_before(a, b));
        assert!(!sorts_before(b, a));
        assert!(a < b);
    }
    assert!(!sorts_before("a", "a"));
}

#[test]
fn no_stacks_give_no_lines() {
    let folded = FoldedStacks::new();
    assert!(folded.is_empty());
    assert_eq!(folded.render(), "");
}

#[test]
fn every_one_of_many_stacks_is_found_again() {
    let mut stacks = FoldedStacks::new();
    for n in 0..100u64 {
        // Every stack once, in an order that is not the sorted one.
        let name = format!("stack{:02}", n * 37 % 100);
        assert_eq!(stacks.get(&name), None);
        stacks.add(name);
    }
    for n in 0..100u64 {
        for _ in 0..n % 3 {
            stacks.add(format!("stack{n:02}"));
        }
    }
    for n in 0..100u64 {
        assert_eq!(stacks.get(&format!("stack{n:02}")), Some(1 + n % 3));
    }
    assert_eq!(stacks.get("stack"), None);
    assert_eq!(stacks.get("stack500"), None);
    assert_eq!(stacks.get("stack99x"), None);
}
