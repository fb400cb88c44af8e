use cli_tree::TreeNode;

#[test]
fn leaf_renders_label_line() {
    let node = TreeNode::new("Test Node");
    assert_eq!(node.render(), "Test Node\n");
}

#[test]
fn empty_label_leaf_renders_bare_newline() {
    let node = TreeNode::new("");
    assert_eq!(node.render(), "\n");
}

#[test]
fn empty_label_child_keeps_its_line() {
    let mut root = TreeNode::new("r");
    root.add_child(TreeNode::new(""));
    root.add_child(TreeNode::new("x"));
    assert_eq!(root.render(), "r\n ├─\n └─x\n");
}

#[test]
fn end_to_end_example() {
    let mut node = TreeNode::new("Test Node");
    node.add_child(TreeNode::new("Child 1"));
    node.add_child(TreeNode::new_with_children(
        "Child 2",
        vec![TreeNode::new("Child 2.1"), TreeNode::new("Child 2.2")],
    ));
    node.add_child(TreeNode::new("Child 3"));
    let expected = "Test Node\n \
                    ├─Child 1\n \
                    ├─Child 2\n \
                    │ ├─Child 2.1\n \
                    │ └─Child 2.2\n \
                    └─Child 3\n";
    assert_eq!(node.render(), expected);
}

fn deep_example() -> TreeNode {
    let mut node = TreeNode::new("Test Node");
    node.add_child(TreeNode::new("Child 1"));
    node.add_child(TreeNode::new_with_children(
        "Child 2",
        vec![
            TreeNode::new("Child 2.1"),
            TreeNode::new("Child 2.2"),
            TreeNode::new_with_children(
                "Child 2.3",
                vec![TreeNode::new("Child 2.3.1"), TreeNode::new("Child 2.3.2")],
            ),
            TreeNode::new_with_children(
                "Child 2.4",
                vec![
                    TreeNode::new("Child 2.4.1"),
                    TreeNode::new("Child 2.4.2"),
                    TreeNode::new("Child 2.4.3"),
                ],
            ),
        ],
    ));
    node.add_child(TreeNode::new("Child 3"));
    node
}

#[test]
fn deep_example_renders_exactly() {
    let expected = "Test Node\n \
                    ├─Child 1\n \
                    ├─Child 2\n \
                    │ ├─Child 2.1\n \
                    │ ├─Child 2.2\n \
                    │ ├─Child 2.3\n \
                    │ │ ├─Child 2.3.1\n \
                    │ │ └─Child 2.3.2\n \
                    │ └─Child 2.4\n \
                    │   ├─Child 2.4.1\n \
                    │   ├─Child 2.4.2\n \
                    │   └─Child 2.4.3\n \
                    └─Child 3\n";
    assert_eq!(deep_example().render(), expected);
}

#[test]
fn one_line_per_node() {
    let out = deep_example().render();
    // 13 nodes in the deep example, one newline-terminated line each
    assert_eq!(out.chars().filter(|&c| c == '\n').count(), 13);
    assert_eq!(out.lines().count(), 13);
}

#[test]
fn lines_come_in_preorder() {
    let out = deep_example().render();
    let labels: Vec<&str> = out
        .lines()
        .map(|l| l.trim_start_matches([' ', '│', '├', '└', '─']))
        .collect();
    assert_eq!(
        labels,
        vec![
            "Test Node",
            "Child 1",
            "Child 2",
            "Child 2.1",
            "Child 2.2",
            "Child 2.3",
            "Child 2.3.1",
            "Child 2.3.2",
            "Child 2.4",
            "Child 2.4.1",
            "Child 2.4.2",
            "Child 2.4.3",
            "Child 3",
        ]
    );
}

#[test]
fn connector_marks_exactly_the_last_child() {
    let mut root = TreeNode::new("r");
    root.add_child(TreeNode::new("a"));
    root.add_child(TreeNode::new("b"));
    root.add_child(TreeNode::new("c"));
    let out = root.render();
    let lines: Vec<&str> = out.lines().collect();
    assert_eq!(lines, vec!["r", " ├─a", " ├─b", " └─c"]);
}

#[test]
fn prefix_bar_follows_open_ancestors() {
    let out = deep_example().render();
    let lines: Vec<&str> = out.lines().collect();
    // under "Child 2.3" (not last): a bar at its depth
    assert_eq!(lines[6], " │ │ ├─Child 2.3.1");
    // under "Child 2.4" (last): blank space at its depth
    assert_eq!(lines[9], " │   ├─Child 2.4.1");
}

#[test]
fn rendering_twice_is_identical() {
    let node = deep_example();
    let first = node.render();
    let second = node.render();
    assert_eq!(first, second);
}

#[test]
fn children_appear_in_append_order() {
    let mut root = TreeNode::new_with_children("r", vec![TreeNode::new("a")]);
    root.add_child(TreeNode::new("b"));
    root.add_child(TreeNode::new("c"));
    assert_eq!(root.render(), "r\n ├─a\n ├─b\n └─c\n");
}

#[test]
fn has_children_reports_the_child_count() {
    let mut node = TreeNode::new("n");
    assert!(!node.has_children());
    node.add_child(TreeNode::new("c"));
    assert!(node.has_children());
    let built = TreeNode::new_with_children("m", vec![TreeNode::new("c")]);
    assert!(built.has_children());
    let bare = TreeNode::new_with_children("m", vec![]);
    assert!(!bare.has_children());
}

#[test]
fn display_draws_under_a_given_indent_stack() {
    let leaf = TreeNode::new("X");
    let mut indent = vec![true, false];
    let out = leaf.display(&mut indent, true, false);
    assert_eq!(out, " │   ├─X\n");
    // the stack is handed back unchanged
    assert_eq!(indent, vec![true, false]);
}

#[test]
fn display_as_last_child_under_empty_stack() {
    let leaf = TreeNode::new("X");
    let mut indent = Vec::new();
    assert_eq!(leaf.display(&mut indent, true, true), " └─X\n");
    assert!(indent.is_empty());
}

#[test]
fn display_without_child_state_matches_render() {
    let node = deep_example();
    let mut indent = Vec::new();
    assert_eq!(node.display(&mut indent, false, false), node.render());
    assert!(indent.is_empty());
}
