use branch_graph::branches::{branch_of_section, tracking_branch};
use branch_graph::render::{compose_label, digraph, name, render};
use branch_graph::text::{join, same_text, strip_prefix, to_decimal};
use branch_graph::{AncestryGraph, BranchLabels, Commit, EngineError, MergeBaseMemo};

fn commit(text: &str) -> Commit {
    Commit::new(text.to_string())
}

fn strings(list: &[&str]) -> Vec<String> {
    list.iter().map(|s| s.to_string()).collect()
}

#[test]
fn commit_keeps_its_text() {
    let c = commit("0123456789abcdef");
    assert_eq!(c.as_str(), "0123456789abcdef");
    assert_eq!(c.clone(), c);
    assert_eq!(Commit::from("0123456789abcdef".to_string()), c);
    assert_ne!(commit("0123456789abcdee"), c);
}

#[test]
fn commits_are_ordered_byte_by_byte() {
    assert!(commit("a").precedes(&commit("b")));
    assert!(!commit("b").precedes(&commit("a")));
    assert!(!commit("a").precedes(&commit("a")));
    assert!(commit("a").precedes(&commit("aa")));
    assert!(commit("").precedes(&commit("a")));
    assert!(commit("Z").precedes(&commit("a")));
    assert!(commit("ab").precedes(&commit("b")));
    assert!(commit("z").precedes(&commit("\u{e9}")));
    assert!(commit("\u{e9}").precedes(&commit("\u{20ac}")));
}

#[test]
fn short_is_the_first_nine_characters() {
    assert_eq!(commit("0123456789abcdef").short(), "012345678");
    assert_eq!(commit("012345678").short(), "012345678");
    assert_eq!(commit("0123").short(), "0123");
    assert_eq!(commit("").short(), "");
    assert_eq!(commit("\u{e9}\u{e9}\u{e9}\u{e9}\u{e9}\u{e9}\u{e9}\u{e9}\u{e9}\u{e9}").short().chars().count(), 9);
}

#[test]
fn canonical_pair_puts_the_later_commit_first() {
    let (first, second) = MergeBaseMemo::canonical_pair(&commit("a"), &commit("b"));
    assert_eq!((first.as_str(), second.as_str()), ("b", "a"));
    let (first, second) = MergeBaseMemo::canonical_pair(&commit("b"), &commit("a"));
    assert_eq!((first.as_str(), second.as_str()), ("b", "a"));
    let (first, second) = MergeBaseMemo::canonical_pair(&commit("a"), &commit("a"));
    assert_eq!((first.as_str(), second.as_str()), ("a", "a"));
}

#[test]
fn memo_answers_in_either_order() {
    let mut memo = MergeBaseMemo::new();
    assert_eq!(memo.len(), 0);
    assert_eq!(memo.merge_base(&commit("a"), &commit("b")), None);
    assert!(memo.record(&commit("a"), &commit("b"), commit("c")));
    assert_eq!(memo.merge_base(&commit("a"), &commit("b")), Some(commit("c")));
    assert_eq!(memo.merge_base(&commit("b"), &commit("a")), Some(commit("c")));
    assert_eq!(memo.merge_base(&commit("a"), &commit("c")), None);
    assert_eq!(memo.len(), 1);
}

#[test]
fn memo_never_replaces_an_answer() {
    let mut memo = MergeBaseMemo::new();
    assert!(memo.record(&commit("a"), &commit("b"), commit("c")));
    assert!(!memo.record(&commit("b"), &commit("a"), commit("d")));
    assert_eq!(memo.merge_base(&commit("a"), &commit("b")), Some(commit("c")));
    assert_eq!(memo.len(), 1);
    assert!(memo.record(&commit("a"), &commit("a"), commit("a")));
    assert_eq!(memo.len(), 2);
}

#[test]
fn errors_have_messages() {
    assert_eq!(EngineError::NoRoot.message(), "Unable to determine ultimate parent node");
    assert_eq!(
        EngineError::Oracle.message(),
        "Unable to determine the merge base of two commits"
    );
    assert_ne!(EngineError::NoRoot, EngineError::Oracle);
}

#[test]
fn numbers_are_written_in_decimal() {
    assert_eq!(to_decimal(0), "0");
    assert_eq!(to_decimal(7), "7");
    assert_eq!(to_decimal(10), "10");
    assert_eq!(to_decimal(109), "109");
    assert_eq!(to_decimal(1234567890), "1234567890");
    assert_eq!(to_decimal(usize::MAX), usize::MAX.to_string());
}

#[test]
fn same_text_compares_characters() {
    assert!(same_text("heads", "heads"));
    assert!(!same_text("heads", "head"));
    assert!(!same_text("heads", "headz"));
    assert!(same_text("", ""));
    assert!(!same_text("\u{e9}", "e"));
}

#[test]
fn strip_prefix_cuts_the_beginning() {
    assert_eq!(strip_prefix("refs/heads/main", "refs/heads/"), Some("main".to_string()));
    assert_eq!(strip_prefix("refs/heads/", "refs/heads/"), Some(String::new()));
    assert_eq!(strip_prefix("refs/tags/v1", "refs/heads/"), None);
    assert_eq!(strip_prefix("refs", "refs/heads/"), None);
    assert_eq!(strip_prefix("abc", ""), Some("abc".to_string()));
}

#[test]
fn join_puts_the_separator_between() {
    assert_eq!(join(&strings(&[]), ", "), "");
    assert_eq!(join(&strings(&["one"]), ", "), "one");
    assert_eq!(join(&strings(&["one", "two", "three"]), ", "), "one, two, three");
    assert_eq!(join(&strings(&["", ""]), "-"), "-");
}

#[test]
fn tracking_branch_joins_remote_and_branch() {
    assert_eq!(
        tracking_branch("heads", true, Some("origin"), Some("refs/heads/main")),
        Some("origin/main".to_string())
    );
    assert_eq!(
        tracking_branch("heads", true, Some("up"), Some("refs/heads/feature/x")),
        Some("up/feature/x".to_string())
    );
}

#[test]
fn tracking_branch_needs_everything() {
    assert_eq!(tracking_branch("heads", false, Some("origin"), Some("refs/heads/main")), None);
    assert_eq!(tracking_branch("remotes", true, Some("origin"), Some("refs/heads/main")), None);
    assert_eq!(tracking_branch("heads", true, None, Some("refs/heads/main")), None);
    assert_eq!(tracking_branch("heads", true, Some("origin"), None), None);
    assert_eq!(tracking_branch("heads", true, Some("origin"), Some("refs/tags/v1")), None);
}

#[test]
fn branch_sections_name_branches() {
    assert_eq!(branch_of_section("branch", Some("main")), Some("main".to_string()));
    assert_eq!(branch_of_section("branch", None), None);
    assert_eq!(branch_of_section("remote", Some("origin")), None);
    assert_eq!(branch_of_section("Branch", Some("main")), None);
}

#[test]
fn branches_are_kept_by_commit() {
    let mut branches = BranchLabels::new();
    assert!(branches.is_empty());
    branches.add_branch(commit("c1"), "main".to_string());
    branches.add_branch(commit("c2"), "topic".to_string());
    branches.add_branch(commit("c1"), "origin/main".to_string());
    branches.add_branch(commit("c1"), "main".to_string());
    assert!(!branches.is_empty());
    assert_eq!(branches.len(), 2);
    assert_eq!(branches.tips(), &vec![commit("c1"), commit("c2")]);
    assert_eq!(
        branches.branch_names(),
        &strings(&["main", "topic", "origin/main", "main"])
    );
    assert_eq!(branches.names_of(&commit("c1")), Some(&strings(&["main", "origin/main"])));
    assert_eq!(branches.names_of(&commit("c2")), Some(&strings(&["topic"])));
    assert_eq!(branches.names_of(&commit("c3")), None);
}

#[test]
fn label_joins_identifier_and_names() {
    assert_eq!(compose_label("0123", None), "0123");
    assert_eq!(compose_label("0123", Some(&strings(&["main"]))), "0123 main");
    assert_eq!(
        compose_label("0123", Some(&strings(&["main", "origin/main"]))),
        "0123 main, origin/main"
    );
    assert_eq!(compose_label("0123", Some(&strings(&[]))), "0123 ");
}

#[test]
fn name_without_colours_is_plain() {
    colored::control::set_override(false);
    let mut branches = BranchLabels::new();
    branches.add_branch(commit("0123456789abcdef"), "main".to_string());
    branches.add_branch(commit("0123456789abcdef"), "origin/main".to_string());
    assert_eq!(
        name(&branches, &commit("0123456789abcdef")),
        "012345678 main, origin/main"
    );
    assert_eq!(name(&branches, &commit("fedcba9876543210")), "fedcba987");
}

#[test]
fn name_with_colours_paints_identifier_red_and_names_green() {
    colored::control::set_override(true);
    let mut branches = BranchLabels::new();
    branches.add_branch(commit("0123456789abcdef"), "main".to_string());
    branches.add_branch(commit("0123456789abcdef"), "next".to_string());
    assert_eq!(
        name(&branches, &commit("0123456789abcdef")),
        "\u{1b}[31m012345678\u{1b}[0m \u{1b}[32mmain\u{1b}[0m, \u{1b}[32mnext\u{1b}[0m"
    );
    assert_eq!(
        name(&branches, &commit("fedcba9876543210")),
        "\u{1b}[31mfedcba987\u{1b}[0m"
    );
}

#[test]
fn digraph_declares_nodes_then_edges() {
    let mut graph = AncestryGraph::new();
    let c = graph.insert(commit("c"));
    let a = graph.insert(commit("a"));
    let b = graph.insert(commit("b"));
    graph.link(c, a);
    graph.link(c, b);
    graph.link(a, b);
    let lines = digraph(&graph, &strings(&["C", "A x", "B"]));
    assert_eq!(
        lines,
        strings(&[
            "digraph {",
            "\t0 [label=\"C\"]",
            "\t1 [label=\"A x\"]",
            "\t2 [label=\"B\"]",
            "\t0 -> 1",
            "\t0 -> 2",
            "\t1 -> 2",
            "}",
        ])
    );
}

#[test]
fn digraph_of_nothing_is_two_lines() {
    assert_eq!(digraph(&AncestryGraph::new(), &vec![]), strings(&["digraph {", "}"]));
}

#[test]
fn digraph_gives_missing_labels_as_empty() {
    let mut graph = AncestryGraph::new();
    graph.insert(commit("a"));
    graph.insert(commit("b"));
    assert_eq!(
        digraph(&graph, &strings(&["A"])),
        strings(&["digraph {", "\t0 [label=\"A\"]", "\t1 [label=\"\"]", "}"])
    );
}

#[test]
fn single_node_renders_one_declaration_and_no_edge() {
    colored::control::set_override(false);
    let mut graph = AncestryGraph::new();
    graph.insert(commit("0123456789abcdef"));
    let mut branches = BranchLabels::new();
    branches.add_branch(commit("0123456789abcdef"), "main".to_string());
    assert_eq!(
        render(&graph, &branches),
        strings(&["digraph {", "\t0 [label=\"012345678 main\"]", "}"])
    );
}

#[test]
fn render_numbers_nodes_beyond_nine() {
    colored::control::set_override(false);
    let mut graph = AncestryGraph::new();
    for v in 0..12 {
        graph.insert(commit(&format!("commit-number-{v}")));
    }
    graph.link(11, 10);
    let lines = render(&graph, &BranchLabels::new());
    assert_eq!(lines.len(), 15);
    assert_eq!(lines[11], "\t10 [label=\"commit-nu\"]");
    assert_eq!(lines[13], "\t11 -> 10");
}
