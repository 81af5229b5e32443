use branch_graph::{AncestryGraph, ClosureBuilder, Commit, EngineError, Request};

fn id(text: &str) -> Commit {
    Commit::new(text.to_string())
}

fn names(list: Option<Vec<Commit>>) -> Vec<String> {
    let mut out: Vec<String> = list
        .expect("the commit has a node")
        .iter()
        .map(|c| c.as_str().to_string())
        .collect();
    out.sort();
    out
}

fn children(graph: &AncestryGraph, of: &str) -> Vec<String> {
    names(graph.children_of(&id(of)))
}

fn parents(graph: &AncestryGraph, of: &str) -> Vec<String> {
    names(graph.parents_of(&id(of)))
}

/// Runs a builder to its end against `oracle`, and counts the questions.
fn close<F>(tips: &[&str], mut oracle: F) -> (Result<AncestryGraph, EngineError>, Vec<(String, String)>)
where
    F: FnMut(&str, &str) -> Option<&'static str>,
{
    let tips: Vec<Commit> = tips.iter().map(|t| id(t)).collect();
    let mut builder = ClosureBuilder::new(&tips);
    let mut asked = Vec::new();
    loop {
        match builder.request() {
            Request::Finished | Request::Failed => break,
            Request::Known => {
                assert!(builder.step());
            }
            Request::Ask(first, second) => {
                asked.push((first.as_str().to_string(), second.as_str().to_string()));
                let reply = oracle(first.as_str(), second.as_str());
                builder.answer(reply.map(id));
            }
        }
    }
    (builder.finish(), asked)
}

/// Merge bases in a small history: `root` is the ancestor of everything, and
/// `mid` of `a` and `b`.
fn tree(first: &str, second: &str) -> Option<&'static str> {
    fn chain(of: &str) -> Vec<&'static str> {
        match of {
            "a" => vec!["a", "mid", "root"],
            "b" => vec!["b", "mid", "root"],
            "d" => vec!["d", "root"],
            "mid" => vec!["mid", "root"],
            "root" => vec!["root"],
            _ => vec![],
        }
    }
    let other = chain(second);
    chain(first).into_iter().find(|c| other.contains(c))
}

#[test]
fn two_tips_with_a_common_ancestor() {
    let (graph, _) = close(&["A", "B"], |x, y| Some(if x == y { if x == "A" { "A" } else if x == "B" { "B" } else { "C" } } else { "C" }));
    let mut graph = graph.expect("the closure is complete");
    assert_eq!(graph.len(), 3);
    assert_eq!(children(&graph, "C"), vec!["A", "B"]);
    assert_eq!(children(&graph, "A"), Vec::<String>::new());
    assert_eq!(children(&graph, "B"), Vec::<String>::new());
    assert_eq!(parents(&graph, "A"), vec!["C"]);
    assert_eq!(parents(&graph, "B"), vec!["C"]);
    assert_eq!(parents(&graph, "C"), Vec::<String>::new());
    let root = graph.reduce().expect("the graph has a root");
    assert_eq!(graph.commit(root).as_str(), "C");
    assert_eq!(children(&graph, "C"), vec!["A", "B"]);
    assert_eq!(children(&graph, "A"), Vec::<String>::new());
    assert_eq!(children(&graph, "B"), Vec::<String>::new());
    assert_eq!(parents(&graph, "A"), vec!["C"]);
    assert_eq!(parents(&graph, "B"), vec!["C"]);
    assert_eq!(parents(&graph, "C"), Vec::<String>::new());
}

#[test]
fn three_tips_share_one_root() {
    let (graph, _) = close(&["A", "B", "D"], |x, y| {
        Some(if x == y {
            match x {
                "A" => "A",
                "B" => "B",
                "D" => "D",
                _ => "C",
            }
        } else {
            "C"
        })
    });
    let mut graph = graph.expect("the closure is complete");
    let root = graph.reduce().expect("the graph has a root");
    assert_eq!(graph.commit(root).as_str(), "C");
    assert_eq!(graph.len(), 4);
    assert_eq!(children(&graph, "C"), vec!["A", "B", "D"]);
    assert_eq!(children(&graph, "A"), Vec::<String>::new());
    assert_eq!(children(&graph, "B"), Vec::<String>::new());
    assert_eq!(children(&graph, "D"), Vec::<String>::new());
}

#[test]
fn single_tip_is_a_graph_of_one_node() {
    let (graph, asked) = close(&["only"], |_, _| Some("only"));
    let mut graph = graph.expect("the closure is complete");
    assert_eq!(asked, vec![("only".to_string(), "only".to_string())]);
    assert_eq!(graph.len(), 1);
    assert_eq!(children(&graph, "only"), Vec::<String>::new());
    assert_eq!(parents(&graph, "only"), Vec::<String>::new());
    assert_eq!(graph.reduce(), Ok(0));
    assert_eq!(graph.len(), 1);
}

#[test]
fn no_tips_give_an_empty_graph_without_root() {
    let (graph, asked) = close(&[], |_, _| None);
    let mut graph = graph.expect("the closure is complete");
    assert!(asked.is_empty());
    assert_eq!(graph.len(), 0);
    assert_eq!(graph.reduce(), Err(EngineError::NoRoot));
}

#[test]
fn oracle_failure_ends_the_run() {
    let (graph, asked) = close(&["a", "x"], |first, second| {
        if first == second {
            tree(first, second)
        } else {
            None
        }
    });
    assert!(matches!(graph, Err(EngineError::Oracle)));
    assert_eq!(asked.last(), Some(&("x".to_string(), "a".to_string())));
}

#[test]
fn failed_builder_stays_failed() {
    let mut builder = ClosureBuilder::new(&vec![id("a"), id("b")]);
    assert!(matches!(builder.request(), Request::Ask(_, _)));
    builder.answer(None);
    assert!(matches!(builder.request(), Request::Failed));
    assert!(!builder.step());
    builder.answer(Some(id("a")));
    assert!(matches!(builder.request(), Request::Failed));
    assert_eq!(builder.questions(), 0);
    assert!(matches!(builder.finish(), Err(EngineError::Oracle)));
}

#[test]
fn duplicate_tips_count_once() {
    let (graph, _) = close(&["a", "b", "a"], tree);
    let graph = graph.expect("the closure is complete");
    assert_eq!(graph.len(), 3);
    assert_eq!(graph.commit(0).as_str(), "a");
    assert_eq!(graph.commit(1).as_str(), "b");
    assert_eq!(graph.commit(2).as_str(), "mid");
}

#[test]
fn each_pair_is_asked_once_in_canonical_order() {
    let (graph, asked) = close(&["a", "b", "d"], tree);
    assert!(graph.is_ok());
    for (first, second) in &asked {
        assert!(first >= second, "{first} stands before {second}");
    }
    let mut distinct = asked.clone();
    distinct.sort();
    distinct.dedup();
    assert_eq!(distinct.len(), asked.len());
    // Five nodes in the end: every unordered pair, and each node with itself.
    assert_eq!(asked.len(), 15);
}

#[test]
fn questions_counts_the_answers() {
    let mut builder = ClosureBuilder::new(&vec![id("a"), id("b")]);
    let mut answers = 0;
    loop {
        match builder.request() {
            Request::Ask(first, second) => {
                builder.answer(tree(first.as_str(), second.as_str()).map(id));
                answers += 1;
                assert_eq!(builder.questions(), answers);
            }
            Request::Known => {
                let before = builder.questions();
                assert!(builder.step());
                assert_eq!(builder.questions(), before);
            }
            Request::Finished => break,
            Request::Failed => panic!("the oracle never fails here"),
        }
    }
    // a, b, mid: three pairs of different nodes and three of a node with itself.
    assert_eq!(answers, 6);
}

#[test]
fn unasked_answer_is_ignored() {
    let mut builder = ClosureBuilder::new(&vec![id("a")]);
    builder.answer(Some(id("a")));
    assert!(matches!(builder.request(), Request::Known));
    builder.answer(Some(id("zzz")));
    builder.answer(None);
    assert!(matches!(builder.request(), Request::Known));
    assert!(builder.step());
    assert!(matches!(builder.request(), Request::Finished));
    assert!(!builder.step());
    let graph = builder.finish().expect("the closure is complete");
    assert_eq!(graph.len(), 1);
}

#[test]
fn step_without_answer_does_nothing() {
    let mut builder = ClosureBuilder::new(&vec![id("a"), id("b")]);
    assert!(!builder.step());
    assert_eq!(builder.graph().len(), 2);
    assert!(matches!(builder.request(), Request::Ask(_, _)));
}

#[test]
fn raw_closure_of_a_small_history() {
    let (graph, _) = close(&["a", "b", "d"], tree);
    let graph = graph.expect("the closure is complete");
    assert_eq!(graph.len(), 5);
    assert_eq!(children(&graph, "root"), vec!["a", "b", "d", "mid"]);
    assert_eq!(children(&graph, "mid"), vec!["a", "b"]);
    assert_eq!(parents(&graph, "a"), vec!["mid", "root"]);
    assert_eq!(parents(&graph, "b"), vec!["mid", "root"]);
    assert_eq!(parents(&graph, "d"), vec!["root"]);
    assert_eq!(parents(&graph, "mid"), vec!["root"]);
    assert_eq!(parents(&graph, "root"), Vec::<String>::new());
}

#[test]
fn closure_has_no_self_edges_and_agrees_both_ways() {
    let (graph, _) = close(&["a", "b", "d"], tree);
    let graph = graph.expect("the closure is complete");
    for v in 0..graph.len() {
        assert!(!graph.children_at(v).contains(&v));
        assert!(!graph.parents_at(v).contains(&v));
        for &c in graph.children_at(v) {
            assert!(graph.parents_at(c).contains(&v));
        }
        for &p in graph.parents_at(v) {
            assert!(graph.children_at(p).contains(&v));
        }
    }
}

#[test]
fn closure_joins_every_pair_to_a_common_node() {
    let (graph, _) = close(&["a", "b", "d"], tree);
    let graph = graph.expect("the closure is complete");
    for x in 0..graph.len() {
        for y in 0..graph.len() {
            let base = tree(graph.commit(x).as_str(), graph.commit(y).as_str()).unwrap();
            let b = graph.find(&id(base)).expect("the merge base has a node");
            assert!(b == x || graph.children_at(b).contains(&x));
            assert!(b == y || graph.children_at(b).contains(&y));
        }
    }
}

#[test]
fn closure_of_a_history_has_one_root() {
    let (graph, _) = close(&["a", "b", "d"], tree);
    let graph = graph.expect("the closure is complete");
    let roots: Vec<usize> = (0..graph.len()).filter(|&v| graph.parents_at(v).is_empty()).collect();
    assert_eq!(roots.len(), 1);
    assert_eq!(graph.root(), Ok(roots[0]));
    assert_eq!(graph.commit(roots[0]).as_str(), "root");
}

#[test]
fn ancestor_tip_becomes_the_root() {
    let (graph, _) = close(&["a", "mid"], tree);
    let mut graph = graph.expect("the closure is complete");
    assert_eq!(graph.len(), 2);
    assert_eq!(children(&graph, "mid"), vec!["a"]);
    assert_eq!(parents(&graph, "a"), vec!["mid"]);
    let root = graph.reduce().expect("the graph has a root");
    assert_eq!(graph.commit(root).as_str(), "mid");
}
