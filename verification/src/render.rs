//! The labels of the nodes and the text of the diagram.

use crate::adjacency::ints;
use crate::branches::{BranchLabels, LabelsModel};
use crate::commit::{short_id, Commit};
use crate::graph::{AncestryGraph, GraphModel};
use crate::text::{decimal, join, joined, texts, to_decimal};
use vstd::prelude::*;
use vstd::string::*;

verus! {

/// What painting may make of a text. Whether colours are used depends on
/// where the output goes and on variables such as `NO_COLOR`: the text comes
/// back as it is, or between an opening and a closing escape sequence, which
/// together take nine characters.
pub open spec fn painted_from(text: Seq<char>, painted: Seq<char>) -> bool {
    painted == text || painted.len() >= text.len() + 9
}

/// `painted` holds a painted form of each text of `plain`.
pub open spec fn all_painted_from(plain: Seq<Seq<char>>, painted: Seq<Seq<char>>) -> bool {
    &&& painted.len() == plain.len()
    &&& forall|k: int| 0 <= k < plain.len() ==> painted_from(plain[k], #[trigger] painted[k])
}

/// The label of a commit, from the painted forms of its short identifier
/// and of its branch names: the identifier alone where no branch points at
/// the commit, else the identifier, a blank, and the names with a comma and a
/// blank between them.
pub open spec fn label_text(hash: Seq<char>, names: Option<Seq<Seq<char>>>) -> Seq<char> {
    match names {
        None => hash,
        Some(list) => hash + " "@ + joined(list, ", "@),
    }
}

/// `label` is a label of the commit `id`: its short identifier, painted,
/// and after it the names of the branches that point at it, each painted.
pub open spec fn is_label(branches: LabelsModel, id: Seq<char>, label: Seq<char>) -> bool {
    match branches.names_of(id) {
        None => painted_from(short_id(id), label),
        Some(names) => exists|hash: Seq<char>, painted: Seq<Seq<char>>|
            painted_from(short_id(id), hash) && all_painted_from(names, painted) && label
                == #[trigger] label_text(hash, Some(painted)),
    }
}

/// The label of node `v`, or the empty text where the list has none for it.
pub open spec fn label_at(labels: Seq<Seq<char>>, v: int) -> Seq<char> {
    if 0 <= v < labels.len() {
        labels[v]
    } else {
        Seq::empty()
    }
}

/// The line that declares node `v`.
pub open spec fn node_line(v: int, label: Seq<char>) -> Seq<char> {
    "\t"@ + decimal(v as nat) + " [label=\""@ + label + "\"]"@
}

/// The line of the edge from node `v` to its child `c`.
pub open spec fn edge_line(v: int, c: int) -> Seq<char> {
    "\t"@ + decimal(v as nat) + " -> "@ + decimal(c as nat)
}

/// The declarations of the first `upto` nodes.
pub open spec fn node_lines(labels: Seq<Seq<char>>, upto: int) -> Seq<Seq<char>> {
    Seq::new(upto as nat, |v: int| node_line(v, label_at(labels, v)))
}

/// The lines of the first `upto` edges of node `v`.
pub open spec fn edge_lines_of(list: Seq<int>, v: int, upto: int) -> Seq<Seq<char>> {
    Seq::new(upto as nat, |k: int| edge_line(v, list[k]))
}

/// The lines of the edges of the first `upto` nodes, node by node.
pub open spec fn edge_lines(children: Seq<Seq<int>>, upto: int) -> Seq<Seq<char>>
    decreases upto,
{
    if upto <= 0 {
        Seq::empty()
    } else {
        edge_lines(children, upto - 1) + edge_lines_of(
            children[upto - 1],
            upto - 1,
            children[upto - 1].len() as int,
        )
    }
}

/// The diagram of a graph, line by line: the opening line, a declaration
/// for each node, a line for each edge from a node to a child, and the
/// closing line.
pub open spec fn digraph_lines(graph: GraphModel, labels: Seq<Seq<char>>) -> Seq<Seq<char>> {
    seq!["digraph {"@] + node_lines(labels, graph.nodes.len() as int) + edge_lines(
        graph.children,
        graph.nodes.len() as int,
    ) + seq!["}"@]
}

/// Calls `colored::Colorize::red` on `text` and writes the result out. The
/// crate decides by the terminal and by variables such as `NO_COLOR` whether
/// it adds escape sequences; the contract claims only what holds either way.
#[verifier::external_body]
fn paint_red(text: &str) -> (painted: String)
    ensures
        painted_from(text@, painted@),
{
    colored::Colorize::red(text).to_string()
}

/// Calls `colored::Colorize::green` on `text` and writes the result out. The
/// crate decides by the terminal and by variables such as `NO_COLOR` whether
/// it adds escape sequences; the contract claims only what holds either way.
#[verifier::external_body]
fn paint_green(text: &str) -> (painted: String)
    ensures
        painted_from(text@, painted@),
{
    colored::Colorize::green(text).to_string()
}

/// Puts a label together from the painted identifier and the painted names.
pub fn compose_label(hash: &str, names: Option<&Vec<String>>) -> (label: String)
    ensures
        label@ == label_text(
            hash@,
            match names {
                Some(list) => Some(texts(list@)),
                None => None,
            },
        ),
{
    let mut label = hash.to_owned();
    match names {
        None => {},
        Some(list) => {
            label.append(" ");
            let tail = join(list, ", ");
            label.append(tail.as_str());
        },
    }
    label
}

/// The label of a commit: the first characters of its identifier, in red,
/// and the names of the branches that point at it, in green.
pub fn name(branches: &BranchLabels, commit: &Commit) -> (label: String)
    requires
        branches@.wf(),
    ensures
        is_label(branches@, commit@, label@),
{
    let short = commit.short();
    let hash = paint_red(short.as_str());
    match branches.names_of(commit) {
        None => compose_label(hash.as_str(), None),
        Some(names) => {
            let mut painted: Vec<String> = Vec::new();
            let mut k: usize = 0;
            while k < names.len()
                invariant
                    k <= names.len(),
                    names.len() == branches@.names_of(commit@)->0.len(),
                    forall|j: int|
                        0 <= j < names.len() ==> (#[trigger] names[j])@ == branches@.names_of(
                            commit@,
                        )->0[j],
                    painted.len() == k,
                    forall|j: int|
                        0 <= j < k ==> painted_from(
                            branches@.names_of(commit@)->0[j],
                            (#[trigger] painted[j])@,
                        ),
                decreases names.len() - k,
            {
                painted.push(paint_green(names[k].as_str()));
                k += 1;
            }
            let label = compose_label(hash.as_str(), Some(&painted));
            proof {
                let plain = branches@.names_of(commit@)->0;
                assert(all_painted_from(plain, texts(painted@))) by {
                    assert forall|j: int| 0 <= j < plain.len() implies painted_from(
                        plain[j],
                        #[trigger] texts(painted@)[j],
                    ) by {
                        assert(texts(painted@)[j] == painted[j]@);
                    }
                }
                assert(label@ == label_text(hash@, Some(texts(painted@))));
            }
            label
        },
    }
}

/// The diagram of the graph with the given labels, one string for each line.
/// A node beyond the end of `labels` has an empty label.
pub fn digraph(graph: &AncestryGraph, labels: &Vec<String>) -> (lines: Vec<String>)
    requires
        graph@.wf(),
    ensures
        texts(lines@) == digraph_lines(graph@, texts(labels@)),
{
    let n = graph.len();
    let mut lines: Vec<String> = Vec::new();
    lines.push("digraph {".to_owned());
    let ghost head = seq!["digraph {"@];
    proof {
        assert(texts(lines@) =~= head + node_lines(texts(labels@), 0));
    }
    let mut v: usize = 0;
    while v < n
        invariant
            v <= n,
            n == graph@.nodes.len(),
            texts(lines@) == head + node_lines(texts(labels@), v as int),
        decreases n - v,
    {
        let mut line = "\t".to_owned();
        line.append(to_decimal(v).as_str());
        line.append(" [label=\"");
        if v < labels.len() {
            line.append(labels[v].as_str());
        }
        line.append("\"]");
        proof {
            assert(label_at(texts(labels@), v as int) == if v < labels.len() {
                labels[v as int]@
            } else {
                Seq::<char>::empty()
            });
            assert(line@ =~= node_line(v as int, label_at(texts(labels@), v as int)));
        }
        let ghost was = texts(lines@);
        lines.push(line);
        proof {
            assert(texts(lines@) =~= was.push(line@));
            assert(texts(lines@) =~= head + node_lines(texts(labels@), v + 1));
        }
        v += 1;
    }
    let ghost nodes = texts(lines@);
    let mut v: usize = 0;
    proof {
        assert(texts(lines@) =~= nodes + edge_lines(graph@.children, 0));
    }
    while v < n
        invariant
            v <= n,
            n == graph@.nodes.len(),
            graph@.wf(),
            texts(lines@) == nodes + edge_lines(graph@.children, v as int),
        decreases n - v,
    {
        let list = graph.children_at(v);
        let ghost before = texts(lines@);
        let mut k: usize = 0;
        proof {
            assert(texts(lines@) =~= before + edge_lines_of(
                graph@.children[v as int],
                v as int,
                0,
            ));
        }
        while k < list.len()
            invariant
                k <= list.len(),
                v < n,
                ints(list@) == graph@.children[v as int],
                texts(lines@) == before + edge_lines_of(
                    graph@.children[v as int],
                    v as int,
                    k as int,
                ),
            decreases list.len() - k,
        {
            let mut line = "\t".to_owned();
            line.append(to_decimal(v).as_str());
            line.append(" -> ");
            line.append(to_decimal(list[k]).as_str());
            proof {
                assert(ints(list@)[k as int] == list[k as int]);
                assert(line@ =~= edge_line(v as int, graph@.children[v as int][k as int]));
            }
            let ghost was = texts(lines@);
            lines.push(line);
            proof {
                assert(texts(lines@) =~= was.push(line@));
                assert(texts(lines@) =~= before + edge_lines_of(
                    graph@.children[v as int],
                    v as int,
                    k + 1,
                ));
            }
            k += 1;
        }
        proof {
            assert(ints(list@).len() == list.len());
            assert(texts(lines@) =~= nodes + edge_lines(graph@.children, v + 1));
        }
        v += 1;
    }
    let ghost was = texts(lines@);
    lines.push("}".to_owned());
    proof {
        assert(texts(lines@) =~= was.push("}"@));
        assert(texts(lines@) =~= digraph_lines(graph@, texts(labels@)));
    }
    lines
}

/// The diagram of the graph, each node labelled with its commit and the
/// branches that point at it.
pub fn render(graph: &AncestryGraph, branches: &BranchLabels) -> (lines: Vec<String>)
    requires
        graph@.wf(),
        branches@.wf(),
    ensures
        exists|labels: Seq<Seq<char>>|
            labels.len() == graph@.nodes.len() && (forall|v: int|
                0 <= v < labels.len() ==> is_label(branches@, graph@.nodes[v], #[trigger] labels[v]))
                && texts(lines@) == #[trigger] digraph_lines(graph@, labels),
{
    let n = graph.len();
    let mut labels: Vec<String> = Vec::new();
    let mut v: usize = 0;
    while v < n
        invariant
            v <= n,
            n == graph@.nodes.len(),
            graph@.wf(),
            branches@.wf(),
            labels.len() == v,
            forall|u: int|
                0 <= u < v ==> is_label(branches@, graph@.nodes[u], (#[trigger] labels[u])@),
        decreases n - v,
    {
        labels.push(name(branches, graph.commit(v)));
        v += 1;
    }
    let lines = digraph(graph, &labels);
    proof {
        let plain = texts(labels@);
        assert(plain.len() == graph@.nodes.len());
        assert forall|u: int| 0 <= u < plain.len() implies is_label(
            branches@,
            graph@.nodes[u],
            #[trigger] plain[u],
        ) by {
            assert(plain[u] == labels[u]@);
        }
    }
    lines
}

} // verus!
