//! The closure of a set of commits under merge bases, built step by step.
//!
//! The builder never consults the oracle itself. It says which pair of commits
//! it needs the merge base of; the caller finds the answer and hands it in;
//! the builder then connects the pair to its merge base and moves on.

use crate::adjacency::{
    connected, highest, lemma_highest, lemma_prune_from, lemma_prune_from_connected, list_ok,
    prune_from, ranked, reached_from, reaches,
};
use crate::commit::{ids, Commit};
use crate::error::EngineError;
use crate::graph::{AncestryGraph, GraphModel};
use crate::memo::{canonical, lemma_canonical_symmetric, MergeBaseMemo};
use vstd::prelude::*;

verus! {

/// The graph with a node for each of the first `done` commits of `tips`.
pub open spec fn with_nodes(graph: GraphModel, tips: Seq<Seq<char>>, done: int) -> GraphModel
    decreases done,
{
    if done <= 0 {
        graph
    } else {
        with_nodes(graph, tips, done - 1).with_node(tips[done - 1])
    }
}

/// Every node and edge of `old` is one of `new`, under the same number.
pub open spec fn graph_grows(old: GraphModel, new: GraphModel) -> bool {
    &&& old.nodes.len() <= new.nodes.len()
    &&& forall|v: int| 0 <= v < old.nodes.len() ==> #[trigger] new.nodes[v] == old.nodes[v]
    &&& forall|v: int, c: int|
        0 <= v < old.nodes.len() && #[trigger] old.children[v].contains(c)
            ==> new.children[v].contains(c)
    &&& forall|v: int, c: int|
        0 <= v < old.nodes.len() && #[trigger] old.parents[v].contains(c)
            ==> new.parents[v].contains(c)
}

/// Every answer of `old` is an answer of `new`.
pub open spec fn memo_grows(
    old: Map<(Seq<char>, Seq<char>), Seq<char>>,
    new: Map<(Seq<char>, Seq<char>), Seq<char>>,
) -> bool {
    forall|key: (Seq<char>, Seq<char>)| #[trigger]
        old.contains_key(key) ==> new.contains_key(key) && new[key] == old[key]
}

/// What can happen to a run: the oracle replies to the open question, with a
/// merge base or with nothing where it failed; or the builder is told to
/// connect the waiting pair.
pub enum Event {
    Reply(Option<Seq<char>>),
    Step,
}

/// Mathematical model of a closure under construction.
///
/// The nodes are taken up one after the other, in the order in which they
/// were added: `current` is the node being connected, `horizon` the number of
/// nodes that existed when it was taken up, and `cursor` the next of these
/// that it is to be paired with. `memo` holds the merge bases learnt so far.
pub struct ClosureModel {
    pub graph: GraphModel,
    pub memo: Map<(Seq<char>, Seq<char>), Seq<char>>,
    pub current: int,
    pub horizon: int,
    pub cursor: int,
    pub failed: bool,
}

impl ClosureModel {
    /// The state before the first step: a node for each tip, no edges, no
    /// answers.
    pub open spec fn start(tips: Seq<Seq<char>>) -> ClosureModel {
        let graph = with_nodes(GraphModel::empty(), tips, tips.len() as int);
        ClosureModel {
            graph,
            memo: Map::empty(),
            current: 0,
            horizon: graph.nodes.len() as int,
            cursor: 0,
            failed: false,
        }
    }

    /// A pair is waiting to be connected.
    pub open spec fn pending(self) -> bool {
        !self.failed && 0 <= self.current < self.graph.nodes.len()
    }

    /// Every node has been connected to every other.
    pub open spec fn finished(self) -> bool {
        !self.failed && self.current >= self.graph.nodes.len()
    }

    /// The pair that is waiting: the node being connected, and the existing
    /// node that it is paired with.
    pub open spec fn pair(self) -> (Seq<char>, Seq<char>) {
        (self.graph.nodes[self.current], self.graph.nodes[self.cursor])
    }

    /// The waiting pair in canonical form.
    pub open spec fn key(self) -> (Seq<char>, Seq<char>) {
        canonical(self.pair().0, self.pair().1)
    }

    /// The merge base of the waiting pair has to be asked for.
    pub open spec fn asks(self) -> bool {
        self.pending() && !self.memo.contains_key(self.key())
    }

    /// The merge base of the waiting pair is known.
    pub open spec fn knows(self) -> bool {
        self.pending() && self.memo.contains_key(self.key())
    }

    /// The state after the oracle's reply to the question asked: the answer
    /// is remembered, or the run has failed. Where no question is open the
    /// reply is ignored.
    pub open spec fn answer(self, reply: Option<Seq<char>>) -> ClosureModel {
        if self.asks() {
            match reply {
                Some(base) => ClosureModel { memo: self.memo.insert(self.key(), base), ..self },
                None => ClosureModel { failed: true, ..self },
            }
        } else {
            self
        }
    }

    /// The state with `graph` in place of the graph and the waiting pair
    /// done: the next pair is the same node with the next existing node, or,
    /// where there is none, the next node with the first of all nodes that
    /// exist by now.
    pub open spec fn moved_on(self, graph: GraphModel) -> ClosureModel {
        if self.cursor + 1 < self.horizon {
            ClosureModel { graph, cursor: self.cursor + 1, ..self }
        } else {
            ClosureModel {
                graph,
                current: self.current + 1,
                horizon: graph.nodes.len() as int,
                cursor: 0,
                ..self
            }
        }
    }

    /// The state after connecting the waiting pair, where its merge base is
    /// known: the base gets a node if it has none, both nodes of the pair
    /// become its children, the existing node first, and it becomes their
    /// parent. Where the base is not known nothing happens.
    pub open spec fn step(self) -> ClosureModel {
        if self.knows() {
            let base = self.memo[self.key()];
            let grown = self.graph.with_node(base);
            let b = grown.position(base);
            self.moved_on(grown.link(b, self.cursor).link(b, self.current))
        } else {
            self
        }
    }

    /// The state after one event.
    pub open spec fn after(self, event: Event) -> ClosureModel {
        match event {
            Event::Reply(reply) => self.answer(reply),
            Event::Step => self.step(),
        }
    }

    /// The state after the first `done` of a sequence of events.
    pub open spec fn after_all(self, events: Seq<Event>, done: int) -> ClosureModel
        decreases done,
    {
        if done <= 0 {
            self
        } else {
            self.after_all(events, done - 1).after(events[done - 1])
        }
    }

    /// The questions that the oracle was consulted for during the first
    /// `done` events: the pair that was open, in canonical form, each time a
    /// reply came to an open question.
    pub open spec fn consulted(self, events: Seq<Event>, done: int) -> Seq<(Seq<char>, Seq<char>)>
        decreases done,
    {
        if done <= 0 {
            Seq::empty()
        } else {
            let before = self.after_all(events, done - 1);
            let so_far = self.consulted(events, done - 1);
            if events[done - 1] is Reply && before.asks() {
                so_far.push(before.key())
            } else {
                so_far
            }
        }
    }

    /// A bound on the steps still to come, where the graph never has more
    /// than `bound` nodes: each node is paired with at most `bound` others.
    pub open spec fn remaining(self, bound: int) -> int {
        (bound - self.current) * (bound + 1) - self.cursor
    }

    /// Node `b` is node `x`, or its parent.
    pub open spec fn joined(self, b: int, x: int) -> bool {
        b == x || (self.graph.children[b].contains(x) && self.graph.parents[x].contains(b))
    }

    /// Node `b` stands for the recorded merge base of nodes `x` and `y`.
    pub open spec fn vouches(self, x: int, y: int, b: int) -> bool {
        let key = canonical(self.graph.nodes[x], self.graph.nodes[y]);
        &&& 0 <= y < self.graph.nodes.len()
        &&& self.memo.contains_key(key)
        &&& self.memo[key] == self.graph.nodes[b]
    }

    /// The merge base of nodes `x` and `y` is known, has a node of its own,
    /// and this node is joined to both.
    pub open spec fn linked(self, x: int, y: int) -> bool {
        exists|b: int|
            0 <= b < self.graph.nodes.len() && #[trigger] self.vouches(x, y, b) && self.joined(b, x)
                && self.joined(b, y)
    }

    /// Every parent of a node is the recorded merge base of that node and
    /// some other.
    pub open spec fn justified(self) -> bool {
        forall|x: int, b: int|
            #![trigger self.graph.parents[x].contains(b)]
            0 <= x < self.graph.nodes.len() && self.graph.parents[x].contains(b) ==> exists|y: int|
             #[trigger] self.vouches(x, y, b)
    }

    /// What holds of every state of a run: the graph is well-formed and its
    /// two lists agree; the nodes before `current` are linked to one
    /// another, and `current` to the nodes before `cursor`; and no edge is
    /// there without a recorded merge base.
    pub open spec fn inv(self) -> bool {
        &&& self.graph.wf()
        &&& self.graph.symmetric()
        &&& 0 <= self.current <= self.graph.nodes.len()
        &&& self.current < self.graph.nodes.len() ==> 0 <= self.cursor < self.horizon
            <= self.graph.nodes.len() && self.current < self.horizon
        &&& forall|x: int, y: int|
            0 <= x < self.current && 0 <= y < self.current ==> #[trigger] self.linked(x, y)
        &&& self.current < self.graph.nodes.len() ==> forall|y: int|
            0 <= y < self.cursor ==> #[trigger] self.linked(self.current, y)
        &&& self.justified()
    }

    /// Adding the tips one by one gives a well-formed graph without edges.
    pub proof fn lemma_with_nodes(tips: Seq<Seq<char>>, done: int)
        ensures
            with_nodes(GraphModel::empty(), tips, done).wf(),
            with_nodes(GraphModel::empty(), tips, done).symmetric(),
            forall|v: int|
                0 <= v < with_nodes(GraphModel::empty(), tips, done).nodes.len() ==> (
                #[trigger] with_nodes(GraphModel::empty(), tips, done).parents[v]).len() == 0
                    && with_nodes(GraphModel::empty(), tips, done).children[v].len() == 0,
            forall|k: int|
                0 <= k < done && k < tips.len() ==> with_nodes(GraphModel::empty(), tips, done).has(
                    #[trigger] tips[k],
                ),
        decreases done,
    {
        if done > 0 {
            Self::lemma_with_nodes(tips, done - 1);
            let front = with_nodes(GraphModel::empty(), tips, done - 1);
            front.lemma_with_node(tips[done - 1]);
            let all = front.with_node(tips[done - 1]);
            assert forall|k: int| 0 <= k < done && k < tips.len() implies all.has(
                #[trigger] tips[k],
            ) by {
                if k < done - 1 {
                    let w = front.nodes.index_of(tips[k]);
                    assert(front.nodes.contains(tips[k]));
                    assert(all.nodes[w] == tips[k]);
                }
            }
        }
    }

    /// The first state of a run is in order.
    pub proof fn lemma_start(tips: Seq<Seq<char>>)
        ensures
            Self::start(tips).inv(),
            !Self::start(tips).failed,
    {
        Self::lemma_with_nodes(tips, tips.len() as int);
        let m = Self::start(tips);
        assert forall|x: int, b: int|
            #![trigger m.graph.parents[x].contains(b)]
            0 <= x < m.graph.nodes.len() && m.graph.parents[x].contains(b) implies exists|y: int|
             #[trigger] m.vouches(x, y, b) by {
            assert(m.graph.parents[x].len() == 0);
        }
    }

    /// A node keeps its number when the graph grows.
    pub proof fn lemma_vouches_grows(self, new: ClosureModel, x: int, y: int, b: int)
        requires
            graph_grows(self.graph, new.graph),
            memo_grows(self.memo, new.memo),
            0 <= x < self.graph.nodes.len(),
            0 <= b < self.graph.nodes.len(),
            self.vouches(x, y, b),
        ensures
            new.vouches(x, y, b),
    {
    }

    /// Nodes that are linked stay linked when graph and memo grow.
    pub proof fn lemma_linked_grows(self, new: ClosureModel, x: int, y: int)
        requires
            graph_grows(self.graph, new.graph),
            memo_grows(self.memo, new.memo),
            0 <= x < self.graph.nodes.len(),
            self.linked(x, y),
        ensures
            new.linked(x, y),
    {
        let b = choose|b: int|
            0 <= b < self.graph.nodes.len() && #[trigger] self.vouches(x, y, b) && self.joined(b, x)
                && self.joined(b, y);
        self.lemma_vouches_grows(new, x, y, b);
        assert(new.joined(b, x));
        assert(new.joined(b, y));
    }

    /// Being linked does not depend on the order of the two nodes.
    pub proof fn lemma_linked_symmetric(self, x: int, y: int)
        requires
            0 <= x < self.graph.nodes.len(),
            self.linked(x, y),
        ensures
            self.linked(y, x),
    {
        let b = choose|b: int|
            0 <= b < self.graph.nodes.len() && #[trigger] self.vouches(x, y, b) && self.joined(b, x)
                && self.joined(b, y);
        lemma_canonical_symmetric(self.graph.nodes[x], self.graph.nodes[y]);
        assert(self.vouches(y, x, b));
    }

    /// Taking in a reply keeps the state in order.
    pub proof fn lemma_answer(self, reply: Option<Seq<char>>)
        requires
            self.inv(),
        ensures
            self.answer(reply).inv(),
            memo_grows(self.memo, self.answer(reply).memo),
            self.answer(reply).graph == self.graph,
    {
        let new = self.answer(reply);
        assert(graph_grows(self.graph, new.graph));
        assert(memo_grows(self.memo, new.memo));
        assert forall|x: int, y: int|
            0 <= x < new.current && 0 <= y < new.current implies #[trigger] new.linked(x, y) by {
            assert(self.linked(x, y));
            self.lemma_linked_grows(new, x, y);
        }
        if new.current < new.graph.nodes.len() {
            assert forall|y: int| 0 <= y < new.cursor implies #[trigger] new.linked(
                new.current,
                y,
            ) by {
                assert(self.linked(self.current, y));
                self.lemma_linked_grows(new, new.current, y);
            }
        }
        assert forall|x: int, b: int|
            #![trigger new.graph.parents[x].contains(b)]
            0 <= x < new.graph.nodes.len() && new.graph.parents[x].contains(b) implies exists|
            y: int,
        |
             #[trigger] new.vouches(x, y, b) by {
            assert(self.graph.parents[x].contains(b));
            let y = choose|y: int| #[trigger] self.vouches(x, y, b);
            assert(0 <= b < self.graph.nodes.len()) by {
                let k = choose|k: int|
                    0 <= k < self.graph.parents[x].len() && self.graph.parents[x][k] == b;
                assert(0 <= self.graph.parents[x][k] < self.graph.nodes.len());
            }
            self.lemma_vouches_grows(new, x, y, b);
        }
    }

    /// Connecting a pair keeps the state in order.
    pub proof fn lemma_step(self)
        requires
            self.inv(),
        ensures
            self.step().inv(),
            graph_grows(self.graph, self.step().graph),
            self.step().memo == self.memo,
            self.step().failed == self.failed,
    {
        if self.knows() {
            let n = self.graph.nodes.len() as int;
            let base = self.memo[self.key()];
            let grown = self.graph.with_node(base);
            let b = grown.position(base);
            let half = grown.link(b, self.cursor);
            let full = half.link(b, self.current);
            let new = self.step();
            self.graph.lemma_with_node(base);
            grown.lemma_link(b, self.cursor);
            half.lemma_link(b, self.current);
            assert(new.graph == full);
            assert(graph_grows(self.graph, full)) by {
                assert forall|v: int, c: int|
                    0 <= v < n && #[trigger] self.graph.children[v].contains(
                        c,
                    ) implies full.children[v].contains(c) by {
                    assert(grown.children[v] == self.graph.children[v]);
                    assert(half.children[v].contains(c));
                }
                assert forall|v: int, c: int|
                    0 <= v < n && #[trigger] self.graph.parents[v].contains(
                        c,
                    ) implies full.parents[v].contains(c) by {
                    assert(grown.parents[v] == self.graph.parents[v]);
                    assert(half.parents[v].contains(c));
                }
                assert forall|v: int| 0 <= v < n implies #[trigger] full.nodes[v]
                    == self.graph.nodes[v] by {
                    assert(grown.nodes[v] == self.graph.nodes[v]);
                }
            }
            assert(memo_grows(self.memo, new.memo));
            // The pair just connected is linked.
            assert(new.vouches(self.current, self.cursor, b)) by {
                assert(grown.nodes[self.current] == self.graph.nodes[self.current]);
                assert(grown.nodes[self.cursor] == self.graph.nodes[self.cursor]);
            }
            assert(new.joined(b, self.cursor)) by {
                if b != self.cursor {
                    assert(half.children[b].contains(self.cursor));
                    assert(half.parents[self.cursor].contains(b));
                    assert(full.children[b].contains(self.cursor));
                    assert(full.parents[self.cursor].contains(b));
                }
            }
            assert(new.joined(b, self.current)) by {
                if b != self.current {
                    assert(full.children[b].contains(self.current));
                    assert(full.parents[self.current].contains(b));
                }
            }
            assert(new.linked(self.current, self.cursor));
            assert forall|x: int, y: int|
                0 <= x < new.current && 0 <= y < new.current implies #[trigger] new.linked(
                x,
                y,
            ) by {
                if x < self.current && y < self.current {
                    assert(self.linked(x, y));
                    self.lemma_linked_grows(new, x, y);
                } else {
                    // The row of `current` is complete.
                    let other = if x == self.current {
                        y
                    } else {
                        x
                    };
                    if other < self.cursor {
                        assert(self.linked(self.current, other));
                        self.lemma_linked_grows(new, self.current, other);
                    } else {
                        assert(other == self.cursor);
                    }
                    assert(new.linked(self.current, other));
                    if x != self.current {
                        new.lemma_linked_symmetric(self.current, other);
                    }
                }
            }
            if new.current < new.graph.nodes.len() {
                assert forall|y: int| 0 <= y < new.cursor implies #[trigger] new.linked(
                    new.current,
                    y,
                ) by {
                    if y < self.cursor {
                        assert(self.linked(self.current, y));
                        self.lemma_linked_grows(new, self.current, y);
                    }
                }
            }
            assert forall|x: int, p: int|
                #![trigger new.graph.parents[x].contains(p)]
                0 <= x < new.graph.nodes.len() && new.graph.parents[x].contains(p) implies exists|
                y: int,
            |
                 #[trigger] new.vouches(x, y, p) by {
                if x < grown.nodes.len() && half.parents[x].contains(p) {
                    if grown.parents[x].contains(p) {
                        assert(x < n) by {
                            if x >= n {
                                assert(grown.parents[x] =~= Seq::<int>::empty());
                            }
                        }
                        assert(grown.parents[x] == self.graph.parents[x]);
                        assert(self.graph.parents[x].contains(p));
                        let y = choose|y: int| #[trigger] self.vouches(x, y, p);
                        assert(0 <= p < n) by {
                            let k = choose|k: int|
                                0 <= k < self.graph.parents[x].len() && self.graph.parents[x][k]
                                    == p;
                            assert(0 <= self.graph.parents[x][k] < n);
                        }
                        self.lemma_vouches_grows(new, x, y, p);
                    } else {
                        assert(p == b && x == self.cursor);
                        lemma_canonical_symmetric(
                            self.graph.nodes[self.current],
                            self.graph.nodes[self.cursor],
                        );
                        assert(new.vouches(self.cursor, self.current, b));
                    }
                } else {
                    assert(p == b && x == self.current);
                    assert(new.vouches(self.current, self.cursor, b));
                }
            }
        } else {
            assert(graph_grows(self.graph, self.graph));
        }
    }
    /// A run comes to an end where the commits come from a finite history:
    /// as long as the graph has no more than `bound` nodes, every step that
    /// connects a pair brings the bound on the steps still to come down, and
    /// that bound never falls below zero.
    pub proof fn lemma_step_progress(self, bound: int)
        requires
            self.inv(),
            self.knows(),
            self.step().graph.nodes.len() <= bound,
        ensures
            0 <= self.step().remaining(bound) < self.remaining(bound),
    {
        self.lemma_step();
        let next = self.step();
        let n = self.graph.nodes.len() as int;
        assert(n <= next.graph.nodes.len());
        let c = self.current;
        let j = self.cursor;
        assert(0 <= c < n && 0 <= j < self.horizon <= n && n <= bound);
        if j + 1 < self.horizon {
            assert(next.current == c && next.cursor == j + 1);
            assert((bound - c) * (bound + 1) - (j + 1) >= 0) by (nonlinear_arith)
                requires
                    bound - c >= 1,
                    0 <= j + 1 <= bound,
            ;
        } else {
            assert(next.current == c + 1 && next.cursor == 0);
            assert((bound - (c + 1)) * (bound + 1) == (bound - c) * (bound + 1) - (bound + 1))
                by (nonlinear_arith);
            assert((bound - (c + 1)) * (bound + 1) >= 0) by (nonlinear_arith)
                requires
                    bound - (c + 1) >= 0,
                    bound + 1 >= 0,
            ;
        }
    }

    /// However a run goes, the oracle is consulted at most once for a pair
    /// of commits, in whichever order the pair comes up, and never for a pair
    /// whose merge base was known at the start.
    pub proof fn lemma_consulted_once(self, events: Seq<Event>, done: int)
        requires
            self.inv(),
            0 <= done <= events.len(),
        ensures
            self.after_all(events, done).inv(),
            memo_grows(self.memo, self.after_all(events, done).memo),
            self.consulted(events, done).no_duplicates(),
            forall|i: int|
                0 <= i < self.consulted(events, done).len() ==> !self.memo.contains_key(
                    #[trigger] self.consulted(events, done)[i],
                ),
            forall|i: int|
                0 <= i < self.consulted(events, done).len() ==> self.after_all(
                    events,
                    done,
                ).failed || self.after_all(events, done).memo.contains_key(
                    #[trigger] self.consulted(events, done)[i],
                ),
        decreases done,
    {
        if done > 0 {
            self.lemma_consulted_once(events, done - 1);
            let before = self.after_all(events, done - 1);
            let so_far = self.consulted(events, done - 1);
            let now = before.after(events[done - 1]);
            before.lemma_answer(
                match events[done - 1] {
                    Event::Reply(reply) => reply,
                    Event::Step => None,
                },
            );
            before.lemma_step();
            assert(memo_grows(before.memo, now.memo));
            if events[done - 1] is Reply && before.asks() {
                let all = so_far.push(before.key());
                assert(!before.failed);
                assert forall|i: int, j: int| 0 <= i < j < all.len() implies all[i] != all[j] by {
                    if j == so_far.len() {
                        assert(before.memo.contains_key(so_far[i]));
                    }
                }
                assert forall|i: int| 0 <= i < all.len() implies !self.memo.contains_key(
                    #[trigger] all[i],
                ) by {
                    if i < so_far.len() {
                        assert(!self.memo.contains_key(so_far[i]));
                    }
                }
                assert forall|i: int| 0 <= i < all.len() implies now.failed
                    || now.memo.contains_key(#[trigger] all[i]) by {
                    if i < so_far.len() {
                        assert(before.memo.contains_key(so_far[i]));
                    }
                }
            } else {
                assert forall|i: int| 0 <= i < so_far.len() implies now.failed
                    || now.memo.contains_key(#[trigger] so_far[i]) by {
                    if !before.failed {
                        assert(before.memo.contains_key(so_far[i]));
                    }
                }
            }
        }
    }

    /// Once the run has finished, any two nodes have a common node that each
    /// of them either is or has as a parent, namely the node of their
    /// recorded merge base.
    pub proof fn lemma_complete(self, x: int, y: int)
        requires
            self.inv(),
            self.finished(),
            0 <= x < self.graph.nodes.len(),
            0 <= y < self.graph.nodes.len(),
        ensures
            self.linked(x, y),
            exists|b: int|
                0 <= b < self.graph.nodes.len() && #[trigger] self.vouches(x, y, b) && (b == x
                    || self.graph.children[b].contains(x)) && (b == y
                    || self.graph.children[b].contains(y)),
    {
        assert(self.linked(x, y));
        let b = choose|b: int|
            0 <= b < self.graph.nodes.len() && #[trigger] self.vouches(x, y, b) && self.joined(b, x)
                && self.joined(b, y);
        assert(self.vouches(x, y, b));
    }

    /// Once the run has finished, at most one node is without a parent.
    pub proof fn lemma_root_unique(self, v: int, w: int)
        requires
            self.inv(),
            self.finished(),
            self.graph.is_root(v),
            self.graph.is_root(w),
        ensures
            v == w,
    {
        self.lemma_complete(v, w);
        let b = choose|b: int|
            0 <= b < self.graph.nodes.len() && #[trigger] self.vouches(v, w, b) && self.joined(b, v)
                && self.joined(b, w);
        if b != v {
            let list = self.graph.parents[v];
            let k = choose|k: int| 0 <= k < list.len() && list[k] == b;
        }
        if b != w {
            let list = self.graph.parents[w];
            let k = choose|k: int| 0 <= k < list.len() && list[k] == b;
        }
    }

    /// Every recorded merge base that differs from a commit of its pair has
    /// a lower rank than that commit, as an ancestor has in a history
    /// without cycles.
    pub open spec fn descends(self, rank: spec_fn(Seq<char>) -> nat) -> bool {
        forall|key: (Seq<char>, Seq<char>)| #[trigger]
            self.memo.contains_key(key) ==> (self.memo[key] != key.0 ==> rank(self.memo[key])
                < rank(key.0)) && (self.memo[key] != key.1 ==> rank(self.memo[key]) < rank(
                key.1,
            ))
    }

    /// A node of lowest rank among the first `upto`.
    pub open spec fn lowest(self, rank: spec_fn(Seq<char>) -> nat, upto: int) -> int
        decreases upto,
    {
        if upto <= 1 {
            0
        } else {
            let front = self.lowest(rank, upto - 1);
            if rank(self.graph.nodes[upto - 1]) < rank(self.graph.nodes[front]) {
                upto - 1
            } else {
                front
            }
        }
    }

    /// `lowest` is a node, and no node before `upto` has a lower rank.
    pub proof fn lemma_lowest(self, rank: spec_fn(Seq<char>) -> nat, upto: int)
        requires
            1 <= upto <= self.graph.nodes.len(),
        ensures
            0 <= self.lowest(rank, upto) < upto,
            forall|v: int|
                0 <= v < upto ==> rank(self.graph.nodes[self.lowest(rank, upto)]) <= rank(
                    #[trigger] self.graph.nodes[v],
                ),
        decreases upto,
    {
        if upto > 1 {
            self.lemma_lowest(rank, upto - 1);
        }
    }

    /// Where every merge base ranks below the commits it was found for, the
    /// rank falls from every node to its parents.
    pub proof fn lemma_ranked(self, rank: spec_fn(Seq<char>) -> nat)
        requires
            self.inv(),
            self.descends(rank),
        ensures
            ranked(self.graph.parents, |v: int| rank(self.graph.nodes[v])),
    {
        let by_node = |v: int| rank(self.graph.nodes[v]);
        assert forall|x: int, p: int|
            0 <= x < self.graph.parents.len() && #[trigger] self.graph.parents[x].contains(
                p,
            ) implies by_node(p) < by_node(x) by {
            let list = self.graph.parents[x];
            let k = choose|k: int| 0 <= k < list.len() && list[k] == p;
            assert(0 <= list[k] < self.graph.nodes.len());
            let y = choose|y: int| #[trigger] self.vouches(x, y, p);
            assert(self.vouches(x, y, p));
            let key = canonical(self.graph.nodes[x], self.graph.nodes[y]);
            assert(self.memo.contains_key(key));
            assert(p != x);
            assert(self.graph.nodes[p] != self.graph.nodes[x]);
        }
    }

    /// A finished closure over a history without cycles can be reduced, and
    /// reducing it twice is reducing it once.
    pub proof fn lemma_reduces(self, rank: spec_fn(Seq<char>) -> nat)
        requires
            self.inv(),
            self.finished(),
            self.graph.nodes.len() > 0,
            self.descends(rank),
        ensures
            self.graph.reduce() is Ok,
            self.graph.reduce()->Ok_0.reduce() == self.graph.reduce(),
    {
        self.lemma_one_root(rank);
        self.lemma_ranked(rank);
        self.graph.lemma_reduce_idempotent_ranked(|v: int| rank(self.graph.nodes[v]));
    }

    /// In the reduced graph of a finished closure over a history without
    /// cycles, the node of the merge base of any two nodes still leads to
    /// both, by some path of edges from parent to child.
    pub proof fn lemma_reduced_complete(self, rank: spec_fn(Seq<char>) -> nat, x: int, y: int)
        requires
            self.inv(),
            self.finished(),
            self.descends(rank),
            0 <= x < self.graph.nodes.len(),
            0 <= y < self.graph.nodes.len(),
        ensures
            self.graph.reduce() is Ok,
            exists|b: int|
                0 <= b < self.graph.nodes.len() && #[trigger] self.vouches(x, y, b) && connected(
                    self.graph.reduce()->Ok_0.children,
                    b,
                    x,
                ) && connected(self.graph.reduce()->Ok_0.children, b, y),
    {
        let g = self.graph;
        let n = g.nodes.len() as int;
        self.lemma_one_root(rank);
        self.lemma_ranked(rank);
        let root = g.root()->Ok_0;
        let down = g.prune_children(root);
        let order = down.leaf_order();
        g.lemma_prune_wf(root);
        down.lemma_prune_parents_each(order, order.len() as int);
        let pruned = prune_from(g.children, root);
        assert(g.reduce()->Ok_0.children == pruned);
        // A rank that falls from parent to child.
        let by_node = |v: int| rank(g.nodes[v]);
        let all = Seq::new(n as nat, |i: int| i);
        lemma_highest(all, by_node, n);
        let top = by_node(all[highest(all, by_node, n)]);
        let depth = |v: int|
            if 0 <= v < n {
                (top - by_node(v)) as nat
            } else {
                0nat
            };
        assert(ranked(g.children, depth)) by {
            assert forall|v: int, c: int|
                0 <= v < g.children.len() && #[trigger] g.children[v].contains(c) implies depth(c)
                < depth(v) by {
                let list = g.children[v];
                let k = choose|k: int| 0 <= k < list.len() && list[k] == c;
                assert(list_ok(list, n));
                assert(0 <= list[k] < n);
                assert(g.parents[c].contains(v));
                assert(by_node(v) < by_node(c));
                assert(by_node(all[c]) <= top);
                assert(by_node(all[v]) <= top);
            }
        }
        // The walk from the root comes to every node.
        let reached = reached_from(g.children, root);
        lemma_prune_from(g.children, root, Set::empty());
        assert(reached.contains(root));
        assert forall|z: int| 0 <= z < n implies reached.contains(z) by {
            self.lemma_complete(root, z);
            let b = choose|b: int|
                0 <= b < n && #[trigger] self.vouches(root, z, b) && self.joined(b, root)
                    && self.joined(b, z);
            if b != root {
                let list = g.parents[root];
                let k = choose|k: int| 0 <= k < list.len() && list[k] == b;
            }
            if z != root {
                lemma_prune_from_connected(g.children, root, depth, root, z);
            }
        }
        self.lemma_complete(x, y);
        let b = choose|b: int|
            0 <= b < n && #[trigger] self.vouches(x, y, b) && (b == x || g.children[b].contains(x))
                && (b == y || g.children[b].contains(y));
        if b == x {
            assert(reaches(pruned, b, x, 0));
        } else {
            lemma_prune_from_connected(g.children, root, depth, b, x);
        }
        if b == y {
            assert(reaches(pruned, b, y, 0));
        } else {
            lemma_prune_from_connected(g.children, root, depth, b, y);
        }
        assert(self.vouches(x, y, b));
    }

    /// Where the merge bases come from a history without cycles, a finished
    /// closure with at least one node has exactly one node without a parent.
    pub proof fn lemma_one_root(self, rank: spec_fn(Seq<char>) -> nat)
        requires
            self.inv(),
            self.finished(),
            self.graph.nodes.len() > 0,
            self.descends(rank),
        ensures
            self.graph.root() is Ok,
            self.graph.only_root(self.graph.root()->Ok_0),
    {
        let n = self.graph.nodes.len() as int;
        let m = self.lowest(rank, n);
        self.lemma_lowest(rank, n);
        let list = self.graph.parents[m];
        if list.len() > 0 {
            let p = list[0];
            assert(list.contains(p));
            assert(0 <= p < n);
            let y = choose|y: int| #[trigger] self.vouches(m, y, p);
            assert(self.vouches(m, y, p));
            let key = canonical(self.graph.nodes[m], self.graph.nodes[y]);
            assert(self.memo.contains_key(key));
            assert(p != m);
            assert(self.graph.nodes[p] != self.graph.nodes[m]);
            assert(rank(self.graph.nodes[m]) <= rank(self.graph.nodes[p]));
            assert(false);
        }
        assert(self.graph.is_root(m));
        assert forall|w: int| self.graph.is_root(w) implies w == m by {
            self.lemma_root_unique(w, m);
        }
        assert(self.graph.only_root(m));
        let r = choose|v: int| self.graph.only_root(v);
        assert(self.graph.only_root(r));
    }
}

/// The identifier that a reply holds.
pub open spec fn reply_id(reply: Option<Commit>) -> Option<Seq<char>> {
    match reply {
        Some(base) => Some(base@),
        None => None,
    }
}

/// What the builder needs next.
pub enum Request {
    /// The merge base of these two commits, to be handed to `answer`. The
    /// pair is in canonical order, as the memo keeps it.
    Ask(Commit, Commit),
    /// Nothing from outside: the merge base of the waiting pair is known, and
    /// `step` will connect the pair.
    Known,
    /// Nothing any more: the closure is complete.
    Finished,
    /// Nothing any more: the oracle failed on a question, and the run is
    /// over.
    Failed,
}

/// A closure under construction. Its view is a `ClosureModel`.
pub struct ClosureBuilder {
    graph: AncestryGraph,
    memo: MergeBaseMemo,
    current: usize,
    horizon: usize,
    cursor: usize,
    failed: bool,
}

impl View for ClosureBuilder {
    type V = ClosureModel;

    closed spec fn view(&self) -> ClosureModel {
        ClosureModel {
            graph: self.graph@,
            memo: self.memo@,
            current: self.current as int,
            horizon: self.horizon as int,
            cursor: self.cursor as int,
            failed: self.failed,
        }
    }
}

impl ClosureBuilder {
    /// The builder is in a state that a run can reach.
    pub closed spec fn wf(&self) -> bool {
        self.memo.wf() && self@.inv()
    }

    /// What `wf` says of the model.
    pub proof fn lemma_wf(&self)
        requires
            self.wf(),
        ensures
            self@.inv(),
    {
    }

    /// Starts a run on the given tips. A tip given twice counts once.
    pub fn new(tips: &Vec<Commit>) -> (builder: ClosureBuilder)
        ensures
            builder.wf(),
            builder@ == ClosureModel::start(ids(tips@)),
    {
        let mut graph = AncestryGraph::new();
        let mut k: usize = 0;
        proof {
            ClosureModel::lemma_with_nodes(ids(tips@), 0);
        }
        while k < tips.len()
            invariant
                k <= tips.len(),
                graph@.wf(),
                graph@ == with_nodes(GraphModel::empty(), ids(tips@), k as int),
            decreases tips.len() - k,
        {
            graph.insert(tips[k].clone());
            k += 1;
        }
        let horizon = graph.len();
        let builder = ClosureBuilder {
            graph,
            memo: MergeBaseMemo::new(),
            current: 0,
            horizon,
            cursor: 0,
            failed: false,
        };
        proof {
            ClosureModel::lemma_start(ids(tips@));
        }
        builder
    }

    /// What the builder needs next.
    pub fn request(&self) -> (request: Request)
        requires
            self.wf(),
        ensures
            match request {
                Request::Ask(first, second) => self@.asks() && (first@, second@) == self@.key(),
                Request::Known => self@.knows(),
                Request::Finished => self@.finished(),
                Request::Failed => self@.failed,
            },
    {
        if self.failed {
            return Request::Failed;
        }
        if self.current >= self.graph.len() {
            return Request::Finished;
        }
        let node = self.graph.commit(self.current);
        let other = self.graph.commit(self.cursor);
        match self.memo.merge_base(node, other) {
            Some(_) => Request::Known,
            None => {
                let pair = MergeBaseMemo::canonical_pair(node, other);
                Request::Ask(pair.0, pair.1)
            },
        }
    }

    /// Takes in the oracle's reply to the question that `request` asked: the
    /// merge base of the pair, or nothing where the oracle failed, which ends
    /// the run. A reply that was not asked for is ignored.
    pub fn answer(&mut self, reply: Option<Commit>)
        requires
            old(self).wf(),
        ensures
            final(self).wf(),
            final(self)@ == old(self)@.answer(reply_id(reply)),
    {
        proof {
            self@.lemma_answer(reply_id(reply));
        }
        if self.failed || self.current >= self.graph.len() {
            return ;
        }
        match reply {
            Some(base) => {
                let node = self.graph.commit(self.current);
                let other = self.graph.commit(self.cursor);
                self.memo.record(node, other, base);
            },
            None => {
                let node = self.graph.commit(self.current);
                let other = self.graph.commit(self.cursor);
                if self.memo.merge_base(node, other).is_none() {
                    self.failed = true;
                }
            },
        }
    }

    /// Connects the waiting pair to its merge base, if that is known, and
    /// moves on to the next pair. Returns whether it did.
    pub fn step(&mut self) -> (moved: bool)
        requires
            old(self).wf(),
        ensures
            final(self).wf(),
            final(self)@ == old(self)@.step(),
            moved == old(self)@.knows(),
    {
        proof {
            self@.lemma_step();
        }
        if self.failed || self.current >= self.graph.len() {
            return false;
        }
        let node = self.graph.commit(self.current);
        let other = self.graph.commit(self.cursor);
        match self.memo.merge_base(node, other) {
            None => false,
            Some(base) => {
                let ghost before = self.graph@;
                proof {
                    before.lemma_with_node(base@);
                }
                let at = self.graph.insert(base);
                self.graph.link(at, self.cursor);
                self.graph.link(at, self.current);
                if self.cursor + 1 < self.horizon {
                    self.cursor = self.cursor + 1;
                } else {
                    self.current = self.current + 1;
                    self.horizon = self.graph.len();
                    self.cursor = 0;
                }
                true
            },
        }
    }

    /// The graph as it stands.
    pub fn graph(&self) -> (graph: &AncestryGraph)
        requires
            self.wf(),
        ensures
            graph@ == self@.graph,
            graph@.wf(),
            graph@.symmetric(),
    {
        &self.graph
    }

    /// Number of questions that were put to the oracle and answered: one for
    /// each pair of commits whose merge base is known, however often and in
    /// whichever order the pair came up.
    pub fn questions(&self) -> (n: usize)
        requires
            self.wf(),
        ensures
            self@.memo.dom().finite(),
            n == self@.memo.dom().len(),
    {
        proof {
            self.memo.lemma_count();
        }
        self.memo.len()
    }

    /// Ends the run: the complete closure, or the failure of the oracle.
    /// Nothing is handed out of a run that failed.
    pub fn finish(self) -> (outcome: Result<AncestryGraph, EngineError>)
        requires
            self.wf(),
            !self@.pending(),
        ensures
            match outcome {
                Ok(graph) => self@.finished() && graph@ == self@.graph && graph@.wf()
                    && graph@.symmetric(),
                Err(e) => self@.failed && e == EngineError::Oracle,
            },
    {
        if self.failed {
            Err(EngineError::Oracle)
        } else {
            Ok(self.graph)
        }
    }
}

} // verus!
