//! The ancestry graph: commits as numbered nodes, with the children and the
//! parents of each node kept as two adjacency lists over the same nodes.

use crate::adjacency::{
    ints, lemma_prune_from, lemma_prune_from_idempotent, lemma_prune_run_keeps_some,
    lemma_prune_run_settled, list_contains, list_ok, lists, lists_ok, loop_free, prune,
    prune_from, ranked, reached_from, settled_region, shrinks,
};
use crate::commit::{ids, Commit};
use crate::error::EngineError;
use vstd::prelude::*;
use vstd::set_lib::{lemma_int_range, lemma_len_subset, set_int_range};

verus! {

/// A list with `x` added at its end, unless it holds `x` already.
pub open spec fn appended(list: Seq<int>, x: int) -> Seq<int> {
    if list.contains(x) {
        list
    } else {
        list.push(x)
    }
}

/// Mathematical model of an ancestry graph. Node `v` stands for the commit
/// `nodes[v]`; `children[v]` lists its direct descendants and `parents[v]` its
/// direct ancestors, each in the order in which the edges were recorded.
pub struct GraphModel {
    pub nodes: Seq<Seq<char>>,
    pub children: Seq<Seq<int>>,
    pub parents: Seq<Seq<int>>,
}

impl GraphModel {
    /// The graph without nodes.
    pub open spec fn empty() -> GraphModel {
        GraphModel { nodes: Seq::empty(), children: Seq::empty(), parents: Seq::empty() }
    }

    /// Both lists cover the same nodes, no commit has two nodes, every list
    /// names existing nodes, each once, and no node is its own child or parent.
    pub open spec fn wf(self) -> bool {
        &&& self.nodes.no_duplicates()
        &&& self.children.len() == self.nodes.len()
        &&& self.parents.len() == self.nodes.len()
        &&& lists_ok(self.children)
        &&& lists_ok(self.parents)
        &&& loop_free(self.children)
        &&& loop_free(self.parents)
    }

    /// The two lists agree: `x` is a child of `b` exactly when `b` is a
    /// parent of `x`.
    pub open spec fn symmetric(self) -> bool {
        forall|b: int, x: int|
            #![trigger self.children[b].contains(x)]
            #![trigger self.parents[x].contains(b)]
            0 <= b < self.nodes.len() && 0 <= x < self.nodes.len() ==> (self.children[b].contains(
                x,
            ) <==> self.parents[x].contains(b))
    }

    /// Whether `id` has a node.
    pub open spec fn has(self, id: Seq<char>) -> bool {
        self.nodes.contains(id)
    }

    /// The number of the node of `id`.
    pub open spec fn position(self, id: Seq<char>) -> int {
        self.nodes.index_of(id)
    }

    /// The graph with a node for `id`: unchanged where it has one, else with a
    /// new last node without edges.
    pub open spec fn with_node(self, id: Seq<char>) -> GraphModel {
        if self.has(id) {
            self
        } else {
            GraphModel {
                nodes: self.nodes.push(id),
                children: self.children.push(Seq::empty()),
                parents: self.parents.push(Seq::empty()),
            }
        }
    }

    /// The graph with `child` recorded as a child of `base` and `base` as a
    /// parent of `child`; unchanged where the two are the same node.
    pub open spec fn link(self, base: int, child: int) -> GraphModel {
        if base == child {
            self
        } else {
            GraphModel {
                nodes: self.nodes,
                children: self.children.update(base, appended(self.children[base], child)),
                parents: self.parents.update(child, appended(self.parents[child], base)),
            }
        }
    }

    /// The commits of a list of nodes.
    pub open spec fn commits(self, list: Seq<int>) -> Seq<Seq<char>> {
        Seq::new(list.len(), |k: int| self.nodes[list[k]])
    }

    /// The descendant map: each commit with the set of its direct children.
    pub open spec fn descendants(self) -> Map<Seq<char>, Set<Seq<char>>> {
        Map::new(
            |id: Seq<char>| self.has(id),
            |id: Seq<char>| self.commits(self.children[self.position(id)]).to_set(),
        )
    }

    /// The ancestor map: each commit with the set of its direct parents.
    pub open spec fn ancestors(self) -> Map<Seq<char>, Set<Seq<char>>> {
        Map::new(
            |id: Seq<char>| self.has(id),
            |id: Seq<char>| self.commits(self.parents[self.position(id)]).to_set(),
        )
    }

    /// Node `v` has no parent.
    pub open spec fn is_root(self, v: int) -> bool {
        0 <= v < self.nodes.len() && self.parents[v].len() == 0
    }

    /// Node `v` is the one node without a parent.
    pub open spec fn only_root(self, v: int) -> bool {
        self.is_root(v) && forall|w: int| self.is_root(w) ==> w == v
    }

    /// The root: the one node without a parent. A graph with none, or with
    /// several, has no root.
    pub open spec fn root(self) -> Result<int, EngineError> {
        if exists|v: int| self.only_root(v) {
            Ok(choose|v: int| self.only_root(v))
        } else {
            Err(EngineError::NoRoot)
        }
    }

    /// Node `v` has no child.
    pub open spec fn is_leaf(self, v: int) -> bool {
        0 <= v < self.nodes.len() && self.children[v].len() == 0
    }

    /// The leaves below node `upto` that have `count` parents, in node order.
    pub open spec fn leaves_with(self, count: int, upto: int) -> Seq<int>
        decreases upto,
    {
        if upto <= 0 {
            Seq::empty()
        } else {
            let front = self.leaves_with(count, upto - 1);
            if self.is_leaf(upto - 1) && self.parents[upto - 1].len() == count {
                front.push(upto - 1)
            } else {
                front
            }
        }
    }

    /// The leaves with fewer than `counts` parents: those without a parent
    /// first, then those with one, and so on; in node order among equals.
    pub open spec fn leaves_below(self, counts: int) -> Seq<int>
        decreases counts,
    {
        if counts <= 0 {
            Seq::empty()
        } else {
            self.leaves_below(counts - 1) + self.leaves_with(counts - 1, self.nodes.len() as int)
        }
    }

    /// The leaves in the order in which their parents are pruned: by
    /// ascending number of parents, and in node order among equals. (A node
    /// of a well-formed graph has fewer parents than there are nodes.)
    pub open spec fn leaf_order(self) -> Seq<int> {
        self.leaves_below(self.nodes.len() as int)
    }

    /// The graph after a pruning walk over the children, from `start`.
    pub open spec fn prune_children(self, start: int) -> GraphModel {
        GraphModel {
            nodes: self.nodes,
            children: prune_from(self.children, start),
            parents: self.parents,
        }
    }

    /// The graph after a pruning walk over the parents, from `start`.
    pub open spec fn prune_parents(self, start: int) -> GraphModel {
        GraphModel {
            nodes: self.nodes,
            children: self.children,
            parents: prune_from(self.parents, start),
        }
    }

    /// The graph after one pruning walk over the parents from each of the
    /// first `done` nodes of `order`, in turn.
    pub open spec fn prune_parents_each(self, order: Seq<int>, done: int) -> GraphModel
        decreases done,
    {
        if done <= 0 {
            self
        } else {
            self.prune_parents_each(order, done - 1).prune_parents(order[done - 1])
        }
    }

    /// The reduced graph: the children pruned by a walk from the root, then
    /// the parents pruned by a walk from each leaf, the leaves taken in
    /// `leaf_order` as it stands after the first pruning. Fails where the
    /// graph has no root.
    pub open spec fn reduce(self) -> Result<GraphModel, EngineError> {
        match self.root() {
            Err(e) => Err(e),
            Ok(root) => {
                let down = self.prune_children(root);
                let order = down.leaf_order();
                Ok(down.prune_parents_each(order, order.len() as int))
            },
        }
    }

    /// Pruning keeps a graph well-formed.
    pub proof fn lemma_prune_wf(self, start: int)
        requires
            self.wf(),
        ensures
            self.prune_children(start).wf(),
            self.prune_parents(start).wf(),
    {
        lemma_prune_from(self.children, start, Set::empty());
        lemma_prune_from(self.parents, start, Set::empty());
        lemma_shrinks_loop_free(self.children, prune_from(self.children, start));
        lemma_shrinks_loop_free(self.parents, prune_from(self.parents, start));
    }

    /// Pruning the parents from several nodes keeps a graph well-formed and
    /// touches neither the nodes nor the children.
    pub proof fn lemma_prune_parents_each(self, order: Seq<int>, done: int)
        requires
            self.wf(),
        ensures
            self.prune_parents_each(order, done).wf(),
            self.prune_parents_each(order, done).nodes == self.nodes,
            self.prune_parents_each(order, done).children == self.children,
            shrinks(self.parents, self.prune_parents_each(order, done).parents),
        decreases done,
    {
        if done > 0 {
            self.lemma_prune_parents_each(order, done - 1);
            let mid = self.prune_parents_each(order, done - 1);
            mid.lemma_prune_wf(order[done - 1]);
            lemma_prune_from(mid.parents, order[done - 1], Set::empty());
            let last = mid.prune_parents(order[done - 1]);
            assert forall|v: int, c: int|
                0 <= v < self.parents.len() && #[trigger] last.parents[v].contains(
                    c,
                ) implies self.parents[v].contains(c) by {
                assert(mid.parents[v].contains(c));
            }
        }
    }

    /// The nodes that the pruning walks from the first `done` nodes of
    /// `order` come to.
    pub open spec fn walked_each(self, order: Seq<int>, done: int) -> Set<int>
        decreases done,
    {
        if done <= 0 {
            Set::empty()
        } else {
            self.walked_each(order, done - 1).union(
                reached_from(self.prune_parents_each(order, done - 1).parents, order[done - 1]),
            )
        }
    }

    /// The nodes of `leaves_with`.
    pub proof fn lemma_leaves_with(self, count: int, upto: int)
        ensures
            forall|v: int| #[trigger]
                self.leaves_with(count, upto).contains(v) <==> 0 <= v < upto && self.is_leaf(v)
                    && self.parents[v].len() == count,
        decreases upto,
    {
        if upto > 0 {
            self.lemma_leaves_with(count, upto - 1);
            let front = self.leaves_with(count, upto - 1);
            assert forall|v: int| #[trigger]
                self.leaves_with(count, upto).contains(v) <==> 0 <= v < upto && self.is_leaf(v)
                    && self.parents[v].len() == count by {
                lemma_push_contains(front, upto - 1, v);
            }
        }
    }

    /// The nodes of `leaves_below`.
    pub proof fn lemma_leaves_below(self, counts: int)
        ensures
            forall|v: int| #[trigger]
                self.leaves_below(counts).contains(v) <==> self.is_leaf(v) && self.parents[v].len()
                    < counts,
        decreases counts,
    {
        if counts > 0 {
            self.lemma_leaves_below(counts - 1);
            self.lemma_leaves_with(counts - 1, self.nodes.len() as int);
            let front = self.leaves_below(counts - 1);
            let back = self.leaves_with(counts - 1, self.nodes.len() as int);
            assert forall|v: int| #[trigger]
                self.leaves_below(counts).contains(v) <==> self.is_leaf(v) && self.parents[v].len()
                    < counts by {
                lemma_concat_contains(front, back, v);
            }
        }
    }

    /// `leaf_order` holds the leaves of a well-formed graph, and nothing else.
    pub proof fn lemma_leaf_order(self)
        requires
            self.wf(),
        ensures
            forall|v: int| #[trigger] self.leaf_order().contains(v) <==> self.is_leaf(v),
    {
        self.lemma_leaves_below(self.nodes.len() as int);
        assert forall|v: int| #[trigger] self.leaf_order().contains(v) <==> self.is_leaf(v) by {
            if self.is_leaf(v) {
                assert(list_ok(self.parents[v], self.nodes.len() as int));
                assert(!self.parents[v].contains(v));
                lemma_list_short(self.parents[v], self.nodes.len() as int, v);
            }
        }
    }

    /// The nodes that the walks from `order` came to form a settled region
    /// of the pruned parents, which holds the nodes of `order`.
    pub proof fn lemma_walked_each(self, order: Seq<int>, done: int)
        requires
            self.wf(),
            0 <= done <= order.len(),
        ensures
            settled_region(
                self.prune_parents_each(order, done).parents,
                self.walked_each(order, done),
            ),
            forall|k: int|
                0 <= k < done && 0 <= order[k] < self.nodes.len() ==> self.walked_each(
                    order,
                    done,
                ).contains(#[trigger] order[k]),
        decreases done,
    {
        if done > 0 {
            self.lemma_walked_each(order, done - 1);
            self.lemma_prune_parents_each(order, done - 1);
            let mid = self.prune_parents_each(order, done - 1);
            lemma_prune_from(mid.parents, order[done - 1], self.walked_each(order, done - 1));
        }
    }

    /// Pruning the parents from nodes of a settled region changes nothing.
    pub proof fn lemma_prune_parents_each_settled(
        self,
        order: Seq<int>,
        done: int,
        region: Set<int>,
    )
        requires
            self.wf(),
            settled_region(self.parents, region),
            0 <= done <= order.len(),
            forall|k: int|
                0 <= k < done && 0 <= order[k] < self.nodes.len() ==> region.contains(
                    #[trigger] order[k],
                ),
        ensures
            self.prune_parents_each(order, done) == self,
        decreases done,
    {
        if done > 0 {
            self.lemma_prune_parents_each_settled(order, done - 1, region);
            let stack = seq![order[done - 1]];
            assert(stack[0] == order[done - 1]);
            lemma_prune_run_settled(self.parents, Set::empty(), stack, region);
        }
    }

    /// Reducing a reduced graph changes nothing: where a graph can be
    /// reduced, and the result has a root still, reducing the result gives
    /// the result itself.
    pub proof fn lemma_reduce_idempotent(self)
        requires
            self.wf(),
            self.reduce() is Ok,
            self.reduce()->Ok_0.reduce() is Ok,
        ensures
            self.reduce()->Ok_0.reduce() == self.reduce(),
    {
        let root = choose|v: int| self.only_root(v);
        let down = self.prune_children(root);
        let order = down.leaf_order();
        let once = down.prune_parents_each(order, order.len() as int);
        assert(self.reduce() == Ok::<GraphModel, EngineError>(once));
        self.lemma_prune_wf(root);
        down.lemma_prune_parents_each(order, order.len() as int);
        // The root is still the one node without a parent.
        let again = choose|v: int| once.only_root(v);
        assert(once.only_root(again));
        assert(self.is_root(root));
        assert(once.is_root(root)) by {
            if once.parents[root].len() > 0 {
                assert(once.parents[root].contains(once.parents[root][0]));
                assert(down.parents[root].contains(once.parents[root][0]));
            }
        }
        assert(again == root);
        // The children are settled already.
        lemma_prune_from_idempotent(self.children, root);
        let down_again = once.prune_children(root);
        assert(down_again == once);
        // And so are the parents of every node that a walk from a leaf meets.
        let region = down.walked_each(order, order.len() as int);
        down.lemma_walked_each(order, order.len() as int);
        let order_again = once.leaf_order();
        down.lemma_leaf_order();
        once.lemma_leaf_order();
        assert forall|k: int|
            0 <= k < order_again.len() && 0 <= order_again[k] < once.nodes.len()
                implies region.contains(#[trigger] order_again[k]) by {
            let v = order_again[k];
            assert(order_again.contains(v));
            assert(once.is_leaf(v));
            assert(down.is_leaf(v));
            assert(order.contains(v));
            let j = choose|j: int| 0 <= j < order.len() && order[j] == v;
            assert(region.contains(order[j]));
        }
        once.lemma_prune_parents_each_settled(order_again, order_again.len() as int, region);
    }

    /// Where the rank falls from every node to its parents, pruning the
    /// parents leaves every node that had a parent with a parent.
    pub proof fn lemma_prune_parents_each_keeps_some(
        self,
        order: Seq<int>,
        done: int,
        rank: spec_fn(int) -> nat,
    )
        requires
            self.wf(),
            ranked(self.parents, rank),
        ensures
            ranked(self.prune_parents_each(order, done).parents, rank),
            forall|v: int|
                0 <= v < self.nodes.len() && self.parents[v].len() > 0 ==> (
                #[trigger] self.prune_parents_each(order, done).parents[v]).len() > 0,
        decreases done,
    {
        if done > 0 {
            self.lemma_prune_parents_each_keeps_some(order, done - 1, rank);
            self.lemma_prune_parents_each(order, done - 1);
            let mid = self.prune_parents_each(order, done - 1);
            lemma_prune_run_keeps_some(mid.parents, Set::empty(), seq![order[done - 1]], rank);
            let last = mid.prune_parents(order[done - 1]);
            assert forall|v: int| 0 <= v < self.nodes.len() && self.parents[v].len() > 0 implies (
            #[trigger] last.parents[v]).len() > 0 by {
                assert(mid.parents[v].len() > 0);
            }
        }
    }

    /// Where the rank falls from every node to its parents, as it does in a
    /// history without cycles, a graph that can be reduced gives a graph that
    /// can be reduced again, and reducing it again changes nothing.
    pub proof fn lemma_reduce_idempotent_ranked(self, rank: spec_fn(int) -> nat)
        requires
            self.wf(),
            self.reduce() is Ok,
            ranked(self.parents, rank),
        ensures
            self.reduce()->Ok_0.reduce() == self.reduce(),
    {
        let root = choose|v: int| self.only_root(v);
        let down = self.prune_children(root);
        let order = down.leaf_order();
        let once = down.prune_parents_each(order, order.len() as int);
        self.lemma_prune_wf(root);
        down.lemma_prune_parents_each(order, order.len() as int);
        down.lemma_prune_parents_each_keeps_some(order, order.len() as int, rank);
        assert(once.is_root(root)) by {
            if once.parents[root].len() > 0 {
                assert(once.parents[root].contains(once.parents[root][0]));
                assert(down.parents[root].contains(once.parents[root][0]));
            }
        }
        assert forall|w: int| once.is_root(w) implies w == root by {
            if self.parents[w].len() > 0 {
                assert(once.parents[w].len() > 0);
            }
            assert(self.is_root(w));
        }
        assert(once.only_root(root));
        self.lemma_reduce_idempotent();
    }

    /// In a well-formed graph no commit is among its own children or its own
    /// parents.
    pub proof fn lemma_no_self_edges(self, id: Seq<char>)
        requires
            self.wf(),
            self.has(id),
        ensures
            !self.descendants()[id].contains(id),
            !self.ancestors()[id].contains(id),
    {
        let v = self.position(id);
        assert(0 <= v < self.nodes.len() && self.nodes[v] == id);
        assert(list_ok(self.children[v], self.nodes.len() as int));
        assert(list_ok(self.parents[v], self.nodes.len() as int));
        let below = self.commits(self.children[v]);
        if below.contains(id) {
            let k = choose|k: int| 0 <= k < below.len() && below[k] == id;
            assert(self.nodes[self.children[v][k]] == self.nodes[v]);
            assert(self.children[v].contains(self.children[v][k]));
        }
        let above = self.commits(self.parents[v]);
        if above.contains(id) {
            let k = choose|k: int| 0 <= k < above.len() && above[k] == id;
            assert(self.nodes[self.parents[v][k]] == self.nodes[v]);
            assert(self.parents[v].contains(self.parents[v][k]));
        }
    }

    /// The commits of a list are the commits of its members.
    pub proof fn lemma_commits(self, list: Seq<int>, v: int)
        requires
            self.nodes.no_duplicates(),
            list_ok(list, self.nodes.len() as int),
            0 <= v < self.nodes.len(),
        ensures
            self.commits(list).contains(self.nodes[v]) <==> list.contains(v),
    {
        let named = self.commits(list);
        if named.contains(self.nodes[v]) {
            let k = choose|k: int| 0 <= k < named.len() && named[k] == self.nodes[v];
            assert(self.nodes[list[k]] == self.nodes[v]);
            assert(list[k] == v);
        }
        if list.contains(v) {
            let k = choose|k: int| 0 <= k < list.len() && list[k] == v;
            assert(named[k] == self.nodes[v]);
        }
    }

    /// In a well-formed graph whose two lists agree, `child` is among the
    /// children of `base` in the descendant map exactly when `base` is among
    /// the parents of `child` in the ancestor map.
    pub proof fn lemma_maps_agree(self, base: Seq<char>, child: Seq<char>)
        requires
            self.wf(),
            self.symmetric(),
            self.has(base),
            self.has(child),
        ensures
            self.descendants()[base].contains(child) <==> self.ancestors()[child].contains(base),
    {
        let b = self.position(base);
        let x = self.position(child);
        assert(0 <= b < self.nodes.len() && self.nodes[b] == base);
        assert(0 <= x < self.nodes.len() && self.nodes[x] == child);
        assert(list_ok(self.children[b], self.nodes.len() as int));
        assert(list_ok(self.parents[x], self.nodes.len() as int));
        self.lemma_commits(self.children[b], x);
        self.lemma_commits(self.parents[x], b);
        assert(self.children[b].contains(x) <==> self.parents[x].contains(b));
    }

    /// In a well-formed graph a commit's node is the one place that holds it.
    pub proof fn lemma_position(self, v: int)
        requires
            self.nodes.no_duplicates(),
            0 <= v < self.nodes.len(),
        ensures
            self.has(self.nodes[v]),
            self.position(self.nodes[v]) == v,
    {
        let id = self.nodes[v];
        assert(self.nodes.contains(id));
        let w = self.nodes.index_of(id);
        assert(0 <= w < self.nodes.len() && self.nodes[w] == id);
    }

    /// Adding a node keeps a graph well-formed and symmetric, and leaves the
    /// old nodes where they were.
    pub proof fn lemma_with_node(self, id: Seq<char>)
        requires
            self.wf(),
        ensures
            self.with_node(id).wf(),
            self.symmetric() ==> self.with_node(id).symmetric(),
            self.with_node(id).has(id),
            0 <= self.with_node(id).position(id) < self.with_node(id).nodes.len(),
            self.with_node(id).nodes[self.with_node(id).position(id)] == id,
            !self.has(id) ==> self.with_node(id).position(id) == self.nodes.len(),
            self.with_node(id).nodes.len() >= self.nodes.len(),
            forall|v: int|
                0 <= v < self.nodes.len() ==> {
                    &&& (#[trigger] self.with_node(id).nodes[v]) == self.nodes[v]
                    &&& self.with_node(id).children[v] == self.children[v]
                    &&& self.with_node(id).parents[v] == self.parents[v]
                },
    {
        let g = self.with_node(id);
        if self.has(id) {
            let w = self.nodes.index_of(id);
            assert(0 <= w < self.nodes.len() && self.nodes[w] == id);
        } else {
            let n = self.nodes.len() as int;
            assert(g.nodes[n] == id);
            assert(g.nodes.no_duplicates());
            g.lemma_position(n);
            assert forall|v: int| 0 <= v < g.children.len() implies list_ok(
                #[trigger] g.children[v],
                g.children.len() as int,
            ) by {
                if v < n {
                    assert(g.children[v] == self.children[v]);
                }
            }
            assert forall|v: int| 0 <= v < g.parents.len() implies list_ok(
                #[trigger] g.parents[v],
                g.parents.len() as int,
            ) by {
                if v < n {
                    assert(g.parents[v] == self.parents[v]);
                }
            }
            assert forall|v: int| 0 <= v < g.children.len() implies !(
            #[trigger] g.children[v]).contains(v) by {
                if v < n {
                    assert(g.children[v] == self.children[v]);
                }
            }
            assert forall|v: int| 0 <= v < g.parents.len() implies !(
            #[trigger] g.parents[v]).contains(v) by {
                if v < n {
                    assert(g.parents[v] == self.parents[v]);
                }
            }
            if self.symmetric() {
                assert forall|b: int, x: int|
                    #![trigger g.children[b].contains(x)]
                    #![trigger g.parents[x].contains(b)]
                    0 <= b < g.nodes.len() && 0 <= x < g.nodes.len() implies (
                g.children[b].contains(x) <==> g.parents[x].contains(b)) by {
                    if b < n && x < n {
                        assert(g.children[b] == self.children[b]);
                        assert(g.parents[x] == self.parents[x]);
                        assert(self.children[b].contains(x) <==> self.parents[x].contains(b));
                    } else if b < n {
                        assert(g.children[b] == self.children[b]);
                        if self.children[b].contains(x) {
                            let k = choose|k: int|
                                0 <= k < self.children[b].len() && self.children[b][k] == x;
                            assert(0 <= self.children[b][k] < n);
                        }
                    } else if x < n {
                        assert(g.parents[x] == self.parents[x]);
                        if self.parents[x].contains(b) {
                            let k = choose|k: int|
                                0 <= k < self.parents[x].len() && self.parents[x][k] == b;
                            assert(0 <= self.parents[x][k] < n);
                        }
                    }
                }
            }
        }
    }

    /// Recording an edge keeps a graph well-formed and symmetric, and adds
    /// that edge and no other.
    pub proof fn lemma_link(self, base: int, child: int)
        requires
            self.wf(),
            0 <= base < self.nodes.len(),
            0 <= child < self.nodes.len(),
        ensures
            self.link(base, child).wf(),
            self.symmetric() ==> self.link(base, child).symmetric(),
            self.link(base, child).nodes == self.nodes,
            forall|b: int, x: int|
                #![trigger self.link(base, child).children[b].contains(x)]
                0 <= b < self.nodes.len() ==> (self.link(base, child).children[b].contains(x)
                    <==> self.children[b].contains(x) || (b == base && x == child && base
                    != child)),
            forall|x: int, b: int|
                #![trigger self.link(base, child).parents[x].contains(b)]
                0 <= x < self.nodes.len() ==> (self.link(base, child).parents[x].contains(b)
                    <==> self.parents[x].contains(b) || (b == base && x == child && base
                    != child)),
    {
        let g = self.link(base, child);
        let n = self.nodes.len() as int;
        if base != child {
            lemma_appended(self.children[base], child, n);
            lemma_appended(self.parents[child], base, n);
            assert forall|v: int| 0 <= v < n implies list_ok(
                #[trigger] g.children[v],
                n,
            ) by {
                if v != base {
                    assert(g.children[v] == self.children[v]);
                }
            }
            assert forall|v: int| 0 <= v < n implies list_ok(
                #[trigger] g.parents[v],
                n,
            ) by {
                if v != child {
                    assert(g.parents[v] == self.parents[v]);
                }
            }
            assert forall|v: int| 0 <= v < n implies !(#[trigger] g.children[v]).contains(v) by {
                if v != base {
                    assert(g.children[v] == self.children[v]);
                }
            }
            assert forall|v: int| 0 <= v < n implies !(#[trigger] g.parents[v]).contains(v) by {
                if v != child {
                    assert(g.parents[v] == self.parents[v]);
                }
            }
            assert forall|b: int, x: int|
                #![trigger g.children[b].contains(x)]
                0 <= b < n implies (g.children[b].contains(x) <==> self.children[b].contains(x)
                || (b == base && x == child && base != child)) by {
                if b != base {
                    assert(g.children[b] == self.children[b]);
                }
            }
            assert forall|x: int, b: int|
                #![trigger g.parents[x].contains(b)]
                0 <= x < n implies (g.parents[x].contains(b) <==> self.parents[x].contains(b) || (b
                == base && x == child && base != child)) by {
                if x != child {
                    assert(g.parents[x] == self.parents[x]);
                }
            }
            if self.symmetric() {
                assert forall|b: int, x: int|
                    #![trigger g.children[b].contains(x)]
                    #![trigger g.parents[x].contains(b)]
                    0 <= b < n && 0 <= x < n implies (g.children[b].contains(x)
                    <==> g.parents[x].contains(b)) by {
                    assert(self.children[b].contains(x) <==> self.parents[x].contains(b));
                }
            }
        }
    }
}

/// Removing edges cannot make a node its own neighbour.
pub proof fn lemma_shrinks_loop_free(before: Seq<Seq<int>>, after: Seq<Seq<int>>)
    requires
        shrinks(before, after),
        loop_free(before),
    ensures
        loop_free(after),
{
    assert forall|v: int| 0 <= v < after.len() implies !(#[trigger] after[v]).contains(v) by {
        if after[v].contains(v) {
            assert(before[v].contains(v));
        }
    }
}

/// The members of a list with one more at its end.
pub proof fn lemma_push_contains(list: Seq<int>, x: int, c: int)
    ensures
        list.push(x).contains(c) <==> list.contains(c) || c == x,
{
    let out = list.push(x);
    if out.contains(c) {
        let k = choose|k: int| 0 <= k < out.len() && out[k] == c;
        if k < list.len() {
            assert(list[k] == c);
        }
    }
    if list.contains(c) {
        let k = choose|k: int| 0 <= k < list.len() && list[k] == c;
        assert(out[k] == c);
    }
    assert(out[list.len() as int] == x);
}

/// The members of two lists put together.
pub proof fn lemma_concat_contains(front: Seq<int>, back: Seq<int>, c: int)
    ensures
        (front + back).contains(c) <==> front.contains(c) || back.contains(c),
{
    let out = front + back;
    if out.contains(c) {
        let k = choose|k: int| 0 <= k < out.len() && out[k] == c;
        if k < front.len() {
            assert(front[k] == c);
        } else {
            assert(back[k - front.len()] == c);
        }
    }
    if front.contains(c) {
        let k = choose|k: int| 0 <= k < front.len() && front[k] == c;
        assert(out[k] == c);
    }
    if back.contains(c) {
        let k = choose|k: int| 0 <= k < back.len() && back[k] == c;
        assert(out[front.len() + k] == c);
    }
}

/// A list in order that misses one of the `n` nodes has fewer than `n`
/// members.
pub proof fn lemma_list_short(list: Seq<int>, n: int, v: int)
    requires
        list_ok(list, n),
        0 <= v < n,
        !list.contains(v),
    ensures
        list.len() < n,
{
    broadcast use vstd::set::group_set_axioms;

    list.unique_seq_to_set();
    lemma_int_range(0, n);
    let rest = set_int_range(0, n).remove(v);
    assert(list.to_set().subset_of(rest)) by {
        assert forall|c: int| list.to_set().contains(c) implies rest.contains(c) by {
            let k = choose|k: int| 0 <= k < list.len() && list[k] == c;
            assert(0 <= list[k] < n);
        }
    }
    lemma_len_subset(list.to_set(), rest);
}

/// What `appended` holds: the old members and `x`.
pub proof fn lemma_appended(list: Seq<int>, x: int, n: int)
    requires
        0 <= x < n,
    ensures
        forall|c: int| #[trigger] appended(list, x).contains(c) <==> list.contains(c) || c == x,
        list_ok(list, n) ==> list_ok(appended(list, x), n),
{
    let out = appended(list, x);
    assert forall|c: int| #[trigger] out.contains(c) <==> list.contains(c) || c == x by {
        if !list.contains(x) {
            if out.contains(c) {
                let k = choose|k: int| 0 <= k < out.len() && out[k] == c;
                if k < list.len() {
                    assert(list[k] == c);
                }
            }
            if list.contains(c) {
                let k = choose|k: int| 0 <= k < list.len() && list[k] == c;
                assert(out[k] == c);
            }
            assert(out[list.len() as int] == x);
        }
    }
}

/// An ancestry graph. Its view is a `GraphModel`.
pub struct AncestryGraph {
    nodes: Vec<Commit>,
    children: Vec<Vec<usize>>,
    parents: Vec<Vec<usize>>,
}

impl View for AncestryGraph {
    type V = GraphModel;

    closed spec fn view(&self) -> GraphModel {
        GraphModel {
            nodes: Seq::new(self.nodes.len() as nat, |v: int| self.nodes[v]@),
            children: lists(self.children@),
            parents: lists(self.parents@),
        }
    }
}

impl AncestryGraph {
    /// The graph without nodes.
    pub fn new() -> (graph: AncestryGraph)
        ensures
            graph@ == GraphModel::empty(),
            graph@.wf(),
            graph@.symmetric(),
    {
        let graph = AncestryGraph { nodes: Vec::new(), children: Vec::new(), parents: Vec::new() };
        proof {
            assert(graph@.nodes =~= Seq::<Seq<char>>::empty());
            assert(graph@.children =~= Seq::<Seq<int>>::empty());
            assert(graph@.parents =~= Seq::<Seq<int>>::empty());
        }
        graph
    }

    /// Number of nodes.
    pub fn len(&self) -> (n: usize)
        ensures
            n == self@.nodes.len(),
    {
        self.nodes.len()
    }

    /// The commit of node `v`.
    pub fn commit(&self, v: usize) -> (commit: &Commit)
        requires
            v < self@.nodes.len(),
        ensures
            commit@ == self@.nodes[v as int],
    {
        &self.nodes[v]
    }

    /// The node of `commit`, if it has one.
    pub fn find(&self, commit: &Commit) -> (at: Option<usize>)
        requires
            self@.wf(),
        ensures
            at is Some <==> self@.has(commit@),
            at matches Some(v) ==> v == self@.position(commit@) && v < self@.nodes.len()
                && self@.nodes[v as int] == commit@,
    {
        let mut v: usize = 0;
        while v < self.nodes.len()
            invariant
                v <= self.nodes.len(),
                self@.wf(),
                forall|w: int| 0 <= w < v ==> self@.nodes[w] != commit@,
            decreases self.nodes.len() - v,
        {
            if self.nodes[v] == *commit {
                proof {
                    assert(self@.nodes[v as int] == commit@);
                    self@.lemma_position(v as int);
                }
                return Some(v);
            }
            v += 1;
        }
        None
    }

    /// Makes sure that `commit` has a node, and returns it. A new node comes
    /// last and has no edges.
    pub fn insert(&mut self, commit: Commit) -> (at: usize)
        requires
            old(self)@.wf(),
        ensures
            final(self)@ == old(self)@.with_node(commit@),
            final(self)@.wf(),
            at == final(self)@.position(commit@),
            at < final(self)@.nodes.len(),
            final(self)@.nodes[at as int] == commit@,
    {
        proof {
            self@.lemma_with_node(commit@);
        }
        match self.find(&commit) {
            Some(v) => v,
            None => {
                let ghost before = self@;
                let at = self.nodes.len();
                self.nodes.push(commit);
                self.children.push(Vec::new());
                self.parents.push(Vec::new());
                proof {
                    assert(self@.nodes =~= before.nodes.push(commit@));
                    assert(self@.children =~~= before.children.push(Seq::empty()));
                    assert(self@.parents =~~= before.parents.push(Seq::empty()));
                }
                at
            },
        }
    }

    /// Records `child` as a child of `base`, and `base` as a parent of
    /// `child`. A node is never linked to itself, and an edge is held once.
    pub fn link(&mut self, base: usize, child: usize)
        requires
            old(self)@.wf(),
            base < old(self)@.nodes.len(),
            child < old(self)@.nodes.len(),
        ensures
            final(self)@ == old(self)@.link(base as int, child as int),
            final(self)@.wf(),
    {
        proof {
            self@.lemma_link(base as int, child as int);
        }
        if base == child {
            return ;
        }
        let ghost before = self@;
        if !list_contains(&self.children[base], child) {
            self.children[base].push(child);
        }
        if !list_contains(&self.parents[child], base) {
            self.parents[child].push(base);
        }
        proof {
            assert(self@.nodes =~= before.nodes);
            assert(self@.children =~~= before.children.update(
                base as int,
                appended(before.children[base as int], child as int),
            ));
            assert(self@.parents =~~= before.parents.update(
                child as int,
                appended(before.parents[child as int], base as int),
            ));
        }
    }

    /// The children of node `v`, as node numbers.
    pub fn children_at(&self, v: usize) -> (list: &Vec<usize>)
        requires
            self@.wf(),
            v < self@.nodes.len(),
        ensures
            ints(list@) == self@.children[v as int],
    {
        &self.children[v]
    }

    /// The parents of node `v`, as node numbers.
    pub fn parents_at(&self, v: usize) -> (list: &Vec<usize>)
        requires
            self@.wf(),
            v < self@.nodes.len(),
        ensures
            ints(list@) == self@.parents[v as int],
    {
        &self.parents[v]
    }

    /// The commits of a list of nodes.
    pub fn commits_of(&self, list: &Vec<usize>) -> (commits: Vec<Commit>)
        requires
            self@.wf(),
            forall|k: int| 0 <= k < list.len() ==> list[k] < self@.nodes.len(),
        ensures
            ids(commits@) == self@.commits(ints(list@)),
    {
        let mut commits: Vec<Commit> = Vec::new();
        let mut k: usize = 0;
        while k < list.len()
            invariant
                k <= list.len(),
                commits.len() == k,
                forall|j: int| 0 <= j < list.len() ==> list[j] < self@.nodes.len(),
                forall|j: int|
                    0 <= j < k ==> (#[trigger] commits[j])@ == self@.nodes[list[j] as int],
            decreases list.len() - k,
        {
            commits.push(self.nodes[list[k]].clone());
            k += 1;
        }
        proof {
            assert(ids(commits@) =~= self@.commits(ints(list@)));
        }
        commits
    }

    /// The direct children of `commit`, or nothing where it has no node.
    pub fn children_of(&self, commit: &Commit) -> (found: Option<Vec<Commit>>)
        requires
            self@.wf(),
        ensures
            found is Some <==> self@.has(commit@),
            found matches Some(list) ==> ids(list@) == self@.commits(
                self@.children[self@.position(commit@)],
            ),
    {
        match self.find(commit) {
            Some(v) => {
                proof {
                    self.lemma_in_range(v);
                }
                Some(self.commits_of(&self.children[v]))
            },
            None => None,
        }
    }

    /// The direct parents of `commit`, or nothing where it has no node.
    pub fn parents_of(&self, commit: &Commit) -> (found: Option<Vec<Commit>>)
        requires
            self@.wf(),
        ensures
            found is Some <==> self@.has(commit@),
            found matches Some(list) ==> ids(list@) == self@.commits(
                self@.parents[self@.position(commit@)],
            ),
    {
        match self.find(commit) {
            Some(v) => {
                proof {
                    self.lemma_in_range(v);
                }
                Some(self.commits_of(&self.parents[v]))
            },
            None => None,
        }
    }

    /// The lists of a node of a well-formed graph name nodes of the graph.
    proof fn lemma_in_range(&self, v: usize)
        requires
            self@.wf(),
            v < self@.nodes.len(),
        ensures
            forall|k: int|
                0 <= k < self.children[v as int].len() ==> self.children[v as int][k]
                    < self@.nodes.len(),
            forall|k: int|
                0 <= k < self.parents[v as int].len() ==> self.parents[v as int][k]
                    < self@.nodes.len(),
    {
        assert(list_ok(self@.children[v as int], self@.nodes.len() as int));
        assert(list_ok(self@.parents[v as int], self@.nodes.len() as int));
        assert forall|k: int| 0 <= k < self.children[v as int].len() implies self.children[v as int][k]
            < self@.nodes.len() by {
            assert(self@.children[v as int][k] == self.children[v as int][k]);
        }
        assert forall|k: int| 0 <= k < self.parents[v as int].len() implies self.parents[v as int][k]
            < self@.nodes.len() by {
            assert(self@.parents[v as int][k] == self.parents[v as int][k]);
        }
    }

    /// The root of the graph: the one node without a parent.
    pub fn root(&self) -> (found: Result<usize, EngineError>)
        requires
            self@.wf(),
        ensures
            self@.root() == match found {
                Ok(v) => Ok::<int, EngineError>(v as int),
                Err(e) => Err::<int, EngineError>(e),
            },
            found matches Ok(v) ==> self@.only_root(v as int),
            found matches Err(e) ==> e == EngineError::NoRoot && forall|v: int|
                !self@.only_root(v),
    {
        let n = self.nodes.len();
        let mut first: Option<usize> = None;
        let mut many = false;
        let ghost mut other: int = 0;
        let mut v: usize = 0;
        while v < n
            invariant
                v <= n,
                n == self@.nodes.len(),
                self@.wf(),
                first is None ==> !many && forall|w: int| 0 <= w < v ==> !self@.is_root(w),
                first matches Some(f) ==> f < v && self@.is_root(f as int),
                first matches Some(f) ==> (many ==> self@.is_root(other) && other != f),
                first matches Some(f) ==> (!many ==> forall|w: int|
                    0 <= w < v && self@.is_root(w) ==> w == f),
            decreases n - v,
        {
            if self.parents[v].len() == 0 {
                assert(self@.is_root(v as int));
                match first {
                    None => {
                        first = Some(v);
                    },
                    Some(_) => {
                        many = true;
                        proof {
                            other = v as int;
                        }
                    },
                }
            } else {
                assert(!self@.is_root(v as int));
            }
            v += 1;
        }
        match first {
            Some(f) => {
                if many {
                    assert forall|w: int| !self@.only_root(w) by {
                        if self@.only_root(w) {
                            assert(self@.is_root(f as int));
                            assert(self@.is_root(other));
                        }
                    }
                    Err(EngineError::NoRoot)
                } else {
                    assert(self@.only_root(f as int));
                    Ok(f)
                }
            },
            None => {
                Err(EngineError::NoRoot)
            },
        }
    }

    /// The leaves, in the order in which their parents are pruned.
    pub fn leaves(&self) -> (order: Vec<usize>)
        requires
            self@.wf(),
        ensures
            ints(order@) == self@.leaf_order(),
            forall|k: int| 0 <= k < order.len() ==> order[k] < self@.nodes.len(),
    {
        let n = self.nodes.len();
        let mut order: Vec<usize> = Vec::new();
        let mut count: usize = 0;
        proof {
            assert(ints(order@) =~= self@.leaves_below(0));
        }
        while count < n
            invariant
                count <= n,
                n == self@.nodes.len(),
                self@.wf(),
                ints(order@) == self@.leaves_below(count as int),
                forall|k: int| 0 <= k < order.len() ==> order[k] < n,
            decreases n - count,
        {
            let ghost front = ints(order@);
            let mut v: usize = 0;
            proof {
                assert(ints(order@) =~= front + self@.leaves_with(count as int, 0));
            }
            while v < n
                invariant
                    v <= n,
                    count < n,
                    n == self@.nodes.len(),
                    self@.wf(),
                    ints(order@) == front + self@.leaves_with(count as int, v as int),
                    forall|k: int| 0 <= k < order.len() ==> order[k] < n,
                decreases n - v,
            {
                if self.children[v].len() == 0 && self.parents[v].len() == count {
                    let ghost was = ints(order@);
                    order.push(v);
                    proof {
                        assert(ints(order@) =~= was.push(v as int));
                        assert(ints(order@) =~= front + self@.leaves_with(
                            count as int,
                            v as int + 1,
                        ));
                    }
                }
                v += 1;
            }
            count += 1;
        }
        order
    }

    /// Prunes the children by a walk from node `start`: each node within
    /// reach keeps only the children that none of its other children has as
    /// a child of its own.
    pub fn prune_children(&mut self, start: usize)
        requires
            old(self)@.wf(),
        ensures
            final(self)@ == old(self)@.prune_children(start as int),
            final(self)@.wf(),
    {
        proof {
            self@.lemma_prune_wf(start as int);
        }
        prune(&mut self.children, start);
    }

    /// Prunes the parents by a walk from node `start`: each node within
    /// reach keeps only the parents that none of its other parents has as a
    /// parent of its own.
    pub fn prune_parents(&mut self, start: usize)
        requires
            old(self)@.wf(),
        ensures
            final(self)@ == old(self)@.prune_parents(start as int),
            final(self)@.wf(),
    {
        proof {
            self@.lemma_prune_wf(start as int);
        }
        prune(&mut self.parents, start);
    }

    /// Reduces the graph to the edges that no sibling already provides: first
    /// the children, from the root down, then the parents, from each leaf up.
    /// Returns the root. A graph without root is left as it is.
    pub fn reduce(&mut self) -> (outcome: Result<usize, EngineError>)
        requires
            old(self)@.wf(),
        ensures
            final(self)@.wf(),
            match outcome {
                Ok(root) => old(self)@.root() == Ok::<int, EngineError>(root as int) && old(
                    self,
                )@.reduce() == Ok::<GraphModel, EngineError>(final(self)@),
                Err(e) => old(self)@.reduce() == Err::<GraphModel, EngineError>(e) && final(self)@
                    == old(self)@,
            },
    {
        let root = match self.root() {
            Ok(root) => root,
            Err(e) => {
                return Err(e);
            },
        };
        self.prune_children(root);
        let ghost down = self@;
        let order = self.leaves();
        let mut k: usize = 0;
        while k < order.len()
            invariant
                k <= order.len(),
                down.wf(),
                self@.wf(),
                self@ == down.prune_parents_each(ints(order@), k as int),
            decreases order.len() - k,
        {
            self.prune_parents(order[k]);
            k += 1;
        }
        Ok(root)
    }
}

} // verus!
