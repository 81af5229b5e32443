//! Adjacency lists over numbered nodes, and the pruning walk that removes
//! from each visited node the edges that a sibling already provides.

use vstd::prelude::*;
use vstd::set_lib::{lemma_int_range, lemma_len_subset, set_int_range};

verus! {

/// A list of node numbers as mathematical integers.
pub open spec fn ints(list: Seq<usize>) -> Seq<int> {
    Seq::new(list.len(), |k: int| list[k] as int)
}

/// Adjacency lists as mathematical sequences: entry `v` lists the nodes
/// that `v` has an edge to.
pub open spec fn lists(adj: Seq<Vec<usize>>) -> Seq<Seq<int>> {
    Seq::new(adj.len(), |v: int| ints(adj[v]@))
}

/// A list names each node at most once, and only nodes below `n`.
pub open spec fn list_ok(list: Seq<int>, n: int) -> bool {
    &&& list.no_duplicates()
    &&& forall|k: int| 0 <= k < list.len() ==> 0 <= #[trigger] list[k] < n
}

/// Every list of the adjacency is in order.
pub open spec fn lists_ok(adj: Seq<Seq<int>>) -> bool {
    forall|v: int| 0 <= v < adj.len() ==> list_ok(#[trigger] adj[v], adj.len() as int)
}

/// No node has an edge to itself.
pub open spec fn loop_free(adj: Seq<Seq<int>>) -> bool {
    forall|v: int| 0 <= v < adj.len() ==> !(#[trigger] adj[v]).contains(v)
}

/// Every edge of `after` is an edge of `before`.
pub open spec fn shrinks(before: Seq<Seq<int>>, after: Seq<Seq<int>>) -> bool {
    &&& after.len() == before.len()
    &&& forall|v: int, c: int|
        0 <= v < before.len() && #[trigger] after[v].contains(c) ==> before[v].contains(c)
}

/// Whether `c` stays in the list `all` of some node: it does unless another
/// member of `all` has an edge to `c` of its own.
pub open spec fn survives(adj: Seq<Seq<int>>, all: Seq<int>, c: int) -> bool {
    forall|k: int| 0 <= k < all.len() && all[k] != c ==> !(#[trigger] adj[all[k]]).contains(c)
}

/// The members of `all` that stay, in their order.
pub open spec fn kept(adj: Seq<Seq<int>>, all: Seq<int>) -> Seq<int> {
    all.filter(|c: int| survives(adj, all, c))
}

/// The nodes below `n` that the walk has not visited.
pub open spec fn unseen(n: int, seen: Set<int>) -> Set<int> {
    Set::new(|v: int| 0 <= v < n && !seen.contains(v))
}

/// The unvisited nodes are finitely many, and visiting one more leaves fewer.
pub proof fn lemma_unseen(n: int, seen: Set<int>, v: int)
    requires
        0 <= n,
    ensures
        unseen(n, seen).finite(),
        0 <= v < n && !seen.contains(v) ==> unseen(n, seen.insert(v)).len() < unseen(
            n,
            seen,
        ).len(),
{
    lemma_int_range(0, n);
    lemma_len_subset(unseen(n, seen), set_int_range(0, n));
    if 0 <= v < n && !seen.contains(v) {
        assert(unseen(n, seen.insert(v)) =~= unseen(n, seen).remove(v));
    }
}

/// The pruning walk. `stack` holds the nodes still to be looked at, the next
/// one last; `seen` the nodes already visited. A node is visited once: its
/// list is cut down to the members that survive, judged by the lists as they
/// stand at that moment, and all its former members are put on the stack.
/// The result is the adjacency and the visited set when the stack is empty.
pub open spec fn prune_run(adj: Seq<Seq<int>>, seen: Set<int>, stack: Seq<int>) -> (
    Seq<Seq<int>>,
    Set<int>,
)
    decreases unseen(adj.len() as int, seen).len(), stack.len(),
{
    if stack.len() == 0 {
        (adj, seen)
    } else {
        let v = stack.last();
        let rest = stack.drop_last();
        if !(0 <= v < adj.len()) || seen.contains(v) {
            prune_run(adj, seen, rest)
        } else {
            proof {
                lemma_unseen(adj.len() as int, seen, v);
            }
            prune_run(adj.update(v, kept(adj, adj[v])), seen.insert(v), rest + adj[v])
        }
    }
}

/// The adjacency after a pruning walk that starts at `start`.
pub open spec fn prune_from(adj: Seq<Seq<int>>, start: int) -> Seq<Seq<int>> {
    prune_run(adj, Set::empty(), seq![start]).0
}

/// The nodes that a pruning walk from `start` visits.
pub open spec fn reached_from(adj: Seq<Seq<int>>, start: int) -> Set<int> {
    prune_run(adj, Set::empty(), seq![start]).1
}

/// The set that a vector of marks stands for.
pub open spec fn marked(marks: Seq<bool>) -> Set<int> {
    Set::new(|v: int| 0 <= v < marks.len() && marks[v])
}

/// Filtering one element more, from the front part of a list.
pub proof fn lemma_filter_step(all: Seq<int>, pred: spec_fn(int) -> bool, i: int)
    requires
        0 <= i < all.len(),
    ensures
        all.take(i + 1).filter(pred) == if pred(all[i]) {
            all.take(i).filter(pred).push(all[i])
        } else {
            all.take(i).filter(pred)
        },
{
    reveal(Seq::filter);
    assert(all.take(i + 1).drop_last() =~= all.take(i));
}

/// Whether `list` names `node`.
pub fn list_contains(list: &Vec<usize>, node: usize) -> (found: bool)
    ensures
        found == ints(list@).contains(node as int),
{
    let mut k: usize = 0;
    while k < list.len()
        invariant
            k <= list.len(),
            forall|j: int| 0 <= j < k ==> ints(list@)[j] != node as int,
        decreases list.len() - k,
    {
        if list[k] == node {
            assert(ints(list@)[k as int] == node as int);
            return true;
        }
        k += 1;
    }
    false
}

/// The members of the list of `v` that survive.
pub fn survivors(adj: &Vec<Vec<usize>>, v: usize) -> (stay: Vec<usize>)
    requires
        v < adj.len(),
        lists_ok(lists(adj@)),
    ensures
        ints(stay@) == kept(lists(adj@), lists(adj@)[v as int]),
{
    let all = &adj[v];
    let ghost model = lists(adj@);
    let ghost pred = |c: int| survives(model, ints(all@), c);
    let mut stay: Vec<usize> = Vec::new();
    let mut i: usize = 0;
    proof {
        reveal(Seq::filter);
        assert(ints(all@).take(0) =~= Seq::<int>::empty());
        assert(ints(stay@) =~= Seq::<int>::empty());
    }
    while i < all.len()
        invariant
            i <= all.len(),
            v < adj.len(),
            all == &adj[v as int],
            model == lists(adj@),
            lists_ok(model),
            pred == (|c: int| survives(model, ints(all@), c)),
            ints(stay@) == ints(all@).take(i as int).filter(pred),
        decreases all.len() - i,
    {
        let c = all[i];
        let mut keep = true;
        let mut k: usize = 0;
        while k < all.len()
            invariant
                k <= all.len(),
                v < adj.len(),
                all == &adj[v as int],
                model == lists(adj@),
                lists_ok(model),
                c == all[i as int],
                i < all.len(),
                keep <==> forall|j: int|
                    0 <= j < k && ints(all@)[j] != c as int ==> !(#[trigger] model[ints(
                        all@,
                    )[j]]).contains(c as int),
            decreases all.len() - k,
        {
            let sibling = all[k];
            assert(model[v as int] == ints(all@));
            assert(0 <= ints(all@)[k as int] < adj.len());
            if sibling != c && list_contains(&adj[sibling], c) {
                assert(model[ints(all@)[k as int]].contains(c as int));
                keep = false;
            }
            k += 1;
        }
        proof {
            lemma_filter_step(ints(all@), pred, i as int);
            assert(keep == pred(ints(all@)[i as int]));
        }
        if keep {
            let ghost before = stay@;
            stay.push(c);
            assert(ints(stay@) =~= ints(before).push(c as int));
        }
        i += 1;
    }
    proof {
        assert(ints(all@).take(all.len() as int) =~= ints(all@));
    }
    stay
}

/// What filtering keeps: members of the list that satisfy the predicate, each
/// once if the list held it once; and the whole list where all satisfy it.
pub proof fn lemma_filter_sublist(list: Seq<int>, pred: spec_fn(int) -> bool)
    ensures
        forall|c: int| #[trigger]
            list.filter(pred).contains(c) <==> list.contains(c) && pred(c),
        list.no_duplicates() ==> list.filter(pred).no_duplicates(),
        (forall|k: int| 0 <= k < list.len() ==> pred(#[trigger] list[k])) ==> list.filter(pred)
            == list,
    decreases list.len(),
{
    reveal(Seq::filter);
    if list.len() > 0 {
        let front = list.drop_last();
        let last = list.last();
        let out = front.filter(pred);
        lemma_filter_sublist(front, pred);
        assert forall|c: int| #[trigger]
            list.filter(pred).contains(c) <==> list.contains(c) && pred(c) by {
            if list.filter(pred).contains(c) {
                if pred(last) && c == last {
                    assert(list[list.len() - 1] == c);
                } else {
                    if pred(last) {
                        let k = choose|k: int|
                            0 <= k < out.push(last).len() && out.push(last)[k] == c;
                        assert(out[k] == c);
                    }
                    assert(out.contains(c));
                    let k = choose|k: int| 0 <= k < front.len() && front[k] == c;
                    assert(list[k] == c);
                }
            }
            if list.contains(c) && pred(c) {
                let k = choose|k: int| 0 <= k < list.len() && list[k] == c;
                if k < list.len() - 1 {
                    assert(front[k] == c);
                    assert(out.contains(c));
                    let j = choose|j: int| 0 <= j < out.len() && out[j] == c;
                    if pred(last) {
                        assert(out.push(last)[j] == c);
                    }
                } else {
                    assert(out.push(last)[out.len() as int] == c);
                }
            }
        }
        if list.no_duplicates() {
            assert(front.no_duplicates());
            if pred(last) {
                if out.contains(last) {
                    let k = choose|k: int| 0 <= k < front.len() && front[k] == last;
                    assert(list[k] == list[list.len() - 1]);
                }
                assert(out.push(last).no_duplicates());
            }
        }
        if forall|k: int| 0 <= k < list.len() ==> pred(#[trigger] list[k]) {
            assert forall|k: int| 0 <= k < front.len() implies pred(#[trigger] front[k]) by {
                assert(front[k] == list[k]);
            }
            assert(pred(list[list.len() - 1]));
            assert(out.push(last) =~= list);
        }
    }
}

/// What pruning leaves of a list: a list in order, holding members of the
/// old one that survive.
pub proof fn lemma_kept(adj: Seq<Seq<int>>, all: Seq<int>)
    ensures
        forall|c: int| #[trigger]
            kept(adj, all).contains(c) <==> all.contains(c) && survives(adj, all, c),
        forall|n: int| list_ok(all, n) ==> #[trigger] list_ok(kept(adj, all), n),
{
    let pred = |c: int| survives(adj, all, c);
    lemma_filter_sublist(all, pred);
    assert forall|n: int| list_ok(all, n) implies #[trigger] list_ok(kept(adj, all), n) by {
        let out = kept(adj, all);
        assert forall|k: int| 0 <= k < out.len() implies 0 <= #[trigger] out[k] < n by {
            assert(out.contains(out[k]));
            let j = choose|j: int| 0 <= j < all.len() && all[j] == out[k];
            assert(0 <= all[j] < n);
        }
    }
}

/// No member of the list of `v` has an edge to another member.
pub open spec fn settled(adj: Seq<Seq<int>>, v: int) -> bool {
    forall|c: int, d: int|
        #![trigger adj[v].contains(c), adj[v].contains(d)]
        adj[v].contains(c) && adj[v].contains(d) && d != c ==> !adj[d].contains(c)
}

/// Every member of the list of `v` lies in `region`.
pub open spec fn closed_at(adj: Seq<Seq<int>>, region: Set<int>, v: int) -> bool {
    forall|c: int| #[trigger] adj[v].contains(c) ==> region.contains(c)
}

/// Every node of `region` is a node of the adjacency, is settled, and has
/// edges only into `region`.
pub open spec fn settled_region(adj: Seq<Seq<int>>, region: Set<int>) -> bool {
    forall|v: int| #[trigger]
        region.contains(v) ==> 0 <= v < adj.len() && settled(adj, v) && closed_at(adj, region, v)
}

/// A settled region stays one when edges are only removed.
pub proof fn lemma_settled_region_shrinks(
    before: Seq<Seq<int>>,
    after: Seq<Seq<int>>,
    region: Set<int>,
)
    requires
        settled_region(before, region),
        shrinks(before, after),
        lists_ok(before),
    ensures
        settled_region(after, region),
{
    assert forall|v: int| #[trigger] region.contains(v) implies 0 <= v < after.len() && settled(
        after,
        v,
    ) && closed_at(after, region, v) by {
        assert(settled(before, v));
        assert(closed_at(before, region, v));
        assert forall|c: int, d: int|
            #![trigger after[v].contains(c), after[v].contains(d)]
            after[v].contains(c) && after[v].contains(d) && d != c implies !after[d].contains(
            c,
        ) by {
            assert(before[v].contains(c) && before[v].contains(d));
            assert(region.contains(d));
            if after[d].contains(c) {
                assert(before[d].contains(c));
            }
        }
        assert forall|c: int| #[trigger] after[v].contains(c) implies region.contains(c) by {
            assert(before[v].contains(c));
        }
    }
}

/// What a pruning walk does. It only removes edges, and only at the nodes it
/// newly visits; it visits every node on its stack; and each node it newly
/// visits ends settled, with edges only to visited nodes.
pub proof fn lemma_prune_run(adj: Seq<Seq<int>>, seen: Set<int>, stack: Seq<int>)
    requires
        lists_ok(adj),
    ensures
        ({
            let (after, reached) = prune_run(adj, seen, stack);
            &&& lists_ok(after)
            &&& shrinks(adj, after)
            &&& forall|v: int| seen.contains(v) ==> #[trigger] reached.contains(v)
            &&& forall|k: int|
                0 <= k < stack.len() && 0 <= stack[k] < adj.len() ==> reached.contains(
                    #[trigger] stack[k],
                )
            &&& forall|v: int|
                0 <= v < adj.len() && (seen.contains(v) || !reached.contains(v))
                    ==> #[trigger] after[v] == adj[v]
            &&& forall|v: int|
                #![trigger reached.contains(v)]
                reached.contains(v) && !seen.contains(v) ==> 0 <= v < adj.len() && settled(
                    after,
                    v,
                ) && closed_at(after, reached, v)
        }),
    decreases unseen(adj.len() as int, seen).len(), stack.len(),
{
    if stack.len() > 0 {
        let v = stack.last();
        let rest = stack.drop_last();
        if !(0 <= v < adj.len()) || seen.contains(v) {
            lemma_prune_run(adj, seen, rest);
            let (after, reached) = prune_run(adj, seen, rest);
            assert forall|k: int|
                0 <= k < stack.len() && 0 <= stack[k] < adj.len() implies reached.contains(
                #[trigger] stack[k],
            ) by {
                if k < stack.len() - 1 {
                    assert(rest[k] == stack[k]);
                }
            }
        } else {
            lemma_unseen(adj.len() as int, seen, v);
            let all = adj[v];
            let first = adj.update(v, kept(adj, all));
            let seen1 = seen.insert(v);
            let stack1 = rest + all;
            lemma_kept(adj, all);
            assert(list_ok(all, adj.len() as int));
            assert(lists_ok(first)) by {
                assert forall|u: int| 0 <= u < first.len() implies list_ok(
                    #[trigger] first[u],
                    first.len() as int,
                ) by {
                    if u != v {
                        assert(first[u] == adj[u]);
                    }
                }
            }
            lemma_prune_run(first, seen1, stack1);
            let (after, reached) = prune_run(first, seen1, stack1);
            assert(shrinks(adj, first)) by {
                assert forall|u: int, c: int|
                    0 <= u < adj.len() && #[trigger] first[u].contains(c) implies adj[u].contains(
                    c,
                ) by {
                    if u == v {
                        assert(kept(adj, all).contains(c));
                    }
                }
            }
            assert(shrinks(adj, after)) by {
                assert forall|u: int, c: int|
                    0 <= u < adj.len() && #[trigger] after[u].contains(c) implies adj[u].contains(
                    c,
                ) by {
                    assert(first[u].contains(c));
                }
            }
            assert(seen1.contains(v));
            assert(reached.contains(v));
            assert forall|k: int|
                0 <= k < stack.len() && 0 <= stack[k] < adj.len() implies reached.contains(
                #[trigger] stack[k],
            ) by {
                if k < stack.len() - 1 {
                    assert(stack1[k] == stack[k]);
                }
            }
            assert forall|u: int| seen.contains(u) implies #[trigger] reached.contains(u) by {
                assert(seen1.contains(u));
            }
            assert forall|u: int|
                0 <= u < adj.len() && (seen.contains(u) || !reached.contains(u))
                    implies #[trigger] after[u] == adj[u] by {
                assert(u != v);
                if seen.contains(u) {
                    assert(seen1.contains(u));
                }
                assert(after[u] == first[u]);
            }
            assert(after[v] == first[v]);
            assert forall|u: int|
                #![trigger reached.contains(u)]
                reached.contains(u) && !seen.contains(u) implies 0 <= u < adj.len() && settled(
                after,
                u,
            ) && closed_at(after, reached, u) by {
                if u == v {
                    assert forall|c: int, d: int|
                        #![trigger after[v].contains(c), after[v].contains(d)]
                        after[v].contains(c) && after[v].contains(d) && d != c
                            implies !after[d].contains(c) by {
                        assert(kept(adj, all).contains(c));
                        assert(kept(adj, all).contains(d));
                        assert(survives(adj, all, c));
                        let k = choose|k: int| 0 <= k < all.len() && all[k] == d;
                        assert(!adj[all[k]].contains(c));
                        assert(0 <= d < adj.len());
                        if after[d].contains(c) {
                            assert(adj[d].contains(c));
                        }
                    }
                    assert forall|c: int| #[trigger] after[v].contains(c) implies reached.contains(
                        c,
                    ) by {
                        assert(kept(adj, all).contains(c));
                        let k = choose|k: int| 0 <= k < all.len() && all[k] == c;
                        assert(stack1[rest.len() + k] == c);
                        assert(0 <= stack1[rest.len() + k] < first.len());
                    }
                } else {
                    assert(!seen1.contains(u));
                }
            }
        }
    }
}

/// A pruning walk that stays inside a settled region changes nothing.
pub proof fn lemma_prune_run_settled(
    adj: Seq<Seq<int>>,
    seen: Set<int>,
    stack: Seq<int>,
    region: Set<int>,
)
    requires
        lists_ok(adj),
        settled_region(adj, region),
        forall|k: int|
            0 <= k < stack.len() && 0 <= stack[k] < adj.len() ==> region.contains(
                #[trigger] stack[k],
            ) || seen.contains(stack[k]),
    ensures
        prune_run(adj, seen, stack).0 == adj,
    decreases unseen(adj.len() as int, seen).len(), stack.len(),
{
    if stack.len() > 0 {
        let v = stack.last();
        let rest = stack.drop_last();
        assert forall|k: int|
            0 <= k < rest.len() && 0 <= rest[k] < adj.len() implies region.contains(
            #[trigger] rest[k],
        ) || seen.contains(rest[k]) by {
            assert(rest[k] == stack[k]);
        }
        if !(0 <= v < adj.len()) || seen.contains(v) {
            lemma_prune_run_settled(adj, seen, rest, region);
        } else {
            lemma_unseen(adj.len() as int, seen, v);
            let all = adj[v];
            assert(stack[stack.len() - 1] == v);
            assert(region.contains(v));
            assert(settled(adj, v));
            assert(closed_at(adj, region, v));
            let pred = |c: int| survives(adj, all, c);
            assert forall|k: int| 0 <= k < all.len() implies pred(#[trigger] all[k]) by {
                let c = all[k];
                assert(adj[v].contains(c));
                assert forall|j: int| 0 <= j < all.len() && all[j] != c implies !(
                #[trigger] adj[all[j]]).contains(c) by {
                    assert(adj[v].contains(all[j]));
                }
            }
            lemma_filter_sublist(all, pred);
            assert(kept(adj, all) == all);
            assert(adj.update(v, all) =~= adj);
            let stack1 = rest + all;
            assert forall|k: int|
                0 <= k < stack1.len() && 0 <= stack1[k] < adj.len() implies region.contains(
                #[trigger] stack1[k],
            ) || seen.insert(v).contains(stack1[k]) by {
                if k < rest.len() {
                    assert(stack1[k] == rest[k]);
                } else {
                    assert(stack1[k] == all[k - rest.len()]);
                    assert(adj[v].contains(all[k - rest.len()]));
                }
            }
            lemma_prune_run_settled(adj, seen.insert(v), stack1, region);
        }
    }
}

/// What one pruning walk from `start` achieves: the nodes it reached form a
/// settled region of the result, and a settled region that was there before
/// still is one.
pub proof fn lemma_prune_from(adj: Seq<Seq<int>>, start: int, region: Set<int>)
    requires
        lists_ok(adj),
        settled_region(adj, region),
    ensures
        lists_ok(prune_from(adj, start)),
        shrinks(adj, prune_from(adj, start)),
        settled_region(prune_from(adj, start), region.union(reached_from(adj, start))),
        0 <= start < adj.len() ==> reached_from(adj, start).contains(start),
        forall|v: int|
            0 <= v < adj.len() && !reached_from(adj, start).contains(v) ==> #[trigger] prune_from(
                adj,
                start,
            )[v] == adj[v],
{
    let stack = seq![start];
    lemma_prune_run(adj, Set::empty(), stack);
    let (after, reached) = prune_run(adj, Set::empty(), stack);
    lemma_settled_region_shrinks(adj, after, region);
    assert(stack[0] == start);
    let both = region.union(reached);
    assert forall|v: int| #[trigger] both.contains(v) implies 0 <= v < after.len() && settled(
        after,
        v,
    ) && closed_at(after, both, v) by {
        if reached.contains(v) {
            assert(closed_at(after, reached, v));
        } else {
            assert(region.contains(v));
            assert(closed_at(after, region, v));
        }
    }
}

/// Pruning twice from the same node is pruning once.
pub proof fn lemma_prune_from_idempotent(adj: Seq<Seq<int>>, start: int)
    requires
        lists_ok(adj),
    ensures
        prune_from(prune_from(adj, start), start) == prune_from(adj, start),
{
    lemma_prune_from(adj, start, Set::empty());
    let after = prune_from(adj, start);
    let region = Set::<int>::empty().union(reached_from(adj, start));
    let stack = seq![start];
    assert(stack[0] == start);
    lemma_prune_run_settled(after, Set::empty(), stack, region);
}

/// The rank falls along every edge, as it does in an adjacency without
/// cycles.
pub open spec fn ranked(adj: Seq<Seq<int>>, rank: spec_fn(int) -> nat) -> bool {
    forall|v: int, c: int| 0 <= v < adj.len() && #[trigger] adj[v].contains(c) ==> rank(c) < rank(v)
}

/// The place of a member of highest rank among the first `upto` of a list.
pub open spec fn highest(list: Seq<int>, rank: spec_fn(int) -> nat, upto: int) -> int
    decreases upto,
{
    if upto <= 1 {
        0
    } else {
        let front = highest(list, rank, upto - 1);
        if rank(list[upto - 1]) > rank(list[front]) {
            upto - 1
        } else {
            front
        }
    }
}

/// `highest` is a place of the list, and no member before `upto` ranks
/// higher than the member there.
pub proof fn lemma_highest(list: Seq<int>, rank: spec_fn(int) -> nat, upto: int)
    requires
        1 <= upto <= list.len(),
    ensures
        0 <= highest(list, rank, upto) < upto,
        forall|k: int|
            0 <= k < upto ==> rank(#[trigger] list[k]) <= rank(list[highest(list, rank, upto)]),
    decreases upto,
{
    if upto > 1 {
        lemma_highest(list, rank, upto - 1);
    }
}

/// Where the rank falls along every edge, pruning never empties a list: the
/// member of highest rank survives.
pub proof fn lemma_kept_nonempty(adj: Seq<Seq<int>>, all: Seq<int>, rank: spec_fn(int) -> nat)
    requires
        ranked(adj, rank),
        all.len() > 0,
        forall|k: int| 0 <= k < all.len() ==> 0 <= #[trigger] all[k] < adj.len(),
    ensures
        kept(adj, all).len() > 0,
{
    let top = highest(all, rank, all.len() as int);
    lemma_highest(all, rank, all.len() as int);
    let c = all[top];
    assert forall|k: int| 0 <= k < all.len() && all[k] != c implies !(
    #[trigger] adj[all[k]]).contains(c) by {
        if adj[all[k]].contains(c) {
            assert(rank(c) < rank(all[k]));
        }
    }
    assert(survives(adj, all, c));
    assert(all.contains(c));
    lemma_kept(adj, all);
    assert(kept(adj, all).contains(c));
}

/// Where the rank falls along every edge, a pruning walk leaves every node
/// that had an edge with an edge.
pub proof fn lemma_prune_run_keeps_some(
    adj: Seq<Seq<int>>,
    seen: Set<int>,
    stack: Seq<int>,
    rank: spec_fn(int) -> nat,
)
    requires
        lists_ok(adj),
        ranked(adj, rank),
    ensures
        forall|v: int|
            0 <= v < adj.len() && adj[v].len() > 0 ==> (#[trigger] prune_run(
                adj,
                seen,
                stack,
            ).0[v]).len() > 0,
        ranked(prune_run(adj, seen, stack).0, rank),
    decreases unseen(adj.len() as int, seen).len(), stack.len(),
{
    if stack.len() > 0 {
        let v = stack.last();
        let rest = stack.drop_last();
        if !(0 <= v < adj.len()) || seen.contains(v) {
            lemma_prune_run_keeps_some(adj, seen, rest, rank);
        } else {
            lemma_unseen(adj.len() as int, seen, v);
            let all = adj[v];
            let first = adj.update(v, kept(adj, all));
            lemma_kept(adj, all);
            assert(list_ok(all, adj.len() as int));
            assert(lists_ok(first)) by {
                assert forall|u: int| 0 <= u < first.len() implies list_ok(
                    #[trigger] first[u],
                    first.len() as int,
                ) by {
                    if u != v {
                        assert(first[u] == adj[u]);
                    }
                }
            }
            assert(ranked(first, rank)) by {
                assert forall|u: int, c: int|
                    0 <= u < first.len() && #[trigger] first[u].contains(c) implies rank(c) < rank(
                    u,
                ) by {
                    if u == v {
                        assert(kept(adj, all).contains(c));
                        assert(adj[v].contains(c));
                    } else {
                        assert(adj[u].contains(c));
                    }
                }
            }
            if all.len() > 0 {
                lemma_kept_nonempty(adj, all, rank);
            }
            lemma_prune_run_keeps_some(first, seen.insert(v), rest + all, rank);
            let after = prune_run(first, seen.insert(v), rest + all).0;
            assert forall|u: int| 0 <= u < adj.len() && adj[u].len() > 0 implies (
            #[trigger] after[u]).len() > 0 by {
                if u != v {
                    assert(first[u] == adj[u]);
                }
                assert(first[u].len() > 0);
            }
        }
    }
}

/// Node `v` has another member `d` in its list that has an edge to `c`.
pub open spec fn bypassed(adj: Seq<Seq<int>>, v: int, c: int) -> bool {
    exists|d: int| #[trigger] adj[v].contains(d) && d != c && adj[d].contains(c)
}

/// Every edge that node `v` had is still there, or was provided by another
/// member of its list.
pub open spec fn accounted(adj: Seq<Seq<int>>, after: Seq<Seq<int>>, v: int) -> bool {
    forall|c: int| #[trigger] adj[v].contains(c) ==> after[v].contains(c) || bypassed(adj, v, c)
}

/// There is a path of at most `steps` edges from `from` to `to`.
pub open spec fn reaches(adj: Seq<Seq<int>>, from: int, to: int, steps: nat) -> bool
    decreases steps,
{
    from == to || (steps > 0 && exists|next: int| #[trigger]
        adj[from].contains(next) && reaches(adj, next, to, (steps - 1) as nat))
}

/// There is a path from `from` to `to`.
pub open spec fn connected(adj: Seq<Seq<int>>, from: int, to: int) -> bool {
    exists|steps: nat| reaches(adj, from, to, steps)
}

/// Two paths make one.
pub proof fn lemma_reaches_joined(
    adj: Seq<Seq<int>>,
    from: int,
    mid: int,
    to: int,
    first: nat,
    second: nat,
)
    requires
        reaches(adj, from, mid, first),
        reaches(adj, mid, to, second),
    ensures
        reaches(adj, from, to, first + second),
    decreases first,
{
    if from == mid {
        lemma_reaches_longer(adj, mid, to, second, first + second);
    } else {
        let next = choose|next: int| #[trigger]
            adj[from].contains(next) && reaches(adj, next, mid, (first - 1) as nat);
        lemma_reaches_joined(adj, next, mid, to, (first - 1) as nat, second);
        assert(adj[from].contains(next) && reaches(
            adj,
            next,
            to,
            ((first + second) - 1) as nat,
        ));
    }
}

/// A path of some length is a path of any greater length.
pub proof fn lemma_reaches_longer(adj: Seq<Seq<int>>, from: int, to: int, steps: nat, more: nat)
    requires
        reaches(adj, from, to, steps),
        steps <= more,
    ensures
        reaches(adj, from, to, more),
    decreases steps,
{
    if from != to {
        let next = choose|next: int| #[trigger]
            adj[from].contains(next) && reaches(adj, next, to, (steps - 1) as nat);
        lemma_reaches_longer(adj, next, to, (steps - 1) as nat, (more - 1) as nat);
        assert(adj[from].contains(next) && reaches(adj, next, to, (more - 1) as nat));
    }
}

/// A pruning walk accounts for every edge of a node it newly visits, and
/// visits every node that such a node had an edge to.
pub proof fn lemma_prune_run_accounts(adj: Seq<Seq<int>>, seen: Set<int>, stack: Seq<int>)
    requires
        lists_ok(adj),
    ensures
        ({
            let (after, reached) = prune_run(adj, seen, stack);
            forall|v: int|
                #![trigger reached.contains(v)]
                reached.contains(v) && !seen.contains(v) ==> accounted(adj, after, v)
                    && closed_at(adj, reached, v)
        }),
    decreases unseen(adj.len() as int, seen).len(), stack.len(),
{
    if stack.len() > 0 {
        let v = stack.last();
        let rest = stack.drop_last();
        if !(0 <= v < adj.len()) || seen.contains(v) {
            lemma_prune_run_accounts(adj, seen, rest);
            assert(prune_run(adj, seen, stack) == prune_run(adj, seen, rest));
        } else {
            lemma_unseen(adj.len() as int, seen, v);
            let all = adj[v];
            let first = adj.update(v, kept(adj, all));
            let seen1 = seen.insert(v);
            let stack1 = rest + all;
            lemma_kept(adj, all);
            assert(list_ok(all, adj.len() as int));
            assert(lists_ok(first)) by {
                assert forall|u: int| 0 <= u < first.len() implies list_ok(
                    #[trigger] first[u],
                    first.len() as int,
                ) by {
                    if u != v {
                        assert(first[u] == adj[u]);
                    }
                }
            }
            lemma_prune_run_accounts(first, seen1, stack1);
            lemma_prune_run(first, seen1, stack1);
            let (after, reached) = prune_run(first, seen1, stack1);
            assert(prune_run(adj, seen, stack) == prune_run(first, seen1, stack1));
            assert(seen1.contains(v));
            assert(after[v] == first[v]);
            assert forall|u: int|
                #![trigger reached.contains(u)]
                reached.contains(u) && !seen.contains(u) implies accounted(adj, after, u)
                && closed_at(adj, reached, u) by {
                if u == v {
                    assert forall|c: int| #[trigger] adj[v].contains(c) implies after[v].contains(c)
                        || bypassed(adj, v, c) by {
                        if !kept(adj, all).contains(c) {
                            assert(!survives(adj, all, c));
                            let k = choose|k: int|
                                0 <= k < all.len() && all[k] != c && (
                                #[trigger] adj[all[k]]).contains(c);
                            assert(adj[v].contains(all[k]));
                        }
                    }
                    assert forall|c: int| #[trigger] adj[v].contains(c) implies reached.contains(
                        c,
                    ) by {
                        let k = choose|k: int| 0 <= k < all.len() && all[k] == c;
                        assert(stack1[rest.len() + k] == c);
                        assert(0 <= stack1[rest.len() + k] < first.len());
                    }
                } else {
                    assert(!seen1.contains(u));
                    assert(accounted(first, after, u));
                    assert(closed_at(first, reached, u));
                    assert(0 <= u < adj.len()) by {
                        assert(reached.contains(u) && !seen1.contains(u));
                    }
                    assert(first[u] == adj[u]);
                    assert forall|c: int| #[trigger] adj[u].contains(c) implies after[u].contains(c)
                        || bypassed(adj, u, c) by {
                        if !after[u].contains(c) {
                            assert(first[u].contains(c));
                            assert(bypassed(first, u, c));
                            let d = choose|d: int| #[trigger]
                                first[u].contains(d) && d != c && first[d].contains(c);
                            assert(0 <= d < adj.len()) by {
                                let k = choose|k: int| 0 <= k < adj[u].len() && adj[u][k] == d;
                                assert(0 <= adj[u][k] < adj.len());
                            }
                            if d == v {
                                assert(kept(adj, all).contains(c));
                            } else {
                                assert(first[d] == adj[d]);
                            }
                            assert(adj[u].contains(d) && d != c && adj[d].contains(c));
                        }
                    }
                }
            }
        }
    }
}

/// Pruning keeps what it finds connected: where the rank falls along every
/// edge, an edge of a visited node that pruning removed is made up for by a
/// path.
pub proof fn lemma_still_connected(
    adj: Seq<Seq<int>>,
    after: Seq<Seq<int>>,
    region: Set<int>,
    rank: spec_fn(int) -> nat,
    v: int,
    c: int,
)
    requires
        lists_ok(adj),
        ranked(adj, rank),
        forall|u: int|
            #![trigger region.contains(u)]
            region.contains(u) ==> 0 <= u < adj.len() && accounted(adj, after, u) && closed_at(
                adj,
                region,
                u,
            ),
        region.contains(v),
        adj[v].contains(c),
    ensures
        connected(after, v, c),
    decreases rank(v), rank(v) - rank(c),
{
    assert(accounted(adj, after, v));
    assert(rank(c) < rank(v));
    if after[v].contains(c) {
        assert(reaches(after, c, c, 0));
        assert(reaches(after, v, c, 1));
    } else {
        assert(bypassed(adj, v, c));
        let d = choose|d: int| #[trigger] adj[v].contains(d) && d != c && adj[d].contains(c);
        assert(closed_at(adj, region, v));
        assert(region.contains(d));
        assert(rank(d) < rank(v));
        assert(rank(c) < rank(d));
        lemma_still_connected(adj, after, region, rank, v, d);
        lemma_still_connected(adj, after, region, rank, d, c);
        let first = choose|steps: nat| reaches(after, v, d, steps);
        let second = choose|steps: nat| reaches(after, d, c, steps);
        lemma_reaches_joined(after, v, d, c, first, second);
    }
}

/// After a pruning walk from `start` over an adjacency without cycles,
/// every node that the walk visited still leads, by some path, to each node
/// that it had an edge to.
pub proof fn lemma_prune_from_connected(
    adj: Seq<Seq<int>>,
    start: int,
    rank: spec_fn(int) -> nat,
    v: int,
    c: int,
)
    requires
        lists_ok(adj),
        ranked(adj, rank),
        reached_from(adj, start).contains(v),
        adj[v].contains(c),
    ensures
        connected(prune_from(adj, start), v, c),
        reached_from(adj, start).contains(c),
{
    let stack = seq![start];
    lemma_prune_run_accounts(adj, Set::empty(), stack);
    lemma_prune_run(adj, Set::empty(), stack);
    let (after, reached) = prune_run(adj, Set::empty(), stack);
    assert(closed_at(adj, reached, v));
    lemma_still_connected(adj, after, reached, rank, v, c);
}

/// Prunes the adjacency by a walk from `start`: each node within reach has
/// its list cut down to the members that no other member leads to. A node
/// is dealt with once, when the walk first comes to it, and is judged by the
/// lists as they stand then.
pub fn prune(adj: &mut Vec<Vec<usize>>, start: usize)
    requires
        lists_ok(lists(old(adj)@)),
    ensures
        lists(final(adj)@) == prune_from(lists(old(adj)@), start as int),
        lists_ok(lists(final(adj)@)),
        final(adj).len() == old(adj).len(),
{
    let n = adj.len();
    let ghost origin = lists(adj@);
    proof {
        lemma_prune_from(origin, start as int, Set::empty());
    }
    let mut seen: Vec<bool> = Vec::new();
    let mut i: usize = 0;
    while i < n
        invariant
            i <= n,
            seen.len() == i,
            forall|k: int| 0 <= k < i ==> !seen[k],
        decreases n - i,
    {
        seen.push(false);
        i += 1;
    }
    let mut stack: Vec<usize> = Vec::new();
    stack.push(start);
    proof {
        assert(marked(seen@) =~= Set::<int>::empty());
        assert(ints(stack@) =~= seq![start as int]);
    }
    while stack.len() > 0
        invariant
            adj.len() == n,
            seen.len() == n,
            lists_ok(lists(adj@)),
            prune_run(lists(adj@), marked(seen@), ints(stack@)) == prune_run(
                origin,
                Set::empty(),
                seq![start as int],
            ),
        decreases unseen(n as int, marked(seen@)).len(), stack.len(),
    {
        let ghost model = lists(adj@);
        let ghost before = ints(stack@);
        let ghost visited = marked(seen@);
        let v = stack.pop().unwrap();
        proof {
            assert(before.last() == v as int);
            assert(before.drop_last() =~= ints(stack@));
        }
        if v < n && !seen[v] {
            let stay = survivors(adj, v);
            let ghost rest = ints(stack@);
            let mut k: usize = 0;
            while k < adj[v].len()
                invariant
                    v < adj.len(),
                    k <= adj[v as int].len(),
                    ints(stack@) == rest + ints(adj[v as int]@).take(k as int),
                decreases adj[v as int].len() - k,
            {
                let ghost was = ints(stack@);
                stack.push(adj[v][k]);
                assert(ints(stack@) =~= rest + ints(adj[v as int]@).take(k + 1)) by {
                    assert(ints(stack@) =~= was.push(adj[v as int][k as int] as int));
                }
                k += 1;
            }
            proof {
                assert(ints(adj[v as int]@).take(k as int) =~= model[v as int]);
                lemma_unseen(n as int, visited, v as int);
                lemma_kept(model, model[v as int]);
            }
            seen.set(v, true);
            adj.set(v, stay);
            proof {
                assert(marked(seen@) =~= visited.insert(v as int));
                assert(lists(adj@) =~= model.update(v as int, kept(model, model[v as int])));
                assert(lists_ok(lists(adj@))) by {
                    assert forall|u: int| 0 <= u < n implies list_ok(
                        #[trigger] lists(adj@)[u],
                        n as int,
                    ) by {
                        if u != v {
                            assert(lists(adj@)[u] == model[u]);
                        }
                    }
                }
            }
        } else {
            proof {
                lemma_unseen(n as int, visited, v as int);
            }
        }
    }
}

} // verus!
