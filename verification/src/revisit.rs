//! The pruning walk without memory, and why memory changes nothing.
//!
//! The walk of `adjacency` visits a node once. The walk defined here forgets
//! where it has been: it prunes a node each time a path leads to it, as a
//! plain recursion over the lists does. Over an adjacency without cycles the
//! two leave the same lists, which is proved at the end.

use crate::adjacency::{
    closed_at, kept, lemma_filter_sublist, lemma_kept, lemma_prune_run,
    lemma_settled_region_shrinks, lemma_unseen, list_ok, lists_ok, prune_from, prune_run, ranked,
    settled, settled_region, shrinks, survives, unseen,
};
use vstd::prelude::*;

verus! {

/// The adjacency after the forgetful walk from `v`, followed down to at most
/// `depth` levels: the list of `v` is cut down to the members that survive,
/// and the walk goes on from each of its former members in turn, the last one
/// first, whether or not it has been there before.
pub open spec fn rewalk(adj: Seq<Seq<int>>, v: int, depth: nat) -> Seq<Seq<int>>
    decreases depth, 0nat,
{
    if depth == 0 || !(0 <= v < adj.len()) {
        adj
    } else {
        rewalk_each(
            adj.update(v, kept(adj, adj[v])),
            adj[v],
            adj[v].len(),
            (depth - 1) as nat,
        )
    }
}

/// The adjacency after the forgetful walk from each of the first `count`
/// members of `list`, the last of them first.
pub open spec fn rewalk_each(adj: Seq<Seq<int>>, list: Seq<int>, count: nat, depth: nat) -> Seq<
    Seq<int>,
>
    decreases depth, count + 1,
{
    if count == 0 {
        adj
    } else {
        rewalk_each(rewalk(adj, list[count - 1], depth), list, (count - 1) as nat, depth)
    }
}

/// Cutting the list of a node keeps the adjacency in order, only removes
/// edges, and keeps a rank that falls along the edges falling.
pub proof fn lemma_cut(adj: Seq<Seq<int>>, v: int)
    requires
        lists_ok(adj),
        0 <= v < adj.len(),
    ensures
        lists_ok(adj.update(v, kept(adj, adj[v]))),
        shrinks(adj, adj.update(v, kept(adj, adj[v]))),
        forall|rank: spec_fn(int) -> nat|
            ranked(adj, rank) ==> #[trigger] ranked(adj.update(v, kept(adj, adj[v])), rank),
{
    let all = adj[v];
    let first = adj.update(v, kept(adj, all));
    lemma_kept(adj, all);
    assert(list_ok(all, adj.len() as int));
    assert forall|u: int| 0 <= u < first.len() implies list_ok(
        #[trigger] first[u],
        first.len() as int,
    ) by {
        if u != v {
            assert(first[u] == adj[u]);
        }
    }
    assert forall|u: int, c: int|
        0 <= u < adj.len() && #[trigger] first[u].contains(c) implies adj[u].contains(c) by {
        if u == v {
            assert(kept(adj, all).contains(c));
        }
    }
    assert forall|rank: spec_fn(int) -> nat| ranked(adj, rank) implies #[trigger] ranked(
        first,
        rank,
    ) by {
        assert forall|u: int, c: int|
            0 <= u < first.len() && #[trigger] first[u].contains(c) implies rank(c) < rank(u) by {
            assert(adj[u].contains(c));
        }
    }
}

/// The list of a settled node survives whole.
pub proof fn lemma_settled_kept(adj: Seq<Seq<int>>, v: int)
    requires
        settled(adj, v),
    ensures
        kept(adj, adj[v]) == adj[v],
{
    let all = adj[v];
    let pred = |c: int| survives(adj, all, c);
    assert forall|k: int| 0 <= k < all.len() implies pred(#[trigger] all[k]) by {
        let c = all[k];
        assert(adj[v].contains(c));
        assert forall|j: int| 0 <= j < all.len() && all[j] != c implies !(
        #[trigger] adj[all[j]]).contains(c) by {
            assert(adj[v].contains(all[j]));
        }
    }
    lemma_filter_sublist(all, pred);
}

/// The walk deals with the upper part of its stack before it touches the
/// rest.
pub proof fn lemma_stack_split(
    adj: Seq<Seq<int>>,
    seen: Set<int>,
    rest: Seq<int>,
    more: Seq<int>,
)
    ensures
        prune_run(adj, seen, rest + more) == prune_run(
            prune_run(adj, seen, more).0,
            prune_run(adj, seen, more).1,
            rest,
        ),
    decreases unseen(adj.len() as int, seen).len(), more.len(),
{
    if more.len() == 0 {
        assert(rest + more =~= rest);
    } else {
        let v = more.last();
        let both = rest + more;
        assert(both.last() == v);
        assert(both.drop_last() =~= rest + more.drop_last());
        if !(0 <= v < adj.len()) || seen.contains(v) {
            lemma_stack_split(adj, seen, rest, more.drop_last());
        } else {
            lemma_unseen(adj.len() as int, seen, v);
            let first = adj.update(v, kept(adj, adj[v]));
            assert((rest + more.drop_last()) + adj[v] =~= rest + (more.drop_last() + adj[v]));
            lemma_stack_split(first, seen.insert(v), rest, more.drop_last() + adj[v]);
        }
    }
}

/// A visited node that ranks above everything on the stack is never met, so
/// that it makes no difference whether it counts as visited.
pub proof fn lemma_out_of_reach(
    adj: Seq<Seq<int>>,
    seen: Set<int>,
    stack: Seq<int>,
    x: int,
    rank: spec_fn(int) -> nat,
)
    requires
        lists_ok(adj),
        ranked(adj, rank),
        forall|k: int|
            0 <= k < stack.len() && 0 <= stack[k] < adj.len() ==> rank(#[trigger] stack[k]) < rank(
                x,
            ),
    ensures
        prune_run(adj, seen.insert(x), stack).0 == prune_run(adj, seen, stack).0,
        prune_run(adj, seen.insert(x), stack).1 == prune_run(adj, seen, stack).1.insert(x),
    decreases unseen(adj.len() as int, seen).len(), stack.len(),
{
    if stack.len() > 0 {
        let v = stack.last();
        let rest = stack.drop_last();
        assert forall|k: int| 0 <= k < rest.len() && 0 <= rest[k] < adj.len() implies rank(
            #[trigger] rest[k],
        ) < rank(x) by {
            assert(rest[k] == stack[k]);
        }
        if !(0 <= v < adj.len()) {
            lemma_out_of_reach(adj, seen, rest, x, rank);
        } else {
            assert(stack[stack.len() - 1] == v);
            assert(v != x);
            if seen.contains(v) {
                lemma_out_of_reach(adj, seen, rest, x, rank);
            } else {
                lemma_unseen(adj.len() as int, seen, v);
                lemma_cut(adj, v);
                let first = adj.update(v, kept(adj, adj[v]));
                let stack1 = rest + adj[v];
                assert(ranked(first, rank));
                assert forall|k: int|
                    0 <= k < stack1.len() && 0 <= stack1[k] < first.len() implies rank(
                    #[trigger] stack1[k],
                ) < rank(x) by {
                    if k >= rest.len() {
                        assert(adj[v].contains(adj[v][k - rest.len()]));
                    } else {
                        assert(stack1[k] == rest[k]);
                    }
                }
                lemma_out_of_reach(first, seen.insert(v), stack1, x, rank);
                assert(seen.insert(x).insert(v) =~= seen.insert(v).insert(x));
            }
        }
    }
}

/// The walk from a stack of nodes leaves a settled region a settled region,
/// grown by the nodes it visited.
pub proof fn lemma_region_grows(adj: Seq<Seq<int>>, region: Set<int>, stack: Seq<int>)
    requires
        lists_ok(adj),
        settled_region(adj, region),
    ensures
        lists_ok(prune_run(adj, region, stack).0),
        shrinks(adj, prune_run(adj, region, stack).0),
        settled_region(prune_run(adj, region, stack).0, prune_run(adj, region, stack).1),
{
    lemma_prune_run(adj, region, stack);
    let (after, reached) = prune_run(adj, region, stack);
    lemma_settled_region_shrinks(adj, after, region);
    assert forall|v: int| #[trigger] reached.contains(v) implies 0 <= v < after.len() && settled(
        after,
        v,
    ) && closed_at(after, reached, v) by {
        if region.contains(v) {
            assert(closed_at(after, region, v));
        }
    }
}

/// The forgetful walk changes nothing inside a settled region.
pub proof fn lemma_rewalk_settled(adj: Seq<Seq<int>>, region: Set<int>, v: int, depth: nat)
    requires
        settled_region(adj, region),
        region.contains(v),
    ensures
        rewalk(adj, v, depth) == adj,
    decreases depth, 0nat,
{
    if depth > 0 {
        lemma_settled_kept(adj, v);
        assert(adj.update(v, adj[v]) =~= adj);
        assert(closed_at(adj, region, v));
        assert forall|k: int| 0 <= k < adj[v].len() implies region.contains(
            #[trigger] adj[v][k],
        ) by {
            assert(adj[v].contains(adj[v][k]));
        }
        lemma_rewalk_each_settled(adj, region, adj[v], adj[v].len(), (depth - 1) as nat);
    }
}

/// The forgetful walk from members of a settled region changes nothing.
pub proof fn lemma_rewalk_each_settled(
    adj: Seq<Seq<int>>,
    region: Set<int>,
    list: Seq<int>,
    count: nat,
    depth: nat,
)
    requires
        settled_region(adj, region),
        count <= list.len(),
        forall|k: int| 0 <= k < list.len() ==> region.contains(#[trigger] list[k]),
    ensures
        rewalk_each(adj, list, count, depth) == adj,
    decreases depth, count + 1,
{
    if count > 0 {
        lemma_rewalk_settled(adj, region, list[count - 1], depth);
        lemma_rewalk_each_settled(adj, region, list, (count - 1) as nat, depth);
    }
}

/// Over an adjacency without cycles, the forgetful walk from `v` leaves what
/// the walk with memory leaves that starts with a settled region as its
/// memory.
pub proof fn lemma_rewalk(
    adj: Seq<Seq<int>>,
    region: Set<int>,
    v: int,
    depth: nat,
    rank: spec_fn(int) -> nat,
)
    requires
        lists_ok(adj),
        ranked(adj, rank),
        settled_region(adj, region),
        0 <= v < adj.len() ==> rank(v) < depth,
    ensures
        rewalk(adj, v, depth) == prune_run(adj, region, seq![v]).0,
    decreases depth, 0nat,
{
    let stack = seq![v];
    assert(stack.last() == v);
    assert(stack.drop_last() =~= Seq::<int>::empty());
    assert(prune_run(adj, region, Seq::<int>::empty()) == (adj, region));
    if !(0 <= v < adj.len()) {
        assert(prune_run(adj, region, stack) == prune_run(adj, region, stack.drop_last()));
    } else if region.contains(v) {
        assert(prune_run(adj, region, stack) == prune_run(adj, region, stack.drop_last()));
        lemma_rewalk_settled(adj, region, v, depth);
    } else {
        lemma_unseen(adj.len() as int, region, v);
        lemma_cut(adj, v);
        let all = adj[v];
        let first = adj.update(v, kept(adj, all));
        assert(Seq::<int>::empty() + all =~= all);
        assert(prune_run(adj, region, stack) == prune_run(first, region.insert(v), all));
        assert(ranked(first, rank));
        assert forall|k: int| 0 <= k < all.len() && 0 <= all[k] < first.len() implies rank(
            #[trigger] all[k],
        ) < rank(v) by {
            assert(adj[v].contains(all[k]));
        }
        lemma_out_of_reach(first, region, all, v, rank);
        lemma_settled_region_shrinks(adj, first, region);
        assert(all.take(all.len() as int) =~= all);
        assert forall|k: int| 0 <= k < all.len() implies 0 <= #[trigger] all[k] < first.len()
            && rank(all[k]) < depth - 1 by {
            assert(adj[v].contains(all[k]));
            assert(list_ok(all, adj.len() as int));
        }
        lemma_rewalk_each(first, region, all, all.len(), (depth - 1) as nat, rank);
    }
}

/// Over an adjacency without cycles, the forgetful walk from the members of
/// a list leaves what the walk with memory leaves that has them on its stack.
pub proof fn lemma_rewalk_each(
    adj: Seq<Seq<int>>,
    region: Set<int>,
    list: Seq<int>,
    count: nat,
    depth: nat,
    rank: spec_fn(int) -> nat,
)
    requires
        lists_ok(adj),
        ranked(adj, rank),
        settled_region(adj, region),
        count <= list.len(),
        forall|k: int|
            0 <= k < list.len() ==> 0 <= #[trigger] list[k] < adj.len() && rank(list[k]) < depth,
    ensures
        rewalk_each(adj, list, count, depth) == prune_run(adj, region, list.take(count as int)).0,
    decreases depth, count + 1,
{
    if count > 0 {
        let m = list[count - 1];
        let front = list.take(count - 1);
        assert(list.take(count as int) =~= front + seq![m]);
        lemma_stack_split(adj, region, front, seq![m]);
        lemma_rewalk(adj, region, m, depth, rank);
        lemma_region_grows(adj, region, seq![m]);
        let (mid, known) = prune_run(adj, region, seq![m]);
        assert(ranked(mid, rank)) by {
            assert forall|u: int, c: int|
                0 <= u < mid.len() && #[trigger] mid[u].contains(c) implies rank(c) < rank(u) by {
                assert(adj[u].contains(c));
            }
        }
        lemma_rewalk_each(mid, known, list, (count - 1) as nat, depth, rank);
    } else {
        assert(list.take(0) =~= Seq::<int>::empty());
    }
}

/// Over an adjacency without cycles, visiting every node once prunes as
/// visiting it on every path does: the walk with memory from `start` leaves
/// what the forgetful walk leaves, if that is followed deep enough.
pub proof fn lemma_prune_from_is_rewalk(
    adj: Seq<Seq<int>>,
    start: int,
    depth: nat,
    rank: spec_fn(int) -> nat,
)
    requires
        lists_ok(adj),
        ranked(adj, rank),
        0 <= start < adj.len() ==> rank(start) < depth,
    ensures
        prune_from(adj, start) == rewalk(adj, start, depth),
{
    lemma_rewalk(adj, Set::empty(), start, depth, rank);
}

} // verus!
