//! Why a path that the scheduler finds is a shortest one: the search held
//! against the graph that the fetched pages describe.

use crate::model::{
    after_advance, after_dispatch, after_fetch_failure, after_links, after_worker_gone, bump, busy,
    can_dispatch, initial, inv, is_route, law_first_hit, level_done, record, Model, Node, SlotState,
    RETRY_BUDGET,
};
use vstd::prelude::*;

verus! {

/// A graph: for each node, the links that a fetch of it delivers.
pub type Graph = Map<Node, Seq<Node>>;

/// The links of `n` in `g`; a node that `g` does not hold has none.
pub open spec fn links_of(g: Graph, n: Node) -> Seq<Node> {
    if g.contains_key(n) {
        g[n]
    } else {
        Seq::empty()
    }
}

/// Whether the node at position `i` of `w` links to the one after it.
pub open spec fn is_step(g: Graph, w: Seq<Node>, i: int) -> bool {
    links_of(g, w[i]).contains(w[i + 1])
}

/// Whether each node of `w` links to the one after it.
pub open spec fn is_walk(g: Graph, w: Seq<Node>) -> bool {
    forall|i: int| 0 <= i < w.len() - 1 ==> #[trigger] is_step(g, w, i)
}

/// Whether `k` still waits to be fetched at the current level, in the
/// frontier or with a worker.
pub open spec fn pending(m: Model, k: Node) -> bool {
    m.frontier.contains(k) || m.in_flight.contains(Some(k))
}

/// Whether every link of `k` has been taken in: none is the goal, and each
/// is discovered at most one hop beyond `k`.
pub open spec fn expanded(m: Model, g: Graph, k: Node) -> bool {
    forall|j: int|
        0 <= j < links_of(g, k).len() ==> {
            let c = #[trigger] links_of(g, k)[j];
            c != m.goal && m.parents.contains_key(c) && m.depth[c] <= m.depth[k] + 1
        }
}

/// Whether the state `m` is one of a breadth-first search of `g`: no node
/// lies beyond the next level, each parent links to its child, each node
/// up to the current level is expanded or still waits at this level, and
/// each node of the next level waits in the next frontier.
pub open spec fn explores(m: Model, g: Graph) -> bool {
    &&& inv(m)
    &&& forall|k: Node| #[trigger] m.parents.contains_key(k) ==> m.depth[k] <= m.level + 1
    &&& forall|k: Node| #[trigger]
        m.parents.contains_key(k) && k != m.start ==> links_of(g, m.parents[k]).contains(k)
    &&& forall|k: Node| #[trigger]
        m.parents.contains_key(k) && m.depth[k] <= m.level ==> expanded(m, g, k) || (m.depth[k]
            == m.level && pending(m, k))
    &&& forall|k: Node| #[trigger]
        m.parents.contains_key(k) && m.depth[k] == m.level + 1 ==> m.next.contains(k)
}

/// A node stays expanded while discoveries are only added.
proof fn lemma_expanded_grows(m: Model, m2: Model, g: Graph, k: Node)
    requires
        expanded(m, g, k),
        m.parents.contains_key(k),
        m.parents.dom() == m.depth.dom(),
        m2.goal == m.goal,
        forall|c: Node| #[trigger]
            m.parents.contains_key(c) ==> m2.parents.contains_key(c) && m2.depth[c] == m.depth[c],
    ensures
        expanded(m2, g, k),
{
    assert forall|j: int| 0 <= j < links_of(g, k).len() implies {
        let c = #[trigger] links_of(g, k)[j];
        c != m2.goal && m2.parents.contains_key(c) && m2.depth[c] <= m2.depth[k] + 1
    } by {
        let c = links_of(g, k)[j];
        assert(m.parents.contains_key(c));
    }
}

/// A search explores its graph from the first state on.
pub proof fn law_initial_explores(
    start: Node,
    goal: Node,
    workers: nat,
    max_queue: usize,
    g: Graph,
)
    requires
        start != goal,
    ensures
        explores(initial(start, goal, workers, max_queue), g),
{
    let m = initial(start, goal, workers, max_queue);
    assert(m.frontier[0] == start);
    assert(m.frontier.contains(start));
}

/// Handing a node to a worker keeps the search exploring.
pub proof fn law_dispatch_explores(m: Model, g: Graph, slot: int)
    requires
        explores(m, g),
    ensures
        explores(after_dispatch(m, slot), g),
{
    let a = after_dispatch(m, slot);
    if can_dispatch(m, slot) {
        let n = m.frontier[0];
        assert(a.in_flight[slot] == Some(n));
        assert forall|i: int| 0 <= i < a.frontier.len() implies a.parents.contains_key(
            #[trigger] a.frontier[i],
        ) && a.depth[a.frontier[i]] == a.level by {
            assert(a.frontier[i] == m.frontier[i + 1]);
        }
        assert(inv(a));
        assert forall|k: Node| #[trigger]
            a.parents.contains_key(k) && a.depth[k] <= a.level implies expanded(a, g, k) || (
        a.depth[k] == a.level && pending(a, k)) by {
            if expanded(m, g, k) {
                lemma_expanded_grows(m, a, g, k);
            } else {
                lemma_pending_after_move(m, a, k, slot);
            }
        }
    }
}

/// A node that waited before the first node of the frontier went to a
/// slot still waits.
proof fn lemma_pending_after_move(m: Model, a: Model, k: Node, slot: int)
    requires
        pending(m, k),
        0 <= slot < m.in_flight.len(),
        m.in_flight[slot] is None,
        m.frontier.len() > 0,
        a.frontier == m.frontier.drop_first(),
        a.in_flight == m.in_flight.update(slot, Some(m.frontier[0])),
    ensures
        pending(a, k),
{
    if m.frontier.contains(k) {
        let i = choose|i: int| 0 <= i < m.frontier.len() && m.frontier[i] == k;
        if i == 0 {
            assert(a.in_flight[slot] == Some(k));
        } else {
            assert(a.frontier[i - 1] == k);
        }
    } else {
        let i = choose|i: int| 0 <= i < m.in_flight.len() && m.in_flight[i] == Some(k);
        assert(a.in_flight[i] == Some(k));
    }
}

/// A node that waited before a slot gave its node back to the front of
/// the frontier still waits.
proof fn lemma_pending_after_return(m: Model, a: Model, k: Node, slot: int)
    requires
        pending(m, k),
        0 <= slot < m.in_flight.len(),
        a.frontier == match m.in_flight[slot] {
            Some(node) => seq![node] + m.frontier,
            None => m.frontier,
        },
        a.in_flight == m.in_flight.update(slot, None),
    ensures
        pending(a, k),
{
    if m.frontier.contains(k) {
        let i = choose|i: int| 0 <= i < m.frontier.len() && m.frontier[i] == k;
        if m.in_flight[slot] is Some {
            assert(a.frontier[i + 1] == k);
        } else {
            assert(a.frontier[i] == k);
        }
    } else {
        let i = choose|i: int| 0 <= i < m.in_flight.len() && m.in_flight[i] == Some(k);
        if i == slot {
            assert(a.frontier[0] == k);
        } else {
            assert(a.in_flight[i] == Some(k));
        }
    }
}

/// Losing a worker keeps the search exploring: its node waits again.
pub proof fn law_worker_gone_explores(m: Model, g: Graph, slot: int)
    requires
        explores(m, g),
    ensures
        explores(after_worker_gone(m, slot), g),
{
    let a = after_worker_gone(m, slot);
    if 0 <= slot < m.slots.len() && m.slots[slot] != SlotState::Dead {
        assert forall|i: int| 0 <= i < a.frontier.len() implies a.parents.contains_key(
            #[trigger] a.frontier[i],
        ) && a.depth[a.frontier[i]] == a.level by {
            if m.in_flight[slot] is Some {
                if i > 0 {
                    assert(a.frontier[i] == m.frontier[i - 1]);
                }
            }
        }
        assert(inv(a));
        assert forall|k: Node| #[trigger]
            a.parents.contains_key(k) && a.depth[k] <= a.level implies expanded(a, g, k) || (
        a.depth[k] == a.level && pending(a, k)) by {
            if expanded(m, g, k) {
                lemma_expanded_grows(m, a, g, k);
            } else {
                lemma_pending_after_return(m, a, k, slot);
            }
        }
    }
}

/// A failed fetch keeps the search exploring as long as the node has
/// retries left: it waits again.
pub proof fn law_retry_explores(m: Model, g: Graph, slot: int)
    requires
        explores(m, g),
        busy(m, slot) ==> !m.failures.contains_key(m.in_flight[slot]->0)
            || m.failures[m.in_flight[slot]->0] < RETRY_BUDGET,
    ensures
        explores(after_fetch_failure(m, slot), g),
{
    let a = after_fetch_failure(m, slot);
    if busy(m, slot) {
        assert(m.in_flight[slot] is Some);
        assert forall|i: int| 0 <= i < a.frontier.len() implies a.parents.contains_key(
            #[trigger] a.frontier[i],
        ) && a.depth[a.frontier[i]] == a.level by {
            if i > 0 {
                assert(a.frontier[i] == m.frontier[i - 1]);
            }
        }
        assert(inv(a));
        assert forall|k: Node| #[trigger]
            a.parents.contains_key(k) && a.depth[k] <= a.level implies expanded(a, g, k) || (
        a.depth[k] == a.level && pending(a, k)) by {
            if expanded(m, g, k) {
                lemma_expanded_grows(m, a, g, k);
            } else {
                lemma_pending_after_return(m, a, k, slot);
            }
        }
    }
}

/// Closing a level keeps the search exploring: every node of the level
/// that ends is expanded, and the next level waits in the frontier.
pub proof fn law_advance_explores(m: Model, g: Graph)
    requires
        explores(m, g),
    ensures
        explores(after_advance(m), g),
{
    let a = after_advance(m);
    if level_done(m) && m.next.len() > 0 {
        assert forall|i: int| 0 <= i < a.in_flight.len() implies (#[trigger] a.in_flight[i])
            is None by {
            assert(m.slots[i] != SlotState::Processing);
        }
        assert(inv(a));
        assert forall|k: Node| #[trigger]
            a.parents.contains_key(k) && a.depth[k] <= a.level implies expanded(a, g, k) || (
        a.depth[k] == a.level && pending(a, k)) by {
            if m.depth[k] <= m.level {
                if !expanded(m, g, k) {
                    assert(pending(m, k));
                    if m.in_flight.contains(Some(k)) {
                        let i = choose|i: int|
                            0 <= i < m.in_flight.len() && m.in_flight[i] == Some(k);
                        assert(m.in_flight[i] is Some);
                    }
                    assert(false);
                }
                lemma_expanded_grows(m, a, g, k);
            } else {
                assert(m.next.contains(k));
            }
        }
    }
}

/// Recording links of a node that waits at the current level keeps the
/// search exploring, and touches neither the frontier nor the slots.
proof fn lemma_record_explores(m: Model, g: Graph, source: Node, links: Seq<Node>)
    requires
        explores(m, g),
        m.parents.contains_key(source),
        m.depth[source] == m.level,
        forall|j: int|
            0 <= j < links.len() ==> (#[trigger] links[j]) != m.goal && links_of(
                g,
                source,
            ).contains(links[j]),
    ensures
        explores(record(m, source, links), g),
        record(m, source, links).in_flight == m.in_flight,
        record(m, source, links).slots == m.slots,
        record(m, source, links).frontier == m.frontier,
        record(m, source, links).level == m.level,
        record(m, source, links).goal == m.goal,
        record(m, source, links).start == m.start,
        forall|c: Node| #[trigger]
            m.parents.contains_key(c) ==> record(m, source, links).parents.contains_key(c)
                && record(m, source, links).depth[c] == m.depth[c],
        forall|j: int|
            0 <= j < links.len() ==> record(m, source, links).parents.contains_key(
                #[trigger] links[j],
            ),
    decreases links.len(),
{
    if links.len() > 0 {
        let shorter = links.drop_last();
        assert forall|j: int| 0 <= j < shorter.len() implies (#[trigger] shorter[j]) != m.goal
            && links_of(g, source).contains(shorter[j]) by {
            assert(shorter[j] == links[j]);
        }
        lemma_record_explores(m, g, source, shorter);
        let before = record(m, source, shorter);
        let after = record(m, source, links);
        let c = links.last();
        assert(c == links[links.len() - 1]);
        assert forall|j: int| 0 <= j < links.len() implies after.parents.contains_key(
            #[trigger] links[j],
        ) by {
            if j < links.len() - 1 {
                assert(shorter[j] == links[j]);
            }
        }
        if !before.parents.contains_key(c) {
            assert(after.parents == before.parents.insert(c, source));
            assert(after.depth == before.depth.insert(c, before.level + 1));
            assert(after.next == before.next.push(c));
            assert(c != before.start);
            assert forall|i: int| 0 <= i < after.next.len() implies after.parents.contains_key(
                #[trigger] after.next[i],
            ) && after.depth[after.next[i]] == after.level + 1 by {
                if i < before.next.len() {
                    assert(after.next[i] == before.next[i]);
                }
            }
            assert(after.parents.dom() =~= after.depth.dom());
            assert(inv(after));
            assert forall|k: Node| #[trigger]
                after.parents.contains_key(k) && after.depth[k] <= after.level implies expanded(
                after,
                g,
                k,
            ) || (after.depth[k] == after.level && pending(after, k)) by {
                assert(k != c);
                if expanded(before, g, k) {
                    lemma_expanded_grows(before, after, g, k);
                }
            }
            assert forall|k: Node| #[trigger]
                after.parents.contains_key(k) && after.depth[k] == after.level
                    + 1 implies after.next.contains(k) by {
                if k == c {
                    assert(after.next[after.next.len() - 1] == c);
                } else {
                    let i = choose|i: int| 0 <= i < before.next.len() && before.next[i] == k;
                    assert(after.next[i] == k);
                }
            }
        }
    }
}

/// Taking in the links of a page keeps the search exploring, where the
/// links are those that the graph gives the slot's node and the goal is
/// not among them.
pub proof fn law_links_explore(m: Model, g: Graph, slot: int, links: Seq<Node>)
    requires
        explores(m, g),
        busy(m, slot),
        links == links_of(g, m.in_flight[slot]->0),
        !links.contains(m.goal),
    ensures
        explores(after_links(m, slot, links), g),
{
    let source = m.in_flight[slot]->0;
    assert(m.in_flight[slot] is Some);
    let counted = Model { processed: bump(m.processed), ..m };
    assert forall|k: Node| #[trigger]
        counted.parents.contains_key(k) && counted.depth[k] <= counted.level implies expanded(
        counted,
        g,
        k,
    ) || (counted.depth[k] == counted.level && pending(counted, k)) by {
        if expanded(m, g, k) {
            lemma_expanded_grows(m, counted, g, k);
        }
    }
    assert(explores(counted, g));
    law_first_hit(links, m.goal, links.len() as int);
    assert(links.take(links.len() as int) =~= links);
    assert forall|j: int| 0 <= j < links.len() implies (#[trigger] links[j]) != counted.goal
        && links_of(g, source).contains(links[j]) by {
        assert(links.contains(links[j]));
    }
    lemma_record_explores(counted, g, source, links);
    let r = record(counted, source, links);
    let a = after_links(m, slot, links);
    assert(a.slots == r.slots.update(slot, SlotState::Idle));
    assert(a.in_flight == r.in_flight.update(slot, None));
    assert(inv(a));
    assert forall|k: Node| #[trigger]
        a.parents.contains_key(k) && a.depth[k] <= a.level implies expanded(a, g, k) || (
    a.depth[k] == a.level && pending(a, k)) by {
        if expanded(r, g, k) {
            lemma_expanded_grows(r, a, g, k);
        } else if r.frontier.contains(k) {
        } else {
            let i = choose|i: int| 0 <= i < r.in_flight.len() && r.in_flight[i] == Some(k);
            if i == slot {
                assert(k == source);
                assert forall|j: int| 0 <= j < links_of(g, k).len() implies {
                    let c = #[trigger] links_of(g, k)[j];
                    c != a.goal && a.parents.contains_key(c) && a.depth[c] <= a.depth[k] + 1
                } by {
                    let c = links[j];
                    assert(links.contains(c));
                    assert(r.parents.contains_key(links[j]));
                }
            } else {
                assert(a.in_flight[i] == Some(k));
            }
        }
    }
}

/// Along a route, each node lies as many hops from the start as it has
/// nodes before it.
proof fn lemma_route_depth(m: Model, source: Node, path: Seq<Node>, j: int)
    requires
        inv(m),
        is_route(m, source, path),
        0 <= j <= path.len() - 2,
    ensures
        m.parents.contains_key(path[j]),
        m.depth[path[j]] == j,
    decreases j,
{
    if j > 0 {
        lemma_route_depth(m, source, path, j - 1);
    }
}

/// Every node within as many hops of the start as the current level has
/// been discovered, no deeper than a walk to it is long.
proof fn lemma_walk_is_discovered(m: Model, g: Graph, w: Seq<Node>, h: int)
    requires
        explores(m, g),
        is_walk(g, w),
        w.len() > 0,
        w[0] == m.start,
        0 <= h < w.len(),
        h <= m.level,
    ensures
        m.parents.contains_key(w[h]),
        m.depth[w[h]] <= h,
    decreases h,
{
    if h > 0 {
        lemma_walk_is_discovered(m, g, w, h - 1);
        let k = w[h - 1];
        assert(m.parents.contains_key(k));
        assert(expanded(m, g, k));
        assert(is_step(g, w, h - 1));
        assert(links_of(g, k).contains(w[h]));
        let j = choose|j: int| 0 <= j < links_of(g, k).len() && links_of(g, k)[j] == w[h];
        assert(links_of(g, k)[j] == w[h]);
    }
}

/// A route through a node that waits at the current level and links to
/// the goal is a walk from the start to the goal, one hop longer than the
/// level.
proof fn lemma_route_is_walk(m: Model, g: Graph, source: Node, path: Seq<Node>)
    requires
        explores(m, g),
        m.parents.contains_key(source),
        m.depth[source] == m.level,
        links_of(g, source).contains(m.goal),
        is_route(m, source, path),
    ensures
        is_walk(g, path),
        path.len() == m.level + 2,
{
    lemma_route_depth(m, source, path, path.len() - 2);
    assert forall|i: int| 0 <= i < path.len() - 1 implies #[trigger] is_step(g, path, i) by {
        if i < path.len() - 2 {
            let k = path[i + 1];
            assert(m.parents.contains_key(k) && k != m.start);
            assert(m.parents[k] == path[i]);
            assert(links_of(g, m.parents[k]).contains(k));
        }
    }
}

/// A path that the search finds exists in the graph. Where the search
/// explores `g` and the links of the node that `slot` holds include the
/// goal, the route through that node is a walk of `g` from the start to
/// the goal, with one hop more than the current level.
pub proof fn law_found_path_is_a_walk(m: Model, g: Graph, slot: int, path: Seq<Node>)
    requires
        explores(m, g),
        busy(m, slot),
        links_of(g, m.in_flight[slot]->0).contains(m.goal),
        is_route(m, m.in_flight[slot]->0, path),
    ensures
        is_walk(g, path),
        path[0] == m.start,
        path[path.len() - 1] == m.goal,
        path.len() == m.level + 2,
{
    assert(m.in_flight[slot] is Some);
    lemma_route_is_walk(m, g, m.in_flight[slot]->0, path);
}

/// A path that the search finds is a shortest one: no walk of the graph
/// from the start to the goal has fewer nodes.
pub proof fn law_found_path_is_shortest(
    m: Model,
    g: Graph,
    slot: int,
    path: Seq<Node>,
    w: Seq<Node>,
)
    requires
        explores(m, g),
        busy(m, slot),
        links_of(g, m.in_flight[slot]->0).contains(m.goal),
        is_route(m, m.in_flight[slot]->0, path),
        is_walk(g, w),
        w.len() > 0,
        w[0] == m.start,
        w[w.len() - 1] == m.goal,
    ensures
        path.len() <= w.len(),
{
    law_found_path_is_a_walk(m, g, slot, path);
    if w.len() < path.len() {
        lemma_walk_is_discovered(m, g, w, w.len() - 1);
        assert(false);
    }
}

/// Two searches of one graph for one goal find paths of one length,
/// however many workers each has and in whatever order they answered.
pub proof fn law_length_is_independent_of_workers(
    m1: Model,
    m2: Model,
    g: Graph,
    slot1: int,
    slot2: int,
    path1: Seq<Node>,
    path2: Seq<Node>,
)
    requires
        explores(m1, g),
        explores(m2, g),
        m1.start == m2.start,
        m1.goal == m2.goal,
        busy(m1, slot1),
        busy(m2, slot2),
        links_of(g, m1.in_flight[slot1]->0).contains(m1.goal),
        links_of(g, m2.in_flight[slot2]->0).contains(m2.goal),
        is_route(m1, m1.in_flight[slot1]->0, path1),
        is_route(m2, m2.in_flight[slot2]->0, path2),
    ensures
        path1.len() == path2.len(),
{
    law_found_path_is_a_walk(m1, g, slot1, path1);
    law_found_path_is_a_walk(m2, g, slot2, path2);
    law_found_path_is_shortest(m1, g, slot1, path1, path2);
    law_found_path_is_shortest(m2, g, slot2, path2, path1);
}

/// Every node that a walk from the start reaches has been discovered once
/// nothing waits at either depth and nothing is under way.
proof fn lemma_exhausted_holds_every_walk(m: Model, g: Graph, w: Seq<Node>, h: int)
    requires
        explores(m, g),
        level_done(m),
        m.next.len() == 0,
        is_walk(g, w),
        w.len() > 0,
        w[0] == m.start,
        0 <= h < w.len(),
    ensures
        m.parents.contains_key(w[h]),
    decreases h,
{
    if h > 0 {
        lemma_exhausted_holds_every_walk(m, g, w, h - 1);
        let k = w[h - 1];
        assert(m.parents.contains_key(k));
        if m.depth[k] == m.level + 1 {
            assert(m.next.contains(k));
        }
        if pending(m, k) {
            if m.in_flight.contains(Some(k)) {
                let i = choose|i: int| 0 <= i < m.in_flight.len() && m.in_flight[i] == Some(k);
                assert(m.in_flight[i] is Some);
                assert(m.slots[i] == SlotState::Processing);
            }
        }
        assert(expanded(m, g, k));
        assert(is_step(g, w, h - 1));
        let j = choose|j: int| 0 <= j < links_of(g, k).len() && links_of(g, k)[j] == w[h];
        assert(links_of(g, k)[j] == w[h]);
    }
}

/// A search ends without a path only where there is none: once nothing
/// waits at either depth and nothing is under way, no walk of the graph
/// leads from the start to the goal.
pub proof fn law_exhausted_means_unreachable(m: Model, g: Graph, w: Seq<Node>)
    requires
        explores(m, g),
        level_done(m),
        m.next.len() == 0,
        is_walk(g, w),
        w.len() > 0,
        w[0] == m.start,
    ensures
        w[w.len() - 1] != m.goal,
{
    lemma_exhausted_holds_every_walk(m, g, w, w.len() - 1);
}

} // verus!
