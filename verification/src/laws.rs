//! What holds across the transitions of a search, proved over the model.

use crate::model::{
    after_advance, after_dispatch, after_fetch_failure, after_links, after_worker_gone, bump, busy,
    can_dispatch, due_sample, first_hit, inv, law_first_hit, level_done, over_limit, queued, record, Model, Node,
    SlotState,
};
use vstd::prelude::*;

verus! {

/// Recording links touches only the visited map, the depths and the next
/// frontier. A node that was discovered before keeps its parent: nothing is
/// ever overwritten. The next frontier only grows at its
/// end, by at most one node for each link.
pub proof fn law_record_keeps_discoveries(m: Model, source: Node, links: Seq<Node>)
    ensures
        record(m, source, links) == (Model {
            parents: record(m, source, links).parents,
            depth: record(m, source, links).depth,
            next: record(m, source, links).next,
            ..m
        }),
        forall|k: Node| #[trigger]
            m.parents.contains_key(k) ==> record(m, source, links).parents.contains_key(k)
                && record(m, source, links).parents[k] == m.parents[k],
        m.next.len() <= record(m, source, links).next.len() <= m.next.len() + links.len(),
        record(m, source, links).next.take(m.next.len() as int) == m.next,
        forall|j: int| 0 <= j < links.len() ==> record(m, source, links).parents.contains_key(#[trigger] links[j]),
    decreases links.len(),
{
    if links.len() > 0 {
        let shorter = links.drop_last();
        law_record_keeps_discoveries(m, source, shorter);
        let before = record(m, source, shorter);
        let after = record(m, source, links);
        assert(before.next.take(m.next.len() as int) == m.next);
        assert(after.next.take(m.next.len() as int) =~= before.next.take(m.next.len() as int));
        assert forall|j: int| 0 <= j < links.len() implies after.parents.contains_key(
            #[trigger] links[j],
        ) by {
            if j < links.len() - 1 {
                assert(shorter[j] == links[j]);
            }
        }
    } else {
        assert(m.next.take(m.next.len() as int) =~= m.next);
    }
}

/// Links that are all new and all different each join the next frontier.
pub proof fn law_new_links_all_queue(m: Model, source: Node, links: Seq<Node>)
    requires
        forall|j: int| 0 <= j < links.len() ==> !m.parents.contains_key(#[trigger] links[j]),
        forall|i: int, j: int| 0 <= i < j < links.len() ==> links[i] != links[j],
    ensures
        record(m, source, links).next == m.next + links,
    decreases links.len(),
{
    if links.len() > 0 {
        let shorter = links.drop_last();
        law_new_links_all_queue(m, source, shorter);
        law_record_keeps_discoveries(m, source, shorter);
        let before = record(m, source, shorter);
        let c = links.last();
        if before.parents.contains_key(c) {
            lemma_record_only_adds_links(m, source, shorter, c);
            let j = choose|j: int| 0 <= j < shorter.len() && shorter[j] == c;
            assert(links[j] == links[links.len() - 1]);
        }
        assert(record(m, source, links).next =~= m.next + links);
    } else {
        assert(m.next + links =~= m.next);
    }
}

/// A node that recording made known was known before or is one of the links.
proof fn lemma_record_only_adds_links(m: Model, source: Node, links: Seq<Node>, c: Node)
    requires
        record(m, source, links).parents.contains_key(c),
        !m.parents.contains_key(c),
    ensures
        exists|j: int| 0 <= j < links.len() && links[j] == c,
    decreases links.len(),
{
    if links.len() > 0 {
        let shorter = links.drop_last();
        if record(m, source, shorter).parents.contains_key(c) {
            lemma_record_only_adds_links(m, source, shorter, c);
            let j = choose|j: int| 0 <= j < shorter.len() && shorter[j] == c;
            assert(links[j] == c);
        } else {
            assert(links[links.len() - 1] == c);
        }
    }
}

/// A page with more new links than the bound allows overflows the queues:
/// once a worker delivers them, the search is over its limit.
pub proof fn law_wide_page_overflows(m: Model, slot: int, links: Seq<Node>)
    requires
        inv(m),
        busy(m, slot),
        m.max_queue > 0,
        links.len() > m.max_queue,
        !links.contains(m.goal),
        forall|j: int| 0 <= j < links.len() ==> !m.parents.contains_key(#[trigger] links[j]),
        forall|i: int, j: int| 0 <= i < j < links.len() ==> links[i] != links[j],
    ensures
        over_limit(after_links(m, slot, links)),
{
    let counted = Model { processed: bump(m.processed), ..m };
    let source = m.in_flight[slot]->0;
    law_first_hit(links, m.goal, links.len() as int);
    assert(links.take(links.len() as int) =~= links);
    law_new_links_all_queue(counted, source, links);
    law_record_keeps_discoveries(counted, source, links);
}

/// A retired slot stays retired, whatever happens next.
pub proof fn law_retired_stays_retired(m: Model, slot: int, at: int, links: Seq<Node>)
    requires
        0 <= slot < m.slots.len(),
        m.slots[slot] == SlotState::Dead,
    ensures
        after_links(m, at, links).slots[slot] == SlotState::Dead,
        after_fetch_failure(m, at).slots[slot] == SlotState::Dead,
        after_worker_gone(m, at).slots[slot] == SlotState::Dead,
        after_dispatch(m, at).slots[slot] == SlotState::Dead,
        after_advance(m).slots[slot] == SlotState::Dead,
{
    if busy(m, at) {
        let counted = Model { processed: bump(m.processed), ..m };
        let k = first_hit(links, m.goal);
        law_record_keeps_discoveries(counted, m.in_flight[at]->0, links.take(k as int));
    }
}

/// The count of processed fetches never goes down, and only delivered
/// links raise it.
pub proof fn law_processed_never_falls(m: Model, at: int, links: Seq<Node>)
    ensures
        after_links(m, at, links).processed >= m.processed,
        after_fetch_failure(m, at).processed == m.processed,
        after_worker_gone(m, at).processed == m.processed,
        after_dispatch(m, at).processed == m.processed,
        after_advance(m).processed == m.processed,
{
    if busy(m, at) {
        let counted = Model { processed: bump(m.processed), ..m };
        let k = first_hit(links, m.goal);
        law_record_keeps_discoveries(counted, m.in_flight[at]->0, links.take(k as int));
    }
}

/// A progress sample is due only when it differs from the last one
/// published, and once it is published none is due until a counter changes.
pub proof fn law_sample_only_on_change(m: Model)
    ensures
        due_sample(m) matches Some(s) ==> m.last_sample != Some(s),
        due_sample(Model { last_sample: due_sample(m), ..m }) is None || due_sample(m) is None,
        due_sample(m) is None ==> m.last_sample == Some((m.processed, queued(m))),
{
}

/// The node of a worker that disappears is not lost: it stands first in
/// the frontier, and the next idle slot to be served receives it.
pub proof fn law_lost_node_is_retried(m: Model, lost: int, other: int)
    requires
        inv(m),
        busy(m, lost),
        0 <= other < m.slots.len(),
        m.slots[other] == SlotState::Idle,
    ensures
        after_worker_gone(m, lost).slots[lost] == SlotState::Dead,
        after_worker_gone(m, lost).frontier == seq![m.in_flight[lost]->0] + m.frontier,
        after_dispatch(after_worker_gone(m, lost), other).slots[other] == SlotState::Processing,
        after_dispatch(after_worker_gone(m, lost), other).in_flight[other] == m.in_flight[lost],
        after_dispatch(after_worker_gone(m, lost), other).frontier == m.frontier,
{
    let g = after_worker_gone(m, lost);
    assert(m.in_flight[lost] is Some);
    assert(g.frontier.drop_first() =~= m.frontier);
}

/// Levels stay apart: a delivery adds nodes to the next frontier only, and
/// the next frontier becomes the frontier only once the current level is
/// done.
pub proof fn law_levels_stay_apart(m: Model, slot: int, links: Seq<Node>)
    ensures
        after_links(m, slot, links).frontier == m.frontier,
        after_links(m, slot, links).level == m.level,
        !level_done(m) ==> after_advance(m) == m,
{
    if busy(m, slot) {
        let counted = Model { processed: bump(m.processed), ..m };
        let k = first_hit(links, m.goal);
        law_record_keeps_discoveries(counted, m.in_flight[slot]->0, links.take(k as int));
    }
}

/// The first hit is at most the number of links, no link before it is the
/// goal, and where it is a position, the goal stands there.
pub proof fn law_first_hit_is_first(links: Seq<Node>, goal: Node)
    ensures
        first_hit(links, goal) <= links.len(),
        forall|j: int| 0 <= j < first_hit(links, goal) ==> links[j] != goal,
        first_hit(links, goal) < links.len() ==> links[first_hit(links, goal) as int] == goal,
    decreases links.len(),
{
    if links.len() > 0 && links[0] != goal {
        let rest = links.drop_first();
        law_first_hit_is_first(rest, goal);
        assert forall|j: int| 0 <= j < first_hit(links, goal) implies links[j] != goal by {
            if j > 0 {
                assert(rest[j - 1] == links[j]);
            }
        }
    }
}

/// Recording the links of a node of the current level, none of them the
/// goal, leads from a state of a search to a state of a search.
pub proof fn law_record_keeps_invariant(m: Model, source: Node, links: Seq<Node>)
    requires
        inv(m),
        m.parents.contains_key(source),
        m.depth[source] == m.level,
        forall|j: int| 0 <= j < links.len() ==> links[j] != m.goal,
    ensures
        inv(record(m, source, links)),
    decreases links.len(),
{
    if links.len() > 0 {
        let shorter = links.drop_last();
        assert forall|j: int| 0 <= j < shorter.len() implies shorter[j] != m.goal by {
            assert(shorter[j] == links[j]);
        }
        law_record_keeps_invariant(m, source, shorter);
        law_record_keeps_discoveries(m, source, shorter);
        let before = record(m, source, shorter);
        let after = record(m, source, links);
        let c = links.last();
        assert(c == links[links.len() - 1]);
        if !before.parents.contains_key(c) {
            assert(before.depth[source] == before.level) by {
                lemma_record_keeps_depth(m, source, shorter, source);
            }
            assert(after.parents.dom() =~= after.depth.dom());
            assert forall|i: int| 0 <= i < after.next.len() implies after.parents.contains_key(
                #[trigger] after.next[i],
            ) && after.depth[after.next[i]] == after.level + 1 by {
                if i < before.next.len() {
                    assert(after.next[i] == before.next[i]);
                }
            }
        }
    }
}

/// Recording links leaves the depth of a discovered node as it was.
proof fn lemma_record_keeps_depth(m: Model, source: Node, links: Seq<Node>, k: Node)
    requires
        m.parents.dom() == m.depth.dom(),
        m.parents.contains_key(k),
    ensures
        record(m, source, links).parents.dom() == record(m, source, links).depth.dom(),
        record(m, source, links).depth[k] == m.depth[k],
    decreases links.len(),
{
    if links.len() > 0 {
        lemma_record_keeps_depth(m, source, links.drop_last(), k);
        law_record_keeps_discoveries(m, source, links.drop_last());
        let after = record(m, source, links);
        assert(after.parents.dom() =~= after.depth.dom());
    }
}

/// Every transition leads from a state of a search to a state of a
/// search, whatever links a worker delivers.
pub proof fn law_transitions_keep_invariant(m: Model, slot: int, links: Seq<Node>)
    requires
        inv(m),
    ensures
        inv(after_links(m, slot, links)),
        inv(after_fetch_failure(m, slot)),
        inv(after_worker_gone(m, slot)),
        inv(after_dispatch(m, slot)),
        inv(after_advance(m)),
{
    lemma_links_keep_invariant(m, slot, links);
    lemma_return_keeps_invariant(m, slot);
    lemma_dispatch_keeps_invariant(m, slot);
    lemma_advance_keeps_invariant(m);
}

/// Taking in links keeps the invariant.
proof fn lemma_links_keep_invariant(m: Model, slot: int, links: Seq<Node>)
    requires
        inv(m),
    ensures
        inv(after_links(m, slot, links)),
{
    if busy(m, slot) {
        assert(m.in_flight[slot] is Some);
        let source = m.in_flight[slot]->0;
        let counted = Model { processed: bump(m.processed), ..m };
        let k = first_hit(links, m.goal);
        law_first_hit_is_first(links, m.goal);
        let read = links.take(k as int);
        law_record_keeps_invariant(counted, source, read);
        law_record_keeps_discoveries(counted, source, read);
    }
}

/// Giving a slot's node back to the frontier keeps the invariant.
proof fn lemma_return_keeps_invariant(m: Model, slot: int)
    requires
        inv(m),
    ensures
        inv(after_fetch_failure(m, slot)),
        inv(after_worker_gone(m, slot)),
{
    if 0 <= slot < m.slots.len() {
        if m.in_flight[slot] is Some {
            let node = m.in_flight[slot]->0;
            let f = seq![node] + m.frontier;
            assert forall|i: int| 0 <= i < f.len() implies m.parents.contains_key(#[trigger] f[i])
                && m.depth[f[i]] == m.level && (i > 0 ==> f[i] == m.frontier[i - 1]) by {}
        }
    }
}

/// Handing out the first node of the frontier keeps the invariant.
proof fn lemma_dispatch_keeps_invariant(m: Model, slot: int)
    requires
        inv(m),
    ensures
        inv(after_dispatch(m, slot)),
{
    if can_dispatch(m, slot) {
        let a = after_dispatch(m, slot);
        assert forall|i: int| 0 <= i < a.frontier.len() implies a.frontier[i] == m.frontier[i
            + 1] by {}
        assert(m.in_flight[slot] is None);
    }
}

/// Closing a level keeps the invariant.
proof fn lemma_advance_keeps_invariant(m: Model)
    requires
        inv(m),
    ensures
        inv(after_advance(m)),
{
    if level_done(m) && m.next.len() > 0 {
        assert forall|i: int| 0 <= i < m.in_flight.len() implies (#[trigger] m.in_flight[i])
            is None by {
            assert(m.slots[i] != SlotState::Processing);
        }
    }
}

} // verus!
