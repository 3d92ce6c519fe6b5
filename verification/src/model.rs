//! The mathematical model of one search: what the scheduler's state is and
//! how each event changes it.

use vstd::prelude::*;

verus! {

/// A node of the graph, as contracts see it: the characters of its address.
pub type Node = Seq<char>;

/// How many failed fetches of one node are retried before the node is skipped.
pub const RETRY_BUDGET: usize = 3;

/// Where a worker slot stands. A retired slot never comes back.
#[derive(Clone, Copy, Debug, PartialEq, Eq, Structural)]
pub enum SlotState {
    Idle,
    Processing,
    Dead,
}

/// The state of one search.
pub struct Model {
    pub start: Node,
    pub goal: Node,
    pub max_queue: usize,
    /// Each discovered node with the node that discovered it.
    pub parents: Map<Node, Node>,
    /// Each discovered node with its number of hops from the start.
    pub depth: Map<Node, nat>,
    /// The number of hops of the nodes being fetched now.
    pub level: nat,
    pub frontier: Seq<Node>,
    pub next: Seq<Node>,
    pub slots: Seq<SlotState>,
    pub in_flight: Seq<Option<Node>>,
    pub processed: usize,
    pub last_sample: Option<(usize, usize)>,
    pub failures: Map<Node, usize>,
}

/// One more, stopping at the largest value.
pub open spec fn bump(n: usize) -> usize {
    if n < usize::MAX {
        (n + 1) as usize
    } else {
        n
    }
}

/// The length of both queues together, stopping at the largest value.
pub open spec fn queued(m: Model) -> usize {
    if m.frontier.len() + m.next.len() <= usize::MAX {
        (m.frontier.len() + m.next.len()) as usize
    } else {
        usize::MAX
    }
}

/// Whether any slot has a fetch under way.
pub open spec fn any_processing(m: Model) -> bool {
    exists|i: int| 0 <= i < m.slots.len() && m.slots[i] == SlotState::Processing
}

/// Whether every slot is retired.
pub open spec fn all_dead(m: Model) -> bool {
    forall|i: int| 0 <= i < m.slots.len() ==> m.slots[i] == SlotState::Dead
}

/// Whether `slot` has a fetch under way.
pub open spec fn busy(m: Model, slot: int) -> bool {
    0 <= slot < m.slots.len() && m.slots[slot] == SlotState::Processing
}

/// What holds of every state that a search reaches. Start and goal
/// differ, and the goal is never recorded. A slot holds a node exactly
/// while it is processing. Every discovered node but the start has a
/// discovered parent, one hop nearer to the start. The frontier and the
/// slots hold nodes of the current level, the next frontier nodes of the
/// level after it, and no node waits twice.
pub open spec fn inv(m: Model) -> bool {
    &&& m.start != m.goal
    &&& m.slots.len() == m.in_flight.len()
    &&& forall|i: int|
        0 <= i < m.slots.len() ==> (m.slots[i] == SlotState::Processing <==> (
        #[trigger] m.in_flight[i]) is Some)
    &&& m.parents.dom() == m.depth.dom()
    &&& m.parents.contains_key(m.start)
    &&& m.depth[m.start] == 0
    &&& !m.parents.contains_key(m.goal)
    &&& forall|k: Node| #[trigger]
        m.parents.contains_key(k) && k != m.start ==> m.parents.contains_key(m.parents[k])
            && m.depth[k] == m.depth[m.parents[k]] + 1
    &&& forall|i: int|
        0 <= i < m.frontier.len() ==> m.parents.contains_key(#[trigger] m.frontier[i])
            && m.depth[m.frontier[i]] == m.level
    &&& forall|i: int|
        0 <= i < m.next.len() ==> m.parents.contains_key(#[trigger] m.next[i]) && m.depth[m.next[i]]
            == m.level + 1
    &&& forall|i: int|
        0 <= i < m.in_flight.len() ==> ((#[trigger] m.in_flight[i]) matches Some(n)
            ==> m.parents.contains_key(n) && m.depth[n] == m.level)
    &&& forall|i: int, j: int| 0 <= i < j < m.next.len() ==> m.next[i] != m.next[j]
    &&& forall|i: int, j: int| 0 <= i < j < m.frontier.len() ==> m.frontier[i] != m.frontier[j]
    &&& forall|i: int, j: int|
        0 <= i < m.in_flight.len() && 0 <= j < m.frontier.len() ==> #[trigger] m.in_flight[i]
            != Some(#[trigger] m.frontier[j])
    &&& forall|i: int, j: int|
        0 <= i < j < m.in_flight.len() && (#[trigger] m.in_flight[i]) is Some ==> m.in_flight[i]
            != #[trigger] m.in_flight[j]
}

/// The state in which a search from `start` for `goal` begins.
pub open spec fn initial(start: Node, goal: Node, workers: nat, max_queue: usize) -> Model {
    Model {
        start,
        goal,
        max_queue,
        parents: Map::empty().insert(start, Seq::empty()),
        depth: Map::empty().insert(start, 0nat),
        level: 0,
        frontier: seq![start],
        next: Seq::empty(),
        slots: Seq::new(workers, |i: int| SlotState::Idle),
        in_flight: Seq::new(workers, |i: int| None),
        processed: 0,
        last_sample: None,
        failures: Map::empty(),
    }
}

/// The number of links before the first that is `goal`; the number of all
/// links where none is.
pub open spec fn first_hit(links: Seq<Node>, goal: Node) -> nat
    decreases links.len(),
{
    if links.len() == 0 || links[0] == goal {
        0
    } else {
        1 + first_hit(links.drop_first(), goal)
    }
}

/// The first hit is the position `i` before which no link is the goal and
/// which is the end of the links or holds the goal.
pub proof fn law_first_hit(links: Seq<Node>, goal: Node, i: int)
    requires
        0 <= i <= links.len(),
        forall|j: int| 0 <= j < i ==> links[j] != goal,
        i == links.len() || links[i] == goal,
    ensures
        first_hit(links, goal) == i,
    decreases i,
{
    if i > 0 {
        law_first_hit(links.drop_first(), goal, i - 1);
    }
}

/// The state after the links of `source` were recorded in order: each one
/// that is new gets `source` as its parent and joins the next frontier.
pub open spec fn record(m: Model, source: Node, links: Seq<Node>) -> Model
    decreases links.len(),
{
    if links.len() == 0 {
        m
    } else {
        let before = record(m, source, links.drop_last());
        let c = links.last();
        if before.parents.contains_key(c) {
            before
        } else {
            Model {
                parents: before.parents.insert(c, source),
                depth: before.depth.insert(c, before.level + 1),
                next: before.next.push(c),
                ..before
            }
        }
    }
}

/// The state after `slot` delivered `links`. The fetch counts as processed.
/// Where the goal is among the links, those before it are recorded and the
/// search is over; otherwise all are recorded and the slot is idle again.
pub open spec fn after_links(m: Model, slot: int, links: Seq<Node>) -> Model {
    if !busy(m, slot) {
        m
    } else {
        let source = m.in_flight[slot]->0;
        let k = first_hit(links, m.goal);
        let counted = Model { processed: bump(m.processed), ..m };
        let r = record(counted, source, links.take(k as int));
        if k < links.len() {
            r
        } else {
            Model {
                slots: r.slots.update(slot, SlotState::Idle),
                in_flight: r.in_flight.update(slot, None),
                ..r
            }
        }
    }
}

/// Whether `path` leads from the start along recorded parents to `source`
/// and then to the goal.
pub open spec fn is_route(m: Model, source: Node, path: Seq<Node>) -> bool {
    &&& path.len() >= 2
    &&& path[0] == m.start
    &&& path[path.len() - 1] == m.goal
    &&& path[path.len() - 2] == source
    &&& forall|j: int|
        1 <= j < path.len() - 1 ==> (#[trigger] path[j]) != m.start && m.parents.contains_key(
            path[j],
        ) && m.parents[path[j]] == path[j - 1]
}

/// The state after the fetch of `slot` failed: the slot is idle, and its
/// node goes back to the front of the frontier unless it has used up its
/// retries, in which case it is skipped.
pub open spec fn after_fetch_failure(m: Model, slot: int) -> Model {
    if !busy(m, slot) {
        m
    } else {
        let node = m.in_flight[slot]->0;
        let seen: usize = if m.failures.contains_key(node) {
            m.failures[node]
        } else {
            0
        };
        let freed = Model {
            slots: m.slots.update(slot, SlotState::Idle),
            in_flight: m.in_flight.update(slot, None),
            ..m
        };
        if seen < RETRY_BUDGET {
            Model {
                failures: m.failures.insert(node, (seen + 1) as usize),
                frontier: seq![node] + m.frontier,
                ..freed
            }
        } else {
            freed
        }
    }
}

/// The state after the worker of `slot` was found gone: the slot is retired
/// for good, and a node it held goes back to the front of the frontier.
pub open spec fn after_worker_gone(m: Model, slot: int) -> Model {
    if !(0 <= slot < m.slots.len()) || m.slots[slot] == SlotState::Dead {
        m
    } else {
        Model {
            slots: m.slots.update(slot, SlotState::Dead),
            in_flight: m.in_flight.update(slot, None),
            frontier: match m.in_flight[slot] {
                Some(node) => seq![node] + m.frontier,
                None => m.frontier,
            },
            ..m
        }
    }
}

/// Whether `slot` can be given work: it is idle and the frontier has a node.
pub open spec fn can_dispatch(m: Model, slot: int) -> bool {
    0 <= slot < m.slots.len() && m.slots[slot] == SlotState::Idle && m.frontier.len() > 0
}

/// The state after the first node of the frontier was handed to `slot`.
pub open spec fn after_dispatch(m: Model, slot: int) -> Model {
    if !can_dispatch(m, slot) {
        m
    } else {
        Model {
            slots: m.slots.update(slot, SlotState::Processing),
            in_flight: m.in_flight.update(slot, Some(m.frontier[0])),
            frontier: m.frontier.drop_first(),
            ..m
        }
    }
}

/// Whether the current level is done: nothing waits and nothing is under way.
pub open spec fn level_done(m: Model) -> bool {
    m.frontier.len() == 0 && !any_processing(m)
}

/// The state after the next frontier became the frontier.
pub open spec fn after_advance(m: Model) -> Model {
    if level_done(m) && m.next.len() > 0 {
        Model { frontier: m.next, next: Seq::empty(), level: m.level + 1, ..m }
    } else {
        m
    }
}

/// Whether the queues hold more than the configured bound allows. A bound of
/// zero means none.
pub open spec fn over_limit(m: Model) -> bool {
    m.max_queue > 0 && m.frontier.len() + m.next.len() > m.max_queue
}

/// The progress sample that is due: the counters, where they differ from
/// the last ones published.
pub open spec fn due_sample(m: Model) -> Option<(usize, usize)> {
    let now = (m.processed, queued(m));
    if m.last_sample == Some(now) {
        None
    } else {
        Some(now)
    }
}

} // verus!
