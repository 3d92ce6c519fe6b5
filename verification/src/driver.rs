//! The frontier scheduler: one owner of the visited map, the two frontier
//! queues and the worker slots. Whoever runs the workers reports what they
//! delivered; every method here is one transition of the search.

use crate::model::{
    after_advance, after_dispatch, after_fetch_failure, after_links, after_worker_gone, all_dead,
    any_processing, bump, busy, can_dispatch, due_sample, initial, inv, is_route,
    law_first_hit, level_done, over_limit, queued, record, Model, Node, SlotState, RETRY_BUDGET,
};
use std::collections::VecDeque;
use vstd::hash_map::StringHashMap;
use vstd::prelude::*;

verus! {

/// Why a search was given up.
#[derive(Clone, Copy, Debug, PartialEq, Eq, Structural)]
pub enum AbortReason {
    /// The queues grew past the configured bound.
    QueueOverflow,
    /// Nobody listens to the progress samples any more.
    ConsumerGone,
    /// Every worker is gone while nodes still wait.
    WorkersLost,
}

/// How a search ended.
#[derive(Debug)]
pub enum SearchResult {
    Found(Vec<String>),
    NotFound,
    Aborted(AbortReason),
}

/// How a search begins: over at once, or with a scheduler to run.
pub enum Opening {
    Trivial(Vec<String>),
    Running(Driver),
}

/// Whether a search in state `m` must end before its next pass, and how.
pub open spec fn verdict(m: Model) -> Option<SearchResult> {
    if level_done(m) && m.next.len() == 0 {
        Some(SearchResult::NotFound)
    } else if after_advance(m).frontier.len() > 0 && all_dead(m) {
        Some(SearchResult::Aborted(AbortReason::WorkersLost))
    } else {
        None
    }
}

/// Whether a search must end once a pass has tried to publish its sample:
/// at once if nobody took the sample, else if the queues are over their
/// limit.
pub open spec fn limits_verdict(m: Model, delivered: bool) -> Option<SearchResult> {
    if !delivered {
        Some(SearchResult::Aborted(AbortReason::ConsumerGone))
    } else if over_limit(m) {
        Some(SearchResult::Aborted(AbortReason::QueueOverflow))
    } else {
        None
    }
}

/// The addresses of a sequence of strings.
pub open spec fn names(s: Seq<String>) -> Seq<Node> {
    Seq::new(s.len(), |i: int| s[i]@)
}

/// The addresses that the slots hold.
pub open spec fn held(s: Seq<Option<String>>) -> Seq<Option<Node>> {
    Seq::new(
        s.len(),
        |i: int|
            match s[i] {
                Some(x) => Some(x@),
                None => None,
            },
    )
}

/// The parent of each discovered node.
pub open spec fn parent_map(v: Map<Seq<char>, String>) -> Map<Node, Node> {
    Map::new(|k: Node| v.contains_key(k), |k: Node| v[k]@)
}

/// The scheduler of one search. It owns the visited map, both frontier
/// queues and the table of worker slots; nothing else changes them.
pub struct Driver {
    start: String,
    goal: String,
    max_queue: usize,
    visited: StringHashMap<String>,
    frontier: VecDeque<String>,
    next: VecDeque<String>,
    slots: Vec<SlotState>,
    in_flight: Vec<Option<String>>,
    processed: usize,
    last_sample: Option<(usize, usize)>,
    failures: StringHashMap<usize>,
    depth: Ghost<Map<Node, nat>>,
    level: Ghost<nat>,
}

impl View for Driver {
    type V = Model;

    closed spec fn view(&self) -> Model {
        Model {
            start: self.start@,
            goal: self.goal@,
            max_queue: self.max_queue,
            parents: parent_map(self.visited@),
            depth: self.depth@,
            level: self.level@,
            frontier: names(self.frontier@),
            next: names(self.next@),
            slots: self.slots@,
            in_flight: held(self.in_flight@),
            processed: self.processed,
            last_sample: self.last_sample,
            failures: self.failures@,
        }
    }
}

impl Driver {
    /// Whether the state is one that a search can be in.
    pub open spec fn wf(&self) -> bool {
        inv(self@)
    }

    /// Begins a search. Where start and goal are the same node the path is
    /// that node alone; otherwise the start waits in the frontier and every
    /// slot is idle.
    pub fn open(start: &str, goal: &str, workers: usize, max_queue: usize) -> (o: Opening)
        ensures
            start@ == goal@ ==> (o matches Opening::Trivial(p) && names(p@) == seq![start@]),
            start@ != goal@ ==> (o matches Opening::Running(d) && d.wf() && d@ == initial(
                start@,
                goal@,
                workers as nat,
                max_queue,
            )),
    {
        let s = start.to_owned();
        let g = goal.to_owned();
        if s == g {
            let mut p: Vec<String> = Vec::new();
            p.push(s);
            assert(names(p@) =~= seq![start@]);
            return Opening::Trivial(p);
        }
        let mut visited: StringHashMap<String> = StringHashMap::new();
        visited.insert(s.clone(), String::new());
        let mut frontier: VecDeque<String> = VecDeque::new();
        frontier.push_back(s.clone());
        let mut slots: Vec<SlotState> = Vec::new();
        let mut in_flight: Vec<Option<String>> = Vec::new();
        let mut i: usize = 0;
        while i < workers
            invariant
                i <= workers,
                slots@.len() == i,
                in_flight@.len() == i,
                forall|j: int| 0 <= j < i ==> slots@[j] == SlotState::Idle,
                forall|j: int| 0 <= j < i ==> in_flight@[j] is None,
            decreases workers - i,
        {
            slots.push(SlotState::Idle);
            in_flight.push(None);
            i += 1;
        }
        let d = Driver {
            start: s,
            goal: g,
            max_queue,
            visited,
            frontier,
            next: VecDeque::new(),
            slots,
            in_flight,
            processed: 0,
            last_sample: None,
            failures: StringHashMap::new(),
            depth: Ghost(Map::empty().insert(start@, 0nat)),
            level: Ghost(0nat),
        };
        proof {
            let m = initial(start@, goal@, workers as nat, max_queue);
            assert(d@.parents =~= m.parents);
            assert(d@.frontier =~= m.frontier);
            assert(d@.next =~= m.next);
            assert(d@.slots =~= m.slots);
            assert(d@.in_flight =~= m.in_flight);
            assert(d@.failures =~= m.failures);
            assert(d@ == m);
        }
        Opening::Running(d)
    }

    /// The number of worker slots.
    pub fn workers(&self) -> (n: usize)
        ensures
            n == self@.slots.len(),
    {
        self.slots.len()
    }

    /// Where `slot` stands. A slot that does not exist counts as retired.
    pub fn slot_state(&self, slot: usize) -> (s: SlotState)
        ensures
            s == if slot < self@.slots.len() {
                self@.slots[slot as int]
            } else {
                SlotState::Dead
            },
    {
        if slot < self.slots.len() {
            self.slots[slot]
        } else {
            SlotState::Dead
        }
    }

    /// The number of fetches completed so far.
    pub fn processed(&self) -> (n: usize)
        ensures
            n == self@.processed,
    {
        self.processed
    }

    /// The number of nodes waiting in both queues.
    pub fn queued_count(&self) -> (n: usize)
        ensures
            n == queued(self@),
    {
        self.frontier.len().saturating_add(self.next.len())
    }

    /// Whether the queues have outgrown the configured bound.
    pub fn queue_overflow(&self) -> (b: bool)
        ensures
            b == over_limit(self@),
    {
        let a = self.frontier.len();
        let b = self.next.len();
        self.max_queue > 0 && (a > self.max_queue || b > self.max_queue - a)
    }

    /// Says whether the search must end after the sample of this pass was
    /// offered. `delivered` is false where a sample was due and nobody took
    /// it, which counts as a request to stop; that comes before the check
    /// of the queues against their bound.
    pub fn check_limits(&self, delivered: bool) -> (end: Option<SearchResult>)
        ensures
            end == limits_verdict(self@, delivered),
    {
        if !delivered {
            Some(SearchResult::Aborted(AbortReason::ConsumerGone))
        } else if self.queue_overflow() {
            Some(SearchResult::Aborted(AbortReason::QueueOverflow))
        } else {
            None
        }
    }

    /// The progress sample to publish now, if the counters changed since the
    /// last one. A returned sample is remembered as published.
    pub fn progress_sample(&mut self) -> (s: Option<(usize, usize)>)
        requires
            old(self).wf(),
        ensures
            final(self).wf(),
            s == due_sample(old(self)@),
            final(self)@ == (Model {
                last_sample: if s is Some {
                    s
                } else {
                    old(self)@.last_sample
                },
                ..old(self)@
            }),
            s matches Some(now) ==> old(self)@.last_sample != Some(now) && now.0 == old(
                self,
            )@.processed,
    {
        let now = (self.processed, self.queued_count());
        let changed = match self.last_sample {
            Some(prev) => prev.0 != now.0 || prev.1 != now.1,
            None => true,
        };
        if changed {
            self.last_sample = Some(now);
            Some(now)
        } else {
            None
        }
    }

    /// The path from the start along recorded parents to `source`, then to
    /// the goal.
    fn route(&self, source: &String) -> (path: Vec<String>)
        requires
            self.wf(),
            self@.parents.contains_key(source@),
            self@.depth[source@] == self@.level,
        ensures
            is_route(self@, source@, names(path@)),
            path@.len() == self@.level + 2,
    {
        let mut rev: Vec<String> = Vec::new();
        rev.push(self.goal.clone());
        rev.push(source.clone());
        let mut cur = source.clone();
        while !(cur == self.start)
            invariant
                self.wf(),
                rev@.len() >= 2,
                rev@[0]@ == self@.goal,
                rev@[1]@ == source@,
                rev@[rev@.len() - 1]@ == cur@,
                self@.parents.contains_key(cur@),
                forall|j: int|
                    1 <= j < rev@.len() - 1 ==> (#[trigger] rev@[j])@ != self@.start
                        && self@.parents.contains_key(rev@[j]@) && self@.parents[rev@[j]@]
                        == rev@[j + 1]@,
                rev@.len() + self@.depth[cur@] == self@.level + 2,
            decreases self@.depth[cur@],
        {
            let parent = self.visited.get(cur.as_str()).unwrap().clone();
            rev.push(parent.clone());
            cur = parent;
        }
        let n = rev.len();
        let mut path: Vec<String> = Vec::new();
        let mut i: usize = n;
        while i > 0
            invariant
                n == rev@.len(),
                i <= n,
                path@.len() == n - i,
                forall|j: int| 0 <= j < path@.len() ==> (#[trigger] path@[j])@ == rev@[n - 1 - j]@,
            decreases i,
        {
            i -= 1;
            path.push(rev[i].clone());
        }
        proof {
            let p = names(path@);
            assert forall|j: int| 1 <= j < p.len() - 1 implies (#[trigger] p[j]) != self@.start
                && self@.parents.contains_key(p[j]) && self@.parents[p[j]] == p[j - 1] by {
                assert(path@[j]@ == rev@[n - 1 - j]@);
                assert(path@[j - 1]@ == rev@[n - 1 - j + 1]@);
            }
            assert(path@[0]@ == rev@[n - 1]@);
            assert(path@[n - 1]@ == rev@[0]@);
            assert(path@[n - 2]@ == rev@[1]@);
        }
        path
    }

    /// Takes in the links that the worker of `slot` fetched for its node.
    /// The fetch counts as processed. Links are read in order: one that is
    /// the goal ends the search with the path through the slot's node; any
    /// other that is new gets that node as parent and joins the next
    /// frontier. Without a hit the slot is idle again. A slot with no fetch
    /// under way changes nothing.
    pub fn on_links(&mut self, slot: usize, links: &Vec<String>) -> (found: Option<Vec<String>>)
        requires
            old(self).wf(),
        ensures
            final(self).wf(),
            final(self)@ == after_links(old(self)@, slot as int, names(links@)),
            found is Some <==> busy(old(self)@, slot as int) && names(links@).contains(
                old(self)@.goal,
            ),
            found matches Some(path) ==> busy(old(self)@, slot as int) && is_route(
                old(self)@,
                old(self)@.in_flight[slot as int]->0,
                names(path@),
            ) && path@.len() == old(self)@.level + 2,
            final(self)@.processed >= old(self)@.processed,
    {
        if slot >= self.slots.len() {
            return None;
        }
        let source = match &self.in_flight[slot] {
            Some(node) => node.clone(),
            None => {
                return None;
            },
        };
        assert(held(self.in_flight@)[slot as int] == Some(source@));
        assert(busy(self@, slot as int));
        let ghost all = names(links@);
        if self.processed < usize::MAX {
            self.processed = self.processed + 1;
        }
        let ghost counted = self@;
        assert(counted == (Model { processed: bump(old(self)@.processed), ..old(self)@ }));
        let mut i: usize = 0;
        while i < links.len()
            invariant
                i <= links@.len(),
                all == names(links@),
                self.wf(),
                inv(counted),
                busy(old(self)@, slot as int),
                old(self)@.in_flight[slot as int] == Some(source@),
                counted == (Model { processed: bump(old(self)@.processed), ..old(self)@ }),
                self@.processed == counted.processed,
                self@ == record(counted, source@, all.take(i as int)),
                self@.in_flight == counted.in_flight,
                self@.slots == counted.slots,
                self@.level == counted.level,
                self@.goal == counted.goal,
                self@.start == counted.start,
                counted.in_flight[slot as int] == Some(source@),
                slot < counted.slots.len(),
                forall|j: int| 0 <= j < i ==> all[j] != counted.goal,
                forall|k: Node| #[trigger]
                    counted.parents.contains_key(k) ==> self@.parents.contains_key(k)
                        && self@.parents[k] == counted.parents[k] && self@.depth[k]
                        == counted.depth[k],
            decreases links@.len() - i,
        {
            let c = &links[i];
            assert(all[i as int] == c@);
            if *c == self.goal {
                let path = self.route(&source);
                proof {
                    law_first_hit(all, counted.goal, i as int);
                    assert(all.contains(counted.goal));
                    let p = names(path@);
                    assert forall|j: int| 1 <= j < p.len() - 1 implies (#[trigger] p[j])
                        != counted.start && counted.parents.contains_key(p[j])
                        && counted.parents[p[j]] == p[j - 1] by {
                        lemma_chain_is_old(counted, self@, source@, p, j);
                    }
                }
                return Some(path);
            }
            let ghost before = self@;
            if !self.visited.contains_key(c.as_str()) {
                self.visited.insert(c.clone(), source.clone());
                self.next.push_back(c.clone());
                proof {
                    self.depth@ = self.depth@.insert(c@, self.level@ + 1);
                }
            }
            proof {
                let t = all.take(i as int + 1);
                assert(t.drop_last() =~= all.take(i as int));
                assert(t.last() == c@);
                let after = record(counted, source@, t);
                assert(self@.parents =~= after.parents);
                assert(self@.next =~= after.next);
                assert(self@.depth =~= after.depth);
                assert(self@ == after);
            }
            i += 1;
        }
        proof {
            law_first_hit(all, counted.goal, all.len() as int);
            assert(all.take(all.len() as int) =~= all);
            assert(!all.contains(counted.goal));
        }
        let ghost recorded = self@;
        self.slots.set(slot, SlotState::Idle);
        self.in_flight.set(slot, None);
        proof {
            assert(self@.slots =~= recorded.slots.update(slot as int, SlotState::Idle));
            assert(self@.in_flight =~= recorded.in_flight.update(slot as int, None));
        }
        None
    }

    /// Takes in that the fetch of `slot` failed. The slot is idle again, and
    /// its node returns to the front of the frontier unless it has used up
    /// its retries, in which case it is skipped. A slot with no fetch under
    /// way changes nothing.
    pub fn on_fetch_failed(&mut self, slot: usize)
        requires
            old(self).wf(),
        ensures
            final(self).wf(),
            final(self)@ == after_fetch_failure(old(self)@, slot as int),
            final(self)@.processed == old(self)@.processed,
    {
        if slot >= self.slots.len() {
            return ;
        }
        let node = match &self.in_flight[slot] {
            Some(node) => node.clone(),
            None => {
                return ;
            },
        };
        assert(held(self.in_flight@)[slot as int] == Some(node@));
        assert(busy(self@, slot as int));
        let seen: usize = match self.failures.get(node.as_str()) {
            Some(n) => *n,
            None => 0,
        };
        self.slots.set(slot, SlotState::Idle);
        self.in_flight.set(slot, None);
        if seen < RETRY_BUDGET {
            self.failures.insert(node.clone(), seen + 1);
            self.frontier.push_front(node);
        }
        proof {
            let want = after_fetch_failure(old(self)@, slot as int);
            assert(self@.slots =~= want.slots);
            assert(self@.in_flight =~= want.in_flight);
            assert(self@.frontier =~= want.frontier);
            assert(self@.failures =~= want.failures);
        }
    }

    /// Takes in that the worker of `slot` is gone. The slot is retired for
    /// good, and a node it held returns to the front of the frontier, ahead
    /// of fresh work. The result says whether the slot was retired by this
    /// call, which is when its death is to be reported.
    pub fn on_worker_gone(&mut self, slot: usize) -> (retired: bool)
        requires
            old(self).wf(),
        ensures
            final(self).wf(),
            final(self)@ == after_worker_gone(old(self)@, slot as int),
            retired == (slot < old(self)@.slots.len() && old(self)@.slots[slot as int]
                != SlotState::Dead),
            final(self)@.processed == old(self)@.processed,
    {
        if slot >= self.slots.len() {
            return false;
        }
        if self.slots[slot] == SlotState::Dead {
            return false;
        }
        let lost = match &self.in_flight[slot] {
            Some(node) => Some(node.clone()),
            None => None,
        };
        assert(held(self.in_flight@)[slot as int] == match lost {
            Some(node) => Some(node@),
            None => None,
        });
        self.slots.set(slot, SlotState::Dead);
        self.in_flight.set(slot, None);
        match lost {
            Some(node) => {
                self.frontier.push_front(node);
            },
            None => {},
        }
        proof {
            let want = after_worker_gone(old(self)@, slot as int);
            assert(self@.slots =~= want.slots);
            assert(self@.in_flight =~= want.in_flight);
            assert(self@.frontier =~= want.frontier);
        }
        true
    }

    /// Hands the first node of the frontier to `slot` if the slot is idle
    /// and a node waits: the slot then has that fetch under way. Otherwise
    /// nothing changes and nothing is handed out.
    pub fn next_dispatch(&mut self, slot: usize) -> (node: Option<String>)
        requires
            old(self).wf(),
        ensures
            final(self).wf(),
            final(self)@ == after_dispatch(old(self)@, slot as int),
            match node {
                Some(n) => can_dispatch(old(self)@, slot as int) && n@ == old(self)@.frontier[0],
                None => !can_dispatch(old(self)@, slot as int),
            },
            final(self)@.processed == old(self)@.processed,
    {
        if slot >= self.slots.len() {
            return None;
        }
        if self.slots[slot] != SlotState::Idle {
            return None;
        }
        match self.frontier.pop_front() {
            Some(node) => {
                assert(names(old(self).frontier@)[0] == node@);
                self.slots.set(slot, SlotState::Processing);
                self.in_flight.set(slot, Some(node.clone()));
                proof {
                    let want = after_dispatch(old(self)@, slot as int);
                    assert(self@.slots =~= want.slots);
                    assert(self@.in_flight =~= want.in_flight);
                    assert(self@.frontier =~= want.frontier);
                    assert forall|i: int| 0 <= i < self@.frontier.len() implies old(
                        self,
                    )@.frontier[i + 1] == #[trigger] self@.frontier[i] by {}
                }
                Some(node)
            },
            None => None,
        }
    }

    /// Whether any slot has a fetch under way.
    pub fn has_processing(&self) -> (b: bool)
        ensures
            b == any_processing(self@),
    {
        let mut i: usize = 0;
        while i < self.slots.len()
            invariant
                i <= self.slots@.len(),
                forall|j: int| 0 <= j < i ==> self.slots@[j] != SlotState::Processing,
            decreases self.slots@.len() - i,
        {
            if self.slots[i] == SlotState::Processing {
                return true;
            }
            i += 1;
        }
        false
    }

    /// Whether every slot is retired.
    pub fn has_no_worker(&self) -> (b: bool)
        ensures
            b == all_dead(self@),
    {
        let mut i: usize = 0;
        while i < self.slots.len()
            invariant
                i <= self.slots@.len(),
                forall|j: int| 0 <= j < i ==> self.slots@[j] == SlotState::Dead,
            decreases self.slots@.len() - i,
        {
            if self.slots[i] != SlotState::Dead {
                return false;
            }
            i += 1;
        }
        true
    }

    /// Closes the current level where it is done, and says whether the
    /// search must end. With nothing waiting at either depth and nothing
    /// under way the reachable graph is exhausted: the goal was not found.
    /// Otherwise a finished level gives way to the next one. Where nodes
    /// then wait and every worker is gone, the search is given up.
    pub fn close_level(&mut self) -> (end: Option<SearchResult>)
        requires
            old(self).wf(),
        ensures
            final(self).wf(),
            final(self)@ == after_advance(old(self)@),
            end == verdict(old(self)@),
            final(self)@.processed == old(self)@.processed,
    {
        if self.frontier.len() == 0 && !self.has_processing() {
            if self.next.len() == 0 {
                return Some(SearchResult::NotFound);
            }
            std::mem::swap(&mut self.frontier, &mut self.next);
            proof {
                self.level@ = self.level@ + 1;
                let want = after_advance(old(self)@);
                assert(self@.frontier =~= want.frontier);
                assert(self@.next =~= want.next);
                assert forall|i: int| 0 <= i < self@.in_flight.len() implies (
                #[trigger] self@.in_flight[i]) is None by {
                    assert(self@.slots[i] != SlotState::Processing);
                }
            }
        }
        if self.frontier.len() > 0 && self.has_no_worker() {
            return Some(SearchResult::Aborted(AbortReason::WorkersLost));
        }
        None
    }
}

/// A chain of parents that ends in a node of an earlier state lies in that
/// state whole: recording links never changes a parent that is set.
proof fn lemma_chain_is_old(old_m: Model, new_m: Model, source: Node, p: Seq<Node>, j: int)
    requires
        inv(old_m),
        inv(new_m),
        is_route(new_m, source, p),
        old_m.parents.contains_key(source),
        old_m.start == new_m.start,
        forall|k: Node| #[trigger]
            old_m.parents.contains_key(k) ==> new_m.parents.contains_key(k) && new_m.parents[k]
                == old_m.parents[k],
        1 <= j < p.len() - 1,
    ensures
        p[j] != old_m.start,
        old_m.parents.contains_key(p[j]),
        old_m.parents[p[j]] == p[j - 1],
    decreases p.len() - j,
{
    if j < p.len() - 2 {
        lemma_chain_is_old(old_m, new_m, source, p, j + 1);
        assert(old_m.parents.contains_key(p[j + 1]));
        assert(new_m.parents[p[j + 1]] == p[j]);
    } else {
        assert(p[j] == source);
    }
}

} // verus!
