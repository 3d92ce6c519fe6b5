//! What the front end keeps of a search: the form, the running search and
//! its result.

use crate::bench::elapsed;
use crate::bench::now;
use crate::links::article_prefix;
use crate::links::is_article_url;
use crate::links::starts_with;
use std::time::Duration;
use std::time::Instant;
use vstd::prelude::*;
use vstd::utf8::encode_utf8;

verus! {

/// The largest number of workers that the form accepts.
pub const MAX_THREADS: usize = 100;

/// A search under way, as its observer sees it.
pub struct SearchingInfo {
    search_from: String,
    search_to: String,
    num_of_processed: usize,
    num_in_queue: usize,
    threads: usize,
    threads_state: Vec<bool>,
    start_instant: Instant,
}

impl SearchingInfo {
    pub closed spec fn from(&self) -> Seq<char> {
        self.search_from@
    }

    pub closed spec fn to(&self) -> Seq<char> {
        self.search_to@
    }

    pub closed spec fn processed(&self) -> usize {
        self.num_of_processed
    }

    pub closed spec fn queued(&self) -> usize {
        self.num_in_queue
    }

    pub closed spec fn threads(&self) -> usize {
        self.threads
    }

    /// The moment at which the search started.
    pub closed spec fn started(&self) -> Instant {
        self.start_instant
    }

    /// For each worker, whether it is still alive.
    pub closed spec fn alive(&self) -> Seq<bool> {
        self.threads_state@
    }

    /// A search that starts now: nothing processed, nothing queued, every
    /// worker alive.
    pub fn new(from: &str, to: &str, threads: usize) -> (info: Self)
        ensures
            info.from() == from@,
            info.to() == to@,
            info.processed() == 0,
            info.queued() == 0,
            info.threads() == threads,
            info.alive() == Seq::new(threads as nat, |i: int| true),
    {
        let mut threads_state: Vec<bool> = Vec::new();
        let mut i: usize = 0;
        while i < threads
            invariant
                i <= threads,
                threads_state@.len() == i,
                forall|j: int| 0 <= j < i ==> threads_state@[j],
            decreases threads - i,
        {
            threads_state.push(true);
            i += 1;
        }
        assert(threads_state@ =~= Seq::new(threads as nat, |i: int| true));
        Self {
            search_from: from.to_owned(),
            search_to: to.to_owned(),
            num_of_processed: 0,
            num_in_queue: 0,
            threads,
            threads_state,
            start_instant: now(),
        }
    }

    /// Takes in a progress sample: the latest counters replace the old.
    pub fn record_progress(&mut self, processed: usize, queued: usize)
        ensures
            final(self).processed() == processed,
            final(self).queued() == queued,
            final(self).from() == old(self).from(),
            final(self).to() == old(self).to(),
            final(self).threads() == old(self).threads(),
            final(self).alive() == old(self).alive(),
            final(self).started() == old(self).started(),
    {
        self.num_of_processed = processed;
        self.num_in_queue = queued;
    }

    /// Takes in that the worker `index` died. A worker that does not exist
    /// changes nothing.
    pub fn record_dead_thread(&mut self, index: usize)
        ensures
            final(self).alive() == if index < old(self).alive().len() {
                old(self).alive().update(index as int, false)
            } else {
                old(self).alive()
            },
            final(self).processed() == old(self).processed(),
            final(self).queued() == old(self).queued(),
            final(self).from() == old(self).from(),
            final(self).to() == old(self).to(),
            final(self).threads() == old(self).threads(),
            final(self).started() == old(self).started(),
    {
        if index < self.threads_state.len() {
            self.threads_state.set(index, false);
        }
    }

    /// The workers that died, in rising order.
    pub fn dead_threads(&self) -> (dead: Vec<usize>)
        ensures
            forall|k: int| 0 <= k < dead@.len() ==> dead@[k] < self.alive().len() && !self.alive()[dead@[k] as int],
            forall|k: int, l: int| 0 <= k < l < dead@.len() ==> dead@[k] < dead@[l],
            forall|i: int|
                0 <= i < self.alive().len() && !self.alive()[i] ==> exists|k: int|
                    0 <= k < dead@.len() && dead@[k] == i,
    {
        let mut dead: Vec<usize> = Vec::new();
        let mut i: usize = 0;
        while i < self.threads_state.len()
            invariant
                i <= self.threads_state@.len(),
                forall|k: int|
                    0 <= k < dead@.len() ==> dead@[k] < i && !self.threads_state@[dead@[k] as int],
                forall|k: int, l: int| 0 <= k < l < dead@.len() ==> dead@[k] < dead@[l],
                forall|j: int|
                    0 <= j < i && !self.threads_state@[j] ==> exists|k: int|
                        0 <= k < dead@.len() && dead@[k] == j,
            decreases self.threads_state@.len() - i,
        {
            if !self.threads_state[i] {
                let ghost before = dead@;
                dead.push(i);
                assert forall|j: int| 0 <= j < i + 1 && !self.threads_state@[j] implies exists|
                    k: int,
                |
                    0 <= k < dead@.len() && dead@[k] == j by {
                    if j < i {
                        let k = choose|k: int| 0 <= k < before.len() && before[k] == j;
                        assert(dead@[k] == j);
                    } else {
                        assert(dead@[dead@.len() - 1] == j);
                    }
                }
            }
            i += 1;
        }
        dead
    }

    pub fn search_from(&self) -> (s: &String)
        ensures
            s@ == self.from(),
    {
        &self.search_from
    }

    pub fn search_to(&self) -> (s: &String)
        ensures
            s@ == self.to(),
    {
        &self.search_to
    }

    pub fn num_of_processed(&self) -> (n: usize)
        ensures
            n == self.processed(),
    {
        self.num_of_processed
    }

    pub fn num_in_queue(&self) -> (n: usize)
        ensures
            n == self.queued(),
    {
        self.num_in_queue
    }

    pub fn used_threads(&self) -> (n: usize)
        ensures
            n == self.threads(),
    {
        self.threads
    }

    /// The moment at which the search started.
    pub fn start_instant(&self) -> (t: Instant)
        ensures
            t == self.started(),
    {
        self.start_instant
    }
}

/// A search that is over, with what it found.
pub struct FoundInfo {
    search_from: String,
    search_to: String,
    used_threads: usize,
    num_of_processed: usize,
    duration: Duration,
    path: Vec<String>,
}

impl FoundInfo {
    pub closed spec fn from(&self) -> Seq<char> {
        self.search_from@
    }

    pub closed spec fn to(&self) -> Seq<char> {
        self.search_to@
    }

    pub closed spec fn threads(&self) -> usize {
        self.used_threads
    }

    pub closed spec fn processed(&self) -> usize {
        self.num_of_processed
    }

    pub closed spec fn took(&self) -> Duration {
        self.duration
    }

    pub closed spec fn route(&self) -> Seq<String> {
        self.path@
    }

    /// The result of the search `searching_info` that took `duration` and
    /// found `path`.
    pub fn with_duration(searching_info: &SearchingInfo, path: Vec<String>, duration: Duration) -> (found: Self)
        ensures
            found.from() == searching_info.from(),
            found.to() == searching_info.to(),
            found.threads() == searching_info.threads(),
            found.processed() == searching_info.processed(),
            found.took() == duration,
            found.route() == path@,
    {
        Self {
            search_from: searching_info.search_from.clone(),
            search_to: searching_info.search_to.clone(),
            used_threads: searching_info.threads,
            num_of_processed: searching_info.num_of_processed,
            duration,
            path,
        }
    }

    /// The result of the search `searching_info` that has just found
    /// `path`. It took the time since the search started, whatever that is.
    pub fn new(searching_info: &SearchingInfo, path: Vec<String>) -> (found: Self)
        ensures
            found.from() == searching_info.from(),
            found.to() == searching_info.to(),
            found.threads() == searching_info.threads(),
            found.processed() == searching_info.processed(),
            found.route() == path@,
    {
        let duration = elapsed(&searching_info.start_instant);
        Self::with_duration(searching_info, path, duration)
    }

    pub fn search_from(&self) -> (s: &String)
        ensures
            s@ == self.from(),
    {
        &self.search_from
    }

    pub fn search_to(&self) -> (s: &String)
        ensures
            s@ == self.to(),
    {
        &self.search_to
    }

    pub fn used_threads(&self) -> (n: usize)
        ensures
            n == self.threads(),
    {
        self.used_threads
    }

    pub fn num_of_processed(&self) -> (n: usize)
        ensures
            n == self.processed(),
    {
        self.num_of_processed
    }

    pub fn duration(&self) -> (d: Duration)
        ensures
            d == self.took(),
    {
        self.duration
    }

    pub fn path(&self) -> (p: &Vec<String>)
        ensures
            p@ == self.route(),
    {
        &self.path
    }
}

/// The three screens of the front end.
pub enum State {
    Input,
    Searching(SearchingInfo),
    Found(FoundInfo),
}

/// The front end's state: the screen it shows and what the form holds.
pub struct TemplateApp {
    pub state: State,
    pub search_from: String,
    pub search_to: String,
    pub threads: usize,
}

impl Default for TemplateApp {
    /// The input screen, with an example filled in and one worker.
    fn default() -> (app: Self)
        ensures
            app.state is Input,
            app.search_from@ == "https://en.wikipedia.org/wiki/It_Is_the_Law"@,
            app.search_to@ == "https://en.wikipedia.org/wiki/Dab_(dance)"@,
            app.threads == 1,
    {
        Self {
            state: State::Input,
            search_from: "https://en.wikipedia.org/wiki/It_Is_the_Law".to_owned(),
            search_to: "https://en.wikipedia.org/wiki/Dab_(dance)".to_owned(),
            threads: 1,
        }
    }
}

impl TemplateApp {
    /// Whether the form may start a search: between one worker and the
    /// largest number of them, and both addresses article addresses that
    /// were found reachable.
    pub open spec fn may_search(&self, from_reachable: bool, to_reachable: bool) -> bool {
        &&& 0 < self.threads <= MAX_THREADS
        &&& starts_with(encode_utf8(self.search_from@), article_prefix())
        &&& from_reachable
        &&& starts_with(encode_utf8(self.search_to@), article_prefix())
        &&& to_reachable
    }

    /// Starts a search from the form if it may: the screen then shows a
    /// search of the form's addresses with the form's workers, begun now.
    /// Otherwise nothing changes.
    pub fn begin_search(&mut self, from_reachable: bool, to_reachable: bool) -> (started: bool)
        ensures
            started == old(self).may_search(from_reachable, to_reachable),
            !started ==> *final(self) == *old(self),
            final(self).search_from == old(self).search_from,
            final(self).search_to == old(self).search_to,
            final(self).threads == old(self).threads,
            started ==> (final(self).state matches State::Searching(info) && info.from() == old(
                self,
            ).search_from@ && info.to() == old(self).search_to@ && info.threads() == old(
                self,
            ).threads && info.processed() == 0 && info.queued() == 0 && info.alive() == Seq::new(
                old(self).threads as nat,
                |i: int| true,
            )),
    {
        if self.threads > 0 && self.threads <= MAX_THREADS && from_reachable && to_reachable
            && is_article_url(self.search_from.as_str()) && is_article_url(
            self.search_to.as_str(),
        ) {
            let info = SearchingInfo::new(
                self.search_from.as_str(),
                self.search_to.as_str(),
                self.threads,
            );
            self.state = State::Searching(info);
            true
        } else {
            false
        }
    }

    /// Ends the search that the screen shows, with the path it found: the
    /// screen then shows the result. On any other screen nothing changes.
    pub fn finish_search(&mut self, path: Vec<String>) -> (finished: bool)
        ensures
            finished == (old(self).state is Searching),
            !finished ==> *final(self) == *old(self),
            final(self).search_from == old(self).search_from,
            final(self).search_to == old(self).search_to,
            final(self).threads == old(self).threads,
            finished ==> (final(self).state matches State::Found(found) && found.route() == path@
                && found.from() == old(self).state->Searching_0.from() && found.to() == old(
                self,
            ).state->Searching_0.to() && found.threads() == old(self).state->Searching_0.threads()
                && found.processed() == old(self).state->Searching_0.processed()),
    {
        let found = match &self.state {
            State::Searching(info) => FoundInfo::new(info, path),
            _ => {
                return false;
            },
        };
        self.state = State::Found(found);
        true
    }
}

} // verus!
