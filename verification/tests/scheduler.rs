use wikisearch::driver::{AbortReason, Driver, Opening, SearchResult};
use wikisearch::model::SlotState;

type Graph = Vec<(&'static str, Vec<&'static str>)>;

fn links_of(graph: &Graph, node: &str) -> Vec<String> {
    for (n, out) in graph {
        if *n == node {
            return out.iter().map(|s| s.to_string()).collect();
        }
    }
    Vec::new()
}

/// Runs a whole search with workers that answer at once. `dies` names a
/// slot whose worker disappears the first time it holds a node.
fn run(
    graph: &Graph,
    start: &str,
    goal: &str,
    workers: usize,
    max_queue: usize,
    dies: Option<usize>,
    samples: &mut Vec<(usize, usize)>,
    deaths: &mut Vec<usize>,
) -> SearchResult {
    let mut driver = match Driver::open(start, goal, workers, max_queue) {
        Opening::Trivial(path) => return SearchResult::Found(path),
        Opening::Running(driver) => driver,
    };
    let mut holding: Vec<Option<String>> = vec![None; workers];
    for _ in 0..10_000 {
        if let Some(end) = driver.close_level() {
            return end;
        }
        if let Some(sample) = driver.progress_sample() {
            samples.push(sample);
        }
        if let Some(end) = driver.check_limits(true) {
            return end;
        }
        for i in 0..workers {
            if driver.slot_state(i) == SlotState::Processing {
                if dies == Some(i) {
                    if driver.on_worker_gone(i) {
                        deaths.push(i);
                    }
                    continue;
                }
                let node = holding[i].take().unwrap();
                let links = links_of(graph, &node);
                if let Some(path) = driver.on_links(i, &links) {
                    return SearchResult::Found(path);
                }
            }
        }
        for i in 0..workers {
            if let Some(node) = driver.next_dispatch(i) {
                holding[i] = Some(node);
            }
        }
    }
    panic!("the search did not end");
}

fn quiet_run(graph: &Graph, start: &str, goal: &str, workers: usize, max_queue: usize) -> SearchResult {
    run(graph, start, goal, workers, max_queue, None, &mut Vec::new(), &mut Vec::new())
}

fn found(result: SearchResult) -> Vec<String> {
    match result {
        SearchResult::Found(path) => path,
        other => panic!("no path: {:?}", other),
    }
}

fn diamond() -> Graph {
    vec![
        ("A", vec!["B", "C"]),
        ("B", vec!["D", "A"]),
        ("C", vec!["D", "E"]),
        ("D", vec!["F"]),
        ("E", vec!["F", "G"]),
        ("F", vec!["H"]),
        ("G", vec!["H"]),
        ("H", vec![]),
        ("X", vec!["Y"]),
    ]
}

#[test]
fn same_start_and_goal_is_a_single_node_path() {
    match Driver::open("A", "A", 3, 0) {
        Opening::Trivial(path) => assert_eq!(path, vec!["A".to_string()]),
        Opening::Running(_) => panic!("a scheduler was made"),
    }
}

#[test]
fn opening_a_search_queues_the_start() {
    match Driver::open("A", "B", 2, 7) {
        Opening::Trivial(_) => panic!("no scheduler"),
        Opening::Running(driver) => {
            assert_eq!(driver.workers(), 2);
            assert_eq!(driver.processed(), 0);
            assert_eq!(driver.queued_count(), 1);
            assert_eq!(driver.slot_state(0), SlotState::Idle);
            assert_eq!(driver.slot_state(1), SlotState::Idle);
            assert_eq!(driver.slot_state(2), SlotState::Dead);
            assert!(!driver.has_processing());
            assert!(!driver.has_no_worker());
        }
    }
}

#[test]
fn direct_link_beats_the_detour() {
    let graph: Graph = vec![("A", vec!["B", "C"]), ("B", vec!["C"]), ("C", vec![])];
    let path = found(quiet_run(&graph, "A", "C", 1, 0));
    assert_eq!(path, vec!["A".to_string(), "C".to_string()]);
}

#[test]
fn path_walks_the_parents_back_to_the_start() {
    let graph = diamond();
    let path = found(quiet_run(&graph, "A", "H", 1, 0));
    assert_eq!(path, vec!["A", "B", "D", "F", "H"].iter().map(|s| s.to_string()).collect::<Vec<_>>());
}

#[test]
fn path_length_does_not_depend_on_the_workers() {
    let graph = diamond();
    for goal in ["B", "D", "E", "F", "G", "H"] {
        let one = found(quiet_run(&graph, "A", goal, 1, 0));
        for workers in [2usize, 3, 8] {
            let many = found(quiet_run(&graph, "A", goal, workers, 0));
            assert_eq!(one.len(), many.len());
            assert_eq!(many[0], "A");
            assert_eq!(many[many.len() - 1], goal);
        }
    }
    assert_eq!(found(quiet_run(&graph, "A", "G", 4, 0)).len(), 4);
    assert_eq!(found(quiet_run(&graph, "A", "H", 4, 0)).len(), 5);
}

#[test]
fn lost_node_goes_to_a_surviving_worker() {
    let graph = diamond();
    let mut deaths = Vec::new();
    let with_death = found(run(&graph, "A", "H", 2, 0, Some(0), &mut Vec::new(), &mut deaths));
    let one_worker = found(quiet_run(&graph, "A", "H", 1, 0));
    assert_eq!(with_death, one_worker);
    assert_eq!(deaths, vec![0]);
}

#[test]
fn gone_worker_hands_its_node_to_the_front() {
    let mut driver = match Driver::open("A", "Z", 2, 0) {
        Opening::Running(driver) => driver,
        Opening::Trivial(_) => panic!("no scheduler"),
    };
    assert_eq!(driver.next_dispatch(0), Some("A".to_string()));
    assert_eq!(driver.on_links(0, &vec!["B".to_string(), "C".to_string()]), None);
    assert!(driver.close_level().is_none());
    assert_eq!(driver.next_dispatch(0), Some("B".to_string()));
    assert!(driver.on_worker_gone(0));
    assert_eq!(driver.slot_state(0), SlotState::Dead);
    assert!(!driver.on_worker_gone(0));
    assert_eq!(driver.next_dispatch(0), None);
    assert_eq!(driver.next_dispatch(1), Some("B".to_string()));
    assert_eq!(driver.slot_state(1), SlotState::Processing);
    assert_eq!(driver.next_dispatch(1), None);
    assert_eq!(driver.queued_count(), 1);
}

#[test]
fn narrow_bound_overflows_on_a_wide_page() {
    let graph: Graph = vec![("A", vec!["B", "C", "D", "E"]), ("B", vec!["Z"])];
    let result = quiet_run(&graph, "A", "Z", 2, 3);
    assert!(matches!(result, SearchResult::Aborted(AbortReason::QueueOverflow)));
    let path = found(quiet_run(&graph, "A", "Z", 2, 4));
    assert_eq!(path.len(), 3);
    let unbounded = found(quiet_run(&graph, "A", "Z", 2, 0));
    assert_eq!(unbounded.len(), 3);
}

#[test]
fn samples_come_only_on_change_and_never_fall() {
    let graph = diamond();
    let mut samples = Vec::new();
    let _ = run(&graph, "A", "H", 2, 0, None, &mut samples, &mut Vec::new());
    assert_eq!(samples[0], (0, 1));
    assert!(samples.len() > 2);
    for pair in samples.windows(2) {
        assert_ne!(pair[0], pair[1]);
        assert!(pair[0].0 <= pair[1].0);
    }
}

#[test]
fn sample_is_not_repeated() {
    let mut driver = match Driver::open("A", "Z", 1, 0) {
        Opening::Running(driver) => driver,
        Opening::Trivial(_) => panic!("no scheduler"),
    };
    assert_eq!(driver.progress_sample(), Some((0, 1)));
    assert_eq!(driver.progress_sample(), None);
    assert_eq!(driver.next_dispatch(0), Some("A".to_string()));
    assert_eq!(driver.progress_sample(), Some((0, 0)));
    assert_eq!(driver.on_links(0, &vec!["B".to_string(), "B".to_string(), "A".to_string()]), None);
    assert_eq!(driver.progress_sample(), Some((1, 1)));
    assert_eq!(driver.progress_sample(), None);
}

#[test]
fn unreachable_goal_ends_not_found() {
    let graph = diamond();
    assert!(matches!(quiet_run(&graph, "A", "Y", 1, 0), SearchResult::NotFound));
    assert!(matches!(quiet_run(&graph, "A", "Y", 5, 0), SearchResult::NotFound));
    assert!(matches!(quiet_run(&graph, "H", "A", 2, 0), SearchResult::NotFound));
}

#[test]
fn no_worker_left_gives_the_search_up() {
    let graph = diamond();
    let result = run(&graph, "A", "H", 1, 0, Some(0), &mut Vec::new(), &mut Vec::new());
    assert!(matches!(result, SearchResult::Aborted(AbortReason::WorkersLost)));
    let none = quiet_run(&graph, "A", "H", 0, 0);
    assert!(matches!(none, SearchResult::Aborted(AbortReason::WorkersLost)));
}

#[test]
fn failed_fetch_is_retried_then_skipped() {
    let mut driver = match Driver::open("A", "Z", 1, 0) {
        Opening::Running(driver) => driver,
        Opening::Trivial(_) => panic!("no scheduler"),
    };
    for _ in 0..3 {
        assert_eq!(driver.next_dispatch(0), Some("A".to_string()));
        driver.on_fetch_failed(0);
        assert_eq!(driver.slot_state(0), SlotState::Idle);
        assert_eq!(driver.queued_count(), 1);
        assert_eq!(driver.processed(), 0);
    }
    assert_eq!(driver.next_dispatch(0), Some("A".to_string()));
    driver.on_fetch_failed(0);
    assert_eq!(driver.queued_count(), 0);
    assert_eq!(driver.next_dispatch(0), None);
    assert!(matches!(driver.close_level(), Some(SearchResult::NotFound)));
}

#[test]
fn events_for_a_slot_without_work_change_nothing() {
    let mut driver = match Driver::open("A", "Z", 1, 0) {
        Opening::Running(driver) => driver,
        Opening::Trivial(_) => panic!("no scheduler"),
    };
    assert_eq!(driver.on_links(0, &vec!["Z".to_string()]), None);
    assert_eq!(driver.on_links(9, &vec!["Z".to_string()]), None);
    driver.on_fetch_failed(0);
    assert!(!driver.on_worker_gone(9));
    assert_eq!(driver.processed(), 0);
    assert_eq!(driver.queued_count(), 1);
    assert_eq!(driver.slot_state(0), SlotState::Idle);
}

#[test]
fn goal_among_the_links_ends_the_search_at_once() {
    let mut driver = match Driver::open("A", "Z", 1, 0) {
        Opening::Running(driver) => driver,
        Opening::Trivial(_) => panic!("no scheduler"),
    };
    assert_eq!(driver.next_dispatch(0), Some("A".to_string()));
    let links = vec!["B".to_string(), "Z".to_string(), "C".to_string()];
    assert_eq!(driver.on_links(0, &links), Some(vec!["A".to_string(), "Z".to_string()]));
    assert_eq!(driver.processed(), 1);
    assert_eq!(driver.queued_count(), 1);
    assert_eq!(driver.slot_state(0), SlotState::Processing);
}

#[test]
fn unheard_sample_stops_the_search_first() {
    let mut driver = match Driver::open("A", "Z", 1, 1) {
        Opening::Running(driver) => driver,
        Opening::Trivial(_) => panic!("no scheduler"),
    };
    assert!(driver.check_limits(true).is_none());
    assert!(!driver.queue_overflow());
    assert!(matches!(driver.check_limits(false), Some(SearchResult::Aborted(AbortReason::ConsumerGone))));
    assert_eq!(driver.next_dispatch(0), Some("A".to_string()));
    assert_eq!(driver.on_links(0, &vec!["B".to_string(), "C".to_string()]), None);
    assert!(driver.queue_overflow());
    assert!(matches!(driver.check_limits(true), Some(SearchResult::Aborted(AbortReason::QueueOverflow))));
    assert!(matches!(driver.check_limits(false), Some(SearchResult::Aborted(AbortReason::ConsumerGone))));
}

#[test]
fn level_closes_only_when_nothing_is_under_way() {
    let mut driver = match Driver::open("A", "Z", 2, 0) {
        Opening::Running(driver) => driver,
        Opening::Trivial(_) => panic!("no scheduler"),
    };
    assert!(driver.close_level().is_none());
    assert_eq!(driver.next_dispatch(1), Some("A".to_string()));
    assert!(driver.has_processing());
    assert!(driver.close_level().is_none());
    assert_eq!(driver.on_links(1, &vec!["B".to_string()]), None);
    assert!(!driver.has_processing());
    assert_eq!(driver.next_dispatch(0), None);
    assert!(driver.close_level().is_none());
    assert_eq!(driver.next_dispatch(0), Some("B".to_string()));
    assert_eq!(driver.on_links(0, &vec!["A".to_string(), "B".to_string()]), None);
    assert_eq!(driver.processed(), 2);
    assert!(matches!(driver.close_level(), Some(SearchResult::NotFound)));
}
