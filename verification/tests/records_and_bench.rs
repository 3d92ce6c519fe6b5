use std::time::Duration;
use std::time::Instant;
use wikisearch::bench::Bench;
use wikisearch::records::{FoundInfo, SearchingInfo, State, TemplateApp};

#[test]
fn new_stopwatch_is_all_zero() {
    let b = Bench::new();
    for id in [0u8, 1, 128, 255] {
        assert_eq!(b.get_nanos(id), 0);
        assert_eq!(b.get_duration(id), Duration::from_nanos(0));
    }
}

#[test]
fn credit_adds_and_stops_at_the_top() {
    let mut b = Bench::new();
    b.credit(3, 1_500);
    b.credit(3, 500);
    assert_eq!(b.get_nanos(3), 2_000);
    assert_eq!(b.get_nanos(4), 0);
    assert_eq!(b.get_duration(3), Duration::from_nanos(2_000));
    assert_eq!(b.get_duration(3), Duration::from_micros(2));
    b.credit(3, u64::MAX - 1);
    assert_eq!(b.get_nanos(3), u64::MAX);
}

#[test]
fn combine_adds_counter_by_counter() {
    let mut a = Bench::new();
    let mut b = Bench::new();
    a.credit(0, 5);
    a.credit(255, 7);
    b.credit(0, 10);
    b.credit(9, 1);
    b.credit(255, u64::MAX);
    a.combine(&b);
    assert_eq!(a.get_nanos(0), 15);
    assert_eq!(a.get_nanos(9), 1);
    assert_eq!(a.get_nanos(255), u64::MAX);
    assert_eq!(a.get_nanos(1), 0);
    assert_eq!(b.get_nanos(0), 10);
}

#[test]
fn reset_clears_one_counter() {
    let mut b = Bench::new();
    b.credit(1, 11);
    b.credit(2, 22);
    b.reset(1);
    assert_eq!(b.get_nanos(1), 0);
    assert_eq!(b.get_nanos(2), 22);
}

#[test]
fn stop_touches_only_its_counter() {
    let mut b = Bench::new();
    b.credit(7, 40);
    b.credit(8, 2);
    b.start();
    b.stop(8);
    assert_eq!(b.get_nanos(7), 40);
    assert!(b.get_nanos(8) >= 2);
}

#[test]
fn closures_run_and_hand_back_their_result() {
    let mut b = Bench::new();
    let mut hit = 0;
    b.call_closure(1, || ());
    let x = b.call_return_closure(2, || 6 * 7);
    let y = b.call_return_closure_mut(3, || {
        hit += 1;
        "done"
    });
    assert_eq!(x, 42);
    assert_eq!(y, "done");
    assert_eq!(hit, 1);
    assert_eq!(b.get_nanos(9), 0);
}

#[test]
fn searching_info_starts_empty() {
    let info = SearchingInfo::new("from", "to", 3);
    assert_eq!(info.search_from(), "from");
    assert_eq!(info.search_to(), "to");
    assert_eq!(info.num_of_processed(), 0);
    assert_eq!(info.num_in_queue(), 0);
    assert_eq!(info.used_threads(), 3);
    assert!(info.dead_threads().is_empty());
}

#[test]
fn searching_info_takes_in_events() {
    let mut info = SearchingInfo::new("from", "to", 4);
    info.record_progress(12, 340);
    assert_eq!(info.num_of_processed(), 12);
    assert_eq!(info.num_in_queue(), 340);
    info.record_dead_thread(2);
    info.record_dead_thread(0);
    info.record_dead_thread(2);
    info.record_dead_thread(4);
    assert_eq!(info.dead_threads(), vec![0, 2]);
    assert_eq!(info.used_threads(), 4);
}

#[test]
fn found_info_copies_the_search() {
    let mut info = SearchingInfo::new("from", "to", 2);
    info.record_progress(5, 6);
    let path = vec!["from".to_string(), "to".to_string()];
    let found = FoundInfo::with_duration(&info, path.clone(), Duration::from_millis(1500));
    assert_eq!(found.search_from(), "from");
    assert_eq!(found.search_to(), "to");
    assert_eq!(found.used_threads(), 2);
    assert_eq!(found.num_of_processed(), 5);
    assert_eq!(found.duration(), Duration::from_millis(1500));
    assert_eq!(found.path(), &path);
    let timed = FoundInfo::new(&info, path.clone());
    assert_eq!(timed.path(), &path);
    assert_eq!(timed.num_of_processed(), 5);
}

#[test]
fn form_starts_on_the_input_screen() {
    let app = TemplateApp::default();
    assert!(matches!(app.state, State::Input));
    assert_eq!(app.search_from, "https://en.wikipedia.org/wiki/It_Is_the_Law");
    assert_eq!(app.search_to, "https://en.wikipedia.org/wiki/Dab_(dance)");
    assert_eq!(app.threads, 1);
}

#[test]
fn form_starts_a_search_only_when_it_may() {
    let mut app = TemplateApp::default();
    assert!(!app.begin_search(false, true));
    assert!(!app.begin_search(true, false));
    app.threads = 0;
    assert!(!app.begin_search(true, true));
    app.threads = 101;
    assert!(!app.begin_search(true, true));
    app.threads = 100;
    app.search_to = "https://example.org/wiki/X".to_string();
    assert!(!app.begin_search(true, true));
    assert!(matches!(app.state, State::Input));
    app.search_to = "https://en.wikipedia.org/wiki/X".to_string();
    assert!(app.begin_search(true, true));
    match &app.state {
        State::Searching(info) => {
            assert_eq!(info.used_threads(), 100);
            assert_eq!(info.search_to(), "https://en.wikipedia.org/wiki/X");
        }
        _ => panic!("no search"),
    }
}

#[test]
fn finishing_shows_the_result() {
    let mut app = TemplateApp::default();
    assert!(!app.finish_search(vec![]));
    assert!(matches!(app.state, State::Input));
    assert!(app.begin_search(true, true));
    if let State::Searching(info) = &mut app.state {
        info.record_progress(9, 0);
    }
    assert!(app.finish_search(vec!["a".to_string()]));
    match &app.state {
        State::Found(found) => {
            assert_eq!(found.path(), &vec!["a".to_string()]);
            assert_eq!(found.num_of_processed(), 9);
            assert_eq!(found.used_threads(), 1);
        }
        _ => panic!("no result"),
    }
    assert!(!app.finish_search(vec![]));
}

#[test]
fn stopwatch_runs_from_the_given_moment() {
    let now = Instant::now();
    let earlier = now.checked_sub(Duration::from_millis(250)).unwrap_or(now);
    let mut b = Bench::new();
    b.credit(4, 9);
    b.start_at(earlier);
    assert_eq!(b.get_nanos(4), 9);
    b.stop(5);
    assert!(b.get_nanos(5) >= (now - earlier).as_nanos() as u64);
    assert_eq!(b.get_nanos(4), 9);
}
