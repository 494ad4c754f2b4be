use zerobrew::config::{Config, DEFAULT_CONCURRENCY};
use zerobrew::scheduler::{Flight, NodeState, Scheduler, SingleFlight};

#[test]
fn default_concurrency_is_twenty() {
    assert_eq!(DEFAULT_CONCURRENCY, 20);
    let config = Config::new("/home/u", None, None, None, false).unwrap();
    assert_eq!(
        config,
        Config {
            root: "/home/u/.zerobrew".to_string(),
            prefix: "/home/u/.zerobrew/prefix".to_string(),
            concurrency: 20,
            auto_init: false,
        }
    );
}

#[test]
fn zero_concurrency_is_rejected_by_the_configuration() {
    assert_eq!(
        Config::new("/home/u", None, None, Some(0), true),
        Err("concurrency must be at least 1".to_string())
    );
    let one = Config::new("/h", Some("/r".to_string()), None, Some(1), true).unwrap();
    assert_eq!(one.concurrency, 1);
    assert_eq!(one.root, "/r");
    assert_eq!(one.prefix, "/r/prefix");
    assert!(one.auto_init);
    let both =
        Config::new("/h", Some("/r".to_string()), Some("/opt/p".to_string()), Some(4), false)
            .unwrap();
    assert_eq!(both.prefix, "/opt/p");
}

#[test]
fn scheduler_needs_a_limit_and_known_nodes() {
    assert!(Scheduler::new(vec![vec![]], 0).is_none());
    assert!(Scheduler::new(vec![vec![1]], 2).is_none());
    assert!(Scheduler::new(vec![vec![], vec![0, 2]], 2).is_none());
    assert!(Scheduler::new(vec![], 1).is_some());
    assert!(Scheduler::new(vec![vec![], vec![0]], 1).is_some());
}

#[test]
fn node_starts_only_after_what_it_needs() {
    // 0: bar, 1: baz, 2: foo needs both.
    let mut s = Scheduler::new(vec![vec![], vec![], vec![0, 1]], 8).unwrap();
    assert_eq!(s.len(), 3);
    assert_eq!(s.next(), Some(0));
    assert_eq!(s.next(), Some(1));
    assert_eq!(s.next(), None);
    assert_eq!(s.running(), 2);
    assert_eq!(s.state(2), Some(NodeState::Pending));
    assert!(s.finish(0, true));
    assert_eq!(s.next(), None);
    assert!(s.finish(1, true));
    assert_eq!(s.next(), Some(2));
    assert!(!s.is_drained());
    assert!(s.finish(2, true));
    assert!(s.is_drained());
    assert_eq!(s.first_failure(), None);
    assert_eq!(s.state(2), Some(NodeState::Done));
    assert_eq!(s.state(3), None);
}

#[test]
fn no_more_nodes_run_than_the_limit_allows() {
    let mut s = Scheduler::new(vec![vec![], vec![], vec![], vec![]], 2).unwrap();
    assert_eq!(s.next(), Some(0));
    assert_eq!(s.next(), Some(1));
    assert_eq!(s.next(), None);
    assert_eq!(s.running(), 2);
    assert!(s.finish(1, true));
    assert_eq!(s.next(), Some(2));
    assert_eq!(s.next(), None);
    assert!(s.finish(0, true));
    assert!(s.finish(2, true));
    assert_eq!(s.next(), Some(3));
    assert!(s.finish(3, true));
    assert!(s.is_drained());
}

#[test]
fn nothing_starts_after_a_failure() {
    let mut s = Scheduler::new(vec![vec![], vec![], vec![], vec![0]], 2).unwrap();
    assert_eq!(s.next(), Some(0));
    assert_eq!(s.next(), Some(1));
    assert!(s.finish(1, false));
    assert_eq!(s.first_failure(), Some(1));
    assert_eq!(s.next(), None);
    assert!(!s.is_drained());
    assert!(s.finish(0, false));
    assert_eq!(s.first_failure(), Some(0));
    assert_eq!(s.next(), None);
    assert!(s.is_drained());
    assert_eq!(s.state(2), Some(NodeState::Pending));
    assert_eq!(s.state(0), Some(NodeState::Failed));
}

#[test]
fn end_of_a_node_that_does_not_run_is_ignored() {
    let mut s = Scheduler::new(vec![vec![], vec![0]], 1).unwrap();
    assert!(!s.finish(0, true));
    assert!(!s.finish(7, false));
    assert_eq!(s.next(), Some(0));
    assert!(s.finish(0, true));
    assert!(!s.finish(0, false));
    assert_eq!(s.first_failure(), None);
    assert_eq!(s.next(), Some(1));
}

#[test]
fn cyclic_needs_never_start() {
    let mut s = Scheduler::new(vec![vec![1], vec![0]], 4).unwrap();
    assert_eq!(s.next(), None);
    assert!(s.is_drained());
}

#[test]
fn first_request_leads_and_the_others_follow() {
    let mut flights = SingleFlight::new();
    let told: Vec<Flight> = (0..5).map(|_| flights.request("key-1")).collect();
    assert_eq!(told.iter().filter(|t| **t == Flight::Lead).count(), 1);
    assert_eq!(told[0], Flight::Lead);
    assert_eq!(flights.request("key-2"), Flight::Lead);
    assert_eq!(flights.request("key-2"), Flight::Follow);
    assert!(flights.complete("key-1"));
    assert!(!flights.complete("key-1"));
    assert_eq!(flights.request("key-2"), Flight::Follow);
    assert_eq!(flights.request("key-1"), Flight::Lead);
    assert!(flights.complete("key-2"));
    assert!(flights.complete("key-1"));
    assert!(!flights.complete("never"));
}

#[test]
fn nothing_starts_after_a_stop() {
    let mut s = Scheduler::new(vec![vec![], vec![], vec![0]], 4).unwrap();
    assert_eq!(s.next(), Some(0));
    s.stop();
    assert_eq!(s.next(), None);
    assert!(!s.is_drained());
    assert!(s.finish(0, true));
    assert_eq!(s.next(), None);
    assert!(s.is_drained());
    assert_eq!(s.first_failure(), None);
    assert_eq!(s.state(1), Some(NodeState::Pending));
}
