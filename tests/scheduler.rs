use target_latency::events::{Event, EventCategory};
use target_latency::pool::{Action, Pool};
use target_latency::request::ConfigError;
use target_latency::task::Task;

fn pool(workers: usize, threshold: u64) -> Pool {
    match Pool::new(workers, threshold) {
        Ok(p) => p,
        Err(e) => panic!("pool refused: {:?}", e),
    }
}

fn count(events: &[Event], category: EventCategory, request: usize) -> usize {
    events
        .iter()
        .filter(|e| e.category == category && e.request == request)
        .count()
}

/// Runs a pool in simulated time: each task of request `r` takes
/// `durations[r]` ticks, and every idle worker asks for work with draw 0.
fn simulate(p: &mut Pool, durations: &[u64], until: u64) {
    let workers = p.worker_count();
    let mut busy_until: Vec<Option<u64>> = vec![None; workers];
    let mut started_at: Vec<u64> = vec![0; workers];
    for now in 0..until {
        for w in 0..workers {
            if busy_until[w] == Some(now) {
                p.complete(w, now - started_at[w], now, false);
                busy_until[w] = None;
            }
        }
        for w in 0..workers {
            if busy_until[w].is_some() {
                continue;
            }
            for _ in 0..8 {
                match p.step(w, 0, now) {
                    Action::Run { task, .. } => {
                        busy_until[w] = Some(now + durations[task.request]);
                        started_at[w] = now;
                        break;
                    }
                    Action::Idle => break,
                    _ => {}
                }
            }
        }
    }
}

#[test]
fn new_rejects_zero_workers() {
    assert!(matches!(Pool::new(0, 4), Err(ConfigError::NoWorkers)));
    let p = pool(3, 4);
    assert_eq!(p.worker_count(), 3);
    assert_eq!(p.target_latency(), 4);
    assert_eq!(p.events().len(), 0);
}

#[test]
fn zero_fanout_is_rejected_without_event() {
    let mut p = pool(2, 4);
    assert_eq!(p.submit(0, 5), Err(ConfigError::ZeroFanout));
    assert_eq!(p.events().len(), 0);
    assert_eq!(p.request_count(), 0);
    assert_eq!(p.pending_count(), 0);
}

#[test]
fn submit_logs_on_global_lane() {
    let mut p = pool(2, 4);
    assert_eq!(p.submit(3, 7), Ok(0));
    assert_eq!(p.submit(1, 2), Ok(1));
    let global = p.lane(2);
    assert_eq!(global.len(), 2);
    assert_eq!(global[0].category, EventCategory::AddRequest);
    assert_eq!(global[0].time, 7);
    // the clock never goes back, so the second request is stamped 7 too
    assert_eq!(global[1].time, 7);
    assert_eq!(p.request(1).declared_at, 7);
    assert_eq!(p.remaining(0), 3);
    assert_eq!(p.pending_count(), 2);
    assert!(p.lane(0).is_empty());
}

#[test]
fn owner_expands_then_runs_in_order() {
    let mut p = pool(2, 100);
    p.submit(3, 0).unwrap();
    assert_eq!(p.step(0, 5, 1), Action::Admitted { request: 0 });
    assert_eq!(p.queue_len(0), 3);
    assert_eq!(p.pending_count(), 0);
    let lane0 = p.lane(0);
    assert_eq!(lane0[0].category, EventCategory::AddTasks(3));
    for i in 0..3 {
        match p.step(0, 0, 2) {
            Action::Run { task, stolen_from } => {
                assert_eq!(task, Task::new(0, i));
                assert_eq!(stolen_from, None);
            }
            other => panic!("unexpected {:?}", other),
        }
        assert!(p.is_busy(0));
        assert_eq!(p.complete(0, 1, 3, false), Task::new(0, i));
    }
    assert_eq!(p.remaining(0), 0);
    assert_eq!(p.accumulated_runtime(0), 3);
    assert_eq!(p.observed_latency(0), 3);
}

#[test]
fn thief_takes_from_far_end() {
    let mut p = pool(2, 100);
    p.submit(3, 0).unwrap();
    p.step(0, 0, 0);
    assert_eq!(
        p.step(1, 0, 1),
        Action::Run { task: Task::new(0, 2), stolen_from: Some(0) }
    );
    let lane1 = p.lane(1);
    assert_eq!(lane1.len(), 2);
    assert_eq!(lane1[0].category, EventCategory::Steal(0));
    assert_eq!(lane1[1].category, EventCategory::StartProcessing);
    assert_eq!(p.queue_len(0), 2);
}

#[test]
fn steal_refused_over_threshold() {
    let mut p = pool(2, 4);
    p.submit(3, 0).unwrap();
    p.step(0, 0, 0);
    p.step(0, 0, 0);
    p.complete(0, 5, 5, false);
    assert_eq!(p.accumulated_runtime(0), 5);
    assert_eq!(p.step(1, 0, 6), Action::Refused { victim: 0 });
    assert!(p.is_protected(0));
    assert_eq!(p.queue_len(0), 2);
    assert_eq!(count(p.events(), EventCategory::Steal(0), 0), 0);
    // nothing else is eligible and nothing is pending
    assert_eq!(p.step(1, 0, 7), Action::Idle);
}

#[test]
fn protection_lifts_when_owner_drains() {
    let mut p = pool(2, 1);
    p.submit(2, 0).unwrap();
    p.step(0, 0, 0);
    p.step(0, 0, 0);
    p.complete(0, 2, 2, false);
    assert_eq!(p.step(1, 0, 2), Action::Refused { victim: 0 });
    assert!(p.is_protected(0));
    assert_eq!(p.step(0, 0, 3), Action::Run { task: Task::new(0, 1), stolen_from: None });
    p.complete(0, 1, 4, false);
    assert!(p.is_protected(0));
    assert_eq!(p.step(0, 0, 5), Action::Idle);
    assert!(!p.is_protected(0));
}

#[test]
fn victim_is_the_drawn_eligible_peer() {
    let mut p = pool(4, 1);
    assert_eq!(p.eligible_victims(1), 3);
    assert_eq!(p.victim(1, 0), Some(0));
    assert_eq!(p.victim(1, 1), Some(2));
    assert_eq!(p.victim(1, 2), Some(3));
    assert_eq!(p.victim(1, 3), None);
    // protect worker 2 through a refused steal
    p.submit(2, 0).unwrap();
    p.step(2, 0, 0);
    p.step(2, 0, 0);
    p.complete(2, 3, 3, false);
    assert_eq!(p.step(1, 1, 3), Action::Refused { victim: 2 });
    assert_eq!(p.eligible_victims(1), 2);
    assert_eq!(p.victim(1, 1), Some(3));
}

#[test]
fn random_victim_is_the_only_peer() {
    let mut p = pool(2, 100);
    p.submit(2, 0).unwrap();
    p.step(0, 0, 0);
    match p.next(1, 1) {
        Action::Run { stolen_from, .. } => assert_eq!(stolen_from, Some(0)),
        other => panic!("unexpected {:?}", other),
    }
}

#[test]
fn completion_accounting() {
    let mut p = pool(1, 100);
    p.submit(2, 10).unwrap();
    p.step(0, 0, 10);
    p.step(0, 0, 11);
    p.complete(0, 4, 15, true);
    let r = p.request(0);
    assert_eq!(r.accumulated_runtime, 4);
    assert_eq!(r.observed_latency, 5);
    assert_eq!(r.remaining, 1);
    assert_eq!(r.failures, 1);
    p.step(0, 0, 15);
    p.complete(0, u64::MAX, 20, false);
    let r = p.request(0);
    assert_eq!(r.accumulated_runtime, u64::MAX);
    assert_eq!(r.observed_latency, 10);
    assert_eq!(r.remaining, 0);
    assert_eq!(r.failures, 1);
}

#[test]
fn each_replica_started_and_ended_once() {
    let mut p = pool(3, 1000);
    p.submit(7, 0).unwrap();
    p.submit(2, 0).unwrap();
    simulate(&mut p, &[2, 1], 40);
    for r in 0..2 {
        assert_eq!(p.remaining(r), 0);
        let n = p.request(r).fanout;
        assert_eq!(count(p.events(), EventCategory::StartProcessing, r), n);
        for i in 0..n {
            let ends = p
                .events()
                .iter()
                .filter(|e| {
                    e.category == EventCategory::EndProcessing && e.request == r && e.replica == i
                })
                .count();
            assert_eq!(ends, 1);
        }
    }
}

#[test]
fn accumulated_runtime_never_decreases() {
    let mut p = pool(2, 3);
    p.submit(4, 0).unwrap();
    let mut last: u64 = 0;
    for now in 0..12 {
        if p.is_busy(0) {
            p.complete(0, 1, now, false);
        } else {
            p.step(0, 0, now);
        }
        let t = p.accumulated_runtime(0);
        assert!(t >= last);
        last = t;
    }
    assert_eq!(last, 4);
}

#[test]
fn no_steal_after_threshold() {
    let mut p = pool(4, 4);
    p.submit(10, 0).unwrap();
    simulate(&mut p, &[3], 40);
    let crossed = p
        .events()
        .iter()
        .filter(|e| e.category == EventCategory::EndProcessing)
        .nth(1)
        .map(|e| e.time)
        .unwrap();
    for e in p.events() {
        if let EventCategory::Steal(_) = e.category {
            assert!(e.time < crossed);
        }
    }
    assert_eq!(p.remaining(0), 0);
}

#[test]
fn throttled_request_lets_a_second_one_through() {
    let mut p = pool(4, 4);
    p.submit(10, 0).unwrap();
    p.submit(4, 0).unwrap();
    simulate(&mut p, &[3, 2], 40);
    assert_eq!(p.remaining(0), 0);
    assert_eq!(p.remaining(1), 0);
    assert_eq!(p.observed_latency(0), 21);
    assert_eq!(p.observed_latency(1), 7);
    assert_eq!(p.accumulated_runtime(0), 30);
    assert_eq!(p.accumulated_runtime(1), 8);
}

#[test]
fn back_to_back_requests_are_not_expanded_together() {
    let mut p = pool(2, 1000);
    p.submit(1, 0).unwrap();
    p.submit(1, 0).unwrap();
    assert_eq!(p.step(0, 0, 0), Action::Admitted { request: 0 });
    assert!(matches!(p.step(0, 0, 0), Action::Run { .. }));
    assert_eq!(p.step(1, 0, 1), Action::Idle);
    p.complete(0, 3, 3, false);
    assert_eq!(p.step(1, 0, 3), Action::Admitted { request: 1 });
    let events = p.events();
    let end_first = events
        .iter()
        .position(|e| e.category == EventCategory::EndProcessing && e.request == 0)
        .unwrap();
    let add_second = events
        .iter()
        .position(|e| e.category == EventCategory::AddTasks(1) && e.request == 1)
        .unwrap();
    assert!(end_first < add_second);
    assert!(events[end_first].time <= events[add_second].time);
}

#[test]
fn positive_worker_count_gives_idle_pool() {
    let p = pool(4, 4);
    assert_eq!(p.worker_count(), 4);
    assert_eq!(p.lanes().len(), 5);
    for w in 0..4 {
        assert!(!p.is_busy(w));
        assert!(!p.is_protected(w));
        assert_eq!(p.queue_len(w), 0);
    }
    assert_eq!(p.pending_count(), 0);
}

#[test]
fn events_stand_in_their_lanes() {
    let mut p = pool(3, 100);
    simulate_one(&mut p);
    let lanes = p.lanes();
    for (k, lane) in lanes.iter().enumerate() {
        for e in lane {
            assert_eq!(e.lane, k);
            assert_eq!(e.category == EventCategory::AddRequest, k == 3);
        }
    }
}

fn simulate_one(p: &mut Pool) {
    p.submit(4, 0).unwrap();
    simulate(p, &[1], 10);
}
