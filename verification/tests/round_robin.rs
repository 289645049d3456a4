use mini_tokio::poll::Poll;
use mini_tokio::round_robin::RoundRobin;
use mini_tokio::task::Suspendable;
use mini_tokio::timer::{Delay, TimerAction};
use mini_tokio::wake::{Context, Target};
use std::sync::{Arc, Mutex};
use std::time::{Duration, Instant};

/// Resolves at its `left`-th step after the first; notes every step.
struct Ticker {
    name: usize,
    left: u32,
    log: Arc<Mutex<Vec<usize>>>,
    handles: Arc<Mutex<Vec<Target>>>,
}

impl Suspendable for Ticker {
    type Output = usize;

    fn advance(&mut self, ctx: &Context) -> Poll<usize> {
        self.log.lock().unwrap().push(self.name);
        self.handles.lock().unwrap().push(ctx.wake_handle().target());
        assert!(!ctx.current_wake_handle().wake());
        if self.left == 0 {
            Poll::Done(self.name * 10)
        } else {
            self.left -= 1;
            Poll::NotReady
        }
    }
}

fn ticker(name: usize, left: u32, log: &Arc<Mutex<Vec<usize>>>) -> Ticker {
    Ticker { name, left, log: log.clone(), handles: Arc::new(Mutex::new(Vec::new())) }
}

fn watched(name: usize, left: u32, handles: &Arc<Mutex<Vec<Target>>>) -> Ticker {
    Ticker { name, left, log: Arc::new(Mutex::new(Vec::new())), handles: handles.clone() }
}

#[test]
fn new_round_robin_is_empty() {
    let mut rr: RoundRobin<Ticker> = RoundRobin::new();
    assert!(rr.is_empty());
    assert_eq!(rr.len(), 0);
    assert!(rr.turn().is_none());
    assert!(rr.run().is_empty());
    assert!(rr.is_empty());
}

#[test]
fn every_task_gets_one_step_per_pass_in_order() {
    let log = Arc::new(Mutex::new(Vec::new()));
    let mut rr = RoundRobin::new();
    for name in 0..5 {
        assert_eq!(rr.spawn(ticker(name, 3, &log)), name);
    }
    assert_eq!(rr.len(), 5);
    assert!(rr.run().is_empty());
    assert_eq!(*log.lock().unwrap(), vec![0, 1, 2, 3, 4]);
    assert!(rr.run().is_empty());
    assert_eq!(*log.lock().unwrap(), vec![0, 1, 2, 3, 4, 0, 1, 2, 3, 4]);
    assert!(rr.run().is_empty());
    assert_eq!(rr.len(), 5);
    let done = rr.run();
    assert_eq!(done, vec![(0, 0), (1, 10), (2, 20), (3, 30), (4, 40)]);
    assert!(rr.is_empty());
    assert_eq!(log.lock().unwrap().len(), 20);
}

#[test]
fn finished_tasks_leave_and_the_rest_keep_their_order() {
    let log = Arc::new(Mutex::new(Vec::new()));
    let mut rr = RoundRobin::new();
    rr.spawn(ticker(0, 2, &log));
    rr.spawn(ticker(1, 0, &log));
    rr.spawn(ticker(2, 1, &log));
    rr.spawn(ticker(3, 0, &log));
    assert_eq!(rr.run(), vec![(1, 10), (3, 30)]);
    assert_eq!(rr.len(), 2);
    assert_eq!(std::mem::take(&mut *log.lock().unwrap()), vec![0, 1, 2, 3]);
    assert_eq!(rr.run(), vec![(2, 20)]);
    assert_eq!(std::mem::take(&mut *log.lock().unwrap()), vec![0, 2]);
    assert_eq!(rr.run(), vec![(0, 0)]);
    assert_eq!(std::mem::take(&mut *log.lock().unwrap()), vec![0]);
    assert!(rr.is_empty());
    assert!(rr.run().is_empty());
    assert!(log.lock().unwrap().is_empty());
}

#[test]
fn turn_moves_the_front_task_to_the_back() {
    let log = Arc::new(Mutex::new(Vec::new()));
    let mut rr = RoundRobin::new();
    rr.spawn(ticker(0, 1, &log));
    rr.spawn(ticker(1, 0, &log));
    assert_eq!(rr.turn(), None);
    assert_eq!(rr.len(), 2);
    assert_eq!(rr.turn(), Some((1, 10)));
    assert_eq!(rr.len(), 1);
    assert_eq!(rr.turn(), Some((0, 0)));
    assert_eq!(rr.turn(), None);
    assert_eq!(*log.lock().unwrap(), vec![0, 1, 0]);
}

#[test]
fn task_submitted_between_passes_joins_at_the_back() {
    let log = Arc::new(Mutex::new(Vec::new()));
    let mut rr = RoundRobin::new();
    rr.spawn(ticker(0, 5, &log));
    rr.spawn(ticker(1, 5, &log));
    let _ = rr.run();
    assert_eq!(rr.spawn(ticker(2, 5, &log)), 2);
    let _ = rr.run();
    assert_eq!(*log.lock().unwrap(), vec![0, 1, 0, 1, 2]);
}

#[test]
fn steps_are_offered_the_handle_that_wakes_nobody() {
    let handles = Arc::new(Mutex::new(Vec::new()));
    let mut rr = RoundRobin::new();
    rr.spawn(watched(0, 1, &handles));
    rr.spawn(watched(1, 0, &handles));
    assert_eq!(rr.run(), vec![(1, 10)]);
    assert_eq!(rr.run(), vec![(0, 0)]);
    assert_eq!(*handles.lock().unwrap(), vec![Target::Nobody; 3]);
}

/// A timer that is polled until its deadline has passed.
struct PolledTimer {
    delay: Delay,
    origin: Instant,
    arms: Arc<Mutex<Vec<Target>>>,
}

impl Suspendable for PolledTimer {
    type Output = Duration;

    fn advance(&mut self, ctx: &Context) -> Poll<Duration> {
        let now = self.origin.elapsed().as_nanos() as u64;
        let (poll, action) = self.delay.advance(ctx, now);
        if let TimerAction::Arm { handle, .. } = action {
            self.arms.lock().unwrap().push(handle.target());
        }
        match poll {
            Poll::Done(()) => Poll::Done(self.origin.elapsed()),
            Poll::NotReady => Poll::NotReady,
        }
    }
}

#[test]
fn polled_timer_resolves_once_time_has_passed() {
    let arms = Arc::new(Mutex::new(Vec::new()));
    let origin = Instant::now();
    let mut rr = RoundRobin::new();
    rr.spawn(PolledTimer { delay: Delay::new(5_000_000), origin, arms: arms.clone() });
    let mut done = Vec::new();
    let mut passes = 0u64;
    while !rr.is_empty() {
        done.extend(rr.run());
        passes += 1;
    }
    assert_eq!(done.len(), 1);
    assert_eq!(done[0].0, 0);
    assert!(done[0].1 >= Duration::from_millis(5));
    assert!(passes >= 2);
    assert_eq!(*arms.lock().unwrap(), vec![Target::Nobody]);
}
