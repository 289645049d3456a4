use crossbeam::channel::{SendError, TryRecvError};
use mini_tokio::executor::Executor;
use mini_tokio::poll::Poll;
use mini_tokio::queue::accepted;
use mini_tokio::task::Suspendable;
use mini_tokio::wake::{Context, Target, WakeHandle};

struct Idle;

impl Suspendable for Idle {
    type Output = ();

    fn advance(&mut self, _ctx: &Context) -> Poll<()> {
        Poll::NotReady
    }
}

fn executor() -> Executor<Idle> {
    Executor::new()
}

#[test]
fn wake_pushes_the_task_number() {
    let exec = executor();
    let handle = exec.handle(7);
    assert_eq!(handle.target(), Target::Task(7));
    assert!(handle.wake());
    assert_eq!(exec.inbox().try_recv(), Ok(7));
    assert_eq!(exec.inbox().try_recv(), Err(TryRecvError::Empty));
}

#[test]
fn noop_wake_pushes_nothing() {
    let handle = WakeHandle::noop();
    assert_eq!(handle.target(), Target::Nobody);
    assert!(!handle.wake());
    assert!(!handle.clone().wake());
}

#[test]
fn redundant_wakes_are_harmless() {
    let exec = executor();
    let handle = exec.handle(2);
    assert!(handle.wake());
    assert!(handle.wake());
    assert!(handle.wake());
    assert_eq!(exec.inbox().try_iter().collect::<Vec<usize>>(), vec![2, 2, 2]);
}

#[test]
fn wake_after_the_executor_is_gone_reports_failure() {
    let exec = executor();
    let handle = exec.handle(1);
    drop(exec);
    assert!(!handle.wake());
}

#[test]
fn clone_wakes_the_same_task() {
    let exec = executor();
    let handle = exec.handle(11);
    let twin = handle.clone();
    assert_eq!(twin.target(), Target::Task(11));
    assert!(handle.will_wake(&twin));
    drop(handle);
    assert!(twin.wake());
    assert_eq!(exec.inbox().try_recv(), Ok(11));
}

#[test]
fn will_wake_compares_targets() {
    let exec = executor();
    let a = exec.handle(1);
    let b = exec.handle(2);
    let a2 = exec.handle(1);
    let none = WakeHandle::noop();
    assert!(a.will_wake(&a2));
    assert!(!a.will_wake(&b));
    assert!(!b.will_wake(&a));
    assert!(!a.will_wake(&none));
    assert!(!none.will_wake(&a));
    assert!(none.will_wake(&WakeHandle::noop()));
}

#[test]
fn wake_works_from_other_threads() {
    let exec = executor();
    let handle = exec.handle(5);
    crossbeam::scope(|scope| {
        for _ in 0..8 {
            let mine = handle.clone();
            scope.spawn(move |_| {
                assert!(mine.wake());
            });
        }
    })
    .unwrap();
    let got: Vec<usize> = exec.inbox().try_iter().collect();
    assert_eq!(got, vec![5; 8]);
}

#[test]
fn context_offers_its_handle() {
    let exec = executor();
    let ctx = Context::new(exec.handle(4));
    assert_eq!(ctx.wake_handle().target(), Target::Task(4));
    let owned = ctx.current_wake_handle();
    assert_eq!(owned.target(), Target::Task(4));
    drop(ctx);
    assert!(owned.wake());
    assert_eq!(exec.inbox().try_recv(), Ok(4));
}

#[test]
fn poll_reports_its_value() {
    let done: Poll<u32> = Poll::Done(9);
    let waiting: Poll<u32> = Poll::NotReady;
    assert!(done.is_done());
    assert!(!waiting.is_done());
    assert_eq!(done.into_value(), Some(9));
    assert_eq!(waiting.into_value(), None);
}

#[test]
fn accepted_tells_a_taken_message_from_one_handed_back() {
    assert!(accepted(&Ok(())));
    assert!(!accepted(&Err(SendError(3))));
}

#[test]
fn handles_of_two_executors_wake_different_tasks() {
    let first = executor();
    let second = executor();
    let a = first.handle(3);
    let b = second.handle(3);
    assert_eq!(a.target(), b.target());
    assert!(!a.will_wake(&b));
    assert!(!b.will_wake(&a));
    assert!(a.will_wake(&first.handle(3)));
    assert!(b.will_wake(&b.clone()));
    assert!(b.wake());
    assert_eq!(second.inbox().try_recv(), Ok(3));
    assert_eq!(first.inbox().try_recv(), Err(TryRecvError::Empty));
}
