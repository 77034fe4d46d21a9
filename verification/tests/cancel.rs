use std::future::Future;
use std::sync::{Arc, Mutex};
use std::task::Poll;
use std::time::Duration;

use thclaws_core::cancel::{CancelFlags, CancelToken, CancelWait};
use tokio::sync::Notify;

#[test]
fn reset_clears_flag() {
    let mut flags = CancelFlags::new();
    let token = CancelToken::new(&mut flags);
    token.cancel(&mut flags).notify_waiters();
    assert!(token.is_cancelled(&flags));
    token.reset(&mut flags);
    assert!(!token.is_cancelled(&flags));
}

#[test]
fn child_observes_parent_cancel() {
    let mut flags = CancelFlags::new();
    let parent = CancelToken::new(&mut flags);
    let child = parent.child(&mut flags);
    assert!(!child.is_cancelled(&flags));
    parent.cancel(&mut flags).notify_waiters();
    assert!(parent.is_cancelled(&flags));
    assert!(
        child.is_cancelled(&flags),
        "parent cancel must propagate to child"
    );
}

#[test]
fn child_cancel_does_not_propagate_to_parent() {
    let mut flags = CancelFlags::new();
    let parent = CancelToken::new(&mut flags);
    let child = parent.child(&mut flags);
    child.cancel(&mut flags).notify_waiters();
    assert!(child.is_cancelled(&flags));
    assert!(
        !parent.is_cancelled(&flags),
        "child cancel must NOT propagate up to parent"
    );
}

#[test]
fn sibling_children_are_independent() {
    let mut flags = CancelFlags::new();
    let parent = CancelToken::new(&mut flags);
    let child_a = parent.child(&mut flags);
    let child_b = parent.child(&mut flags);
    child_a.cancel(&mut flags).notify_waiters();
    assert!(child_a.is_cancelled(&flags));
    assert!(
        !child_b.is_cancelled(&flags),
        "sibling cancels must not affect each other"
    );
    assert!(!parent.is_cancelled(&flags));
}

#[test]
fn a_reset_child_stays_cancelled_with_its_parent() {
    let mut flags = CancelFlags::new();
    let parent = CancelToken::new(&mut flags);
    let child = parent.child(&mut flags);
    child.cancel(&mut flags).notify_waiters();
    parent.cancel(&mut flags).notify_waiters();
    child.reset(&mut flags);
    assert!(child.is_cancelled(&flags));
    parent.reset(&mut flags);
    assert!(!child.is_cancelled(&flags));
}

#[test]
fn cancelling_twice_is_cancelling_once() {
    let mut flags = CancelFlags::new();
    let token = CancelToken::new(&mut flags);
    token.cancel(&mut flags).notify_waiters();
    token.cancel(&mut flags).notify_waiters();
    assert!(token.is_cancelled(&flags));
    token.reset(&mut flags);
    assert!(!token.is_cancelled(&flags));
}

#[test]
fn a_copy_of_a_token_is_the_token() {
    let mut flags = CancelFlags::new();
    let token = CancelToken::new(&mut flags);
    let copy = token.clone();
    copy.cancel(&mut flags).notify_waiters();
    assert!(token.is_cancelled(&flags));
}

#[test]
fn a_child_made_after_the_cancel_sees_it() {
    let mut flags = CancelFlags::new();
    let parent = CancelToken::new(&mut flags);
    parent.cancel(&mut flags).notify_waiters();
    assert!(parent.child(&mut flags).is_cancelled(&flags));
}

#[test]
fn a_cancel_reaches_all_generations_below() {
    let mut flags = CancelFlags::new();
    let root = CancelToken::new(&mut flags);
    let mid = root.child(&mut flags);
    let leaf = mid.child(&mut flags);
    let other = root.child(&mut flags);
    root.cancel(&mut flags).notify_waiters();
    assert!(mid.is_cancelled(&flags));
    assert!(leaf.is_cancelled(&flags));
    root.reset(&mut flags);
    assert!(!leaf.is_cancelled(&flags));
    mid.cancel(&mut flags).notify_waiters();
    assert!(leaf.is_cancelled(&flags));
    assert!(!root.is_cancelled(&flags));
    assert!(!other.is_cancelled(&flags));
    leaf.cancel(&mut flags).notify_waiters();
    mid.reset(&mut flags);
    assert!(leaf.is_cancelled(&flags));
    assert!(!mid.is_cancelled(&flags));
}

#[test]
fn the_last_call_decides() {
    let mut flags = CancelFlags::new();
    let parent = CancelToken::new(&mut flags);
    let copy = parent.clone();
    parent.cancel(&mut flags).notify_waiters();
    copy.reset(&mut flags);
    let child = copy.child(&mut flags);
    assert!(!child.is_cancelled(&flags));
    child.cancel(&mut flags).notify_waiters();
    copy.cancel(&mut flags).notify_waiters();
    parent.reset(&mut flags);
    copy.cancel(&mut flags).notify_waiters();
    child.clone().reset(&mut flags);
    assert!(parent.is_cancelled(&flags));
    assert!(child.is_cancelled(&flags));
    copy.reset(&mut flags);
    assert!(!parent.is_cancelled(&flags));
    assert!(!child.is_cancelled(&flags));
}

#[test]
fn what_a_wait_waits_on() {
    let mut flags = CancelFlags::new();
    let parent = CancelToken::new(&mut flags);
    let child = parent.child(&mut flags);
    let own = parent.watch(&flags);
    let both = child.watch(&flags);
    assert!(matches!(parent.cancelled(&flags, &own), CancelWait::On(list) if list.len() == 1));
    assert!(matches!(child.cancelled(&flags, &both), CancelWait::On(list) if list.len() == 2));
    let leaf = child.child(&mut flags);
    let all = leaf.watch(&flags);
    assert!(matches!(leaf.cancelled(&flags, &all), CancelWait::On(list) if list.len() == 3));
    child.cancel(&mut flags).notify_waiters();
    assert!(matches!(parent.cancelled(&flags, &own), CancelWait::On(_)));
    assert!(matches!(child.cancelled(&flags, &both), CancelWait::Done));
    parent.cancel(&mut flags).notify_waiters();
    assert!(matches!(parent.cancelled(&flags, &own), CancelWait::Done));
}

#[test]
fn a_cancel_hands_out_the_notifier_that_its_waits_are_on() {
    let mut flags = CancelFlags::new();
    let root = CancelToken::new(&mut flags);
    let mid = root.child(&mut flags);
    let leaf = mid.child(&mut flags);
    let other = root.child(&mut flags);
    let watch = leaf.watch(&flags);
    let list = match leaf.cancelled(&flags, &watch) {
        CancelWait::On(list) => list,
        CancelWait::Done => panic!("not cancelled yet"),
    };
    for (i, token) in [&leaf, &mid, &root].into_iter().enumerate() {
        let wake = token.cancel(&mut flags);
        for (j, waited) in list.iter().enumerate() {
            assert_eq!(Arc::ptr_eq(waited, &wake), i == j);
        }
    }
    let wake = other.cancel(&mut flags);
    assert!(list.iter().all(|n| !Arc::ptr_eq(n, &wake)));
}

#[test]
fn a_reset_does_not_hold_up_a_wait() {
    let mut flags = CancelFlags::new();
    let parent = CancelToken::new(&mut flags);
    let child = parent.child(&mut flags);
    let own = parent.watch(&flags);
    let both = child.watch(&flags);
    parent.cancel(&mut flags).notify_waiters();
    parent.reset(&mut flags);
    assert!(!parent.is_cancelled(&flags));
    assert!(matches!(parent.cancelled(&flags, &own), CancelWait::Done));
    assert!(matches!(child.cancelled(&flags, &both), CancelWait::Done));
    let fresh = parent.watch(&flags);
    assert!(matches!(parent.cancelled(&flags, &fresh), CancelWait::On(_)));
}

/// Waits for the first of some notifiers.
async fn first(list: Vec<Arc<Notify>>) {
    let mut waits: Vec<_> = list.iter().map(|n| Box::pin(n.notified())).collect();
    std::future::poll_fn(move |cx| {
        let mut woken = false;
        for wait in waits.iter_mut() {
            woken = wait.as_mut().poll(cx).is_ready() || woken;
        }
        if woken {
            Poll::Ready(())
        } else {
            Poll::Pending
        }
    })
    .await
}

/// Waits until cancellation of `token` was requested.
async fn wait(token: &CancelToken, flags: &Mutex<CancelFlags>) {
    let watch = token.watch(&flags.lock().unwrap());
    loop {
        let step = token.cancelled(&flags.lock().unwrap(), &watch);
        match step {
            CancelWait::Done => return,
            CancelWait::On(list) => first(list).await,
        }
    }
}

fn run<F: Future>(f: F) -> F::Output {
    tokio::runtime::Builder::new_current_thread().enable_time().build().unwrap().block_on(f)
}

fn family() -> (Arc<Mutex<CancelFlags>>, CancelToken) {
    let mut flags = CancelFlags::new();
    let token = CancelToken::new(&mut flags);
    (Arc::new(Mutex::new(flags)), token)
}

fn cancel_soon(token: CancelToken, flags: Arc<Mutex<CancelFlags>>) {
    tokio::spawn(async move {
        tokio::time::sleep(Duration::from_millis(20)).await;
        token.cancel(&mut flags.lock().unwrap()).notify_waiters();
    });
}

#[test]
fn cancelled_returns_immediately_when_already_cancelled() {
    run(async {
        let (flags, token) = family();
        token.cancel(&mut flags.lock().unwrap()).notify_waiters();
        let res = tokio::time::timeout(Duration::from_millis(50), wait(&token, &flags)).await;
        assert!(
            res.is_ok(),
            "cancelled() should return immediately when flag set"
        );
    });
}

#[test]
fn cancelled_wakes_when_cancel_called_while_waiting() {
    run(async {
        let (flags, token) = family();
        cancel_soon(token.clone(), flags.clone());
        let res = tokio::time::timeout(Duration::from_millis(200), wait(&token, &flags)).await;
        assert!(res.is_ok(), "cancelled() should wake within timeout");
        assert!(token.is_cancelled(&flags.lock().unwrap()));
    });
}

#[test]
fn select_against_long_sleep() {
    run(async {
        let (flags, token) = family();
        cancel_soon(token.clone(), flags.clone());
        let started = std::time::Instant::now();
        let res = tokio::time::timeout(Duration::from_secs(10), wait(&token, &flags)).await;
        assert!(res.is_ok(), "should have been cancelled");
        assert!(started.elapsed() < Duration::from_millis(200));
    });
}

#[test]
fn child_cancelled_wakes_on_parent_cancel() {
    run(async {
        let (flags, parent) = family();
        let child = parent.child(&mut flags.lock().unwrap());
        cancel_soon(parent, flags.clone());
        let res = tokio::time::timeout(Duration::from_millis(200), wait(&child, &flags)).await;
        assert!(res.is_ok(), "child cancelled() must wake on parent cancel");
        assert!(child.is_cancelled(&flags.lock().unwrap()));
    });
}

#[test]
fn child_cancelled_wakes_on_own_cancel() {
    run(async {
        let (flags, parent) = family();
        let child = parent.child(&mut flags.lock().unwrap());
        cancel_soon(child.clone(), flags.clone());
        let res = tokio::time::timeout(Duration::from_millis(200), wait(&child, &flags)).await;
        assert!(res.is_ok(), "child cancelled() must wake on own cancel");
    });
}

#[test]
fn a_siblings_cancel_ends_no_wait() {
    run(async {
        let (flags, parent) = family();
        let child = parent.child(&mut flags.lock().unwrap());
        let sibling = parent.child(&mut flags.lock().unwrap());
        cancel_soon(sibling, flags.clone());
        let res = tokio::time::timeout(Duration::from_millis(100), wait(&child, &flags)).await;
        assert!(res.is_err());
    });
}

#[test]
fn a_wait_ends_though_the_flag_was_reset_before_it_woke() {
    run(async {
        let (flags, parent) = family();
        let child = parent.child(&mut flags.lock().unwrap());
        let others = flags.clone();
        tokio::spawn(async move {
            tokio::time::sleep(Duration::from_millis(20)).await;
            let mut flags = others.lock().unwrap();
            parent.cancel(&mut flags).notify_waiters();
            parent.reset(&mut flags);
        });
        let res = tokio::time::timeout(Duration::from_millis(200), wait(&child, &flags)).await;
        assert!(res.is_ok());
        assert!(!child.is_cancelled(&flags.lock().unwrap()));
    });
}

#[test]
fn a_wait_ends_on_a_cancel_two_generations_up() {
    run(async {
        let (flags, root) = family();
        let mid = root.child(&mut flags.lock().unwrap());
        let leaf = mid.child(&mut flags.lock().unwrap());
        cancel_soon(root, flags.clone());
        let res = tokio::time::timeout(Duration::from_millis(200), wait(&leaf, &flags)).await;
        assert!(res.is_ok());
        assert!(leaf.is_cancelled(&flags.lock().unwrap()));
    });
}
