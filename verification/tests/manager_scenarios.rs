use lock_manager::{Acquired, ClientId, LockError, LockManager, ResourceId, WaitTicket};
use std::time::Duration;

fn client(name: &str) -> ClientId {
    ClientId::new(name)
}

fn resource(name: &str) -> ResourceId {
    ResourceId::new(name)
}

/// Whether a wake-up is waiting on the ticket's channel. Takes the wake-up.
fn woken(ticket: &WaitTicket) -> bool {
    let runtime = tokio::runtime::Builder::new_current_thread().enable_time().build().unwrap();
    runtime.block_on(async {
        tokio::time::timeout(Duration::from_millis(50), ticket.wake().notifier().notified())
            .await
            .is_ok()
    })
}

fn granted(outcome: Result<Acquired, LockError>) -> bool {
    matches!(outcome, Ok(Acquired::Granted(_)))
}

fn pending(outcome: Result<Acquired, LockError>) -> WaitTicket {
    match outcome {
        Ok(Acquired::Pending(ticket)) => ticket,
        other => panic!("expected a pending request, got {:?}", other),
    }
}

fn refusal(outcome: Result<Acquired, LockError>) -> LockError {
    match outcome {
        Err(error) => error,
        other => panic!("expected a refusal, got {:?}", other),
    }
}

#[test]
fn new_manager_tracks_nothing() {
    let manager = LockManager::new(None);
    assert_eq!(manager.resource_count(), 0);
    assert!(!manager.contains(&resource("file1")));
    assert_eq!(manager.holder_of(&resource("file1")), None);
    assert_eq!(manager.max_wait_time(), None);
}

#[test]
fn new_manager_keeps_its_default_wait() {
    let manager = LockManager::new(Some(Duration::from_secs(3)));
    assert_eq!(manager.max_wait_time(), Some(Duration::from_secs(3)));
}

#[test]
fn free_resource_is_granted_at_once() {
    let mut manager = LockManager::new(None);
    match manager.acquire(&resource("file1"), &client("A"), None) {
        Ok(Acquired::Granted(handle)) => {
            assert_eq!(handle.resource(), &resource("file1"));
            assert_eq!(handle.client(), &client("A"));
        },
        other => panic!("expected a grant, got {:?}", other),
    }
    assert!(manager.contains(&resource("file1")));
    assert_eq!(manager.holder_of(&resource("file1")), Some(client("A")));
    assert!(manager.is_holder(&resource("file1"), &client("A")));
    assert_eq!(manager.resource_count(), 1);
}

#[test]
fn release_hands_the_resource_to_the_waiter() {
    let mut manager = LockManager::new(None);
    let file = resource("file1");
    assert!(granted(manager.acquire(&file, &client("A"), None)));
    let ticket = pending(manager.acquire(&file, &client("B"), None));
    assert_eq!(ticket.resource(), &file);
    assert_eq!(ticket.client(), &client("B"));
    assert_eq!(manager.holder_of(&file), Some(client("A")));
    assert!(manager.is_waiting(&file, &client("B")));
    assert!(manager.waits_for(&client("B"), &client("A")));
    assert!(!woken(&ticket));

    assert_eq!(manager.release(&file, &client("A")), Ok(()));

    assert!(woken(&ticket));
    assert_eq!(manager.holder_of(&file), Some(client("B")));
    assert!(!manager.is_waiting(&file, &client("B")));
    assert!(!manager.waits_for(&client("B"), &client("A")));
    let handle = ticket.into_handle();
    assert_eq!(handle.resource(), &file);
    assert_eq!(handle.client(), &client("B"));
    assert_eq!(manager.release(&file, &client("B")), Ok(()));
    assert!(!manager.contains(&file));
}

#[test]
fn second_of_two_crossed_requests_is_a_deadlock() {
    let mut manager = LockManager::new(None);
    let (a, b) = (client("A"), client("B"));
    let (r1, r2) = (resource("R1"), resource("R2"));
    assert!(granted(manager.acquire(&r1, &a, None)));
    assert!(granted(manager.acquire(&r2, &b, None)));

    let ticket = pending(manager.acquire(&r2, &a, None));
    assert!(manager.waits_for(&a, &b));

    assert_eq!(refusal(manager.acquire(&r1, &b, None)), LockError::Deadlock);

    assert!(manager.is_waiting(&r2, &a));
    assert!(manager.waits_for(&a, &b));
    assert!(!woken(&ticket));
    assert!(!manager.is_waiting(&r1, &b));
    assert!(!manager.waits_for(&b, &a));
    assert_eq!(manager.waiters_of(&r1), Vec::<ClientId>::new());
    assert_eq!(manager.holder_of(&r1), Some(a.clone()));
    assert_eq!(manager.holder_of(&r2), Some(b.clone()));
}

#[test]
fn refused_client_can_retry_after_releasing() {
    let mut manager = LockManager::new(None);
    let (a, b) = (client("A"), client("B"));
    let (r1, r2) = (resource("R1"), resource("R2"));
    assert!(granted(manager.acquire(&r1, &a, None)));
    assert!(granted(manager.acquire(&r2, &b, None)));
    let ticket = pending(manager.acquire(&r2, &a, None));
    assert_eq!(refusal(manager.acquire(&r1, &b, None)), LockError::Deadlock);

    assert_eq!(manager.release(&r2, &b), Ok(()));
    assert!(woken(&ticket));
    assert_eq!(manager.holder_of(&r2), Some(a.clone()));
    let _ = pending(manager.acquire(&r1, &b, None));
    assert!(manager.waits_for(&b, &a));
}

#[test]
fn holder_asking_again_is_told_already_held() {
    let mut manager = LockManager::new(None);
    let file = resource("file1");
    assert!(granted(manager.acquire(&file, &client("A"), None)));
    assert_eq!(refusal(manager.acquire(&file, &client("A"), None)), LockError::AlreadyHeld);
    assert_eq!(manager.try_acquire(&file, &client("A")), Err(LockError::AlreadyHeld));
    assert_eq!(manager.holder_of(&file), Some(client("A")));
    assert_eq!(manager.waiters_of(&file), Vec::<ClientId>::new());
    assert!(!manager.waits_for(&client("A"), &client("A")));
}

#[test]
fn release_by_a_stranger_is_refused() {
    let mut manager = LockManager::new(None);
    let file = resource("file1");
    assert!(granted(manager.acquire(&file, &client("A"), None)));
    let _ = pending(manager.acquire(&file, &client("B"), None));
    assert_eq!(manager.release(&file, &client("C")), Err(LockError::NotHolder));
    assert_eq!(manager.release(&file, &client("B")), Err(LockError::NotHolder));
    assert_eq!(manager.holder_of(&file), Some(client("A")));
    assert_eq!(manager.waiters_of(&file), vec![client("B")]);
}

#[test]
fn release_of_an_untracked_resource_is_refused() {
    let mut manager = LockManager::new(None);
    assert_eq!(manager.release(&resource("nothing"), &client("A")), Err(LockError::NotHolder));
    assert_eq!(manager.resource_count(), 0);
}

#[test]
fn try_acquire_grants_a_free_resource() {
    let mut manager = LockManager::new(None);
    let handle = manager.try_acquire(&resource("file1"), &client("A")).unwrap();
    assert_eq!(handle.resource(), &resource("file1"));
    assert_eq!(handle.client(), &client("A"));
    assert_eq!(manager.holder_of(&resource("file1")), Some(client("A")));
}

#[test]
fn try_acquire_never_queues() {
    let mut manager = LockManager::new(None);
    let file = resource("file1");
    assert!(manager.try_acquire(&file, &client("A")).is_ok());
    assert_eq!(manager.try_acquire(&file, &client("B")), Err(LockError::WouldBlock));
    assert!(!manager.is_waiting(&file, &client("B")));
    assert!(!manager.waits_for(&client("B"), &client("A")));
    assert_eq!(manager.holder_of(&file), Some(client("A")));
}

#[test]
fn at_most_one_client_holds_a_resource() {
    let mut manager = LockManager::new(None);
    let file = resource("file1");
    let names = ["A", "B", "C", "D"];
    let mut grants = 0;
    for name in names {
        if granted(manager.acquire(&file, &client(name), None)) {
            grants += 1;
        }
    }
    assert_eq!(grants, 1);
    for name in names {
        assert_eq!(manager.is_holder(&file, &client(name)), name == "A");
    }
    assert_eq!(manager.release(&file, &client("A")), Ok(()));
    for name in names {
        assert_eq!(manager.is_holder(&file, &client(name)), name == "B");
    }
}

#[test]
fn idle_resource_leaves_the_table() {
    let mut manager = LockManager::new(None);
    let file = resource("file1");
    assert!(granted(manager.acquire(&file, &client("A"), None)));
    assert!(manager.contains(&file));
    assert_eq!(manager.release(&file, &client("A")), Ok(()));
    assert!(!manager.contains(&file));
    assert_eq!(manager.resource_count(), 0);
    assert!(granted(manager.acquire(&file, &client("B"), None)));
    assert!(manager.contains(&file));
    assert_eq!(manager.holder_of(&file), Some(client("B")));
}

#[test]
fn busy_resource_stays_in_the_table_after_release() {
    let mut manager = LockManager::new(None);
    let file = resource("file1");
    assert!(granted(manager.acquire(&file, &client("A"), None)));
    let _ = pending(manager.acquire(&file, &client("B"), None));
    assert_eq!(manager.release(&file, &client("A")), Ok(()));
    assert!(manager.contains(&file));
    assert_eq!(manager.resource_count(), 1);
}

#[test]
fn expired_waiter_leaves_no_trace() {
    let mut manager = LockManager::new(None);
    let file = resource("file1");
    let (a, b, c) = (client("A"), client("B"), client("C"));
    assert!(granted(manager.acquire(&file, &a, None)));
    let ticket = pending(manager.acquire(&file, &b, Some(Duration::from_millis(10))));
    assert_eq!(ticket.timeout(), Some(Duration::from_millis(10)));
    assert!(!woken(&ticket));

    assert_eq!(manager.expire_wait(&file, &b), Err(LockError::Timeout));

    assert!(!manager.is_waiting(&file, &b));
    assert!(!manager.waits_for(&b, &a));
    assert_eq!(manager.waiters_of(&file), Vec::<ClientId>::new());
    assert_eq!(manager.holder_of(&file), Some(a.clone()));

    let waiting = pending(manager.acquire(&file, &c, None));
    assert_eq!(manager.release(&file, &a), Ok(()));
    assert!(woken(&waiting));
    assert!(!woken(&ticket));
    assert_eq!(manager.holder_of(&file), Some(c.clone()));
    assert_eq!(manager.release(&file, &c), Ok(()));
    assert!(!manager.contains(&file));
}

#[test]
fn expired_waiter_does_not_cause_a_later_deadlock_report() {
    let mut manager = LockManager::new(None);
    let (a, b) = (client("A"), client("B"));
    let (r1, r2) = (resource("R1"), resource("R2"));
    assert!(granted(manager.acquire(&r1, &a, None)));
    assert!(granted(manager.acquire(&r2, &b, None)));
    let _ = pending(manager.acquire(&r2, &a, None));
    assert_eq!(manager.expire_wait(&r2, &a), Err(LockError::Timeout));

    let _ = pending(manager.acquire(&r1, &b, None));
    assert!(manager.waits_for(&b, &a));
    assert!(!manager.waits_for(&a, &b));
}

#[test]
fn expiry_after_the_hand_off_keeps_the_grant() {
    let mut manager = LockManager::new(None);
    let file = resource("file1");
    assert!(granted(manager.acquire(&file, &client("A"), None)));
    let _ = pending(manager.acquire(&file, &client("B"), Some(Duration::from_millis(1))));
    assert_eq!(manager.release(&file, &client("A")), Ok(()));

    let handle = manager.expire_wait(&file, &client("B")).unwrap();

    assert_eq!(handle.resource(), &file);
    assert_eq!(handle.client(), &client("B"));
    assert_eq!(manager.holder_of(&file), Some(client("B")));
}

#[test]
fn expiry_of_a_client_that_never_asked_changes_nothing() {
    let mut manager = LockManager::new(None);
    let file = resource("file1");
    assert!(granted(manager.acquire(&file, &client("A"), None)));
    let _ = pending(manager.acquire(&file, &client("B"), None));
    assert_eq!(manager.expire_wait(&file, &client("Z")), Err(LockError::Timeout));
    assert_eq!(manager.expire_wait(&resource("other"), &client("B")), Err(LockError::Timeout));
    assert_eq!(manager.holder_of(&file), Some(client("A")));
    assert_eq!(manager.waiters_of(&file), vec![client("B")]);
    assert!(!manager.contains(&resource("other")));
}

#[test]
fn request_without_timeout_gets_the_default_wait() {
    let mut manager = LockManager::new(Some(Duration::from_secs(5)));
    let file = resource("file1");
    assert!(granted(manager.acquire(&file, &client("A"), None)));
    let by_default = pending(manager.acquire(&file, &client("B"), None));
    assert_eq!(by_default.timeout(), Some(Duration::from_secs(5)));
    let own = pending(manager.acquire(&file, &client("C"), Some(Duration::from_millis(250))));
    assert_eq!(own.timeout(), Some(Duration::from_millis(250)));
    assert_eq!(manager.max_wait_time(), Some(Duration::from_secs(5)));
}

#[test]
fn request_without_any_timeout_waits_for_ever() {
    let mut manager = LockManager::new(None);
    let file = resource("file1");
    assert!(granted(manager.acquire(&file, &client("A"), None)));
    let ticket = pending(manager.acquire(&file, &client("B"), None));
    assert_eq!(ticket.timeout(), None);
}

#[test]
fn waiting_twice_for_one_resource_is_one_place_in_the_queue() {
    let mut manager = LockManager::new(None);
    let file = resource("file1");
    assert!(granted(manager.acquire(&file, &client("A"), None)));
    let first = pending(manager.acquire(&file, &client("B"), None));
    let _ = pending(manager.acquire(&file, &client("C"), None));
    let second = pending(manager.acquire(&file, &client("B"), None));
    assert_eq!(manager.waiters_of(&file), vec![client("B"), client("C")]);

    assert_eq!(manager.release(&file, &client("A")), Ok(()));
    assert_eq!(manager.holder_of(&file), Some(client("B")));
    assert_eq!(manager.waiters_of(&file), vec![client("C")]);
    assert!(woken(&second));
    assert!(!woken(&first));
}

#[test]
fn one_client_may_hold_several_resources() {
    let mut manager = LockManager::new(None);
    let a = client("A");
    assert!(granted(manager.acquire(&resource("R1"), &a, None)));
    assert!(granted(manager.acquire(&resource("R2"), &a, None)));
    assert!(granted(manager.acquire(&resource("R3"), &a, None)));
    assert_eq!(manager.resource_count(), 3);
    assert_eq!(manager.release(&resource("R2"), &a), Ok(()));
    assert_eq!(manager.resource_count(), 2);
    assert!(manager.is_holder(&resource("R1"), &a));
    assert!(!manager.is_holder(&resource("R2"), &a));
    assert!(manager.is_holder(&resource("R3"), &a));
}

#[test]
fn ending_one_of_two_waits_on_a_holder_keeps_the_other() {
    let mut manager = LockManager::new(None);
    let (a, b) = (client("A"), client("B"));
    let (r1, r2) = (resource("R1"), resource("R2"));
    assert!(granted(manager.acquire(&r1, &b, None)));
    assert!(granted(manager.acquire(&r2, &b, None)));
    let _ = pending(manager.acquire(&r1, &a, None));
    let _ = pending(manager.acquire(&r2, &a, None));
    assert!(manager.waits_for(&a, &b));

    assert_eq!(manager.expire_wait(&r1, &a), Err(LockError::Timeout));
    assert!(manager.waits_for(&a, &b));
    assert_eq!(manager.expire_wait(&r2, &a), Err(LockError::Timeout));
    assert!(!manager.waits_for(&a, &b));
}

#[test]
fn every_error_has_its_own_message() {
    let errors = [
        LockError::AlreadyHeld,
        LockError::NotHolder,
        LockError::Deadlock,
        LockError::Timeout,
        LockError::WouldBlock,
    ];
    assert_eq!(LockError::AlreadyHeld.message(), "the client already holds the resource");
    assert_eq!(LockError::NotHolder.message(), "the client does not hold the resource");
    assert_eq!(
        LockError::Deadlock.message(),
        "waiting for the resource would close a cycle of waits"
    );
    assert_eq!(LockError::Timeout.message(), "the wait for the resource timed out");
    assert_eq!(LockError::WouldBlock.message(), "the resource is held by another client");
    for (i, first) in errors.iter().enumerate() {
        for (j, second) in errors.iter().enumerate() {
            assert_eq!(first.message() == second.message(), i == j);
        }
    }
}
