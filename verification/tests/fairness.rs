use lock_manager::{Acquired, ClientId, LockError, LockManager, ResourceId, WaitTicket};
use std::time::Duration;

fn client(name: &str) -> ClientId {
    ClientId::new(name)
}

fn resource(name: &str) -> ResourceId {
    ResourceId::new(name)
}

fn woken(ticket: &WaitTicket) -> bool {
    let runtime = tokio::runtime::Builder::new_current_thread().enable_time().build().unwrap();
    runtime.block_on(async {
        tokio::time::timeout(Duration::from_millis(50), ticket.wake().notifier().notified())
            .await
            .is_ok()
    })
}

fn pending(outcome: Result<Acquired, LockError>) -> WaitTicket {
    match outcome {
        Ok(Acquired::Pending(ticket)) => ticket,
        other => panic!("expected a pending request, got {:?}", other),
    }
}

#[test]
fn waiters_are_served_in_the_order_they_asked() {
    let mut manager = LockManager::new(None);
    let file = resource("file1");
    assert!(manager.try_acquire(&file, &client("A")).is_ok());
    let b = pending(manager.acquire(&file, &client("B"), None));
    let c = pending(manager.acquire(&file, &client("C"), None));
    let d = pending(manager.acquire(&file, &client("D"), None));
    assert_eq!(manager.waiters_of(&file), vec![client("B"), client("C"), client("D")]);

    assert_eq!(manager.release(&file, &client("A")), Ok(()));
    assert_eq!(manager.holder_of(&file), Some(client("B")));
    assert_eq!(manager.waiters_of(&file), vec![client("C"), client("D")]);
    assert!(woken(&b));
    assert!(!woken(&c));
    assert!(!woken(&d));

    assert_eq!(manager.release(&file, &client("B")), Ok(()));
    assert_eq!(manager.holder_of(&file), Some(client("C")));
    assert_eq!(manager.waiters_of(&file), vec![client("D")]);
    assert!(woken(&c));
    assert!(!woken(&d));

    assert_eq!(manager.release(&file, &client("C")), Ok(()));
    assert_eq!(manager.holder_of(&file), Some(client("D")));
    assert_eq!(manager.waiters_of(&file), Vec::<ClientId>::new());
    assert!(woken(&d));

    assert_eq!(manager.release(&file, &client("D")), Ok(()));
    assert!(!manager.contains(&file));
}

#[test]
fn every_waiter_becomes_holder_exactly_once() {
    let mut manager = LockManager::new(None);
    let file = resource("file1");
    let names = ["B", "C", "D", "E", "F"];
    assert!(manager.try_acquire(&file, &client("A")).is_ok());
    let mut tickets = Vec::new();
    for name in names {
        tickets.push(pending(manager.acquire(&file, &client(name), None)));
    }
    let mut turns = vec![0; names.len()];
    let mut holder = client("A");
    for _ in 0..names.len() {
        assert_eq!(manager.release(&file, &holder), Ok(()));
        holder = manager.holder_of(&file).unwrap();
        let place = names.iter().position(|name| client(name) == holder).unwrap();
        turns[place] += 1;
    }
    assert_eq!(turns, vec![1; names.len()]);
    for ticket in &tickets {
        assert!(woken(ticket));
        assert!(!woken(ticket));
    }
    assert_eq!(manager.release(&file, &holder), Ok(()));
    assert!(!manager.contains(&file));
}

#[test]
fn no_third_client_jumps_the_queue_at_a_hand_off() {
    let mut manager = LockManager::new(None);
    let file = resource("file1");
    assert!(manager.try_acquire(&file, &client("A")).is_ok());
    let _ = pending(manager.acquire(&file, &client("B"), None));
    assert_eq!(manager.release(&file, &client("A")), Ok(()));
    assert_eq!(manager.try_acquire(&file, &client("C")), Err(LockError::WouldBlock));
    let _ = pending(manager.acquire(&file, &client("C"), None));
    assert_eq!(manager.holder_of(&file), Some(client("B")));
    assert_eq!(manager.waiters_of(&file), vec![client("C")]);
}

#[test]
fn a_waiter_that_gives_up_does_not_disturb_the_order() {
    let mut manager = LockManager::new(None);
    let file = resource("file1");
    assert!(manager.try_acquire(&file, &client("A")).is_ok());
    let _ = pending(manager.acquire(&file, &client("B"), None));
    let c = pending(manager.acquire(&file, &client("C"), None));
    let _ = pending(manager.acquire(&file, &client("D"), None));
    let _ = pending(manager.acquire(&file, &client("E"), None));

    assert_eq!(manager.expire_wait(&file, &client("C")), Err(LockError::Timeout));
    assert_eq!(manager.waiters_of(&file), vec![client("B"), client("D"), client("E")]);
    assert_eq!(manager.expire_wait(&file, &client("B")), Err(LockError::Timeout));
    assert_eq!(manager.waiters_of(&file), vec![client("D"), client("E")]);

    assert_eq!(manager.release(&file, &client("A")), Ok(()));
    assert_eq!(manager.holder_of(&file), Some(client("D")));
    assert!(manager.waits_for(&client("E"), &client("D")));
    assert!(!manager.waits_for(&client("E"), &client("A")));
    assert!(!woken(&c));
}

#[test]
fn a_client_that_asks_again_after_giving_up_joins_at_the_end() {
    let mut manager = LockManager::new(None);
    let file = resource("file1");
    assert!(manager.try_acquire(&file, &client("A")).is_ok());
    let _ = pending(manager.acquire(&file, &client("B"), None));
    let _ = pending(manager.acquire(&file, &client("C"), None));
    assert_eq!(manager.expire_wait(&file, &client("B")), Err(LockError::Timeout));
    let _ = pending(manager.acquire(&file, &client("B"), None));
    assert_eq!(manager.waiters_of(&file), vec![client("C"), client("B")]);
}

#[test]
fn queues_of_different_resources_do_not_mix() {
    let mut manager = LockManager::new(None);
    let (r1, r2) = (resource("R1"), resource("R2"));
    assert!(manager.try_acquire(&r1, &client("A")).is_ok());
    assert!(manager.try_acquire(&r2, &client("B")).is_ok());
    let c = pending(manager.acquire(&r1, &client("C"), None));
    let d = pending(manager.acquire(&r2, &client("D"), None));
    let _ = pending(manager.acquire(&r1, &client("E"), None));
    assert_eq!(manager.waiters_of(&r1), vec![client("C"), client("E")]);
    assert_eq!(manager.waiters_of(&r2), vec![client("D")]);

    assert_eq!(manager.release(&r2, &client("B")), Ok(()));
    assert!(woken(&d));
    assert!(!woken(&c));
    assert_eq!(manager.holder_of(&r1), Some(client("A")));
    assert_eq!(manager.holder_of(&r2), Some(client("D")));
    assert_eq!(manager.waiters_of(&r1), vec![client("C"), client("E")]);
}

#[test]
fn waits_follow_the_resource_to_its_new_holder() {
    let mut manager = LockManager::new(None);
    let file = resource("file1");
    assert!(manager.try_acquire(&file, &client("A")).is_ok());
    let _ = pending(manager.acquire(&file, &client("B"), None));
    let _ = pending(manager.acquire(&file, &client("C"), None));
    assert!(manager.waits_for(&client("B"), &client("A")));
    assert!(manager.waits_for(&client("C"), &client("A")));

    assert_eq!(manager.release(&file, &client("A")), Ok(()));

    assert!(!manager.waits_for(&client("B"), &client("A")));
    assert!(!manager.waits_for(&client("C"), &client("A")));
    assert!(manager.waits_for(&client("C"), &client("B")));
    assert!(!manager.waits_for(&client("B"), &client("B")));
}
