use lock_manager::{Acquired, ClientId, LockError, LockHandle, LockManager, ResourceId};
use std::future::Future;
use std::sync::{Arc, Mutex};
use std::time::Duration;

type Shared = Arc<Mutex<LockManager>>;

fn client(name: &str) -> ClientId {
    ClientId::new(name)
}

fn resource(name: &str) -> ResourceId {
    ResourceId::new(name)
}

fn shared(max_wait_time: Option<Duration>) -> Shared {
    Arc::new(Mutex::new(LockManager::new(max_wait_time)))
}

fn run<F: Future>(future: F) -> F::Output {
    tokio::runtime::Builder::new_multi_thread()
        .worker_threads(2)
        .enable_time()
        .build()
        .unwrap()
        .block_on(future)
}

/// Acquires the resource, suspending the caller while it has to wait.
async fn acquire(
    manager: Shared,
    resource: ResourceId,
    client: ClientId,
    timeout: Option<Duration>,
) -> Result<LockHandle, LockError> {
    let admitted = manager.lock().unwrap().acquire(&resource, &client, timeout)?;
    let ticket = match admitted {
        Acquired::Granted(handle) => return Ok(handle),
        Acquired::Pending(ticket) => ticket,
    };
    let woken = match ticket.timeout() {
        Some(limit) => {
            tokio::time::timeout(limit, ticket.wake().notifier().notified()).await.is_ok()
        },
        None => {
            ticket.wake().notifier().notified().await;
            true
        },
    };
    if woken {
        return Ok(ticket.into_handle());
    }
    manager.lock().unwrap().expire_wait(&resource, &client)
}

/// Suspends the caller until `client` is queued for `resource`.
async fn until_queued(manager: &Shared, resource: &ResourceId, client: &ClientId) {
    for _ in 0..2000 {
        if manager.lock().unwrap().is_waiting(resource, client) {
            return;
        }
        tokio::time::sleep(Duration::from_millis(1)).await;
    }
    panic!("the client never joined the queue");
}

#[test]
fn blocked_acquire_completes_after_the_release() {
    run(async {
        let manager = shared(None);
        let file = resource("file1");
        let log = Arc::new(Mutex::new(Vec::new()));

        acquire(manager.clone(), file.clone(), client("A"), None).await.unwrap();
        log.lock().unwrap().push("A holds");

        let waiting = {
            let (manager, file, log) = (manager.clone(), file.clone(), log.clone());
            tokio::spawn(async move {
                let outcome = acquire(manager, file, client("B"), None).await;
                log.lock().unwrap().push("B holds");
                outcome
            })
        };
        until_queued(&manager, &file, &client("B")).await;
        tokio::time::sleep(Duration::from_millis(20)).await;
        assert!(!waiting.is_finished());
        log.lock().unwrap().push("B waits");

        log.lock().unwrap().push("A releases");
        assert_eq!(manager.lock().unwrap().release(&file, &client("A")), Ok(()));

        let handle = waiting.await.unwrap().unwrap();
        assert_eq!(handle.client(), &client("B"));
        assert_eq!(handle.resource(), &file);
        assert_eq!(manager.lock().unwrap().holder_of(&file), Some(client("B")));
        assert_eq!(*log.lock().unwrap(), vec!["A holds", "B waits", "A releases", "B holds"]);
    });
}

#[test]
fn blocked_acquire_times_out_and_cleans_up() {
    run(async {
        let manager = shared(None);
        let file = resource("file1");
        acquire(manager.clone(), file.clone(), client("A"), None).await.unwrap();

        let outcome =
            acquire(manager.clone(), file.clone(), client("B"), Some(Duration::from_millis(30)))
                .await;
        assert_eq!(outcome, Err(LockError::Timeout));
        assert!(!manager.lock().unwrap().is_waiting(&file, &client("B")));
        assert!(!manager.lock().unwrap().waits_for(&client("B"), &client("A")));

        let waiting =
            tokio::spawn(acquire(manager.clone(), file.clone(), client("C"), None));
        until_queued(&manager, &file, &client("C")).await;
        assert_eq!(manager.lock().unwrap().release(&file, &client("A")), Ok(()));
        assert!(waiting.await.unwrap().is_ok());
        assert_eq!(manager.lock().unwrap().release(&file, &client("C")), Ok(()));
        assert!(!manager.lock().unwrap().contains(&file));
    });
}

#[test]
fn blocked_acquire_falls_back_on_the_default_wait() {
    run(async {
        let manager = shared(Some(Duration::from_millis(30)));
        let file = resource("file1");
        acquire(manager.clone(), file.clone(), client("A"), None).await.unwrap();
        let outcome = acquire(manager.clone(), file.clone(), client("B"), None).await;
        assert_eq!(outcome, Err(LockError::Timeout));
        assert_eq!(manager.lock().unwrap().holder_of(&file), Some(client("A")));
    });
}

#[test]
fn parked_waiters_wake_in_the_order_they_asked() {
    run(async {
        let manager = shared(None);
        let file = resource("file1");
        let served = Arc::new(Mutex::new(Vec::new()));
        acquire(manager.clone(), file.clone(), client("A"), None).await.unwrap();

        let mut tasks = Vec::new();
        for name in ["B", "C", "D"] {
            let (manager_, file_, served_) = (manager.clone(), file.clone(), served.clone());
            tasks.push(tokio::spawn(async move {
                acquire(manager_.clone(), file_.clone(), client(name), None).await.unwrap();
                served_.lock().unwrap().push(name);
                tokio::time::sleep(Duration::from_millis(5)).await;
                manager_.lock().unwrap().release(&file_, &client(name)).unwrap();
            }));
            until_queued(&manager, &file, &client(name)).await;
        }
        assert!(served.lock().unwrap().is_empty());

        assert_eq!(manager.lock().unwrap().release(&file, &client("A")), Ok(()));
        for task in tasks {
            task.await.unwrap();
        }
        assert_eq!(*served.lock().unwrap(), vec!["B", "C", "D"]);
        assert!(!manager.lock().unwrap().contains(&file));
    });
}

#[test]
fn deadlock_is_reported_at_once_while_the_other_stays_parked() {
    run(async {
        let manager = shared(None);
        let (r1, r2) = (resource("R1"), resource("R2"));
        acquire(manager.clone(), r1.clone(), client("A"), None).await.unwrap();
        acquire(manager.clone(), r2.clone(), client("B"), None).await.unwrap();

        let waiting = tokio::spawn(acquire(manager.clone(), r2.clone(), client("A"), None));
        until_queued(&manager, &r2, &client("A")).await;

        let refused = tokio::time::timeout(
            Duration::from_secs(5),
            acquire(manager.clone(), r1.clone(), client("B"), None),
        )
        .await
        .expect("a deadlock is reported without waiting");
        assert_eq!(refused, Err(LockError::Deadlock));
        tokio::time::sleep(Duration::from_millis(20)).await;
        assert!(!waiting.is_finished());
        assert!(manager.lock().unwrap().is_waiting(&r2, &client("A")));

        assert_eq!(manager.lock().unwrap().release(&r2, &client("B")), Ok(()));
        assert!(waiting.await.unwrap().is_ok());
        assert_eq!(manager.lock().unwrap().holder_of(&r2), Some(client("A")));
    });
}

#[test]
fn wake_up_sent_before_the_waiter_parks_is_not_lost() {
    run(async {
        let manager = shared(None);
        let file = resource("file1");
        acquire(manager.clone(), file.clone(), client("A"), None).await.unwrap();
        let ticket = match manager.lock().unwrap().acquire(&file, &client("B"), None) {
            Ok(Acquired::Pending(ticket)) => ticket,
            other => panic!("expected a pending request, got {:?}", other),
        };
        assert_eq!(manager.lock().unwrap().release(&file, &client("A")), Ok(()));

        tokio::time::timeout(Duration::from_secs(5), ticket.wake().notifier().notified())
            .await
            .expect("the wake-up was kept for the waiter");
        assert_eq!(manager.lock().unwrap().holder_of(&file), Some(client("B")));
    });
}
