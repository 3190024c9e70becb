use auth_storage::common_types::{Password, PasswordHash, UserCredentials, UserData};
use auth_storage::dispatcher::{DispatchErr, Dispatcher, FrontHandle};
use auth_storage::storage::{in_memory, InnerStorage, StorageErr, StorageResponse};

fn new_dispatcher(capacity: usize) -> Dispatcher {
    Dispatcher::new(InnerStorage::InMemoryLocal(in_memory::Storage::new()), capacity)
}

fn alice(phc: &str) -> UserData {
    UserData {
        credentials: UserCredentials {
            login: String::from("alice"),
            pass: Password {
                salt: String::from("somesalt"),
                hash: PasswordHash::from_phc(String::from(phc)),
            },
        },
        roles: Vec::new(),
    }
}

#[test]
fn fifo_add_then_remove_role_loses_nothing() {
    let mut d = new_dispatcher(8);
    let front = FrontHandle::new();
    let t_create = front.create_user(&mut d, alice("H1")).unwrap();
    let t_add = front.add_roles(&mut d, String::from("alice"), vec![String::from("admin")]).unwrap();
    let t_remove =
        front.remove_roles(&mut d, String::from("alice"), vec![String::from("admin")]).unwrap();
    let t_load = front.load_user(&mut d, String::from("alice")).unwrap();
    d.run_queue();
    assert!(matches!(d.poll(t_create), Some(StorageResponse::CreateUser(Ok(())))));
    assert!(matches!(d.poll(t_add), Some(StorageResponse::AddRoles(Ok(())))));
    assert!(matches!(d.poll(t_remove), Some(StorageResponse::RemoveRoles(Ok(())))));
    match d.poll(t_load) {
        Some(StorageResponse::LoadUser(Ok(Some(u)))) => {
            assert!(u.roles.is_empty(), "the removal submitted last must win");
        },
        _ => panic!("expected the stored user back"),
    }
}

#[test]
fn uniqueness_through_dispatcher() {
    let mut d = new_dispatcher(8);
    let front = FrontHandle::new();
    let t1 = front.create_user(&mut d, alice("H1")).unwrap();
    let t2 = front.create_user(&mut d, alice("H2")).unwrap();
    d.run_queue();
    assert!(matches!(d.poll(t1), Some(StorageResponse::CreateUser(Ok(())))));
    match d.poll(t2) {
        Some(StorageResponse::CreateUser(Err((payload, err)))) => {
            assert!(matches!(err, StorageErr::LoginAlreadyRegistered));
            assert_eq!(payload.credentials.login, "alice");
        },
        _ => panic!("expected LoginAlreadyRegistered for the second registration"),
    }
}

#[test]
fn uniqueness_survives_unrelated_requests_in_between() {
    let mut d = new_dispatcher(8);
    let front = FrontHandle::new();
    let t1 = front.create_user(&mut d, alice("H1")).unwrap();
    // unrelated work lands between the two registrations
    let _ = front.add_roles(&mut d, String::from("alice"), vec![String::from("user")]).unwrap();
    let _ = front.load_user(&mut d, String::from("alice")).unwrap();
    let t2 = front.create_user(&mut d, alice("H2")).unwrap();
    d.run_queue();
    assert!(matches!(d.poll(t1), Some(StorageResponse::CreateUser(Ok(())))));
    assert!(matches!(
        d.poll(t2),
        Some(StorageResponse::CreateUser(Err((_, StorageErr::LoginAlreadyRegistered))))
    ));
}

#[test]
fn bounded_inbox_refuses_when_full() {
    let mut d = new_dispatcher(1);
    let front = FrontHandle::new();
    let t1 = front.load_user(&mut d, String::from("a")).unwrap();
    assert_eq!(
        front.load_user(&mut d, String::from("b")).unwrap_err(),
        DispatchErr::QueueFull
    );
    d.run_queue();
    // capacity frees up once the queue drains
    let t2 = front.load_user(&mut d, String::from("c")).unwrap();
    d.run_queue();
    assert!(matches!(d.poll(t1), Some(StorageResponse::LoadUser(Ok(None)))));
    assert!(matches!(d.poll(t2), Some(StorageResponse::LoadUser(Ok(None)))));
}

#[test]
fn poll_before_resolution_is_pending() {
    let mut d = new_dispatcher(4);
    let front = FrontHandle::new();
    let t = front.load_user(&mut d, String::from("alice")).unwrap();
    // nothing processed yet: the await would suspend
    assert!(d.poll(t).is_none());
    assert!(d.process_next());
    assert!(matches!(d.poll(t), Some(StorageResponse::LoadUser(Ok(None)))));
    // the response is delivered exactly once
    assert!(d.poll(t).is_none());
}

#[test]
fn abandoned_ticket_resolution_is_discarded() {
    let mut d = new_dispatcher(4);
    let front = FrontHandle::new();
    let t = front.create_user(&mut d, alice("H1")).unwrap();
    d.abandon(t);
    // the in-flight request still completes; its response goes nowhere
    d.run_queue();
    assert!(d.poll(t).is_none());
    // and the mutation itself was not lost
    let t_load = front.load_user(&mut d, String::from("alice")).unwrap();
    d.run_queue();
    assert!(matches!(d.poll(t_load), Some(StorageResponse::LoadUser(Ok(Some(_))))));
}

#[test]
fn release_reclaims_only_after_resolution() {
    let mut d = new_dispatcher(4);
    let front = FrontHandle::new();
    let t = front.load_user(&mut d, String::from("alice")).unwrap();
    // the request is still pending: the producer's side has not released yet
    assert!(!d.release(t));
    d.run_queue();
    assert!(matches!(d.poll(t), Some(StorageResponse::LoadUser(Ok(None)))));
    // both sides are done: the cell can be reclaimed, exactly once
    assert!(d.release(t));
    assert!(!d.release(t));
    assert!(d.poll(t).is_none());
}

#[test]
fn unknown_ticket_polls_nothing() {
    let mut d = new_dispatcher(4);
    assert!(d.poll(42).is_none());
}

#[test]
fn process_next_on_empty_inbox_is_noop() {
    let mut d = new_dispatcher(4);
    assert!(!d.process_next());
}
