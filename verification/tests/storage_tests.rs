use auth_storage::common_types::{Password, PasswordHash, RefreshTokenHash, UserCredentials, UserData};
use auth_storage::storage::in_memory;
use auth_storage::storage::{Storage, StorageErr};

fn pass(phc: &str) -> Password {
    Password { salt: String::from("somesalt"), hash: PasswordHash::from_phc(String::from(phc)) }
}

fn user(login: &str, phc: &str) -> UserData {
    UserData {
        credentials: UserCredentials { login: String::from(login), pass: pass(phc) },
        roles: Vec::new(),
    }
}

#[test]
fn create_same_login_twice_fails() {
    let mut s = in_memory::Storage::new();
    assert!(s.create_user_data(user("alice", "H1")).is_ok());
    match s.create_user_data(user("alice", "H2")) {
        Ok(()) => panic!("duplicate login accepted"),
        Err((payload, err)) => {
            assert!(matches!(err, StorageErr::LoginAlreadyRegistered));
            assert_eq!(payload.credentials.login, "alice");
            assert!(payload.credentials.pass.equals(&pass("H2")));
        },
    }
    // the first registration is still the one stored
    let loaded = s.load_user_data(&String::from("alice")).unwrap().unwrap();
    assert!(loaded.credentials.pass.equals(&pass("H1")));
}

#[test]
fn load_absent_login_is_none_not_error() {
    let mut s = in_memory::Storage::new();
    assert!(matches!(s.load_user_data(&String::from("nobody")), Ok(None)));
}

#[test]
fn register_change_pass_scenario() {
    let mut s = in_memory::Storage::new();
    assert!(s.create_user_data(user("alice", "H1")).is_ok());
    match s.create_user_data(user("alice", "H2")) {
        Err((payload, StorageErr::LoginAlreadyRegistered)) => {
            assert!(payload.credentials.pass.equals(&pass("H2")));
            assert!(payload.roles.is_empty());
        },
        _ => panic!("expected LoginAlreadyRegistered with the payload back"),
    }
    // old hash matches: the change applies
    assert!(s.change_pass(&String::from("alice"), pass("H3"), pass("H1")).is_ok());
    let loaded = s.load_user_data(&String::from("alice")).unwrap().unwrap();
    assert!(loaded.credentials.pass.equals(&pass("H3")));
    // old hash no longer matches: silent no-op, still a success
    assert!(s.change_pass(&String::from("alice"), pass("H4"), pass("H1")).is_ok());
    let loaded = s.load_user_data(&String::from("alice")).unwrap().unwrap();
    assert!(loaded.credentials.pass.equals(&pass("H3")));
}

#[test]
fn change_pass_unknown_login_is_error() {
    let mut s = in_memory::Storage::new();
    assert!(matches!(
        s.change_pass(&String::from("ghost"), pass("H1"), pass("H0")),
        Err(StorageErr::LoginNotFound)
    ));
}

#[test]
fn add_roles_is_idempotent() {
    let mut s = in_memory::Storage::new();
    assert!(s.create_user_data(user("alice", "H1")).is_ok());
    let admin = vec![String::from("admin")];
    assert!(s.add_roles(&String::from("alice"), admin.clone()).is_ok());
    assert!(s.add_roles(&String::from("alice"), admin.clone()).is_ok());
    let loaded = s.load_user_data(&String::from("alice")).unwrap().unwrap();
    assert_eq!(loaded.roles, vec![String::from("admin")]);
}

#[test]
fn add_roles_collapses_duplicates() {
    let mut s = in_memory::Storage::new();
    assert!(s.create_user_data(user("alice", "H1")).is_ok());
    let roles = vec![String::from("admin"), String::from("admin"), String::from("user")];
    assert!(s.add_roles(&String::from("alice"), roles).is_ok());
    let mut loaded_roles = s.load_user_data(&String::from("alice")).unwrap().unwrap().roles;
    loaded_roles.sort();
    assert_eq!(loaded_roles, vec![String::from("admin"), String::from("user")]);
}

#[test]
fn add_roles_unknown_login_returns_payload() {
    let mut s = in_memory::Storage::new();
    let roles = vec![String::from("admin")];
    match s.add_roles(&String::from("ghost"), roles.clone()) {
        Err((payload, StorageErr::LoginNotFound)) => assert_eq!(payload, roles),
        _ => panic!("expected LoginNotFound with the payload back"),
    }
}

#[test]
fn remove_roles_takes_set_difference() {
    let mut s = in_memory::Storage::new();
    assert!(s.create_user_data(user("alice", "H1")).is_ok());
    let roles = vec![String::from("admin"), String::from("user"), String::from("audit")];
    assert!(s.add_roles(&String::from("alice"), roles).is_ok());
    // removing an absent role alongside present ones is harmless
    let gone = vec![String::from("admin"), String::from("missing"), String::from("audit")];
    assert!(s.remove_roles(&String::from("alice"), gone).is_ok());
    let loaded = s.load_user_data(&String::from("alice")).unwrap().unwrap();
    assert_eq!(loaded.roles, vec![String::from("user")]);
}

#[test]
fn remove_roles_unknown_login_returns_payload() {
    let mut s = in_memory::Storage::new();
    let roles = vec![String::from("admin")];
    match s.remove_roles(&String::from("ghost"), roles.clone()) {
        Err((payload, StorageErr::LoginNotFound)) => assert_eq!(payload, roles),
        _ => panic!("expected LoginNotFound with the payload back"),
    }
}

#[test]
fn token_store_is_idempotent_and_delete_reports_presence() {
    let mut s = in_memory::Storage::new();
    let t1 = RefreshTokenHash::from_phc(String::from("T1"));
    assert!(s.store_rt(t1.clone()).is_ok());
    assert!(s.store_rt(t1.clone()).is_ok());
    // present exactly once: the first delete finds it, the second does not
    assert_eq!(s.delete_rt(t1.clone()).unwrap(), true);
    assert_eq!(s.delete_rt(t1.clone()).unwrap(), false);
}

#[test]
fn delete_absent_token_is_false_not_error() {
    let mut s = in_memory::Storage::new();
    let t = RefreshTokenHash::from_phc(String::from("never-stored"));
    assert_eq!(s.delete_rt(t).unwrap(), false);
}
