use password_manager::password::{PasswordEntry, Passwords};
use password_manager::store::{PasswordStore, StoreError};

#[test]
fn test_passwords() {
    assert_eq!(Passwords::new(), Passwords(vec![]));
}

#[test]
fn test_new_password_store() {
    let store = PasswordStore::new(String::from("passwords.txt")).unwrap();

    assert_eq!(store.len(), 0);
}

#[test]
fn test_check_for_duplicate() {
    let mut store = PasswordStore::new(String::from("passwords.txt")).unwrap();

    let entry = PasswordEntry::new(
        "service".to_string(),
        "username".to_string(),
        "password".to_string(),
    );
    store.add(entry.clone());
    let is_duplicate = store.check_for_duplicate_service_entry("service");

    assert_eq!(is_duplicate, true);
}

#[test]
fn test_get_file_path() {
    let store = PasswordStore::new(String::from("passwords.txt")).unwrap();

    assert_eq!(store.get_file_path(), String::from("passwords.txt"));
}

#[test]
fn test_update_service_password() {
    let mut store = PasswordStore::new(String::from("test_passwords.txt")).unwrap();

    let entry = PasswordEntry::new(
        "service".to_string(),
        "username".to_string(),
        "password".to_string(),
    );

    let content = store.add_and_save_entry(entry.clone());
    assert_eq!(content, "service username password\n");

    let updated_entry = PasswordEntry::new(
        "service".to_string(),
        "username".to_string(),
        "new_password".to_string(),
    );

    let result = store.update_entry(updated_entry.clone(), &content);
    let new_content = result.unwrap();
    assert_eq!(new_content, "service username new_password\n");

    let got = store.get("service").unwrap();
    assert_eq!(got.password, "new_password");
}

#[test]
fn round_trip_reopen_restores_entries() {
    let mut store = PasswordStore::new(String::from("p.txt")).unwrap();
    store.add_and_save_entry(PasswordEntry::new(
        "github".to_string(),
        "alice".to_string(),
        "p1".to_string(),
    ));
    let content = store.add_and_save_entry(PasswordEntry::new(
        "mail".to_string(),
        "bob".to_string(),
        "p2".to_string(),
    ));

    let mut reopened = PasswordStore::new(String::from("p.txt")).unwrap();
    reopened.load(&content).unwrap();

    let a = reopened.get("github").unwrap();
    assert_eq!(a.service, "github");
    assert_eq!(a.username, "alice");
    assert_eq!(a.password, "p1");
    let b = reopened.get("mail").unwrap();
    assert_eq!(b.service, "mail");
    assert_eq!(b.username, "bob");
    assert_eq!(b.password, "p2");
    assert_eq!(reopened.len(), 2);
}

#[test]
fn overwrite_on_duplicate_service() {
    let mut store = PasswordStore::new(String::from("p.txt")).unwrap();
    store.add(PasswordEntry::new(
        "github".to_string(),
        "alice".to_string(),
        "p1".to_string(),
    ));
    store.add(PasswordEntry::new(
        "github".to_string(),
        "carol".to_string(),
        "p9".to_string(),
    ));

    assert_eq!(store.len(), 1);
    let e = store.get("github").unwrap();
    assert_eq!(e.username, "carol");
    assert_eq!(e.password, "p9");
}

#[test]
fn exists_is_monotonic_over_adds() {
    let mut store = PasswordStore::new(String::from("p.txt")).unwrap();
    assert!(!store.check_for_duplicate_service_entry("github"));

    store.add(PasswordEntry::new(
        "github".to_string(),
        "alice".to_string(),
        "p1".to_string(),
    ));
    assert!(store.check_for_duplicate_service_entry("github"));

    store.add(PasswordEntry::new(
        "mail".to_string(),
        "bob".to_string(),
        "p2".to_string(),
    ));
    store.add(PasswordEntry::new(
        "github".to_string(),
        "dora".to_string(),
        "p3".to_string(),
    ));
    assert!(store.check_for_duplicate_service_entry("github"));
}

#[test]
fn update_miss_reports_not_found_and_changes_nothing() {
    let mut store = PasswordStore::new(String::from("p.txt")).unwrap();
    let content = store.add_and_save_entry(PasswordEntry::new(
        "github".to_string(),
        "alice".to_string(),
        "p1".to_string(),
    ));

    let miss = PasswordEntry::new("unknown".to_string(), "x".to_string(), "y".to_string());
    let result = store.update_entry(miss, &content);
    assert_eq!(result, Err(StoreError::NotFound));

    let kept = store.get("github").unwrap();
    assert_eq!(kept.password, "p1");
    assert_eq!(store.len(), 1);
}

#[test]
fn update_on_empty_content_reports_not_found() {
    let mut store = PasswordStore::new(String::from("p.txt")).unwrap();
    let miss = PasswordEntry::new("github".to_string(), "alice".to_string(), "p1".to_string());
    let result = store.update_entry(miss, "");
    assert_eq!(result, Err(StoreError::NotFound));
    assert_eq!(store.len(), 0);
}

#[test]
fn update_hit_replaces_only_that_record() {
    let mut store = PasswordStore::new(String::from("p.txt")).unwrap();
    store.add_and_save_entry(PasswordEntry::new(
        "github".to_string(),
        "alice".to_string(),
        "p1".to_string(),
    ));
    let content = store.add_and_save_entry(PasswordEntry::new(
        "mail".to_string(),
        "bob".to_string(),
        "p2".to_string(),
    ));

    let new_content = store
        .update_entry(
            PasswordEntry::new("github".to_string(), "alice".to_string(), "p2new".to_string()),
            &content,
        )
        .unwrap();
    assert_eq!(new_content, "github alice p2new\nmail bob p2\n");

    let updated = store.get("github").unwrap();
    assert_eq!(updated.username, "alice");
    assert_eq!(updated.password, "p2new");
    let other = store.get("mail").unwrap();
    assert_eq!(other.username, "bob");
    assert_eq!(other.password, "p2");
}

#[test]
fn listing_has_services_and_usernames_but_no_passwords() {
    let mut store = PasswordStore::new(String::from("p.txt")).unwrap();
    store.add(PasswordEntry::new(
        "github".to_string(),
        "alice".to_string(),
        "secret-one".to_string(),
    ));
    store.add(PasswordEntry::new(
        "mail".to_string(),
        "bob".to_string(),
        "secret-two".to_string(),
    ));

    let listed = store.list_all();
    assert_eq!(listed.len(), 2);
    assert_eq!(listed[0], ("github".to_string(), "alice".to_string()));
    assert_eq!(listed[1], ("mail".to_string(), "bob".to_string()));
    for (service, username) in &listed {
        assert!(!service.contains("secret-one") && !service.contains("secret-two"));
        assert!(!username.contains("secret-one") && !username.contains("secret-two"));
    }
}

#[test]
fn fresh_store_lists_nothing() {
    let store = PasswordStore::new(String::from("does_not_exist_yet.txt")).unwrap();
    assert_eq!(store.list_all().len(), 0);
    assert_eq!(store.len(), 0);
}

#[test]
fn scenario_full_dialog_sequence() {
    let mut store = PasswordStore::new(String::from("p.txt")).unwrap();

    let content = store.add_and_save_entry(PasswordEntry::new(
        "email".to_string(),
        "bob".to_string(),
        "abc123".to_string(),
    ));
    let got = store.get("email").unwrap();
    assert_eq!(got.username, "bob");
    assert_eq!(got.password, "abc123");

    let content = store
        .update_entry(
            PasswordEntry::new("email".to_string(), "bob".to_string(), "xyz999".to_string()),
            &content,
        )
        .unwrap();
    let got = store.get("email").unwrap();
    assert_eq!(got.password, "xyz999");

    let result = store.update_entry(
        PasswordEntry::new("unknown".to_string(), "x".to_string(), "y".to_string()),
        &content,
    );
    assert_eq!(result, Err(StoreError::NotFound));
    let got = store.get("email").unwrap();
    assert_eq!(got.password, "xyz999");
}

#[test]
fn error_messages_describe_the_failure() {
    assert_eq!(
        StoreError::NotFound.message(),
        "Could not find an entry for service"
    );
    assert_eq!(
        StoreError::Malformed.message(),
        "The stored passwords file is malformed"
    );
}

#[test]
fn malformed_content_is_rejected_whole() {
    let mut store = PasswordStore::new(String::from("p.txt")).unwrap();
    assert_eq!(store.load("not a closed line"), Err(StoreError::Malformed));
    assert_eq!(store.len(), 0);

    let miss = PasswordEntry::new("github".to_string(), "alice".to_string(), "p1".to_string());
    let result = store.update_entry(miss, "github alice p1\nbroken\n");
    assert_eq!(result, Err(StoreError::Malformed));
    assert_eq!(store.len(), 0);
}

#[test]
fn load_merges_into_the_index_last_record_winning() {
    let mut store = PasswordStore::new(String::from("p.txt")).unwrap();
    store
        .load("github alice p1\nmail bob p2\ngithub carol p3\n")
        .unwrap();
    assert_eq!(store.len(), 2);
    let e = store.get("github").unwrap();
    assert_eq!(e.username, "carol");
    assert_eq!(e.password, "p3");
}
