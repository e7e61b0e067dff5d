use keyman::errors::StoreError;
use keyman::paths::{get_folder, get_keys_folder, get_ssh_path};
use keyman::store::{Key, SshKeyStorage};

const KF: &str = "/home/u/.keyman/keys";

fn add_ok(st: &mut SshKeyStorage, path: &str, name: Option<&str>) -> Key {
    st.add_key(path, name, true, KF).expect("add should succeed")
}

#[test]
fn add_unique_names_lists_exactly_those() {
    let mut st = SshKeyStorage::new();
    add_ok(&mut st, "/tmp/a", Some("alpha"));
    add_ok(&mut st, "/tmp/b", Some("beta"));
    add_ok(&mut st, "/tmp/c", Some("gamma"));
    let names: Vec<&str> = st.get_keys().iter().map(|k| k.name.as_str()).collect();
    assert_eq!(names.len(), 3);
    assert!(names.contains(&"alpha"));
    assert!(names.contains(&"beta"));
    assert!(names.contains(&"gamma"));
    assert!(st.get_key("alpha").is_some());
    assert!(st.get_key("beta").is_some());
    assert!(st.get_key("gamma").is_some());
    assert!(st.get_key("delta").is_none());
}

#[test]
fn add_duplicate_name_fails_and_leaves_registry_unchanged() {
    let mut st = SshKeyStorage::new();
    let first = add_ok(&mut st, "/tmp/a", Some("work"));
    let r = st.add_key("/tmp/other", Some("work"), true, KF);
    assert_eq!(r.unwrap_err(), StoreError::DuplicateName);
    assert_eq!(st.get_keys().len(), 1);
    let kept = st.get_key("work").unwrap();
    assert_eq!(kept.original_path, first.original_path);
    assert_eq!(kept.private_key_path, first.private_key_path);
}

#[test]
fn add_non_file_source_fails_with_invalid_source() {
    let mut st = SshKeyStorage::new();
    let r = st.add_key("/tmp/missing", Some("work"), false, KF);
    assert_eq!(r.unwrap_err(), StoreError::InvalidSource);
    assert_eq!(st.get_keys().len(), 0);
}

#[test]
fn add_computes_managed_path_from_name() {
    let mut st = SshKeyStorage::new();
    let k = add_ok(&mut st, "/tmp/a", Some("work"));
    assert_eq!(k.name, "work");
    assert_eq!(k.original_path.as_deref(), Some("/tmp/a"));
    assert_eq!(k.private_key_path.as_deref(), Some("/home/u/.keyman/keys/work"));
    assert_eq!(k.public_key_path, None);
}

#[test]
fn add_takes_name_from_file_stem() {
    let mut st = SshKeyStorage::new();
    let k = add_ok(&mut st, "/tmp/id_rsa_work", None);
    assert_eq!(k.name, "id_rsa_work");
    let k2 = add_ok(&mut st, "/tmp/my.key", None);
    assert_eq!(k2.name, "my");
    let k3 = add_ok(&mut st, "/tmp/.bashrc", None);
    assert_eq!(k3.name, ".bashrc");
}

#[test]
fn add_strips_extension_from_managed_copy_name() {
    let mut st = SshKeyStorage::new();
    let k = add_ok(&mut st, "/tmp/a", Some("a.b.c"));
    assert_eq!(k.name, "a.b.c");
    assert_eq!(k.private_key_path.as_deref(), Some("/home/u/.keyman/keys/a.b"));
}

#[test]
fn add_falls_back_to_generated_name() {
    let mut st = SshKeyStorage::new();
    let k = st.add_key("/tmp/", None, true, KF).expect("add should succeed");
    assert_eq!(k.name, "key0");
}

#[test]
fn default_next_name_probes_past_taken_names() {
    let mut st = SshKeyStorage::new();
    assert_eq!(st.default_next_name(), "key0");
    add_ok(&mut st, "/tmp/a", Some("key2"));
    add_ok(&mut st, "/tmp/b", Some("key3"));
    // Two keys exist, so probing starts at key2; both key2 and key3 are
    // taken, so the probe must move on rather than trust the count.
    assert_eq!(st.default_next_name(), "key4");
}

#[test]
fn use_key_sets_active_and_returns_key() {
    let mut st = SshKeyStorage::new();
    add_ok(&mut st, "/tmp/a", Some("work"));
    let used = st.use_key("work").expect("use should succeed");
    assert_eq!(used.name, "work");
    let active = st.get_active_key().expect("an active key should be set");
    assert_eq!(active.name, "work");
}

#[test]
fn use_key_missing_name_fails_with_not_found() {
    let mut st = SshKeyStorage::new();
    let r = st.use_key("ghost");
    assert_eq!(r.unwrap_err(), StoreError::NotFound);
    assert!(st.get_active_key().is_none());
}

#[test]
fn link_names_the_managed_key_and_fixed_ssh_target() {
    let mut st = SshKeyStorage::new();
    add_ok(&mut st, "/tmp/a", Some("work"));
    let used = st.use_key("work").unwrap();
    let (from, to) = used.link("/home/u/.ssh").expect("a managed key links");
    assert_eq!(from, "/home/u/.keyman/keys/work");
    assert_eq!(to, "/home/u/.ssh/id_rsa");
}

#[test]
fn link_without_managed_path_is_nothing_to_do() {
    let k = Key { original_path: None, private_key_path: None, public_key_path: None, name: "x".to_string() };
    assert!(k.link("/home/u/.ssh").is_none());
}

#[test]
fn remove_active_key_clears_active_and_parks_files() {
    let mut st = SshKeyStorage::new();
    add_ok(&mut st, "/tmp/a", Some("work"));
    st.use_key("work").unwrap();
    let removed = st.remove_key("work").expect("the key exists");
    assert_eq!(removed.name, "work");
    assert!(st.get_active_key().is_none());
    assert!(st.get_key("work").is_none());
    let paths = st.deletion_paths();
    assert_eq!(paths, vec!["/home/u/.keyman/keys/work".to_string()]);
    st.finish_save();
    assert!(st.deletion_paths().is_empty());
}

#[test]
fn remove_other_key_keeps_active() {
    let mut st = SshKeyStorage::new();
    add_ok(&mut st, "/tmp/a", Some("work"));
    add_ok(&mut st, "/tmp/b", Some("spare"));
    st.use_key("work").unwrap();
    st.remove_key("spare").unwrap();
    assert_eq!(st.get_active_key().unwrap().name, "work");
}

#[test]
fn remove_missing_name_returns_none() {
    let mut st = SshKeyStorage::new();
    assert!(st.remove_key("ghost").is_none());
}

#[test]
fn rename_preserves_managed_path_and_moves_active() {
    let mut st = SshKeyStorage::new();
    let added = add_ok(&mut st, "/tmp/a", Some("work"));
    st.use_key("work").unwrap();
    let renamed = st.rename_key("work", "job").expect("the key exists");
    assert_eq!(renamed.name, "job");
    assert_eq!(renamed.private_key_path, added.private_key_path);
    assert!(st.get_key("work").is_none());
    let got = st.get_key("job").unwrap();
    assert_eq!(got.private_key_path, added.private_key_path);
    assert_eq!(st.get_active_key().unwrap().name, "job");
}

#[test]
fn rename_of_inactive_key_keeps_active() {
    let mut st = SshKeyStorage::new();
    add_ok(&mut st, "/tmp/a", Some("work"));
    add_ok(&mut st, "/tmp/b", Some("spare"));
    st.use_key("work").unwrap();
    st.rename_key("spare", "extra").unwrap();
    assert_eq!(st.get_active_key().unwrap().name, "work");
}

#[test]
fn rename_missing_name_returns_none() {
    let mut st = SshKeyStorage::new();
    assert!(st.rename_key("ghost", "spirit").is_none());
}

#[test]
fn rename_onto_existing_name_displaces_it() {
    let mut st = SshKeyStorage::new();
    let a = add_ok(&mut st, "/tmp/a", Some("work"));
    add_ok(&mut st, "/tmp/b", Some("job"));
    st.rename_key("work", "job").unwrap();
    assert_eq!(st.get_keys().len(), 1);
    let got = st.get_key("job").unwrap();
    assert_eq!(got.private_key_path, a.private_key_path);
}

#[test]
fn materialize_action_cases() {
    let k = Key {
        original_path: Some("/tmp/a".to_string()),
        private_key_path: Some("/home/u/.keyman/keys/a".to_string()),
        public_key_path: None,
        name: "a".to_string(),
    };
    // Managed copy already in place: nothing to do, never re-copied.
    assert_eq!(k.materialize_action(true, true), Ok(None));
    assert_eq!(k.materialize_action(true, false), Ok(None));
    // Copy needed and possible.
    assert_eq!(
        k.materialize_action(false, true),
        Ok(Some(("/tmp/a".to_string(), "/home/u/.keyman/keys/a".to_string())))
    );
    // Source file gone before a copy was made.
    assert_eq!(k.materialize_action(false, false), Err(StoreError::MaterializeFailed));
    let bare = Key { original_path: None, private_key_path: None, public_key_path: None, name: "b".to_string() };
    assert_eq!(bare.materialize_action(false, true), Err(StoreError::MaterializeFailed));
}

#[test]
fn save_record_path_joins_folder_and_file_name() {
    let st = SshKeyStorage::new();
    assert_eq!(st.file_name(), "keys.json");
    assert_eq!(st.save_record_path("/home/u/.keyman"), "/home/u/.keyman/keys.json");
}

#[test]
fn layout_paths_derive_from_home() {
    assert_eq!(get_folder("/home/u"), "/home/u/.keyman");
    assert_eq!(get_keys_folder("/home/u"), "/home/u/.keyman/keys");
    assert_eq!(get_ssh_path("/home/u"), "/home/u/.ssh");
}

#[test]
fn error_messages_are_distinct() {
    let all = [
        StoreError::InvalidSource,
        StoreError::DuplicateName,
        StoreError::NotFound,
        StoreError::MaterializeFailed,
        StoreError::LinkFailed,
        StoreError::PersistFailed,
        StoreError::DeleteFailed,
    ];
    for (i, a) in all.iter().enumerate() {
        assert!(!a.message().is_empty());
        for b in all.iter().skip(i + 1) {
            assert_ne!(a.message(), b.message());
        }
    }
    assert_eq!(StoreError::InvalidSource.message(), "invalid path to private key");
    assert_eq!(StoreError::DuplicateName.message(), "key with that name already exists");
}
