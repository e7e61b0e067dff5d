use keyman::errors::StoreError;
use keyman::store::SshKeyStorage;

const KF: &str = "/home/u/.keyman/keys";

#[test]
fn full_key_lifecycle() {
    let mut st = SshKeyStorage::new();

    // Add "work" from an existing source file.
    let added = st
        .add_key("/tmp/id_rsa_work", Some("work"), true, KF)
        .expect("adding a fresh name succeeds");
    assert_eq!(added.name, "work");

    // Adding the same name again fails.
    let dup = st.add_key("/tmp/id_rsa_work", Some("work"), true, KF);
    assert_eq!(dup.unwrap_err(), StoreError::DuplicateName);

    // Using "work" points the symlink at its managed copy.
    let used = st.use_key("work").expect("the key exists");
    let (from, to) = used.link("/home/u/.ssh").expect("a managed key links");
    assert_eq!(from, "/home/u/.keyman/keys/work");
    assert_eq!(to, "/home/u/.ssh/id_rsa");

    // Renaming while active carries the active pointer along.
    st.rename_key("work", "job").expect("the key exists");
    assert_eq!(st.get_active_key().unwrap().name, "job");

    // Removing the active key clears the pointer; the next save erases
    // the managed files.
    st.remove_key("job").expect("the key exists");
    assert!(st.get_active_key().is_none());
    assert_eq!(st.deletion_paths(), vec!["/home/u/.keyman/keys/work".to_string()]);
    st.finish_save();
    assert!(st.deletion_paths().is_empty());
    assert!(st.get_keys().is_empty());
}
