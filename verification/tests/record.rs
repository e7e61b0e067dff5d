use keyman::codec::{decode_registry, encode_registry};
use keyman::store::SshKeyStorage;

const KF: &str = "/home/u/.keyman/keys";

fn to_string(chars: &[char]) -> String {
    chars.iter().collect()
}

fn to_chars(s: &str) -> Vec<char> {
    s.chars().collect()
}

#[test]
fn encode_empty_registry_exactly() {
    let st = SshKeyStorage::new();
    let s = to_string(&encode_registry(&st));
    assert_eq!(s, "{\"activeKeyName\":null,\"keysByName\":{}}");
}

#[test]
fn encode_one_key_exactly() {
    let mut st = SshKeyStorage::new();
    st.add_key("/tmp/a", Some("work"), true, KF).unwrap();
    st.use_key("work").unwrap();
    let s = to_string(&encode_registry(&st));
    let mut expected = String::new();
    expected.push_str("{\"activeKeyName\":\"work\",\"keysByName\":{");
    expected.push_str("\"work\":{\"originalPath\":\"/tmp/a\",");
    expected.push_str("\"privateKeyPath\":\"/home/u/.keyman/keys/work\",");
    expected.push_str("\"publicKeyPath\":null,\"name\":\"work\"}}}");
    assert_eq!(s, expected);
}

#[test]
fn round_trip_preserves_keys_and_active() {
    let mut st = SshKeyStorage::new();
    st.add_key("/tmp/a", Some("work"), true, KF).unwrap();
    st.add_key("/tmp/b", Some("spare"), true, KF).unwrap();
    st.use_key("spare").unwrap();
    let encoded = encode_registry(&st);
    let back = decode_registry(&encoded).expect("a saved record reloads");
    assert_eq!(back.get_keys().len(), 2);
    for k in st.get_keys().iter() {
        let got = back.get_key(&k.name).expect("every key survives");
        assert_eq!(got.original_path, k.original_path);
        assert_eq!(got.private_key_path, k.private_key_path);
        assert_eq!(got.public_key_path, k.public_key_path);
    }
    assert_eq!(back.get_active_key().unwrap().name, "spare");
    assert!(back.deletion_paths().is_empty());
}

#[test]
fn round_trip_drops_pending_deletions() {
    let mut st = SshKeyStorage::new();
    st.add_key("/tmp/a", Some("work"), true, KF).unwrap();
    st.add_key("/tmp/b", Some("spare"), true, KF).unwrap();
    st.remove_key("spare").unwrap();
    assert!(!st.deletion_paths().is_empty());
    let back = decode_registry(&encode_registry(&st)).unwrap();
    assert!(back.deletion_paths().is_empty());
    assert_eq!(back.get_keys().len(), 1);
}

#[test]
fn round_trip_escapes_awkward_names() {
    let mut st = SshKeyStorage::new();
    let name = "a\"b\\c\nd\te";
    st.add_key("/tmp/a", Some(name), true, KF).unwrap();
    let encoded = encode_registry(&st);
    let back = decode_registry(&encoded).expect("escaped names reload");
    assert!(back.get_key(name).is_some());
    assert_eq!(back.get_keys()[0].name, name);
}

#[test]
fn encoded_record_is_json_with_camel_case_fields() {
    let mut st = SshKeyStorage::new();
    st.add_key("/tmp/a", Some("work"), true, KF).unwrap();
    st.use_key("work").unwrap();
    let s = to_string(&encode_registry(&st));
    let v: serde_json::Value = serde_json::from_str(&s).expect("the record is JSON");
    assert_eq!(v["activeKeyName"], serde_json::Value::String("work".to_string()));
    let key = &v["keysByName"]["work"];
    assert_eq!(key["originalPath"], serde_json::Value::String("/tmp/a".to_string()));
    assert_eq!(
        key["privateKeyPath"],
        serde_json::Value::String("/home/u/.keyman/keys/work".to_string())
    );
    assert_eq!(key["publicKeyPath"], serde_json::Value::Null);
    assert_eq!(key["name"], serde_json::Value::String("work".to_string()));
}

#[test]
fn encoded_control_characters_are_valid_json() {
    let mut st = SshKeyStorage::new();
    st.add_key("/tmp/a", Some("line\u{1}\u{1f}break"), true, KF).unwrap();
    let s = to_string(&encode_registry(&st));
    let v: serde_json::Value = serde_json::from_str(&s).expect("escapes are valid JSON");
    assert!(v["keysByName"]["line\u{1}\u{1f}break"].is_object());
}

#[test]
fn decode_rejects_garbage() {
    assert!(decode_registry(&to_chars("")).is_none());
    assert!(decode_registry(&to_chars("xyz")).is_none());
    assert!(decode_registry(&to_chars("{\"activeKeyName\":null}")).is_none());
}

#[test]
fn decode_rejects_trailing_input() {
    let st = SshKeyStorage::new();
    let mut s = to_string(&encode_registry(&st));
    s.push('x');
    assert!(decode_registry(&to_chars(&s)).is_none());
}

#[test]
fn decode_rejects_duplicate_names() {
    let key = "{\"originalPath\":null,\"privateKeyPath\":null,\"publicKeyPath\":null,\"name\":\"a\"}";
    let s = format!(
        "{{\"activeKeyName\":null,\"keysByName\":{{\"a\":{key},\"a\":{key}}}}}"
    );
    assert!(decode_registry(&to_chars(&s)).is_none());
}

#[test]
fn decode_rejects_dangling_active_name() {
    let s = "{\"activeKeyName\":\"ghost\",\"keysByName\":{}}";
    assert!(decode_registry(&to_chars(s)).is_none());
}

#[test]
fn decode_rejects_mismatched_member_and_key_name() {
    let mut s = String::new();
    s.push_str("{\"activeKeyName\":null,\"keysByName\":{");
    s.push_str("\"a\":{\"originalPath\":null,\"privateKeyPath\":null,");
    s.push_str("\"publicKeyPath\":null,\"name\":\"b\"}}}");
    assert!(decode_registry(&to_chars(&s)).is_none());
}

#[test]
fn round_trip_empty_and_unicode_names() {
    let mut st = SshKeyStorage::new();
    st.add_key("/tmp/a", Some(""), true, KF).unwrap();
    st.add_key("/tmp/b", Some("schlüssel-鍵"), true, KF).unwrap();
    let back = decode_registry(&encode_registry(&st)).expect("names of any shape reload");
    assert!(back.get_key("").is_some());
    assert!(back.get_key("schlüssel-鍵").is_some());
    assert_eq!(back.get_keys().len(), 2);
}
