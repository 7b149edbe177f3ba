use p2p2::{
    diff, is_valid_app_name, HookId, Identity, ListenerId, Metadata, RemoteIdentity,
    SocketAddress, APP_NAME_MAX,
};

fn text(s: &str) -> String {
    s.to_string()
}

fn map_of(entries: &[(&str, &str)]) -> Metadata {
    let mut metadata = Metadata::new();
    for (key, value) in entries {
        metadata.insert(text(key), text(value));
    }
    metadata
}

#[test]
fn app_names_of_letters_digits_and_hyphens() {
    assert_eq!(APP_NAME_MAX, 12);
    assert!(is_valid_app_name("sd"));
    assert!(is_valid_app_name("a"));
    assert!(is_valid_app_name("-"));
    assert!(is_valid_app_name("0123456789"));
    assert!(is_valid_app_name("Space-Drive1"));
    assert!(is_valid_app_name(""));
}

#[test]
fn app_names_of_other_scripts() {
    assert!(is_valid_app_name("été"));
    assert!(is_valid_app_name("日本語"));
    assert!(is_valid_app_name("٣"));
    assert!(is_valid_app_name("éééééééééééé"));
    assert!(!is_valid_app_name("ééééééééééééé"));
}

#[test]
fn app_names_that_are_refused() {
    assert!(!is_valid_app_name("Space-Drive12"));
    assert!(!is_valid_app_name("a b"));
    assert!(!is_valid_app_name("a_b"));
    assert!(!is_valid_app_name("a.b"));
    assert!(!is_valid_app_name("a/b"));
    assert!(!is_valid_app_name("!"));
    assert!(!is_valid_app_name("tab\t"));
    assert!(!is_valid_app_name("0123456789012"));
}

#[test]
fn metadata_insert_get_remove() {
    let mut metadata = Metadata::new();
    assert!(metadata.is_empty());
    assert_eq!(metadata.len(), 0);
    assert_eq!(metadata.get(&text("a")), None);

    assert_eq!(metadata.insert(text("a"), text("1")), None);
    assert_eq!(metadata.insert(text("b"), text("2")), None);
    assert_eq!(metadata.insert(text("a"), text("3")), Some(text("1")));
    assert_eq!(metadata.len(), 2);
    assert!(!metadata.is_empty());
    assert!(metadata.contains_key(&text("a")));
    assert!(!metadata.contains_key(&text("c")));
    assert_eq!(metadata.get(&text("a")), Some(&text("3")));
    assert_eq!(metadata.get(&text("b")), Some(&text("2")));
    assert_eq!(metadata.key(0), &text("a"));
    assert_eq!(metadata.key(1), &text("b"));

    assert_eq!(metadata.remove(&text("c")), None);
    assert_eq!(metadata.remove(&text("a")), Some(text("3")));
    assert_eq!(metadata.len(), 1);
    assert_eq!(metadata.get(&text("a")), None);
    assert_eq!(metadata.key(0), &text("b"));
}

#[test]
fn metadata_extend_prefers_the_new_entries() {
    let mut metadata = map_of(&[("a", "1"), ("b", "2")]);
    metadata.extend(map_of(&[("b", "3"), ("c", "4")]));
    assert_eq!(metadata.len(), 3);
    assert_eq!(metadata.get(&text("a")), Some(&text("1")));
    assert_eq!(metadata.get(&text("b")), Some(&text("3")));
    assert_eq!(metadata.get(&text("c")), Some(&text("4")));

    metadata.extend(Metadata::new());
    assert_eq!(metadata.len(), 3);
}

#[test]
fn metadata_clone_and_comparison() {
    let metadata = map_of(&[("a", "1"), ("b", "2")]);
    let copy = metadata.clone();
    assert!(metadata.same_as(&copy));
    assert!(metadata.same_as(&map_of(&[("b", "2"), ("a", "1")])));
    assert!(!metadata.same_as(&map_of(&[("a", "1")])));
    assert!(!metadata.same_as(&map_of(&[("a", "1"), ("b", "3")])));
    assert!(!metadata.same_as(&map_of(&[("a", "1"), ("b", "2"), ("c", "3")])));
    assert!(Metadata::new().same_as(&Metadata::new()));
}

#[test]
fn diff_of_equal_maps_is_empty() {
    let before = map_of(&[("unchanged", "1")]);
    let after = map_of(&[("unchanged", "1")]);
    let difference = diff(&before, &after);
    assert!(difference.is_empty());
    assert!(difference.updated.is_empty());
    assert!(difference.removed.is_empty());
}

#[test]
fn diff_shows_added_changed_and_removed() {
    let before = map_of(&[("unchanged", "1"), ("removed", "2"), ("changed", "3")]);
    let after = map_of(&[("unchanged", "1"), ("changed", "5"), ("added", "4")]);
    let difference = diff(&before, &after);
    assert!(!difference.is_empty());
    assert_eq!(difference.updated.len(), 2);
    assert_eq!(difference.updated.get(&text("changed")), Some(&text("5")));
    assert_eq!(difference.updated.get(&text("added")), Some(&text("4")));
    assert_eq!(difference.updated.get(&text("unchanged")), None);
    assert_eq!(difference.removed.len(), 1);
    assert_eq!(difference.removed.get(&text("removed")), Some(&text("2")));
}

#[test]
fn diff_of_a_new_key() {
    let difference = diff(&Metadata::new(), &map_of(&[("k", "v")]));
    assert_eq!(difference.updated.len(), 1);
    assert_eq!(difference.updated.get(&text("k")), Some(&text("v")));
    assert!(difference.removed.is_empty());
}

#[test]
fn identities_compare_by_both_halves() {
    let a = RemoteIdentity::new(1, 2);
    assert_eq!(a, RemoteIdentity::new(1, 2));
    assert_ne!(a, RemoteIdentity::new(2, 1));
    assert_ne!(a, RemoteIdentity::new(1, 3));
    let local = Identity::from_parts(RemoteIdentity::new(9, 9), a);
    assert_eq!(local.to_remote_identity(), a);
    assert_eq!(local.secret_token(), RemoteIdentity::new(9, 9));
}

#[test]
fn hook_and_listener_ids_name_the_same_slot() {
    assert_eq!(HookId(3).as_listener(), ListenerId(3));
    assert_eq!(ListenerId(5).as_hook(), HookId(5));
}

#[test]
fn addresses_compare_by_all_parts() {
    let v4 = SocketAddress::V4 { ip: 0xc0a8_0001, port: 80 };
    assert_eq!(v4.port(), 80);
    assert_eq!(v4, SocketAddress::V4 { ip: 0xc0a8_0001, port: 80 });
    assert_ne!(v4, SocketAddress::V4 { ip: 0xc0a8_0001, port: 81 });
    let v6 = SocketAddress::V6 { ip: 1, port: 80, flowinfo: 0, scope_id: 3 };
    assert_eq!(v6.port(), 80);
    assert_ne!(v6, SocketAddress::V6 { ip: 1, port: 80, flowinfo: 0, scope_id: 4 });
    assert_ne!(v4, v6);
}

fn keys(metadata: &Metadata) -> Vec<String> {
    (0..metadata.len()).map(|i| metadata.key(i).clone()).collect()
}

#[test]
fn metadata_keys_keep_their_order() {
    let mut metadata = map_of(&[("c", "1"), ("a", "2"), ("b", "3")]);
    assert_eq!(keys(&metadata), vec![text("c"), text("a"), text("b")]);

    metadata.insert(text("a"), text("4"));
    assert_eq!(keys(&metadata), vec![text("c"), text("a"), text("b")]);

    metadata.remove(&text("c"));
    assert_eq!(keys(&metadata), vec![text("a"), text("b")]);

    metadata.extend(map_of(&[("d", "5"), ("a", "6"), ("c", "7")]));
    assert_eq!(keys(&metadata), vec![text("a"), text("b"), text("d"), text("c")]);
    assert_eq!(keys(&metadata.clone()), keys(&metadata));
    assert_eq!(keys(&Metadata::new()), Vec::<String>::new());
}
