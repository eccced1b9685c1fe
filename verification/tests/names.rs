use winfacl::acl::names::{decimal_string, display_name, gid_name, lookup, lookup_group, lookup_user, merge_groups, uid_name, user_groups};

#[test]
fn name_lookup() {
    assert_eq!(lookup_user("root"), Some(0));
    // numerics resolve even when orphaned
    assert_eq!(lookup_user("4242424"), Some(4242424));
    assert_eq!(lookup_user("no-such-user-winfacl"), None);
    assert_eq!(lookup_user(""), None);
    assert_eq!(lookup_group("root"), Some(0));
    assert_eq!(lookup_group("nope-winfacl-xyz"), None);

    assert_eq!(uid_name(0), "root");
    // an unknown id degrades to its number rather than failing
    assert_eq!(uid_name(4242424), "4242424");

    assert!(!user_groups(0).is_empty());
}

#[test]
fn lookup_rules_on_given_answers() {
    assert_eq!(lookup("", Some(5)), None);
    assert_eq!(lookup("00042", Some(5)), Some(42));
    assert_eq!(lookup("4294967295", None), Some(u32::MAX));
    assert_eq!(lookup("4294967296", Some(1)), None);
    assert_eq!(lookup("alice", Some(1001)), Some(1001));
    assert_eq!(lookup("alice", None), None);
    assert_eq!(lookup("12a", Some(3)), Some(3));
}

#[test]
fn names_and_numbers() {
    assert_eq!(decimal_string(0), "0");
    assert_eq!(decimal_string(10), "10");
    assert_eq!(decimal_string(18446744073709551615), "18446744073709551615");
    assert_eq!(display_name(Some("bob".to_string()), 7), "bob");
    assert_eq!(display_name(None, 4242424), "4242424");
    assert_eq!(gid_name(4242424), "4242424");
}

#[test]
fn group_sets_start_with_primary_and_have_no_repeats() {
    assert_eq!(merge_groups(100, None), vec![100]);
    assert_eq!(merge_groups(100, Some(vec![5, 100, 7, 5])), vec![100, 5, 7]);
    let g = user_groups(0);
    assert_eq!(g[0], 0);
    assert_eq!(user_groups(4242424), Vec::<u32>::new());
}

#[test]
fn names_holding_nul_resolve_to_nothing() {
    assert_eq!(lookup_user("ro\0ot"), None);
    assert_eq!(lookup_group("ro\0ot"), None);
}
