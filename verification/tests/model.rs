use winfacl::acl::model::{
    perm_string, render_getfacl, Effective, EntryList, InvalidAcl, Kind, Matched, Tag, P_ALL, P_R, P_W, P_X,
};

#[test]
fn set_find_remove() {
    let mut l = EntryList::new();
    l.set(Kind::Access, Tag::UserObj, 0, P_ALL);
    l.set(Kind::Access, Tag::User, 1000, P_R | P_W);
    l.set(Kind::Access, Tag::User, 1001, P_R);
    assert_eq!(l.0.len(), 3);

    // set on an existing principal replaces, never duplicates
    let i = l.set(Kind::Access, Tag::User, 1000, P_R);
    assert_eq!(l.0.len(), 3);
    assert_eq!(l.0[i].perms, P_R);

    // base tags ignore id for identity
    l.set(Kind::Access, Tag::UserObj, 999, P_R);
    assert_eq!(l.0.len(), 3);

    // find distinguishes kinds and named ids
    assert!(l.find(Kind::Access, Tag::User, 1001).is_some());
    assert!(l.find(Kind::Default, Tag::User, 1001).is_none());
    assert!(l.find(Kind::Access, Tag::User, 4242).is_none());

    // perms are clamped to rwx bits
    let i = l.set(Kind::Access, Tag::User, 1001, 0xFF);
    assert_eq!(l.0[i].perms, P_ALL);

    let i = l.find(Kind::Access, Tag::User, 1000).unwrap();
    l.remove_at(i);
    assert_eq!(l.0.len(), 2);
    assert!(l.find(Kind::Access, Tag::User, 1000).is_none());
}

#[test]
fn canonical_order() {
    let mut l = EntryList::new();
    l.set(Kind::Default, Tag::Other, 0, P_R);
    l.set(Kind::Access, Tag::Other, 0, P_R);
    l.set(Kind::Access, Tag::Mask, 0, P_ALL);
    l.set(Kind::Access, Tag::Group, 2000, P_R);
    l.set(Kind::Access, Tag::Group, 100, P_R);
    l.set(Kind::Access, Tag::GroupObj, 0, P_R);
    l.set(Kind::Access, Tag::User, 1001, P_R);
    l.set(Kind::Access, Tag::User, 42, P_R);
    l.set(Kind::Access, Tag::UserObj, 0, P_ALL);
    l.set(Kind::Default, Tag::UserObj, 0, P_ALL);
    l.sort_canonical();

    let seq: Vec<(Kind, Tag, u32)> = l.0.iter().map(|e| (e.kind, e.tag, e.id)).collect();
    assert_eq!(
        seq,
        vec![
            (Kind::Access, Tag::UserObj, 0),
            (Kind::Access, Tag::User, 42),
            (Kind::Access, Tag::User, 1001),
            (Kind::Access, Tag::GroupObj, 0),
            (Kind::Access, Tag::Group, 100),
            (Kind::Access, Tag::Group, 2000),
            (Kind::Access, Tag::Mask, 0),
            (Kind::Access, Tag::Other, 0),
            (Kind::Default, Tag::UserObj, 0),
            (Kind::Default, Tag::Other, 0),
        ]
    );
}

#[test]
fn count_named_counts_per_kind() {
    let mut l = EntryList::new();
    l.set(Kind::Access, Tag::User, 1, P_R);
    l.set(Kind::Access, Tag::Group, 2, P_R);
    l.set(Kind::Access, Tag::UserObj, 0, P_R);
    l.set(Kind::Default, Tag::User, 1, P_R);
    assert_eq!(l.count_named(Kind::Access), 2);
    assert_eq!(l.count_named(Kind::Default), 1);
}

fn base_acl() -> EntryList {
    let mut l = EntryList::new();
    l.set(Kind::Access, Tag::UserObj, 0, P_R | P_W);
    l.set(Kind::Access, Tag::GroupObj, 0, P_R);
    l.set(Kind::Access, Tag::Other, 0, P_R);
    l
}

#[test]
fn sort_is_stable_and_idempotent() {
    let mut l = base_acl();
    l.0.push(winfacl::acl::model::Entry { kind: Kind::Access, tag: Tag::User, id: 7, perms: P_R });
    l.0.push(winfacl::acl::model::Entry { kind: Kind::Access, tag: Tag::User, id: 7, perms: P_W });
    l.sort_canonical();
    let once = l.clone();
    l.sort_canonical();
    assert_eq!(l, once);
    // equal keys keep their order
    assert_eq!(l.0[1].perms, P_R);
    assert_eq!(l.0[2].perms, P_W);
}

#[test]
fn calc_mask_is_union_of_group_class() {
    let mut l = base_acl();
    l.set(Kind::Access, Tag::User, 1000, P_W);
    l.set(Kind::Access, Tag::Group, 50, P_X);
    l.set(Kind::Default, Tag::User, 1000, P_ALL);
    assert_eq!(l.calc_mask(Kind::Access), P_R | P_W | P_X);
    assert_eq!(l.calc_mask(Kind::Default), P_ALL);
}

#[test]
fn auto_mask_only_with_named_entries() {
    let mut l = base_acl();
    l.apply_auto_mask(Kind::Access);
    assert!(l.find(Kind::Access, Tag::Mask, 0).is_none());

    l.set(Kind::Access, Tag::User, 1000, P_W);
    l.apply_auto_mask(Kind::Access);
    let i = l.find(Kind::Access, Tag::Mask, 0).unwrap();
    assert_eq!(l.0[i].perms, P_R | P_W);

    // recalculated, not duplicated
    l.set(Kind::Access, Tag::User, 1000, P_X);
    l.apply_auto_mask(Kind::Access);
    assert_eq!(l.count_named(Kind::Access), 1);
    let i = l.find(Kind::Access, Tag::Mask, 0).unwrap();
    assert_eq!(l.0[i].perms, P_R | P_X);
    assert_eq!(l.0.len(), 5);
}

#[test]
fn validate_rules() {
    let mut l = base_acl();
    assert_eq!(l.validate(false), Ok(()));

    l.set(Kind::Access, Tag::User, 1000, P_R);
    assert_eq!(l.validate(false), Err(InvalidAcl::MaskRequired(Kind::Access)));
    l.apply_auto_mask(Kind::Access);
    assert_eq!(l.validate(false), Ok(()));

    let mut dup = l.clone();
    dup.0.push(winfacl::acl::model::Entry { kind: Kind::Access, tag: Tag::User, id: 1000, perms: P_W });
    assert_eq!(dup.validate(false), Err(InvalidAcl::DuplicatePrincipal(Kind::Access)));

    let mut missing = EntryList::new();
    missing.set(Kind::Access, Tag::UserObj, 0, P_R);
    assert_eq!(missing.validate(false), Err(InvalidAcl::BaseEntries(Kind::Access)));

    let mut with_default = l.clone();
    with_default.set(Kind::Default, Tag::UserObj, 0, P_ALL);
    assert_eq!(with_default.validate(false), Err(InvalidAcl::DefaultOnFile));
    assert_eq!(with_default.validate(true), Err(InvalidAcl::BaseEntries(Kind::Default)));
    with_default.set(Kind::Default, Tag::GroupObj, 0, P_R);
    with_default.set(Kind::Default, Tag::Other, 0, 0);
    assert_eq!(with_default.validate(true), Ok(()));
}

#[test]
fn effective_access_classes() {
    let mut l = base_acl();
    l.set(Kind::Access, Tag::UserObj, 0, P_ALL);
    l.set(Kind::Access, Tag::User, 1000, P_ALL);
    l.set(Kind::Access, Tag::Group, 50, P_W);
    l.set(Kind::Access, Tag::Mask, 0, P_R | P_W);
    l.set(Kind::Access, Tag::Other, 0, P_X);

    // owner: unmasked
    let e = l.effective(10, 10, 20, &vec![]);
    assert_eq!(e, Effective { granted: P_ALL, matched: Matched::Owner, limited_by_mask: false });
    // named user: masked
    let e = l.effective(1000, 10, 20, &vec![]);
    assert_eq!(e, Effective { granted: P_R | P_W, matched: Matched::NamedUser, limited_by_mask: true });
    // group class: union of owning group (r) and group 50 (w), masked
    let e = l.effective(7, 10, 20, &vec![20, 50]);
    assert_eq!(e, Effective { granted: P_R | P_W, matched: Matched::Groups, limited_by_mask: false });
    // other ignores the mask
    let e = l.effective(7, 10, 20, &vec![99]);
    assert_eq!(e, Effective { granted: P_X, matched: Matched::Other, limited_by_mask: false });
}

#[test]
fn perm_strings() {
    assert_eq!(perm_string(0), "---");
    assert_eq!(perm_string(P_R), "r--");
    assert_eq!(perm_string(P_R | P_X), "r-x");
    assert_eq!(perm_string(P_ALL), "rwx");
}

#[test]
fn getfacl_listing() {
    let mut l = EntryList::new();
    l.set(Kind::Access, Tag::UserObj, 0, P_R | P_W);
    l.set(Kind::Access, Tag::User, 0, P_ALL);
    l.set(Kind::Access, Tag::GroupObj, 0, P_R);
    l.set(Kind::Access, Tag::Mask, 0, P_R);
    l.set(Kind::Access, Tag::Other, 0, P_R);
    l.set(Kind::Default, Tag::UserObj, 0, P_ALL);
    l.set(Kind::Default, Tag::Group, 100, P_ALL);
    l.set(Kind::Default, Tag::GroupObj, 0, P_R);
    l.set(Kind::Default, Tag::Mask, 0, P_R | P_X);
    l.set(Kind::Default, Tag::Other, 0, 0);
    let names: Vec<String> =
        l.0.iter().map(|e| match e.tag { Tag::User => "root".to_string(), Tag::Group => "staff".to_string(), _ => String::new() }).collect();
    let text = render_getfacl("/srv/share", "alice", "users", &l, &names);
    assert_eq!(
        text,
        "# file: srv/share\n# owner: alice\n# group: users\n\
         user::rw-\n\
         user:root:rwx\t\t\t#effective:r--\n\
         group::r--\n\
         mask::r--\n\
         other::r--\n\
         default:user::rwx\n\
         default:group:staff:rwx\t\t#effective:r-x\n\
         default:group::r--\n\
         default:mask::r-x\n\
         default:other::---\n\n"
    );
}
