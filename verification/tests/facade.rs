use winfacl::acl::errno::{EACCES, EINVAL, ENOENT, EOPNOTSUPP, EPERM};
use winfacl::acl::facade::{
    count_step, default_step, mode_to_entries, wants_default_acl, DefaultStep, FileStat, LoadProbe, LoadStatus, Model, OwnerChange,
    Report, MAX_ERRORS,
};
use winfacl::acl::model::{Entry, EntryList, Kind, Tag, P_ALL, P_R, P_W, P_X};

fn plain_file(mode: u32) -> LoadProbe {
    let st = FileStat { mode: 0o100000 | mode, uid: 1000, gid: 100 };
    LoadProbe { lstat: Ok(st), link_target: None, stat: Ok(st), access_acl: Ok(None), default_acl: Ok(None) }
}

fn directory(mode: u32, access: Option<Vec<Entry>>, default: Option<Vec<Entry>>) -> LoadProbe {
    let st = FileStat { mode: 0o040000 | mode, uid: 0, gid: 0 };
    LoadProbe { lstat: Ok(st), link_target: None, stat: Ok(st), access_acl: Ok(access), default_acl: Ok(default) }
}

#[test]
fn load_nonexistent() {
    let probe = LoadProbe {
        lstat: Err(ENOENT),
        link_target: None,
        stat: Err(ENOENT),
        access_acl: Err(ENOENT),
        default_acl: Err(ENOENT),
    };
    let m = Model::load("/no/such/winfacl/path".to_string(), true, probe);
    assert_eq!(m.status, LoadStatus::NoEnt);
    assert_eq!(m.load_errno, Some(ENOENT));
}

#[test]
fn load_failures_are_classified() {
    for (e, want) in [
        (EACCES, LoadStatus::Denied),
        (EPERM, LoadStatus::Denied),
        (20, LoadStatus::NoEnt),
        (5, LoadStatus::Error),
    ] {
        let mut p = plain_file(0o644);
        p.access_acl = Err(e);
        let m = Model::load("f".to_string(), true, p);
        assert_eq!(m.status, want);
        assert!(m.staged.0.is_empty());
    }
}

#[test]
fn load_plain_file_synthesizes_mode_entries() {
    let m = Model::load("/tmp/f".to_string(), true, plain_file(0o640));
    assert_eq!(m.status, LoadStatus::Loaded);
    assert!(m.acl_supported);
    assert!(!m.is_dir);
    assert_eq!(m.mode, 0o640);
    assert_eq!(m.staged.0.len(), 3);
    let i = m.staged.find(Kind::Access, Tag::UserObj, 0).unwrap();
    assert_eq!(m.staged.0[i].perms, P_R | P_W);
    let i = m.staged.find(Kind::Access, Tag::GroupObj, 0).unwrap();
    assert_eq!(m.staged.0[i].perms, P_R);
    let i = m.staged.find(Kind::Access, Tag::Other, 0).unwrap();
    assert_eq!(m.staged.0[i].perms, 0);
    assert!(!m.dirty());
}

#[test]
fn load_without_acl_support_is_read_only_mode_view() {
    let mut p = plain_file(0o755);
    p.access_acl = Err(EOPNOTSUPP);
    let m = Model::load("/mnt/vfat/x".to_string(), true, p);
    assert_eq!(m.status, LoadStatus::NotSup);
    assert!(!m.acl_supported);
    assert_eq!(m.staged.0.len(), 3);
}

#[test]
fn load_symlink_reports_target() {
    let mut p = plain_file(0o644);
    p.lstat = Ok(FileStat { mode: 0o120777, uid: 0, gid: 0 });
    p.link_target = Some("target".to_string());
    let m = Model::load("ln".to_string(), true, p);
    assert!(m.is_symlink);
    assert_eq!(m.target, Some("target".to_string()));
    assert_eq!(m.owner, 1000);
}

#[test]
fn load_directory_merges_default_acl_in_order() {
    let mut d = EntryList::new();
    d.set(Kind::Default, Tag::Other, 0, P_R);
    d.set(Kind::Default, Tag::UserObj, 0, P_ALL);
    d.set(Kind::Default, Tag::GroupObj, 0, P_R);
    let m = Model::load("/srv".to_string(), true, directory(0o755, None, Some(d.0.clone())));
    assert!(m.is_dir);
    assert!(m.has_default_acl);
    let tags: Vec<(Kind, Tag)> = m.current.0.iter().map(|e| (e.kind, e.tag)).collect();
    assert_eq!(
        tags,
        vec![
            (Kind::Access, Tag::UserObj),
            (Kind::Access, Tag::GroupObj),
            (Kind::Access, Tag::Other),
            (Kind::Default, Tag::UserObj),
            (Kind::Default, Tag::GroupObj),
            (Kind::Default, Tag::Other),
        ]
    );
    assert!(!m.dirty());
}

#[test]
fn revert_discards_staged() {
    let mut m = Model::load("/tmp/f".to_string(), true, plain_file(0o644));
    m.staged.set(Kind::Access, Tag::User, 42, P_R);
    assert!(m.dirty());
    m.revert();
    assert!(!m.dirty());
}

#[test]
fn dirty_ignores_order_but_sees_owner() {
    let mut m = Model::load("/tmp/f".to_string(), true, plain_file(0o644));
    m.staged.0.reverse();
    assert!(!m.dirty());
    m.staged_owner = 7;
    assert!(m.dirty());
}

#[test]
fn copy_access_to_default_on_directories_only() {
    let mut f = Model::load("/tmp/f".to_string(), true, plain_file(0o644));
    f.copy_access_to_default();
    assert_eq!(f.staged.count_named(Kind::Default), 0);
    assert_eq!(f.staged.0.len(), 3);

    let mut d = Model::load("/tmp/d".to_string(), true, directory(0o750, None, None));
    d.staged.set(Kind::Access, Tag::User, 0, P_ALL);
    d.copy_access_to_default();
    assert_eq!(d.staged.0.len(), 8);
    let i = d.staged.find(Kind::Default, Tag::User, 0).unwrap();
    assert_eq!(d.staged.0[i].perms, P_ALL);
    d.remove_default();
    assert_eq!(d.staged.0.len(), 4);
}

#[test]
fn apply_stages_auto_mask_validates_and_sorts() {
    let mut m = Model::load("/tmp/f".to_string(), true, plain_file(0o644));
    m.staged.set(Kind::Access, Tag::User, 0, P_R | P_X);
    let mut rep = Report::default();
    let change = m.apply_begin(&mut rep).unwrap();
    assert_eq!(change, OwnerChange { uid: None, gid: None });
    let i = m.staged.find(Kind::Access, Tag::Mask, 0).unwrap();
    assert_eq!(m.staged.0[i].perms, P_R | P_X);
    assert_eq!(m.staged.0[1].tag, Tag::User); // canonical order
    assert!(rep.record_write(&m.path, default_step(&m.staged, false), Ok(()), Ok(())));
    rep.object_done(false);
    m.apply_finish(&rep).unwrap();
    assert_eq!(rep.objects, 1);
    assert!(!m.dirty());
}

#[test]
fn apply_refusals_are_reported() {
    let mut p = plain_file(0o644);
    p.access_acl = Err(EOPNOTSUPP);
    let mut m = Model::load("/x".to_string(), true, p);
    let mut rep = Report::default();
    assert!(m.apply_begin(&mut rep).is_err());
    assert_eq!(rep.failures, 1);
    assert_eq!(rep.errors[0].errno, EOPNOTSUPP);
    assert_eq!(rep.errors[0].what, "filesystem has no ACL support");

    let mut m = Model::load("/y".to_string(), true, plain_file(0o644));
    m.auto_mask = false;
    m.staged.set(Kind::Access, Tag::Group, 9, P_R);
    let mut rep = Report::default();
    assert!(m.apply_begin(&mut rep).is_err());
    assert_eq!(rep.errors[0].errno, EINVAL);
    assert_eq!(rep.errors[0].what, "validation");
}

#[test]
fn owner_change_and_failures() {
    let mut m = Model::load("/tmp/f".to_string(), true, plain_file(0o644));
    m.staged_owner = 0;
    let mut rep = Report::default();
    assert_eq!(m.apply_begin(&mut rep).unwrap(), OwnerChange { uid: Some(0), gid: None });
    m.apply_owner_result(Err(EPERM), &mut rep);
    assert_eq!(rep.errors[0].what, "chown");
    assert!(m.apply_finish(&rep).is_err());
    m.apply_owner_result(Ok(()), &mut rep);
    assert_eq!(m.owner, 0);
}

#[test]
fn write_outcomes() {
    let path = "/d".to_string();
    let mut rep = Report::default();
    assert!(rep.record_write(&path, DefaultStep::Remove, Ok(()), Err(EOPNOTSUPP)));
    assert!(rep.record_write(&path, DefaultStep::Remove, Ok(()), Err(ENOENT)));
    assert_eq!(rep.failures, 0);
    assert!(!rep.record_write(&path, DefaultStep::Remove, Ok(()), Err(EACCES)));
    assert!(!rep.record_write(&path, DefaultStep::Write, Err(EACCES), Err(EACCES)));
    assert_eq!(rep.failures, 3);
    assert!(rep.record_write(&path, DefaultStep::Skip, Ok(()), Err(EACCES)));
    let whats: Vec<&str> = rep.errors.iter().map(|e| e.what).collect();
    assert_eq!(whats, vec!["remove default acl", "set access acl", "set default acl"]);
}

#[test]
fn default_steps() {
    let mut l = mode_to_entries(0o755);
    assert_eq!(default_step(&l, false), DefaultStep::Skip);
    assert_eq!(default_step(&l, true), DefaultStep::Remove);
    l.set(Kind::Default, Tag::UserObj, 0, P_ALL);
    assert_eq!(default_step(&l, true), DefaultStep::Write);
}

#[test]
fn report_keeps_at_most_1000_details() {
    let mut rep = Report::default();
    let p = "/p".to_string();
    for _ in 0..1005 {
        rep.add(&p, 5, "read directory");
    }
    assert_eq!(rep.failures, 1005);
    assert_eq!(rep.errors.len(), MAX_ERRORS);
}

#[test]
fn counting_steps() {
    // root, a, b, f1, f2, f3 and a symlink: six objects
    let mut n = 0;
    for is_symlink in [false, false, false, true, false, false, false] {
        let (next, stop) = count_step(n, 0, is_symlink);
        n = next;
        assert!(!stop);
    }
    assert_eq!(n, 6);
    assert_eq!(count_step(2, 3, false), (3, true));
    assert_eq!(count_step(2, 3, true), (2, false));
}

#[test]
fn mode_bits_to_entries() {
    let l = mode_to_entries(0o751);
    let perms: Vec<u8> = l.0.iter().map(|e| e.perms).collect();
    assert_eq!(perms, vec![P_ALL, P_R | P_X, P_X]);
}

#[test]
fn removing_an_entry_remasks_when_armed() {
    let mut m = Model::load("/tmp/f".to_string(), true, plain_file(0o640));
    m.staged.set(Kind::Access, Tag::User, 42, P_R | P_W);
    m.staged.set(Kind::Access, Tag::Mask, 0, P_R | P_W);
    m.staged.sort_canonical();
    let named = m.staged.find(Kind::Access, Tag::User, 42).unwrap();
    m.remove_staged(named);
    // no named entries left: auto-mask drops nothing and adds nothing, the
    // mask stays as it was
    assert!(m.staged.find(Kind::Access, Tag::User, 42).is_none());
    let before = m.staged.clone();
    m.remove_staged(99);
    assert_eq!(m.staged, before);

    let mut m = Model::load("/tmp/f".to_string(), true, plain_file(0o640));
    m.staged.set(Kind::Access, Tag::User, 42, P_X);
    m.staged.set(Kind::Access, Tag::User, 43, P_W);
    m.staged.set(Kind::Access, Tag::Mask, 0, P_ALL);
    m.staged.sort_canonical();
    let i = m.staged.find(Kind::Access, Tag::User, 43).unwrap();
    m.remove_staged(i);
    let mask = m.staged.find(Kind::Access, Tag::Mask, 0).unwrap();
    // group r (0o640) and user 42 --x remain: the mask becomes r-x
    assert_eq!(m.staged.0[mask].perms, P_R | P_X);

    m.auto_mask = false;
    let j = m.staged.find(Kind::Access, Tag::User, 42).unwrap();
    m.remove_staged(j);
    assert_eq!(m.staged.0[m.staged.find(Kind::Access, Tag::Mask, 0).unwrap()].perms, P_R | P_X);
}

#[test]
fn arming_auto_mask_recalculates_both_masks() {
    let mut m = Model::load("/tmp/f".to_string(), true, plain_file(0o600));
    m.auto_mask = false;
    m.staged.set(Kind::Access, Tag::User, 42, P_W);
    m.set_auto_mask(false);
    assert!(m.staged.find(Kind::Access, Tag::Mask, 0).is_none());
    m.set_auto_mask(true);
    assert!(m.auto_mask);
    let mask = m.staged.find(Kind::Access, Tag::Mask, 0).unwrap();
    // group ---, user 42 -w-
    assert_eq!(m.staged.0[mask].perms, P_W);
}

#[test]
fn walk_items_skip_symlinks_and_book_failures() {
    let root = "/srv".to_string();
    let mut rep = Report::default();
    assert_eq!(rep.walk_item(&root, Ok((true, false))), Some(true));
    assert_eq!(rep.walk_item(&root, Ok((false, false))), Some(false));
    assert_eq!(rep.walk_item(&root, Ok((false, true))), None);
    assert_eq!(rep.failures, 0);
    assert_eq!(rep.walk_item(&root, Err((Some("/srv/locked".to_string()), Some(EACCES)))), None);
    assert_eq!(rep.walk_item(&root, Err((None, None))), None);
    assert_eq!(rep.failures, 2);
    assert_eq!(rep.errors[0].path, "/srv/locked");
    assert_eq!(rep.errors[0].errno, EACCES);
    assert_eq!(rep.errors[0].what, "read directory");
    assert_eq!(rep.errors[1].path, "/srv");
    assert_eq!(rep.errors[1].errno, 5);
}

#[test]
fn apply_and_load_decisions() {
    let dir = FileStat { mode: 0o040755, uid: 0, gid: 0 };
    let file = FileStat { mode: 0o100644, uid: 0, gid: 0 };
    assert!(wants_default_acl(&dir, &Ok(None)));
    assert!(wants_default_acl(&dir, &Ok(Some(vec![]))));
    assert!(!wants_default_acl(&dir, &Err(EOPNOTSUPP)));
    assert!(!wants_default_acl(&file, &Ok(None)));

    assert!(!OwnerChange { uid: None, gid: None }.needed());
    assert!(OwnerChange { uid: Some(1), gid: None }.needed());
    assert!(OwnerChange { uid: None, gid: Some(1) }.needed());

    let mut m = Model::load("/d".to_string(), true, directory(0o755, None, None));
    assert!(!m.walks_tree());
    m.recursive = true;
    assert!(m.walks_tree());
    let mut f = Model::load("/f".to_string(), true, plain_file(0o644));
    f.recursive = true;
    assert!(!f.walks_tree());
}

#[test]
fn leaving_asks_only_about_staged_changes() {
    let mut m = Model::load("/f".to_string(), true, plain_file(0o644));
    assert!(m.leave(false));
    m.staged.set(Kind::Access, Tag::User, 42, P_R);
    let staged = m.staged.clone();
    assert!(!m.leave(false));
    assert_eq!(m.staged, staged);
    assert!(m.leave(true));
    assert!(!m.dirty());
    assert_eq!(m.staged, m.current);
}

#[test]
fn default_flag_follows_default_entries() {
    let d = vec![Entry { kind: Kind::Default, tag: Tag::UserObj, id: 0, perms: P_ALL }];
    let m = Model::load("/d".to_string(), true, directory(0o755, None, Some(d)));
    assert!(m.has_default_acl);
    assert!(m.current.0.iter().any(|e| e.kind == Kind::Default));
    let m = Model::load("/d".to_string(), true, directory(0o755, None, Some(vec![])));
    assert!(!m.has_default_acl);
}
