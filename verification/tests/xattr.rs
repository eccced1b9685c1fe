use winfacl::acl::errno::EINVAL;
use winfacl::acl::model::{EntryList, Kind, Tag, P_ALL, P_R, P_W, P_X};
use winfacl::acl::xattr::{attr_name, decode, encode, UNDEFINED_ID};

#[test]
fn encode_decode_roundtrip() {
    let mut l = EntryList::new();
    l.set(Kind::Access, Tag::UserObj, 0, P_R | P_W);
    l.set(Kind::Access, Tag::User, 4242, P_ALL);
    l.set(Kind::Access, Tag::GroupObj, 0, P_R);
    l.set(Kind::Access, Tag::Group, 999, P_X);
    l.set(Kind::Access, Tag::Mask, 0, P_ALL);
    l.set(Kind::Access, Tag::Other, 0, 0);
    l.set(Kind::Default, Tag::UserObj, 0, P_ALL); // must be excluded

    let blob = encode(&l.0, Kind::Access);
    assert_eq!(blob.len(), 4 + 6 * 8);
    assert_eq!(&blob[0..4], &2u32.to_le_bytes());

    let back = decode(&blob, Kind::Access).unwrap();
    assert_eq!(back.len(), 6);
    let mut expect = l.clone();
    expect.0.retain(|e| e.kind == Kind::Access);
    assert_eq!(back, expect.0);
}

#[test]
fn decode_rejects_garbage() {
    assert!(decode(&[1, 0, 0, 0], Kind::Access).is_err()); // bad version
    assert!(decode(&[2, 0, 0, 0, 9], Kind::Access).is_err()); // torn entry
}

#[test]
fn decode_errors_are_einval() {
    assert_eq!(decode(&[], Kind::Access), Err(EINVAL));
    assert_eq!(decode(&[2, 0, 0], Kind::Access), Err(EINVAL));
    assert_eq!(decode(&[3, 0, 0, 0], Kind::Default), Err(EINVAL));
    assert_eq!(decode(&[2, 0, 0, 0], Kind::Default), Ok(vec![]));
}

#[test]
fn wire_layout_of_one_entry() {
    let mut l = EntryList::new();
    l.set(Kind::Default, Tag::Group, 0x0102_0304, P_R | P_X);
    l.set(Kind::Default, Tag::Mask, 77, P_W);
    let blob = encode(&l.0, Kind::Default);
    assert_eq!(
        blob,
        vec![2, 0, 0, 0, 0x08, 0, 5, 0, 4, 3, 2, 1, 0x10, 0, 2, 0, 0xFF, 0xFF, 0xFF, 0xFF]
    );
    assert_eq!(UNDEFINED_ID, 0xFFFF_FFFF);
}

#[test]
fn decode_skips_unknown_tags_and_masks_perms() {
    let blob = vec![
        2, 0, 0, 0, // version
        0x40, 0, 7, 0, 1, 0, 0, 0, // unknown tag: skipped
        0x02, 0, 0xFF, 0, 0xE8, 0x03, 0, 0, // user 1000, perms 0xFF -> rwx
        0x20, 0, 4, 0, 0xFF, 0xFF, 0xFF, 0xFF, // other r--
    ];
    let es = decode(&blob, Kind::Access).unwrap();
    assert_eq!(es.len(), 2);
    assert_eq!((es[0].tag, es[0].id, es[0].perms), (Tag::User, 1000, P_ALL));
    assert_eq!((es[1].tag, es[1].id, es[1].perms), (Tag::Other, 0, P_R));
}

#[test]
fn attribute_names() {
    assert_eq!(attr_name(Kind::Access), "system.posix_acl_access");
    assert_eq!(attr_name(Kind::Default), "system.posix_acl_default");
}
