//! The `system.posix_acl_access` / `system.posix_acl_default` extended
//! attribute format -- the kernel ABI libacl uses.
//!
//! Wire format (little-endian): u32 version (= 2), then per entry
//! u16 tag, u16 perms, u32 qualifier (0xFFFF_FFFF when not named).
use vstd::prelude::*;
use vstd::bytes::{spec_u16_to_le_bytes, spec_u16_from_le_bytes, spec_u32_to_le_bytes,
    spec_u32_from_le_bytes, u16_to_le_bytes, u16_from_le_bytes, u32_to_le_bytes, u32_from_le_bytes,
    lemma_auto_spec_u16_to_from_le_bytes, lemma_auto_spec_u32_to_from_le_bytes};
use vstd::slice::slice_subrange;
use super::errno::EINVAL;
use super::model::{Entry, Kind, Tag, tag_named, P_ALL};

verus! {

pub const ACL_EA_VERSION: u32 = 2;
pub const UNDEFINED_ID: u32 = 0xFFFF_FFFF;

const TAG_USER_OBJ: u16 = 0x01;
const TAG_USER: u16 = 0x02;
const TAG_GROUP_OBJ: u16 = 0x04;
const TAG_GROUP: u16 = 0x08;
const TAG_MASK: u16 = 0x10;
const TAG_OTHER: u16 = 0x20;

pub open spec fn tag_code(t: Tag) -> u16 {
    match t {
        Tag::UserObj => 0x01,
        Tag::User => 0x02,
        Tag::GroupObj => 0x04,
        Tag::Group => 0x08,
        Tag::Mask => 0x10,
        Tag::Other => 0x20,
    }
}

/// The tag a wire code stands for; other codes are unknown.
pub open spec fn tag_of_code(c: u16) -> Option<Tag> {
    if c == 0x01 {
        Some(Tag::UserObj)
    } else if c == 0x02 {
        Some(Tag::User)
    } else if c == 0x04 {
        Some(Tag::GroupObj)
    } else if c == 0x08 {
        Some(Tag::Group)
    } else if c == 0x10 {
        Some(Tag::Mask)
    } else if c == 0x20 {
        Some(Tag::Other)
    } else {
        None
    }
}

/// The eight bytes of one entry.
pub open spec fn wire_entry(e: Entry) -> Seq<u8> {
    spec_u16_to_le_bytes(tag_code(e.tag)) + spec_u16_to_le_bytes((e.perms & P_ALL) as u16)
        + spec_u32_to_le_bytes(if tag_named(e.tag) { e.id } else { UNDEFINED_ID })
}

/// The entries of `kind`, one after the other.
pub open spec fn wire_body(s: Seq<Entry>, kind: Kind) -> Seq<u8>
    decreases s.len(),
{
    if s.len() == 0 {
        Seq::empty()
    } else {
        wire_body(s.drop_last(), kind) + if s.last().kind == kind {
            wire_entry(s.last())
        } else {
            Seq::empty()
        }
    }
}

/// The attribute value that holds the entries of `kind`.
pub open spec fn encode_spec(s: Seq<Entry>, kind: Kind) -> Seq<u8> {
    spec_u32_to_le_bytes(ACL_EA_VERSION) + wire_body(s, kind)
}

/// The entry held by the `k`-th eight-byte record, if its tag is known.
pub open spec fn record_entry(blob: Seq<u8>, kind: Kind, k: int) -> Seq<Entry> {
    let off = 4 + 8 * k;
    let tag_raw = spec_u16_from_le_bytes(blob.subrange(off, off + 2));
    let perms = (spec_u16_from_le_bytes(blob.subrange(off + 2, off + 4)) & 7) as u8;
    let id = spec_u32_from_le_bytes(blob.subrange(off + 4, off + 8));
    match tag_of_code(tag_raw) {
        Some(t) => seq![Entry { kind, tag: t, id: if tag_named(t) { id } else { 0 }, perms }],
        None => Seq::empty(),
    }
}

/// The entries held by the first `n` records; unknown tags are skipped.
pub open spec fn records(blob: Seq<u8>, kind: Kind, n: int) -> Seq<Entry>
    decreases n,
{
    if n <= 0 {
        Seq::empty()
    } else {
        records(blob, kind, n - 1) + record_entry(blob, kind, n - 1)
    }
}

/// A well-formed blob: a version-2 header and whole records.
pub open spec fn blob_ok(blob: Seq<u8>) -> bool {
    &&& blob.len() >= 4
    &&& (blob.len() - 4) % 8 == 0
    &&& spec_u32_from_le_bytes(blob.subrange(0, 4)) == ACL_EA_VERSION
}

pub open spec fn decode_spec(blob: Seq<u8>, kind: Kind) -> Result<Seq<Entry>, i32> {
    if blob_ok(blob) {
        Ok(records(blob, kind, (blob.len() - 4) / 8))
    } else {
        Err(EINVAL)
    }
}

/// What an entry of `kind` looks like after a trip through the wire format:
/// base tags lose their qualifier and only the rwx bits survive.
pub open spec fn wire_normal(e: Entry) -> Entry {
    Entry { id: if tag_named(e.tag) { e.id } else { 0 }, perms: e.perms & P_ALL, ..e }
}

/// The entries of `kind`, normalised as the wire format keeps them.
pub open spec fn kept_entries(s: Seq<Entry>, kind: Kind) -> Seq<Entry>
    decreases s.len(),
{
    if s.len() == 0 {
        Seq::empty()
    } else {
        kept_entries(s.drop_last(), kind) + if s.last().kind == kind {
            seq![wire_normal(s.last())]
        } else {
            Seq::empty()
        }
    }
}

/// Name of the extended attribute that holds the ACL of `kind`.
pub fn attr_name(kind: Kind) -> (name: &'static str)
    ensures
        name@ == (match kind {
            Kind::Access => "system.posix_acl_access"@,
            Kind::Default => "system.posix_acl_default"@,
        }),
{
    match kind {
        Kind::Access => "system.posix_acl_access",
        Kind::Default => "system.posix_acl_default",
    }
}

fn tag_code_exec(t: Tag) -> (c: u16)
    ensures
        c == tag_code(t),
{
    match t {
        Tag::UserObj => TAG_USER_OBJ,
        Tag::User => TAG_USER,
        Tag::GroupObj => TAG_GROUP_OBJ,
        Tag::Group => TAG_GROUP,
        Tag::Mask => TAG_MASK,
        Tag::Other => TAG_OTHER,
    }
}

fn tag_of_code_exec(c: u16) -> (t: Option<Tag>)
    ensures
        t == tag_of_code(c),
{
    if c == TAG_USER_OBJ {
        Some(Tag::UserObj)
    } else if c == TAG_USER {
        Some(Tag::User)
    } else if c == TAG_GROUP_OBJ {
        Some(Tag::GroupObj)
    } else if c == TAG_GROUP {
        Some(Tag::Group)
    } else if c == TAG_MASK {
        Some(Tag::Mask)
    } else if c == TAG_OTHER {
        Some(Tag::Other)
    } else {
        None
    }
}

/// Decode the xattr blob into entries of `kind`. A short blob, a torn
/// record or a version other than 2 is `EINVAL`; records with an unknown
/// tag are skipped.
#[verifier::rlimit(40)]
pub fn decode(blob: &[u8], kind: Kind) -> (r: Result<Vec<Entry>, i32>)
    ensures
        match r {
            Ok(v) => decode_spec(blob@, kind) == Ok::<Seq<Entry>, i32>(v@),
            Err(e) => decode_spec(blob@, kind) == Err::<Seq<Entry>, i32>(e),
        },
{
    let len: usize = blob.len();
    if len < 4 || (len - 4) % 8 != 0 {
        return Err(EINVAL);
    }
    let version: u32 = u32_from_le_bytes(slice_subrange(blob, 0, 4));
    if version != ACL_EA_VERSION {
        return Err(EINVAL);
    }
    let n: usize = (len - 4) / 8;
    let mut out: Vec<Entry> = Vec::new();
    let mut k: usize = 0;
    while k < n
        invariant
            len == blob@.len(),
            n == (len - 4) / 8,
            len >= 4,
            (len - 4) % 8 == 0,
            k <= n,
            out@ == records(blob@, kind, k as int),
        decreases n - k,
    {
        let off: usize = 4 + 8 * k;
        let tag_raw: u16 = u16_from_le_bytes(slice_subrange(blob, off, off + 2));
        let perms: u8 = (u16_from_le_bytes(slice_subrange(blob, off + 2, off + 4)) & 7) as u8;
        let id: u32 = u32_from_le_bytes(slice_subrange(blob, off + 4, off + 8));
        match tag_of_code_exec(tag_raw) {
            Some(t) => {
                let qualifier: u32 = if t.is_named() { id } else { 0 };
                out.push(Entry { kind, tag: t, id: qualifier, perms });
            },
            None => {},
        }
        proof {
            assert(out@ =~= records(blob@, kind, k as int) + record_entry(blob@, kind, k as int));
        }
        k = k + 1;
    }
    Ok(out)
}

/// Encode every entry of `kind` into the xattr wire format.
pub fn encode(entries: &[Entry], kind: Kind) -> (blob: Vec<u8>)
    ensures
        blob@ == encode_spec(entries@, kind),
{
    let mut out: Vec<u8> = u32_to_le_bytes(ACL_EA_VERSION);
    let n: usize = entries.len();
    let mut i: usize = 0;
    while i < n
        invariant
            n == entries@.len(),
            i <= n,
            out@ == spec_u32_to_le_bytes(ACL_EA_VERSION) + wire_body(entries@.take(i as int), kind),
        decreases n - i,
    {
        proof {
            assert(entries@.take(i + 1).drop_last() =~= entries@.take(i as int));
        }
        let e: Entry = entries[i];
        if e.kind == kind {
            let mut tag: Vec<u8> = u16_to_le_bytes(tag_code_exec(e.tag));
            let mut perms: Vec<u8> = u16_to_le_bytes((e.perms & P_ALL) as u16);
            let qualifier: u32 = if e.tag.is_named() { e.id } else { UNDEFINED_ID };
            let mut id: Vec<u8> = u32_to_le_bytes(qualifier);
            out.append(&mut tag);
            out.append(&mut perms);
            out.append(&mut id);
        }
        proof {
            let ghost t = entries@.take(i + 1);
            assert(t.last() == e);
            if e.kind == kind {
                assert(out@ =~= spec_u32_to_le_bytes(ACL_EA_VERSION) + wire_body(t, kind));
            } else {
                assert(out@ =~= spec_u32_to_le_bytes(ACL_EA_VERSION) + wire_body(t, kind));
            }
        }
        i = i + 1;
    }
    proof {
        assert(entries@.take(n as int) =~= entries@);
    }
    out
}

proof fn lemma_wire_body_len(s: Seq<Entry>, kind: Kind)
    ensures
        wire_body(s, kind).len() == 8 * kept_entries(s, kind).len(),
    decreases s.len(),
{
    lemma_auto_spec_u16_to_from_le_bytes();
    lemma_auto_spec_u32_to_from_le_bytes();
    if s.len() > 0 {
        lemma_wire_body_len(s.drop_last(), kind);
    }
}

proof fn lemma_records_prefix(b1: Seq<u8>, b2: Seq<u8>, kind: Kind, n: int)
    requires
        0 <= n,
        b1.len() >= 4 + 8 * n,
    ensures
        records(b1 + b2, kind, n) == records(b1, kind, n),
    decreases n,
{
    if n > 0 {
        lemma_records_prefix(b1, b2, kind, n - 1);
        let off = 4 + 8 * (n - 1);
        assert((b1 + b2).subrange(off, off + 2) =~= b1.subrange(off, off + 2));
        assert((b1 + b2).subrange(off + 2, off + 4) =~= b1.subrange(off + 2, off + 4));
        assert((b1 + b2).subrange(off + 4, off + 8) =~= b1.subrange(off + 4, off + 8));
    }
}

proof fn lemma_tag_code_roundtrip(t: Tag)
    ensures
        tag_of_code(tag_code(t)) == Some(t),
{
}

proof fn lemma_perm_bits(p: u8)
    ensures
        (((p & 7) as u16) & 7) as u8 == p & 7,
{
    assert((((p & 7) as u16) & 7) as u8 == p & 7) by (bit_vector);
}

proof fn lemma_records_of_encoding(s: Seq<Entry>, kind: Kind)
    ensures
        encode_spec(s, kind).len() == 4 + 8 * kept_entries(s, kind).len(),
        records(encode_spec(s, kind), kind, kept_entries(s, kind).len() as int) == kept_entries(s, kind),
    decreases s.len(),
{
    lemma_auto_spec_u16_to_from_le_bytes();
    lemma_auto_spec_u32_to_from_le_bytes();
    lemma_wire_body_len(s, kind);
    if s.len() == 0 {
        assert(records(encode_spec(s, kind), kind, 0) =~= kept_entries(s, kind));
    } else {
        let d = s.drop_last();
        let e = s.last();
        lemma_records_of_encoding(d, kind);
        lemma_wire_body_len(d, kind);
        let b1 = encode_spec(d, kind);
        let nd = kept_entries(d, kind).len() as int;
        if e.kind == kind {
            let w = wire_entry(e);
            assert(encode_spec(s, kind) =~= b1 + w);
            lemma_records_prefix(b1, w, kind, nd);
            let blob = b1 + w;
            let off = 4 + 8 * nd;
            assert(off == b1.len());
            let tb = spec_u16_to_le_bytes(tag_code(e.tag));
            let pb = spec_u16_to_le_bytes((e.perms & P_ALL) as u16);
            let ib = spec_u32_to_le_bytes(if tag_named(e.tag) { e.id } else { UNDEFINED_ID });
            assert(blob.subrange(off, off + 2) =~= tb);
            assert(blob.subrange(off + 2, off + 4) =~= pb);
            assert(blob.subrange(off + 4, off + 8) =~= ib);
            lemma_tag_code_roundtrip(e.tag);
            lemma_perm_bits(e.perms);
            assert(record_entry(blob, kind, nd) =~= seq![wire_normal(e)]);
            assert(records(blob, kind, nd + 1) =~= kept_entries(s, kind));
        } else {
            assert(encode_spec(s, kind) =~= b1);
        }
    }
}

/// Decoding what `encode` wrote gives back exactly the entries of `kind`,
/// in order, as the wire format keeps them.
pub proof fn lemma_decode_encode_roundtrip(s: Seq<Entry>, kind: Kind)
    ensures
        decode_spec(encode_spec(s, kind), kind) == Ok::<Seq<Entry>, i32>(kept_entries(s, kind)),
{
    lemma_auto_spec_u32_to_from_le_bytes();
    lemma_records_of_encoding(s, kind);
    let blob = encode_spec(s, kind);
    assert(blob.subrange(0, 4) =~= spec_u32_to_le_bytes(ACL_EA_VERSION));
    let n = kept_entries(s, kind).len() as int;
    assert((blob.len() - 4) / 8 == n) by (nonlinear_arith)
        requires blob.len() == 4 + 8 * n, n >= 0;
    assert((blob.len() - 4) % 8 == 0) by (nonlinear_arith)
        requires blob.len() == 4 + 8 * n, n >= 0;
}


/// The wire encoding of a single entry of `kind`: the version-2 header,
/// then the entry's tag code as the kernel numbers them (user_obj 0x01,
/// user 0x02, group_obj 0x04, group 0x08, mask 0x10, other 0x20), its rwx
/// bits, and its qualifier (0xFFFF_FFFF for a base entry), each little-endian.
pub proof fn lemma_encode_one_entry(e: Entry)
    ensures
        ({
            let b = encode_spec(seq![e], e.kind);
            &&& b.len() == 12
            &&& spec_u32_from_le_bytes(b.subrange(0, 4)) == 2
            &&& spec_u16_from_le_bytes(b.subrange(4, 6)) == match e.tag {
                Tag::UserObj => 0x01u16,
                Tag::User => 0x02u16,
                Tag::GroupObj => 0x04u16,
                Tag::Group => 0x08u16,
                Tag::Mask => 0x10u16,
                Tag::Other => 0x20u16,
            }
            &&& spec_u16_from_le_bytes(b.subrange(6, 8)) == (e.perms & 7) as u16
            &&& spec_u32_from_le_bytes(b.subrange(8, 12)) == if e.tag == Tag::User || e.tag == Tag::Group {
                e.id
            } else {
                0xFFFF_FFFFu32
            }
        }),
{
    lemma_auto_spec_u16_to_from_le_bytes();
    lemma_auto_spec_u32_to_from_le_bytes();
    let s = seq![e];
    assert(s.drop_last() =~= Seq::<Entry>::empty());
    assert(s.last() == e);
    assert(wire_body(s.drop_last(), e.kind) == Seq::<u8>::empty());
    assert(wire_body(s, e.kind) =~= wire_entry(e));
    let b = encode_spec(s, e.kind);
    let h = spec_u32_to_le_bytes(ACL_EA_VERSION);
    let t = spec_u16_to_le_bytes(tag_code(e.tag));
    let p = spec_u16_to_le_bytes((e.perms & P_ALL) as u16);
    let q = spec_u32_to_le_bytes(if tag_named(e.tag) { e.id } else { UNDEFINED_ID });
    assert(b =~= h + t + p + q);
    assert(b.subrange(0, 4) =~= h);
    assert(b.subrange(4, 6) =~= t);
    assert(b.subrange(6, 8) =~= p);
    assert(b.subrange(8, 12) =~= q);
    let x = e.perms;
    assert(((x & 7) as u16) == (x & 7) as u16);
}

/// How a record is read: a tag field holding one of the kernel's codes
/// (0x01 user_obj, 0x02 user, 0x04 group_obj, 0x08 group, 0x10 mask,
/// 0x20 other) gives one entry with that tag, of the kind read, with the
/// record's rwx bits, and with the qualifier for named tags only (0 for
/// base tags); any other code gives nothing.
pub proof fn lemma_decode_record(blob: Seq<u8>, kind: Kind, k: int)
    ensures
        ({
            let off = 4 + 8 * k;
            let code = spec_u16_from_le_bytes(blob.subrange(off, off + 2));
            let perms = (spec_u16_from_le_bytes(blob.subrange(off + 2, off + 4)) & 7) as u8;
            let id = spec_u32_from_le_bytes(blob.subrange(off + 4, off + 8));
            let r = record_entry(blob, kind, k);
            let known = code == 0x01 || code == 0x02 || code == 0x04 || code == 0x08 || code == 0x10 || code == 0x20;
            &&& !known ==> r.len() == 0
            &&& known ==> r.len() == 1 && r[0].kind == kind && r[0].perms == perms
            &&& code == 0x01 ==> r[0].tag == Tag::UserObj && r[0].id == 0
            &&& code == 0x02 ==> r[0].tag == Tag::User && r[0].id == id
            &&& code == 0x04 ==> r[0].tag == Tag::GroupObj && r[0].id == 0
            &&& code == 0x08 ==> r[0].tag == Tag::Group && r[0].id == id
            &&& code == 0x10 ==> r[0].tag == Tag::Mask && r[0].id == 0
            &&& code == 0x20 ==> r[0].tag == Tag::Other && r[0].id == 0
        }),
{
}

} // verus!
