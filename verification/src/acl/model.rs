//! UI-free POSIX.1e ACL model: an editable entry list with canonical
//! ordering, mask handling, validation and effective-access evaluation.
use vstd::prelude::*;
use vstd::utf8::encode_utf8;
use super::names::{uid_name, gid_name, display_name_spec};
use crate::sorting::{stable_sort, total_preorder, sorted_by, lemma_insert_at, lemma_stable_sort_sorted,
    lemma_stable_sort_multiset, lemma_stable_sort_idempotent};

verus! {

pub const P_R: u8 = 0x4;
pub const P_W: u8 = 0x2;
pub const P_X: u8 = 0x1;
pub const P_ALL: u8 = 0x7;

#[derive(Debug, Clone, Copy, PartialEq, Eq, Structural, PartialOrd, Ord)]
pub enum Kind {
    Access,
    Default,
}

/// Declaration order is the canonical POSIX.1e ordering.
#[derive(Debug, Clone, Copy, PartialEq, Eq, Structural, PartialOrd, Ord)]
pub enum Tag {
    UserObj,
    User,
    GroupObj,
    Group,
    Mask,
    Other,
}

#[derive(Debug, Clone, Copy, PartialEq, Eq, Structural)]
pub struct Entry {
    pub kind: Kind,
    pub tag: Tag,
    /// uid for `Tag::User`, gid for `Tag::Group`, 0 otherwise.
    pub id: u32,
    pub perms: u8,
}

#[derive(Debug, Clone, Default, PartialEq, Eq)]
pub struct EntryList(pub Vec<Entry>);

impl View for EntryList {
    type V = Seq<Entry>;

    open spec fn view(&self) -> Seq<Entry> {
        self.0@
    }
}

/// Named entries (`user:NAME`, `group:NAME`) carry a qualifier.
pub open spec fn tag_named(t: Tag) -> bool {
    t == Tag::User || t == Tag::Group
}

impl Tag {
    pub fn is_named(self) -> (b: bool)
        ensures
            b == tag_named(self),
    {
        match self {
            Tag::User | Tag::Group => true,
            _ => false,
        }
    }
}

pub open spec fn kind_rank(k: Kind) -> int {
    match k {
        Kind::Access => 0,
        Kind::Default => 1,
    }
}

pub open spec fn tag_rank(t: Tag) -> int {
    match t {
        Tag::UserObj => 0,
        Tag::User => 1,
        Tag::GroupObj => 2,
        Tag::Group => 3,
        Tag::Mask => 4,
        Tag::Other => 5,
    }
}

/// The canonical order: by kind, then tag, then qualifier.
pub open spec fn entry_le(a: Entry, b: Entry) -> bool {
    ||| kind_rank(a.kind) < kind_rank(b.kind)
    ||| kind_rank(a.kind) == kind_rank(b.kind) && tag_rank(a.tag) < tag_rank(b.tag)
    ||| kind_rank(a.kind) == kind_rank(b.kind) && tag_rank(a.tag) == tag_rank(b.tag) && a.id <= b.id
}

pub open spec fn canonical_le() -> spec_fn(Entry, Entry) -> bool {
    |a: Entry, b: Entry| entry_le(a, b)
}

/// `s` in canonical order; entries with the same key keep their order.
pub open spec fn canonical(s: Seq<Entry>) -> Seq<Entry> {
    stable_sort(s, canonical_le())
}

/// The principal an entry stands for: kind and tag, plus the id for named tags.
pub open spec fn same_principal(e: Entry, kind: Kind, tag: Tag, id: u32) -> bool {
    e.kind == kind && e.tag == tag && (!tag_named(tag) || e.id == id)
}

/// First index at or after `start` whose entry stands for the principal.
pub open spec fn find_from(s: Seq<Entry>, kind: Kind, tag: Tag, id: u32, start: int) -> Option<int>
    decreases s.len() - start,
{
    if start < 0 || start >= s.len() {
        None
    } else if same_principal(s[start], kind, tag, id) {
        Some(start)
    } else {
        find_from(s, kind, tag, id, start + 1)
    }
}

pub open spec fn find_spec(s: Seq<Entry>, kind: Kind, tag: Tag, id: u32) -> Option<int> {
    find_from(s, kind, tag, id, 0)
}

/// The entry that `set` creates for a new principal.
pub open spec fn fresh_entry(kind: Kind, tag: Tag, id: u32, perms: u8) -> Entry {
    Entry { kind, tag, id: if tag_named(tag) { id } else { 0 }, perms: perms & P_ALL }
}

/// Insert or replace: the list after `set(kind, tag, id, perms)`.
pub open spec fn set_spec(s: Seq<Entry>, kind: Kind, tag: Tag, id: u32, perms: u8) -> Seq<Entry> {
    match find_spec(s, kind, tag, id) {
        Some(i) => s.update(i, Entry { perms: perms & P_ALL, ..s[i] }),
        None => s.push(fresh_entry(kind, tag, id, perms)),
    }
}

pub open spec fn counts_as_named(e: Entry, kind: Kind) -> bool {
    e.kind == kind && tag_named(e.tag)
}

/// Number of named entries of `kind`.
pub open spec fn count_named_spec(s: Seq<Entry>, kind: Kind) -> nat
    decreases s.len(),
{
    if s.len() == 0 {
        0
    } else {
        count_named_spec(s.drop_last(), kind) + if counts_as_named(s.last(), kind) { 1nat } else { 0nat }
    }
}

/// What the search from `start` finds is the first entry there for the
/// principal; when it finds nothing, no entry from `start` on is one.
pub proof fn lemma_find_from_bounds(s: Seq<Entry>, kind: Kind, tag: Tag, id: u32, start: int)
    ensures
        match find_from(s, kind, tag, id, start) {
            Some(i) => start <= i < s.len() && same_principal(s[i], kind, tag, id)
                && forall|j: int| start <= j < i ==> !same_principal(#[trigger] s[j], kind, tag, id),
            None => forall|j: int| 0 <= start <= j < s.len() ==> !same_principal(#[trigger] s[j], kind, tag, id),
        },
    decreases s.len() - start,
{
    if start < 0 || start >= s.len() {
    } else if same_principal(s[start], kind, tag, id) {
    } else {
        lemma_find_from_bounds(s, kind, tag, id, start + 1);
    }
}

/// The canonical order compares any two entries and is transitive.
pub proof fn lemma_canonical_le_total()
    ensures
        total_preorder(canonical_le()),
{
}

/// Canonical order is an ordering of the same entries.
pub proof fn lemma_canonical_sorted_permutation(s: Seq<Entry>)
    ensures
        sorted_by(canonical(s), canonical_le()),
        canonical(s).to_multiset() =~= s.to_multiset(),
        canonical(s).len() == s.len(),
{
    lemma_canonical_le_total();
    lemma_stable_sort_sorted(s, canonical_le());
    lemma_stable_sort_multiset(s, canonical_le());
}

fn kind_rank_exec(k: Kind) -> (r: u8)
    ensures
        r == kind_rank(k),
{
    match k {
        Kind::Access => 0,
        Kind::Default => 1,
    }
}

fn tag_rank_exec(t: Tag) -> (r: u8)
    ensures
        r == tag_rank(t),
{
    match t {
        Tag::UserObj => 0,
        Tag::User => 1,
        Tag::GroupObj => 2,
        Tag::Group => 3,
        Tag::Mask => 4,
        Tag::Other => 5,
    }
}

fn entry_le_exec(a: &Entry, b: &Entry) -> (r: bool)
    ensures
        r == entry_le(*a, *b),
{
    let ka: u8 = kind_rank_exec(a.kind);
    let kb: u8 = kind_rank_exec(b.kind);
    if ka != kb {
        return ka < kb;
    }
    let ta: u8 = tag_rank_exec(a.tag);
    let tb: u8 = tag_rank_exec(b.tag);
    if ta != tb {
        return ta < tb;
    }
    a.id <= b.id
}

impl EntryList {
    pub fn new() -> (l: Self)
        ensures
            l@ == Seq::<Entry>::empty(),
    {
        EntryList(Vec::new())
    }

    /// Index of the first entry for the principal; base tags ignore `id`.
    pub fn find(&self, kind: Kind, tag: Tag, id: u32) -> (r: Option<usize>)
        ensures
            match r {
                Some(i) => find_spec(self@, kind, tag, id) == Some(i as int) && i < self@.len(),
                None => find_spec(self@, kind, tag, id) is None,
            },
    {
        let named: bool = tag.is_named();
        let n: usize = self.0.len();
        let mut i: usize = 0;
        while i < n
            invariant
                n == self@.len(),
                i <= n,
                named == tag_named(tag),
                find_spec(self@, kind, tag, id) == find_from(self@, kind, tag, id, i as int),
            decreases n - i,
        {
            let e: Entry = self.0[i];
            if e.kind == kind && e.tag == tag && (!named || e.id == id) {
                return Some(i);
            }
            i = i + 1;
        }
        None
    }

    /// Insert or replace; base tags and (tag,id) pairs are unique per kind.
    pub fn set(&mut self, kind: Kind, tag: Tag, id: u32, perms: u8) -> (idx: usize)
        ensures
            final(self)@ == set_spec(old(self)@, kind, tag, id, perms),
            idx < final(self)@.len(),
            match find_spec(old(self)@, kind, tag, id) {
                Some(i) => idx == i,
                None => idx == old(self)@.len(),
            },
    {
        let perms: u8 = perms & P_ALL;
        proof {
            lemma_find_from_bounds(self@, kind, tag, id, 0);
        }
        match self.find(kind, tag, id) {
            Some(i) => {
                let mut e: Entry = self.0[i];
                e.perms = perms;
                self.0.set(i, e);
                i
            },
            None => {
                let qualifier: u32 = if tag.is_named() { id } else { 0 };
                self.0.push(Entry { kind, tag, id: qualifier, perms });
                self.0.len() - 1
            },
        }
    }

    /// Remove the entry at `idx`; an index past the end changes nothing.
    pub fn remove_at(&mut self, idx: usize)
        ensures
            final(self)@ == if idx < old(self)@.len() {
                old(self)@.remove(idx as int)
            } else {
                old(self)@
            },
    {
        if idx < self.0.len() {
            self.0.remove(idx);
        }
    }

    /// Canonical POSIX order: access before default; user_obj, users (by
    /// id), group_obj, groups (by id), mask, other.
    pub fn sort_canonical(&mut self)
        ensures
            final(self)@ == canonical(old(self)@),
    {
        let ghost input = self@;
        let n: usize = self.0.len();
        let mut out: Vec<Entry> = Vec::new();
        let mut i: usize = 0;
        while i < n
            invariant
                n == input.len(),
                self@ == input,
                i <= n,
                out@ == canonical(input.take(i as int)),
            decreases n - i,
        {
            let e: Entry = self.0[i];
            let mut pos: usize = out.len();
            while pos > 0 && !entry_le_exec(&out[pos - 1], &e)
                invariant
                    pos <= out@.len(),
                    forall|k: int| pos <= k < out@.len() ==> !entry_le(#[trigger] out@[k], e),
                decreases pos,
            {
                pos = pos - 1;
            }
            proof {
                lemma_insert_at(out@, e, canonical_le(), pos as int);
                assert(input.take(i + 1).drop_last() =~= input.take(i as int));
            }
            out.insert(pos, e);
            i = i + 1;
        }
        proof {
            assert(input.take(n as int) =~= input);
        }
        self.0 = out;
    }

    pub fn count_named(&self, kind: Kind) -> (c: usize)
        ensures
            c == count_named_spec(self@, kind),
    {
        let n: usize = self.0.len();
        let mut c: usize = 0;
        let mut i: usize = 0;
        while i < n
            invariant
                n == self@.len(),
                i <= n,
                c == count_named_spec(self@.take(i as int), kind),
                c <= i,
            decreases n - i,
        {
            proof {
                assert(self@.take(i + 1).drop_last() =~= self@.take(i as int));
            }
            if self.0[i].kind == kind && self.0[i].tag.is_named() {
                c = c + 1;
            }
            i = i + 1;
        }
        proof {
            assert(self@.take(n as int) =~= self@);
        }
        c
    }
}

/// Union of the permissions the mask has to cover: every named entry and
/// the owning group of `kind`.
pub open spec fn mask_class(e: Entry, kind: Kind) -> bool {
    e.kind == kind && (tag_named(e.tag) || e.tag == Tag::GroupObj)
}

pub open spec fn calc_mask_spec(s: Seq<Entry>, kind: Kind) -> u8
    decreases s.len(),
{
    if s.len() == 0 {
        0
    } else {
        let rest = calc_mask_spec(s.drop_last(), kind);
        if mask_class(s.last(), kind) {
            rest | s.last().perms
        } else {
            rest
        }
    }
}

/// The list after `apply_auto_mask(kind)`: a mask covering the group class
/// is set exactly when `kind` has named entries.
pub open spec fn auto_mask_spec(s: Seq<Entry>, kind: Kind) -> Seq<Entry> {
    if count_named_spec(s, kind) > 0 {
        set_spec(s, kind, Tag::Mask, 0, calc_mask_spec(s, kind))
    } else {
        s
    }
}

/// Number of entries of `kind` with tag `tag`.
pub open spec fn count_tag(s: Seq<Entry>, kind: Kind, tag: Tag) -> nat
    decreases s.len(),
{
    if s.len() == 0 {
        0
    } else {
        count_tag(s.drop_last(), kind, tag) + if s.last().kind == kind && s.last().tag == tag {
            1nat
        } else {
            0nat
        }
    }
}

/// Number of entries of `kind`.
pub open spec fn count_kind(s: Seq<Entry>, kind: Kind) -> nat
    decreases s.len(),
{
    if s.len() == 0 {
        0
    } else {
        count_kind(s.drop_last(), kind) + if s.last().kind == kind { 1nat } else { 0nat }
    }
}

/// Two named entries of `kind` for the same principal.
pub open spec fn has_duplicate_named(s: Seq<Entry>, kind: Kind) -> bool {
    exists|i: int, j: int|
        0 <= i < j < s.len() && #[trigger] counts_as_named(s[i], kind) && s[j].kind == kind
            && s[j].tag == s[i].tag && #[trigger] s[j].id == s[i].id
}

/// Why an ACL is refused.
#[derive(Debug, Clone, Copy, PartialEq, Eq, Structural)]
pub enum InvalidAcl {
    /// Default entries on something that is not a directory.
    DefaultOnFile,
    /// Not exactly one owner, owning-group and other entry, or more than one mask.
    BaseEntries(Kind),
    /// Two named entries for the same user or group.
    DuplicatePrincipal(Kind),
    /// Named entries without a mask.
    MaskRequired(Kind),
}

pub open spec fn kind_problem(s: Seq<Entry>, kind: Kind) -> Option<InvalidAcl> {
    if !(count_tag(s, kind, Tag::UserObj) == 1 && count_tag(s, kind, Tag::GroupObj) == 1
        && count_tag(s, kind, Tag::Other) == 1 && count_tag(s, kind, Tag::Mask) <= 1) {
        Some(InvalidAcl::BaseEntries(kind))
    } else if has_duplicate_named(s, kind) {
        Some(InvalidAcl::DuplicatePrincipal(kind))
    } else if count_named_spec(s, kind) > 0 && count_tag(s, kind, Tag::Mask) == 0 {
        Some(InvalidAcl::MaskRequired(kind))
    } else {
        None
    }
}

/// The first reason, if any, for which the kernel would refuse the ACL
/// pair: checked for the access ACL first, then for the default ACL when
/// there is one.
pub open spec fn acl_problem(s: Seq<Entry>, is_dir: bool) -> Option<InvalidAcl> {
    let has_default = count_kind(s, Kind::Default) > 0;
    if has_default && !is_dir {
        Some(InvalidAcl::DefaultOnFile)
    } else {
        match kind_problem(s, Kind::Access) {
            Some(p) => Some(p),
            None => if has_default {
                kind_problem(s, Kind::Default)
            } else {
                None
            },
        }
    }
}

/// Permissions of the first entry for a principal, if there is one.
pub open spec fn perms_of(s: Seq<Entry>, kind: Kind, tag: Tag, id: u32) -> Option<u8> {
    match find_spec(s, kind, tag, id) {
        Some(i) => Some(s[i].perms),
        None => None,
    }
}

/// The mask that clips the group class; all bits when there is no mask.
pub open spec fn effective_mask(s: Seq<Entry>) -> u8 {
    match perms_of(s, Kind::Access, Tag::Mask, 0) {
        Some(m) => m,
        None => P_ALL,
    }
}

/// An access entry of the group class that applies to a member of `gids`.
pub open spec fn group_entry_applies(e: Entry, group: u32, gids: Seq<u32>) -> bool {
    e.kind == Kind::Access && ((e.tag == Tag::GroupObj && gids.contains(group)) || (e.tag == Tag::Group
        && gids.contains(e.id)))
}

pub open spec fn group_union(s: Seq<Entry>, group: u32, gids: Seq<u32>) -> u8
    decreases s.len(),
{
    if s.len() == 0 {
        0
    } else {
        let rest = group_union(s.drop_last(), group, gids);
        if group_entry_applies(s.last(), group, gids) {
            rest | s.last().perms
        } else {
            rest
        }
    }
}

pub open spec fn group_matches(s: Seq<Entry>, group: u32, gids: Seq<u32>) -> bool {
    exists|i: int| 0 <= i < s.len() && #[trigger] group_entry_applies(s[i], group, gids)
}

/// Which entry class decided an access check.
#[derive(Debug, Clone, Copy, PartialEq, Eq, Structural)]
pub enum Matched {
    Owner,
    NamedUser,
    Groups,
    Other,
}

/// Outcome of an effective-access evaluation.
#[derive(Debug, Clone, Copy, PartialEq, Eq, Structural)]
pub struct Effective {
    /// Permissions granted.
    pub granted: u8,
    /// The class of entries that decided.
    pub matched: Matched,
    /// The mask took away permissions the matching entries grant.
    pub limited_by_mask: bool,
}

/// POSIX.1e access check on the access ACL: the owner gets the owner entry
/// unmasked; a named user gets its entry clipped by the mask; otherwise the
/// union of every group-class entry that applies, clipped by the mask;
/// otherwise the other entry, unmasked.
pub open spec fn effective_spec(s: Seq<Entry>, uid: u32, owner: u32, group: u32, gids: Seq<u32>) -> Effective {
    let m = effective_mask(s);
    if uid == owner {
        Effective {
            granted: match perms_of(s, Kind::Access, Tag::UserObj, 0) { Some(p) => p, None => 0 },
            matched: Matched::Owner,
            limited_by_mask: false,
        }
    } else if perms_of(s, Kind::Access, Tag::User, uid) is Some {
        let p = perms_of(s, Kind::Access, Tag::User, uid)->Some_0;
        Effective { granted: p & m, matched: Matched::NamedUser, limited_by_mask: p & m != p }
    } else if group_matches(s, group, gids) {
        let u = group_union(s, group, gids);
        Effective { granted: u & m, matched: Matched::Groups, limited_by_mask: u & m != u }
    } else {
        Effective {
            granted: match perms_of(s, Kind::Access, Tag::Other, 0) { Some(p) => p, None => 0 },
            matched: Matched::Other,
            limited_by_mask: false,
        }
    }
}

fn contains_id(v: &Vec<u32>, x: u32) -> (b: bool)
    ensures
        b == v@.contains(x),
{
    let n: usize = v.len();
    let mut i: usize = 0;
    while i < n
        invariant
            n == v@.len(),
            i <= n,
            forall|j: int| 0 <= j < i ==> v@[j] != x,
        decreases n - i,
    {
        if v[i] == x {
            return true;
        }
        i = i + 1;
    }
    false
}

impl EntryList {
    /// Union of the named entries' and owning group's permissions of `kind`.
    pub fn calc_mask(&self, kind: Kind) -> (m: u8)
        ensures
            m == calc_mask_spec(self@, kind),
    {
        let n: usize = self.0.len();
        let mut m: u8 = 0;
        let mut i: usize = 0;
        while i < n
            invariant
                n == self@.len(),
                i <= n,
                m == calc_mask_spec(self@.take(i as int), kind),
            decreases n - i,
        {
            proof {
                assert(self@.take(i + 1).drop_last() =~= self@.take(i as int));
            }
            let e: Entry = self.0[i];
            if e.kind == kind && (e.tag.is_named() || e.tag == Tag::GroupObj) {
                m = m | e.perms;
            }
            i = i + 1;
        }
        proof {
            assert(self@.take(n as int) =~= self@);
        }
        m
    }

    /// Set the mask of `kind` to cover its group class when `kind` has named
    /// entries; leave the list alone otherwise.
    pub fn apply_auto_mask(&mut self, kind: Kind)
        ensures
            final(self)@ == auto_mask_spec(old(self)@, kind),
    {
        if self.count_named(kind) > 0 {
            let m: u8 = self.calc_mask(kind);
            self.set(kind, Tag::Mask, 0, m);
        }
    }

    fn count_tag(&self, kind: Kind, tag: Tag) -> (c: usize)
        ensures
            c == count_tag(self@, kind, tag),
    {
        let n: usize = self.0.len();
        let mut c: usize = 0;
        let mut i: usize = 0;
        while i < n
            invariant
                n == self@.len(),
                i <= n,
                c == count_tag(self@.take(i as int), kind, tag),
                c <= i,
            decreases n - i,
        {
            proof {
                assert(self@.take(i + 1).drop_last() =~= self@.take(i as int));
            }
            if self.0[i].kind == kind && self.0[i].tag == tag {
                c = c + 1;
            }
            i = i + 1;
        }
        proof {
            assert(self@.take(n as int) =~= self@);
        }
        c
    }

    fn count_kind(&self, kind: Kind) -> (c: usize)
        ensures
            c == count_kind(self@, kind),
    {
        let n: usize = self.0.len();
        let mut c: usize = 0;
        let mut i: usize = 0;
        while i < n
            invariant
                n == self@.len(),
                i <= n,
                c == count_kind(self@.take(i as int), kind),
                c <= i,
            decreases n - i,
        {
            proof {
                assert(self@.take(i + 1).drop_last() =~= self@.take(i as int));
            }
            if self.0[i].kind == kind {
                c = c + 1;
            }
            i = i + 1;
        }
        proof {
            assert(self@.take(n as int) =~= self@);
        }
        c
    }

    fn has_duplicate_named(&self, kind: Kind) -> (b: bool)
        ensures
            b == has_duplicate_named(self@, kind),
    {
        let s = Ghost(self@);
        let n: usize = self.0.len();
        let mut j: usize = 0;
        while j < n
            invariant
                n == s@.len(),
                s@ == self@,
                j <= n,
                forall|a: int, b: int|
                    0 <= a < b < j ==> !(#[trigger] counts_as_named(s@[a], kind) && s@[b].kind == kind
                        && s@[b].tag == s@[a].tag && #[trigger] s@[b].id == s@[a].id),
            decreases n - j,
        {
            let ej: Entry = self.0[j];
            let mut i: usize = 0;
            while i < j
                invariant
                    n == s@.len(),
                    s@ == self@,
                    i <= j < n,
                    ej == s@[j as int],
                    forall|a: int| 0 <= a < i ==> !(#[trigger] counts_as_named(s@[a], kind) && ej.kind == kind
                        && ej.tag == s@[a].tag && ej.id == s@[a].id),
                decreases j - i,
            {
                let ei: Entry = self.0[i];
                if ei.kind == kind && ei.tag.is_named() && ej.kind == kind && ej.tag == ei.tag && ej.id == ei.id {
                    assert(counts_as_named(s@[i as int], kind) && s@[j as int].kind == kind
                        && s@[j as int].tag == s@[i as int].tag && s@[j as int].id == s@[i as int].id);
                    return true;
                }
                i = i + 1;
            }
            j = j + 1;
        }
        false
    }

    fn kind_problem(&self, kind: Kind) -> (r: Option<InvalidAcl>)
        ensures
            r == kind_problem(self@, kind),
    {
        if !(self.count_tag(kind, Tag::UserObj) == 1 && self.count_tag(kind, Tag::GroupObj) == 1
            && self.count_tag(kind, Tag::Other) == 1 && self.count_tag(kind, Tag::Mask) <= 1) {
            Some(InvalidAcl::BaseEntries(kind))
        } else if self.has_duplicate_named(kind) {
            Some(InvalidAcl::DuplicatePrincipal(kind))
        } else if self.count_named(kind) > 0 && self.count_tag(kind, Tag::Mask) == 0 {
            Some(InvalidAcl::MaskRequired(kind))
        } else {
            None
        }
    }

    /// Accept exactly the ACLs the kernel accepts: one owner, owning-group
    /// and other entry per ACL, at most one mask, a mask whenever there are
    /// named entries, no principal twice, and default entries only on
    /// directories.
    #[verifier::rlimit(40)]
    pub fn validate(&self, is_dir: bool) -> (r: Result<(), InvalidAcl>)
        ensures
            r == match acl_problem(self@, is_dir) {
                Some(p) => Err(p),
                None => Ok::<(), InvalidAcl>(()),
            },
    {
        let has_default: bool = self.count_kind(Kind::Default) > 0;
        if has_default && !is_dir {
            return Err(InvalidAcl::DefaultOnFile);
        }
        match self.kind_problem(Kind::Access) {
            Some(p) => Err(p),
            None => {
                if has_default {
                    match self.kind_problem(Kind::Default) {
                        Some(p) => Err(p),
                        None => Ok(()),
                    }
                } else {
                    Ok(())
                }
            },
        }
    }

    fn perms_of(&self, kind: Kind, tag: Tag, id: u32) -> (r: Option<u8>)
        ensures
            r == perms_of(self@, kind, tag, id),
    {
        proof {
            lemma_find_from_bounds(self@, kind, tag, id, 0);
        }
        match self.find(kind, tag, id) {
            Some(i) => Some(self.0[i].perms),
            None => None,
        }
    }

    /// What `uid` (owner `owner`, owning group `group`, member of `gids`)
    /// may do according to the access ACL.
    #[verifier::rlimit(40)]
    pub fn effective(&self, uid: u32, owner: u32, group: u32, gids: &Vec<u32>) -> (eff: Effective)
        ensures
            eff == effective_spec(self@, uid, owner, group, gids@),
    {
        let m: u8 = match self.perms_of(Kind::Access, Tag::Mask, 0) {
            Some(m) => m,
            None => P_ALL,
        };
        if uid == owner {
            let granted: u8 = match self.perms_of(Kind::Access, Tag::UserObj, 0) {
                Some(p) => p,
                None => 0,
            };
            return Effective { granted, matched: Matched::Owner, limited_by_mask: false };
        }
        if let Some(p) = self.perms_of(Kind::Access, Tag::User, uid) {
            return Effective { granted: p & m, matched: Matched::NamedUser, limited_by_mask: p & m != p };
        }
        let n: usize = self.0.len();
        let mut any: bool = false;
        let mut u: u8 = 0;
        let mut i: usize = 0;
        while i < n
            invariant
                n == self@.len(),
                i <= n,
                u == group_union(self@.take(i as int), group, gids@),
                any == exists|k: int| 0 <= k < i && #[trigger] group_entry_applies(self@[k], group, gids@),
            decreases n - i,
        {
            proof {
                assert(self@.take(i + 1).drop_last() =~= self@.take(i as int));
            }
            let e: Entry = self.0[i];
            let applies: bool = e.kind == Kind::Access && ((e.tag == Tag::GroupObj && contains_id(gids, group))
                || (e.tag == Tag::Group && contains_id(gids, e.id)));
            assert(applies == group_entry_applies(self@[i as int], group, gids@));
            if applies {
                u = u | e.perms;
                any = true;
            }
            assert(any == exists|k: int| 0 <= k < i + 1 && #[trigger] group_entry_applies(self@[k], group, gids@)) by {
                if exists|k: int| 0 <= k < i + 1 && #[trigger] group_entry_applies(self@[k], group, gids@) {
                    let k = choose|k: int| 0 <= k < i + 1 && #[trigger] group_entry_applies(self@[k], group, gids@);
                    if k < i {
                        assert(exists|k2: int| 0 <= k2 < i && #[trigger] group_entry_applies(self@[k2], group, gids@));
                    }
                }
            }
            i = i + 1;
        }
        proof {
            assert(self@.take(n as int) =~= self@);
        }
        if any {
            Effective { granted: u & m, matched: Matched::Groups, limited_by_mask: u & m != u }
        } else {
            let granted: u8 = match self.perms_of(Kind::Access, Tag::Other, 0) {
                Some(p) => p,
                None => 0,
            };
            Effective { granted, matched: Matched::Other, limited_by_mask: false }
        }
    }
}

/// Putting a list in canonical order twice is doing it once.
pub proof fn lemma_canonical_idempotent(s: Seq<Entry>)
    ensures
        canonical(canonical(s)) == canonical(s),
{
    lemma_canonical_le_total();
    lemma_stable_sort_idempotent(s, canonical_le());
}

/// `a` and `b` agree on everything but their permissions.
pub open spec fn same_keys(a: Entry, b: Entry) -> bool {
    a.kind == b.kind && a.tag == b.tag && a.id == b.id
}

pub(crate) proof fn lemma_find_same_keys(s: Seq<Entry>, i: int, x: Entry, kind: Kind, tag: Tag, id: u32, start: int)
    requires
        0 <= i < s.len(),
        same_keys(s[i], x),
    ensures
        find_from(s.update(i, x), kind, tag, id, start) == find_from(s, kind, tag, id, start),
    decreases s.len() - start,
{
    if 0 <= start < s.len() {
        lemma_find_same_keys(s, i, x, kind, tag, id, start + 1);
    }
}

pub(crate) proof fn lemma_find_push(s: Seq<Entry>, x: Entry, kind: Kind, tag: Tag, id: u32, start: int)
    requires
        0 <= start <= s.len(),
        find_from(s, kind, tag, id, start) is None,
    ensures
        find_from(s.push(x), kind, tag, id, start) == if same_principal(x, kind, tag, id) {
            Some(s.len() as int)
        } else {
            None::<int>
        },
    decreases s.len() - start,
{
    if start < s.len() {
        assert(s.push(x)[start] == s[start]);
        lemma_find_push(s, x, kind, tag, id, start + 1);
    } else {
        assert(s.push(x)[start] == x);
    }
}

proof fn lemma_counts_same_keys(s: Seq<Entry>, i: int, x: Entry)
    requires
        0 <= i < s.len(),
        same_keys(s[i], x),
    ensures
        forall|k: Kind, t: Tag| #[trigger] count_tag(s.update(i, x), k, t) == count_tag(s, k, t),
        forall|k: Kind| #[trigger] count_named_spec(s.update(i, x), k) == count_named_spec(s, k),
        forall|k: Kind| #[trigger] count_kind(s.update(i, x), k) == count_kind(s, k),
        forall|k: Kind| #[trigger] has_duplicate_named(s.update(i, x), k) == has_duplicate_named(s, k),
    decreases s.len(),
{
    let u = s.update(i, x);
    if i < s.len() - 1 {
        lemma_counts_same_keys(s.drop_last(), i, x);
        assert(u.drop_last() =~= s.drop_last().update(i, x));
    } else {
        assert(u.drop_last() =~= s.drop_last());
    }
    assert forall|k: Kind, t: Tag| #[trigger] count_tag(u, k, t) == count_tag(s, k, t) by {
        assert(count_tag(u.drop_last(), k, t) == count_tag(s.drop_last(), k, t));
    }
    assert forall|k: Kind| #[trigger] count_named_spec(u, k) == count_named_spec(s, k) by {
        assert(count_named_spec(u.drop_last(), k) == count_named_spec(s.drop_last(), k));
    }
    assert forall|k: Kind| #[trigger] count_kind(u, k) == count_kind(s, k) by {
        assert(count_kind(u.drop_last(), k) == count_kind(s.drop_last(), k));
    }
    assert forall|k: Kind| #[trigger] has_duplicate_named(u, k) == has_duplicate_named(s, k) by {
        if has_duplicate_named(u, k) {
            let (a, b) = choose|a: int, b: int|
                0 <= a < b < u.len() && #[trigger] counts_as_named(u[a], k) && u[b].kind == k
                    && u[b].tag == u[a].tag && #[trigger] u[b].id == u[a].id;
            assert(counts_as_named(s[a], k) && s[b].id == s[a].id);
        }
        if has_duplicate_named(s, k) {
            let (a, b) = choose|a: int, b: int|
                0 <= a < b < s.len() && #[trigger] counts_as_named(s[a], k) && s[b].kind == k
                    && s[b].tag == s[a].tag && #[trigger] s[b].id == s[a].id;
            assert(counts_as_named(u[a], k) && u[b].id == u[a].id);
        }
    }
}

proof fn lemma_counts_push(s: Seq<Entry>, x: Entry)
    ensures
        forall|k: Kind, t: Tag| #[trigger] count_tag(s.push(x), k, t) == count_tag(s, k, t) + if x.kind == k
            && x.tag == t { 1nat } else { 0nat },
        forall|k: Kind| #[trigger] count_named_spec(s.push(x), k) == count_named_spec(s, k) + if counts_as_named(x, k) {
            1nat
        } else {
            0nat
        },
        forall|k: Kind| #[trigger] count_kind(s.push(x), k) == count_kind(s, k) + if x.kind == k { 1nat } else { 0nat },
        !tag_named(x.tag) ==> forall|k: Kind| #[trigger] has_duplicate_named(s.push(x), k) == has_duplicate_named(s, k),
{
    let u = s.push(x);
    assert(u.drop_last() =~= s);
    if !tag_named(x.tag) {
        assert forall|k: Kind| #[trigger] has_duplicate_named(u, k) == has_duplicate_named(s, k) by {
            if has_duplicate_named(u, k) {
                let (a, b) = choose|a: int, b: int|
                    0 <= a < b < u.len() && #[trigger] counts_as_named(u[a], k) && u[b].kind == k
                        && u[b].tag == u[a].tag && #[trigger] u[b].id == u[a].id;
                assert(b < s.len());
                assert(counts_as_named(s[a], k) && s[b].id == s[a].id);
            }
            if has_duplicate_named(s, k) {
                let (a, b) = choose|a: int, b: int|
                    0 <= a < b < s.len() && #[trigger] counts_as_named(s[a], k) && s[b].kind == k
                        && s[b].tag == s[a].tag && #[trigger] s[b].id == s[a].id;
                assert(counts_as_named(u[a], k) && u[b].id == u[a].id);
            }
        }
    }
}

proof fn lemma_find_counts(s: Seq<Entry>, kind: Kind, tag: Tag)
    requires
        !tag_named(tag),
    ensures
        (find_spec(s, kind, tag, 0) is None) <==> count_tag(s, kind, tag) == 0,
    decreases s.len(),
{
    lemma_find_from_bounds(s, kind, tag, 0, 0);
    if s.len() > 0 {
        let d = s.drop_last();
        lemma_find_counts(d, kind, tag);
        lemma_find_from_bounds(d, kind, tag, 0, 0);
        if find_spec(d, kind, tag, 0) is None {
            assert(d.push(s.last()) =~= s);
            lemma_find_push(d, s.last(), kind, tag, 0, 0);
        } else {
            let i = find_spec(d, kind, tag, 0)->Some_0;
            assert(same_principal(s[i], kind, tag, 0));
        }
    }
}

/// `set` replaces the entry of an existing principal and never duplicates
/// it; afterwards `find` locates the principal at the returned position,
/// with the permissions clamped to rwx.
pub proof fn lemma_set_then_find(s: Seq<Entry>, kind: Kind, tag: Tag, id: u32, perms: u8)
    ensures
        ({
            let r = set_spec(s, kind, tag, id, perms);
            &&& r.len() == if find_spec(s, kind, tag, id) is Some { s.len() } else { s.len() + 1 }
            &&& find_spec(r, kind, tag, id) matches Some(i) && r[i].perms == perms & P_ALL && same_principal(
                r[i],
                kind,
                tag,
                id,
            )
        }),
{
    lemma_find_from_bounds(s, kind, tag, id, 0);
    match find_spec(s, kind, tag, id) {
        Some(i) => {
            lemma_find_same_keys(s, i, Entry { perms: perms & P_ALL, ..s[i] }, kind, tag, id, 0);
        },
        None => {
            lemma_find_push(s, fresh_entry(kind, tag, id, perms), kind, tag, id, 0);
        },
    }
}

/// Auto-mask only ever lifts the "named entries but no mask" refusal of
/// `kind`: every other verdict on `kind`, and every verdict on the other
/// kind, stays as it was.
pub proof fn lemma_auto_mask_verdicts(s: Seq<Entry>, kind: Kind)
    ensures
        kind_problem(auto_mask_spec(s, kind), kind) == if kind_problem(s, kind) == Some(
            InvalidAcl::MaskRequired(kind),
        ) {
            None::<InvalidAcl>
        } else {
            kind_problem(s, kind)
        },
        forall|k2: Kind| k2 != kind ==> #[trigger] kind_problem(auto_mask_spec(s, kind), k2) == kind_problem(s, k2),
        count_kind(auto_mask_spec(s, kind), Kind::Default) > 0 <==> count_kind(s, Kind::Default) > 0,
{
    if count_named_spec(s, kind) > 0 {
        let m = calc_mask_spec(s, kind);
        lemma_find_from_bounds(s, kind, Tag::Mask, 0, 0);
        lemma_find_counts(s, kind, Tag::Mask);
        match find_spec(s, kind, Tag::Mask, 0) {
            Some(i) => {
                lemma_counts_same_keys(s, i, Entry { perms: m & P_ALL, ..s[i] });
            },
            None => {
                lemma_counts_push(s, fresh_entry(kind, Tag::Mask, 0, m));
                if kind == Kind::Default {
                    lemma_named_counted(s, kind);
                }
            },
        }
    }
}

proof fn lemma_named_counted(s: Seq<Entry>, kind: Kind)
    ensures
        count_named_spec(s, kind) <= count_kind(s, kind),
    decreases s.len(),
{
    if s.len() > 0 {
        lemma_named_counted(s.drop_last(), kind);
    }
}

proof fn lemma_or_covers(a: u8, b: u8)
    ensures
        a & (b | a) == a,
        a & (a | b) == a,
{
    assert(a & (b | a) == a) by (bit_vector);
    assert(a & (a | b) == a) by (bit_vector);
}

proof fn lemma_covers_more(a: u8, c: u8, d: u8)
    requires
        a & c == a,
    ensures
        a & (c | d) == a,
{
    assert(a & c == a ==> a & (c | d) == a) by (bit_vector);
}

proof fn lemma_calc_mask_covers(s: Seq<Entry>, kind: Kind)
    ensures
        forall|i: int| 0 <= i < s.len() && mask_class(#[trigger] s[i], kind) ==> s[i].perms & calc_mask_spec(s, kind) == s[i].perms,
    decreases s.len(),
{
    if s.len() > 0 {
        let d = s.drop_last();
        lemma_calc_mask_covers(d, kind);
        assert forall|i: int| 0 <= i < s.len() && mask_class(#[trigger] s[i], kind) implies s[i].perms & calc_mask_spec(s, kind) == s[i].perms by {
            if i < s.len() - 1 {
                assert(s[i] == d[i]);
                if mask_class(s.last(), kind) {
                    lemma_covers_more(s[i].perms, calc_mask_spec(d, kind), s.last().perms);
                }
            } else {
                lemma_or_covers(s[i].perms, calc_mask_spec(d, kind));
            }
        }
    }
}

proof fn lemma_low_bits(a: u8, c: u8)
    requires
        a <= P_ALL,
        a & c == a,
    ensures
        a & (c & P_ALL) == a,
{
    assert(a <= 7 && a & c == a ==> a & (c & 7) == a) by (bit_vector);
}

/// After auto-mask, when `kind` has named entries, its mask clips none of
/// the entries it governs (all permissions within rwx): the named users,
/// named groups and owning group keep every permission they list.
pub proof fn lemma_auto_mask_clips_nothing(s: Seq<Entry>, kind: Kind)
    requires
        forall|i: int| 0 <= i < s.len() ==> (#[trigger] s[i]).perms <= P_ALL,
        count_named_spec(s, kind) > 0,
    ensures
        ({
            let r = auto_mask_spec(s, kind);
            &&& perms_of(r, kind, Tag::Mask, 0) == Some(calc_mask_spec(s, kind) & P_ALL)
            &&& forall|i: int|
                0 <= i < r.len() && mask_class(#[trigger] r[i], kind) ==> r[i].perms & (calc_mask_spec(s, kind)
                    & P_ALL) == r[i].perms
        }),
{
    let m = calc_mask_spec(s, kind);
    let r = auto_mask_spec(s, kind);
    lemma_set_then_find(s, kind, Tag::Mask, 0, m);
    lemma_calc_mask_covers(s, kind);
    lemma_find_from_bounds(s, kind, Tag::Mask, 0, 0);
    assert forall|i: int| 0 <= i < r.len() && mask_class(#[trigger] r[i], kind) implies r[i].perms & (m & P_ALL)
        == r[i].perms by {
        assert(i < s.len());
        assert(r[i] == s[i]);
        lemma_low_bits(s[i].perms, m);
    }
}

/// `rwx` notation of the permission bits, `-` for a missing one.
pub open spec fn perm_text(p: u8) -> Seq<char> {
    (if p & P_R != 0 { "r"@ } else { "-"@ }) + (if p & P_W != 0 { "w"@ } else { "-"@ }) + (if p & P_X
        != 0 {
        "x"@
    } else {
        "-"@
    })
}

pub fn perm_string(p: u8) -> (s: String)
    ensures
        s@ == perm_text(p),
{
    let mut s: String = String::new();
    s.append(if p & P_R != 0 { "r" } else { "-" });
    s.append(if p & P_W != 0 { "w" } else { "-" });
    s.append(if p & P_X != 0 { "x" } else { "-" });
    s
}

impl EntryList {
    /// An independent copy of the list.
    pub fn duplicate(&self) -> (r: EntryList)
        ensures
            r@ == self@,
    {
        let n: usize = self.0.len();
        let mut v: Vec<Entry> = Vec::new();
        let mut i: usize = 0;
        while i < n
            invariant
                n == self@.len(),
                i <= n,
                v@ == self@.take(i as int),
            decreases n - i,
        {
            v.push(self.0[i]);
            proof {
                assert(v@ =~= self@.take(i + 1));
            }
            i = i + 1;
        }
        proof {
            assert(self@.take(n as int) =~= self@);
        }
        EntryList(v)
    }

    /// Whether the two lists hold the same entries in the same order.
    pub fn same_entries(&self, other: &EntryList) -> (b: bool)
        ensures
            b == (self@ == other@),
    {
        let n: usize = self.0.len();
        if n != other.0.len() {
            return false;
        }
        let mut i: usize = 0;
        while i < n
            invariant
                n == self@.len(),
                n == other@.len(),
                i <= n,
                forall|j: int| 0 <= j < i ==> self@[j] == other@[j],
            decreases n - i,
        {
            if self.0[i] != other.0[i] {
                return false;
            }
            i = i + 1;
        }
        assert(self@ =~= other@);
        true
    }
}

/// getfacl's word for a tag.
pub open spec fn tag_word(t: Tag) -> Seq<char> {
    match t {
        Tag::UserObj | Tag::User => "user"@,
        Tag::GroupObj | Tag::Group => "group"@,
        Tag::Mask => "mask"@,
        Tag::Other => "other"@,
    }
}

pub open spec fn tag_word_bytes(t: Tag) -> int {
    match t {
        Tag::UserObj | Tag::User | Tag::Mask => 4,
        Tag::GroupObj | Tag::Group | Tag::Other => 5,
    }
}

/// An entry as getfacl writes it, before any `#effective:` note:
/// `[default:]tag:qualifier:rwx`.
pub open spec fn entry_head(e: Entry, name: Seq<char>) -> Seq<char> {
    (if e.kind == Kind::Default { "default:"@ } else { Seq::empty() }) + tag_word(e.tag) + ":"@ + (if tag_named(
        e.tag,
    ) {
        name
    } else {
        Seq::empty()
    }) + ":"@ + perm_text(e.perms)
}

/// Length in bytes of the UTF-8 encoding of `s` (as `str::len` reports it).
pub open spec fn utf8_len(s: Seq<char>) -> int {
    (encode_utf8(s).len() as usize) as int
}

/// Length in bytes of `entry_head`.
pub open spec fn entry_head_bytes(e: Entry, name: Seq<char>) -> int {
    (if e.kind == Kind::Default { 8int } else { 0int }) + tag_word_bytes(e.tag) + 1 + (if tag_named(e.tag) {
        utf8_len(name)
    } else {
        0int
    }) + 1 + 3
}

/// The permissions the mask leaves an entry, when it takes some away.
pub open spec fn clipped(s: Seq<Entry>, e: Entry) -> Option<u8> {
    match perms_of(s, e.kind, Tag::Mask, 0) {
        Some(m) => if (tag_named(e.tag) || e.tag == Tag::GroupObj) && e.perms & m != e.perms {
            Some(e.perms & m)
        } else {
            None
        },
        None => None,
    }
}

pub open spec fn tabs(n: nat) -> Seq<char>
    decreases n,
{
    if n == 0 {
        Seq::empty()
    } else {
        tabs((n - 1) as nat) + "\t"@
    }
}

/// Tabs that align the `#effective:` note on the fourth tab stop, at least one.
pub open spec fn note_tabs(head_bytes: int) -> nat {
    if head_bytes / 8 >= 3 {
        0
    } else {
        (3 - head_bytes / 8) as nat
    }
}

/// The `#effective:` note of an entry the mask clips to `eff`.
pub open spec fn note_text(e: Entry, name: Seq<char>, clip: Option<u8>) -> Seq<char> {
    match clip {
        Some(eff) => tabs(note_tabs(entry_head_bytes(e, name))) + "\t#effective:"@ + perm_text(eff),
        None => Seq::empty(),
    }
}

/// One line of getfacl's listing.
pub open spec fn entry_line(s: Seq<Entry>, e: Entry, name: Seq<char>) -> Seq<char> {
    entry_head(e, name) + note_text(e, name, clipped(s, e)) + "\n"@
}

/// The lines for the first `n` entries of `s`; `names[i]` is the
/// qualifier shown for entry `i`.
pub open spec fn entry_lines(s: Seq<Entry>, names: Seq<Seq<char>>, n: int) -> Seq<char>
    decreases n,
{
    if n <= 0 {
        Seq::empty()
    } else {
        entry_lines(s, names, n - 1) + entry_line(s, s[n - 1], names[n - 1])
    }
}

pub open spec fn strip_leading_slashes(p: Seq<char>) -> Seq<char>
    decreases p.len(),
{
    if p.len() > 0 && p[0] == '/' {
        strip_leading_slashes(p.drop_first())
    } else {
        p
    }
}

/// getfacl(1)'s listing of the ACL `s` of `path`: a header with the path
/// (leading slashes removed), owner and group, one line per entry with an
/// `#effective:` note where the mask clips it, and a closing blank line.
pub open spec fn getfacl_text(path: Seq<char>, owner: Seq<char>, group: Seq<char>, s: Seq<Entry>, names: Seq<
    Seq<char>,
>) -> Seq<char> {
    "# file: "@ + strip_leading_slashes(path) + "\n"@ + "# owner: "@ + owner + "\n"@ + "# group: "@ + group
        + "\n"@ + entry_lines(s, names, s.len() as int) + "\n"@
}

fn strip_slashes(path: &str) -> (r: &str)
    ensures
        r@ == strip_leading_slashes(path@),
{
    let n: usize = path.unicode_len();
    let mut k: usize = 0;
    assert(path@.subrange(0, n as int) =~= path@);
    while k < n && path.get_char(k) == '/'
        invariant
            n == path@.len(),
            k <= n,
            strip_leading_slashes(path@) == strip_leading_slashes(path@.subrange(k as int, n as int)),
        decreases n - k,
    {
        proof {
            assert(path@.subrange(k as int, n as int).drop_first() =~= path@.subrange(k + 1, n as int));
        }
        k = k + 1;
    }
    path.substring_char(k, n)
}

fn head_bytes(e: &Entry, name: &String) -> (b: usize)
    ensures
        b / 8 >= 3 <==> entry_head_bytes(*e, name@) / 8 >= 3,
        b / 8 < 3 ==> b == entry_head_bytes(*e, name@),
{
    let mut b: usize = if e.kind == Kind::Default { 8 } else { 0 };
    b = b + match e.tag {
        Tag::UserObj | Tag::User | Tag::Mask => 4,
        Tag::GroupObj | Tag::Group | Tag::Other => 5,
    };
    if e.tag.is_named() {
        let text: &str = name.as_str();
        let nb: usize = text.len();
        assert(nb == utf8_len(name@));
        b = b + if nb > 64 { 64 } else { nb };
    }
    b + 5
}

fn clip_of(e: &Entry, mask: Option<u8>) -> (r: Option<u8>)
    ensures
        r == (match mask {
            Some(m) => if (tag_named(e.tag) || e.tag == Tag::GroupObj) && e.perms & m != e.perms {
                Some(e.perms & m)
            } else {
                None
            },
            None => None,
        }),
{
    match mask {
        Some(m) => if (e.tag.is_named() || e.tag == Tag::GroupObj) && e.perms & m != e.perms {
            Some(e.perms & m)
        } else {
            None
        },
        None => None,
    }
}

fn append_head(out: &mut String, e: &Entry, name: &String)
    ensures
        final(out)@ == old(out)@ + entry_head(*e, name@),
{
    let ghost start = out@;
    let ghost pre = if e.kind == Kind::Default { "default:"@ } else { Seq::<char>::empty() };
    if e.kind == Kind::Default {
        out.append("default:");
    }
    assert(out@ =~= start + pre);
    out.append(match e.tag {
        Tag::UserObj | Tag::User => "user",
        Tag::GroupObj | Tag::Group => "group",
        Tag::Mask => "mask",
        Tag::Other => "other",
    });
    out.append(":");
    let ghost mid = out@;
    assert(mid == start + pre + tag_word(e.tag) + ":"@);
    if e.tag.is_named() {
        out.append(name.as_str());
    }
    let ghost q = if tag_named(e.tag) { name@ } else { Seq::<char>::empty() };
    assert(out@ =~= mid + q);
    out.append(":");
    let p: String = perm_string(e.perms);
    out.append(p.as_str());
    assert(out@ =~= start + entry_head(*e, name@));
}

fn append_note(out: &mut String, e: &Entry, name: &String, note: Option<u8>)
    ensures
        final(out)@ == old(out)@ + note_text(*e, name@, note),
{
    let ghost before_note = out@;
    match note {
        Some(eff) => {
            let hb: usize = head_bytes(e, name);
            let q: usize = hb / 8;
            let count: usize = if q >= 3 { 0 } else { 3 - q };
            assert(count == note_tabs(entry_head_bytes(*e, name@)));
            let mut t: usize = 0;
            assert(before_note + tabs(0) =~= before_note);
            while t < count
                invariant
                    t <= count,
                    out@ == before_note + tabs(t as nat),
                decreases count - t,
            {
                out.append("\t");
                proof {
                    reveal_strlit("\t");
                    assert(before_note + tabs((t + 1) as nat) =~= before_note + tabs(t as nat) + "\t"@);
                }
                t = t + 1;
            }
            out.append("\t#effective:");
            let ep: String = perm_string(eff);
            out.append(ep.as_str());
            assert(out@ =~= before_note + note_text(*e, name@, note));
        },
        None => {
            assert(out@ =~= before_note + note_text(*e, name@, note));
        },
    }
}

fn append_line(out: &mut String, e: &Entry, name: &String, note: Option<u8>)
    ensures
        final(out)@ == old(out)@ + entry_head(*e, name@) + note_text(*e, name@, note) + "\n"@,
{
    let ghost start = out@;
    append_head(out, e, name);
    append_note(out, e, name, note);
    out.append("\n");
    assert(out@ =~= start + entry_head(*e, name@) + note_text(*e, name@, note) + "\n"@);
}

proof fn lemma_lines_step(header: Seq<char>, before: Seq<char>, s: Seq<Entry>, ns: Seq<Seq<char>>, i: int)
    requires
        0 <= i < s.len(),
        before == header + entry_lines(s, ns, i),
    ensures
        before + entry_head(s[i], ns[i]) + note_text(s[i], ns[i], clipped(s, s[i])) + "\n"@ == header
            + entry_lines(s, ns, i + 1),
{
    let line = entry_line(s, s[i], ns[i]);
    assert(entry_lines(s, ns, i + 1) == entry_lines(s, ns, i) + line);
    assert(before + entry_head(s[i], ns[i]) + note_text(s[i], ns[i], clipped(s, s[i])) + "\n"@ =~= before + line);
    assert(header + entry_lines(s, ns, i + 1) =~= before + line);
}

/// Render getfacl's listing of `entries` for `path` with the given owner
/// and group names; `names[i]` is the qualifier shown for entry `i`.
#[verifier::rlimit(40)]
pub fn render_getfacl(path: &str, owner: &str, group: &str, entries: &EntryList, names: &Vec<String>) -> (text: String)
    requires
        names@.len() == entries@.len(),
    ensures
        text@ == getfacl_text(path@, owner@, group@, entries@, names@.map_values(|n: String| n@)),
{
    let ghost ns = names@.map_values(|n: String| n@);
    let mut out: String = String::new();
    out.append("# file: ");
    out.append(strip_slashes(path));
    out.append("\n");
    out.append("# owner: ");
    out.append(owner);
    out.append("\n");
    out.append("# group: ");
    out.append(group);
    out.append("\n");
    let ghost header = out@;
    let access_mask: Option<u8> = entries.perms_of(Kind::Access, Tag::Mask, 0);
    let default_mask: Option<u8> = entries.perms_of(Kind::Default, Tag::Mask, 0);
    let n: usize = entries.0.len();
    let mut i: usize = 0;
    while i < n
        invariant
            n == entries@.len(),
            n == names@.len(),
            ns == names@.map_values(|n: String| n@),
            i <= n,
            access_mask == perms_of(entries@, Kind::Access, Tag::Mask, 0),
            default_mask == perms_of(entries@, Kind::Default, Tag::Mask, 0),
            out@ == header + entry_lines(entries@, ns, i as int),
        decreases n - i,
    {
        let e: Entry = entries.0[i];
        let mask: Option<u8> = if e.kind == Kind::Access { access_mask } else { default_mask };
        let note: Option<u8> = clip_of(&e, mask);
        assert(note == clipped(entries@, e));
        let ghost before = out@;
        append_line(&mut out, &e, &names[i], note);
        proof {
            assert(ns[i as int] == names@[i as int]@);
            lemma_lines_step(header, before, entries@, ns, i as int);
        }
        i = i + 1;
    }
    out.append("\n");
    proof {
        assert(out@ =~= getfacl_text(path@, owner@, group@, entries@, ns));
    }
    out
}

/// A name as `uid_name` or `gid_name` gives it: text without NUL. Which
/// text it is (the account database's name for the id, or the decimal id)
/// rests on the system's databases, and nothing here ties it to the id.
pub open spec fn plain_name(n: Seq<char>) -> bool {
    !n.contains('\0')
}

/// One qualifier per entry; those shown for named entries are plain names.
pub open spec fn names_entries(s: Seq<Entry>, ns: Seq<Seq<char>>) -> bool {
    &&& ns.len() == s.len()
    &&& forall|i: int| 0 <= i < s.len() && tag_named(#[trigger] s[i].tag) ==> plain_name(ns[i])
}

/// getfacl(1)-style listing of `list` for `path` with owner and group,
/// entries in canonical order, uids and gids shown by name where the
/// account databases know them and as numbers otherwise.
pub fn format_getfacl(path: &str, owner: u32, group: u32, list: &EntryList) -> (text: String)
    ensures
        exists|o: Seq<char>, g: Seq<char>, ns: Seq<Seq<char>>|
            plain_name(o) && plain_name(g) && names_entries(canonical(list@), ns)
                && text@ == getfacl_text(path@, o, g, canonical(list@), ns),
{
    let mut sorted: EntryList = list.duplicate();
    sorted.sort_canonical();
    proof {
        lemma_canonical_sorted_permutation(list@);
    }
    let owner_name: String = uid_name(owner);
    let group_name: String = gid_name(group);
    let n: usize = sorted.0.len();
    let mut names: Vec<String> = Vec::new();
    let mut i: usize = 0;
    while i < n
        invariant
            n == sorted@.len(),
            i <= n,
            names@.len() == i,
            forall|j: int| 0 <= j < i && tag_named(#[trigger] sorted@[j].tag) ==> plain_name(names@[j]@),
        decreases n - i,
    {
        let e: Entry = sorted.0[i];
        let name: String = match e.tag {
            Tag::User => uid_name(e.id),
            Tag::Group => gid_name(e.id),
            _ => String::new(),
        };
        names.push(name);
        i = i + 1;
    }
    let text: String = render_getfacl(path, owner_name.as_str(), group_name.as_str(), &sorted, &names);
    let ghost ns = names@.map_values(|n: String| n@);
    assert(names_entries(sorted@, ns)) by {
        assert forall|j: int| 0 <= j < sorted@.len() && tag_named(#[trigger] sorted@[j].tag) implies plain_name(ns[j]) by {
            assert(ns[j] == names@[j]@);
        }
    }
    text
}

pub(crate) proof fn lemma_find_push_found(s: Seq<Entry>, x: Entry, kind: Kind, tag: Tag, id: u32, start: int)
    requires
        find_from(s, kind, tag, id, start) is Some,
    ensures
        find_from(s.push(x), kind, tag, id, start) == find_from(s, kind, tag, id, start),
    decreases s.len() - start,
{
    if 0 <= start < s.len() && !same_principal(s[start], kind, tag, id) {
        lemma_find_push_found(s, x, kind, tag, id, start + 1);
    }
}

/// No two entries of `s` stand for the same principal: base tags once per
/// kind, named tags once per kind and id.
pub open spec fn unique_principals(s: Seq<Entry>) -> bool {
    forall|i: int, j: int|
        0 <= i < s.len() && 0 <= j < s.len() && i != j ==> !same_principal(
            #[trigger] s[i],
            #[trigger] s[j].kind,
            s[j].tag,
            s[j].id,
        )
}

/// `set` keeps principals unique per kind, and afterwards exactly one
/// entry stands for the principal it set.
pub proof fn lemma_set_keeps_principals_unique(s: Seq<Entry>, kind: Kind, tag: Tag, id: u32, perms: u8)
    requires
        unique_principals(s),
    ensures
        unique_principals(set_spec(s, kind, tag, id, perms)),
        exists|i: int|
            0 <= i < set_spec(s, kind, tag, id, perms).len() && same_principal(
                #[trigger] set_spec(s, kind, tag, id, perms)[i],
                kind,
                tag,
                id,
            ),
        forall|i: int, j: int|
            0 <= i < set_spec(s, kind, tag, id, perms).len() && 0 <= j < set_spec(s, kind, tag, id, perms).len()
                && same_principal(#[trigger] set_spec(s, kind, tag, id, perms)[i], kind, tag, id) && same_principal(
                #[trigger] set_spec(s, kind, tag, id, perms)[j],
                kind,
                tag,
                id,
            ) ==> i == j,
{
    lemma_find_from_bounds(s, kind, tag, id, 0);
    let r = set_spec(s, kind, tag, id, perms);
    match find_spec(s, kind, tag, id) {
        Some(k) => {
            assert(forall|m: int| 0 <= m < s.len() ==> #[trigger] r[m].kind == s[m].kind && r[m].tag == s[m].tag
                && r[m].id == s[m].id);
            assert(same_principal(r[k], kind, tag, id));
            assert forall|i: int, j: int|
                0 <= i < r.len() && 0 <= j < r.len() && i != j implies !same_principal(
                #[trigger] r[i],
                #[trigger] r[j].kind,
                r[j].tag,
                r[j].id,
            ) by {
                assert(!same_principal(s[i], s[j].kind, s[j].tag, s[j].id));
            }
            assert forall|i: int, j: int|
                0 <= i < r.len() && 0 <= j < r.len() && same_principal(#[trigger] r[i], kind, tag, id)
                    && same_principal(#[trigger] r[j], kind, tag, id) implies i == j by {
                if i != j {
                    assert(same_principal(s[i], kind, tag, id));
                    assert(same_principal(s[j], kind, tag, id));
                    if i != k {
                        assert(same_principal(s[i], s[k].kind, s[k].tag, s[k].id));
                    } else {
                        assert(same_principal(s[j], s[k].kind, s[k].tag, s[k].id));
                    }
                }
            }
        },
        None => {
            let f = fresh_entry(kind, tag, id, perms);
            let n = s.len() as int;
            assert(r == s.push(f));
            assert(same_principal(r[n], kind, tag, id));
            assert forall|i: int, j: int|
                0 <= i < r.len() && 0 <= j < r.len() && i != j implies !same_principal(
                #[trigger] r[i],
                #[trigger] r[j].kind,
                r[j].tag,
                r[j].id,
            ) by {
                if i < n && j < n {
                    assert(!same_principal(s[i], s[j].kind, s[j].tag, s[j].id));
                } else if i == n {
                    assert(!same_principal(s[j], kind, tag, id));
                } else {
                    assert(!same_principal(s[i], kind, tag, id));
                }
            }
            assert forall|i: int, j: int|
                0 <= i < r.len() && 0 <= j < r.len() && same_principal(#[trigger] r[i], kind, tag, id)
                    && same_principal(#[trigger] r[j], kind, tag, id) implies i == j by {
                if i < n {
                    assert(!same_principal(s[i], kind, tag, id));
                }
                if j < n {
                    assert(!same_principal(s[j], kind, tag, id));
                }
            }
        },
    }
}

/// `set` never loses a principal: whoever had an entry still has one.
pub proof fn lemma_set_keeps_principals(s: Seq<Entry>, kind: Kind, tag: Tag, id: u32, perms: u8, k2: Kind, t2: Tag, i2: u32)
    requires
        find_spec(s, k2, t2, i2) is Some,
    ensures
        find_spec(set_spec(s, kind, tag, id, perms), k2, t2, i2) is Some,
{
    lemma_find_from_bounds(s, kind, tag, id, 0);
    match find_spec(s, kind, tag, id) {
        Some(i) => {
            lemma_find_same_keys(s, i, Entry { perms: perms & P_ALL, ..s[i] }, k2, t2, i2, 0);
        },
        None => {
            lemma_find_push_found(s, fresh_entry(kind, tag, id, perms), k2, t2, i2, 0);
        },
    }
}


/// Whether the permissions `p` include bit `b`.
pub open spec fn grants(p: u8, b: u8) -> bool {
    p & b != 0
}

/// `b` is one of the read, write and execute bits.
pub open spec fn rwx_bit(b: u8) -> bool {
    b == P_R || b == P_W || b == P_X
}

/// Whether the access ACL's mask (the first, if any) lets bit `b` through;
/// without a mask everything passes.
pub open spec fn mask_lets(s: Seq<Entry>, b: u8) -> bool {
    match find_spec(s, Kind::Access, Tag::Mask, 0) {
        Some(i) => grants(s[i].perms, b),
        None => true,
    }
}

/// An access entry of the group class that applies to someone in the
/// groups `gids`: the owning group when `gids` holds it, a named group
/// when `gids` holds its id.
pub open spec fn applies_to_groups(e: Entry, group: u32, gids: Seq<u32>) -> bool {
    &&& e.kind == Kind::Access
    &&& (e.tag == Tag::GroupObj && gids.contains(group)) || (e.tag == Tag::Group && gids.contains(e.id))
}

proof fn lemma_union_bit(s: Seq<Entry>, group: u32, gids: Seq<u32>, b: u8)
    ensures
        grants(group_union(s, group, gids), b) == exists|i: int|
            0 <= i < s.len() && applies_to_groups(#[trigger] s[i], group, gids) && grants(s[i].perms, b),
    decreases s.len(),
{
    if s.len() == 0 {
        assert(0u8 & b == 0) by (bit_vector);
    } else {
        let d = s.drop_last();
        lemma_union_bit(d, group, gids, b);
        let rest = group_union(d, group, gids);
        let p = s.last().perms;
        assert((rest | p) & b != 0 <==> (rest & b != 0 || p & b != 0)) by (bit_vector);
        assert(group_entry_applies(s.last(), group, gids) == applies_to_groups(s.last(), group, gids));
        assert(s[s.len() - 1] == s.last());
        if exists|i: int| 0 <= i < d.len() && applies_to_groups(#[trigger] d[i], group, gids) && grants(d[i].perms, b) {
            let i = choose|i: int| 0 <= i < d.len() && applies_to_groups(#[trigger] d[i], group, gids) && grants(d[i].perms, b);
            assert(s[i] == d[i]);
        }
        if exists|i: int| 0 <= i < s.len() && applies_to_groups(#[trigger] s[i], group, gids) && grants(s[i].perms, b) {
            let i = choose|i: int| 0 <= i < s.len() && applies_to_groups(#[trigger] s[i], group, gids) && grants(s[i].perms, b);
            if i < d.len() {
                assert(d[i] == s[i]);
            }
        }
        let n = s.len() - 1;
        if applies_to_groups(s[n], group, gids) {
            assert(group_union(s, group, gids) == rest | p);
            if grants(p, b) {
                assert(applies_to_groups(s[n], group, gids) && grants(s[n].perms, b));
            }
        } else {
            assert(group_union(s, group, gids) == rest);
        }
    }
}

proof fn lemma_masked_bit(u: u8, s: Seq<Entry>, b: u8)
    requires
        rwx_bit(b),
    ensures
        grants(u & effective_mask(s), b) == (grants(u, b) && mask_lets(s, b)),
{
    let m = effective_mask(s);
    assert((u & m) & b != 0 <==> (u & b != 0 && m & b != 0)) by (bit_vector)
        requires
            b == 4 || b == 2 || b == 1,
    ;
    assert(b == 4 || b == 2 || b == 1 ==> 7u8 & b != 0) by (bit_vector);
    assert(mask_lets(s, b) == grants(m, b));
}

/// Effective access, bit by bit: the owner gets the owner entry as it is;
/// anyone else with a named entry gets what it lists and the mask lets
/// through; anyone else in a group the ACL names gets what any applying
/// group-class entry lists and the mask lets through; everyone else gets
/// the other entry as it is. When the mask takes a listed bit away, the
/// result says so.
pub proof fn lemma_effective_access(s: Seq<Entry>, uid: u32, owner: u32, group: u32, gids: Seq<u32>, b: u8)
    requires
        rwx_bit(b),
    ensures
        ({
            let e = effective_spec(s, uid, owner, group, gids);
            let named = find_spec(s, Kind::Access, Tag::User, uid);
            let in_group = exists|i: int| 0 <= i < s.len() && #[trigger] applies_to_groups(s[i], group, gids);
            &&& (e.matched == Matched::Owner) == (uid == owner)
            &&& (e.matched == Matched::NamedUser) == (uid != owner && named is Some)
            &&& (e.matched == Matched::Groups) == (uid != owner && named is None && in_group)
            &&& e.matched == Matched::Owner ==> !e.limited_by_mask && e.granted == match find_spec(
                s,
                Kind::Access,
                Tag::UserObj,
                0,
            ) {
                Some(i) => s[i].perms,
                None => 0u8,
            }
            &&& e.matched == Matched::NamedUser ==> grants(e.granted, b) == (grants(s[named->Some_0].perms, b)
                && mask_lets(s, b)) && (grants(s[named->Some_0].perms, b) && !mask_lets(s, b)
                ==> e.limited_by_mask)
            &&& e.matched == Matched::Groups ==> grants(e.granted, b) == (mask_lets(s, b) && exists|i: int|
                0 <= i < s.len() && applies_to_groups(#[trigger] s[i], group, gids) && grants(s[i].perms, b))
            &&& e.matched == Matched::Groups ==> ((exists|i: int|
                0 <= i < s.len() && applies_to_groups(#[trigger] s[i], group, gids) && grants(s[i].perms, b))
                && !mask_lets(s, b) ==> e.limited_by_mask)
            &&& e.matched == Matched::Other ==> !e.limited_by_mask && e.granted == match find_spec(
                s,
                Kind::Access,
                Tag::Other,
                0,
            ) {
                Some(i) => s[i].perms,
                None => 0u8,
            }
        }),
{
    let e = effective_spec(s, uid, owner, group, gids);
    let m = effective_mask(s);
    lemma_masked_bit(group_union(s, group, gids), s, b);
    lemma_union_bit(s, group, gids, b);
    assert(group_matches(s, group, gids) == exists|i: int| 0 <= i < s.len() && #[trigger] applies_to_groups(s[i], group, gids)) by {
        if group_matches(s, group, gids) {
            let i = choose|i: int| 0 <= i < s.len() && #[trigger] group_entry_applies(s[i], group, gids);
            assert(applies_to_groups(s[i], group, gids));
        }
        if exists|i: int| 0 <= i < s.len() && #[trigger] applies_to_groups(s[i], group, gids) {
            let i = choose|i: int| 0 <= i < s.len() && #[trigger] applies_to_groups(s[i], group, gids);
            assert(group_entry_applies(s[i], group, gids));
        }
    }
    if uid != owner {
        match find_spec(s, Kind::Access, Tag::User, uid) {
            Some(k) => {
                let p = s[k].perms;
                lemma_masked_bit(p, s, b);
                let u = p & m;
                assert(grants(p, b) && !grants(m, b) ==> u != p) by {
                    assert(p & b != 0 && m & b == 0 ==> (p & m) != p) by (bit_vector);
                }
            },
            None => {
                let u = group_union(s, group, gids);
                assert(grants(u, b) && !grants(m, b) ==> u & m != u) by {
                    assert(u & b != 0 && m & b == 0 ==> (u & m) != u) by (bit_vector);
                }
            },
        }
    }
}


proof fn lemma_tabs_are_tabs(n: nat)
    ensures
        tabs(n).len() == n,
        forall|i: int| 0 <= i < n ==> #[trigger] tabs(n)[i] == '\t',
    decreases n,
{
    if n > 0 {
        lemma_tabs_are_tabs((n - 1) as nat);
        reveal_strlit("\t");
        let t = tabs((n - 1) as nat);
        assert forall|i: int| 0 <= i < n implies #[trigger] tabs(n)[i] == '\t' by {
            if i < n - 1 {
                assert(tabs(n)[i] == t[i]);
            }
        }
    }
}

/// getfacl's `#effective:` notes: an entry of the group class (a named
/// user, a named group or the owning group) whose permissions the mask of
/// its kind clips is followed, after one or more tabs, by `#effective:` and
/// what the mask leaves of them; every other entry (the owner, the mask,
/// other, or one the mask does not clip, or any entry when its kind has no
/// mask) is its bare `tag:qualifier:perms` line.
pub proof fn lemma_effective_notes(s: Seq<Entry>, e: Entry, name: Seq<char>)
    ensures
        ({
            let mask = find_spec(s, e.kind, Tag::Mask, 0);
            let group_class = e.tag == Tag::User || e.tag == Tag::Group || e.tag == Tag::GroupObj;
            let clips = group_class && mask is Some && e.perms & s[mask->Some_0].perms != e.perms;
            &&& clips ==> exists|pad: Seq<char>|
                pad.len() >= 1 && (forall|i: int| 0 <= i < pad.len() ==> #[trigger] pad[i] == '\t') && entry_line(
                    s,
                    e,
                    name,
                ) == entry_head(e, name) + pad + "#effective:"@ + perm_text(e.perms & s[mask->Some_0].perms)
                    + "\n"@
            &&& !clips ==> entry_line(s, e, name) == entry_head(e, name) + "\n"@
        }),
{
    let mask = find_spec(s, e.kind, Tag::Mask, 0);
    let group_class = e.tag == Tag::User || e.tag == Tag::Group || e.tag == Tag::GroupObj;
    let clips = group_class && mask is Some && e.perms & s[mask->Some_0].perms != e.perms;
    let head = entry_head(e, name);
    if clips {
        let m = s[mask->Some_0].perms;
        assert(clipped(s, e) == Some(e.perms & m));
        let n = note_tabs(entry_head_bytes(e, name));
        lemma_tabs_are_tabs(n);
        reveal_strlit("\t#effective:");
        reveal_strlit("#effective:");
        reveal_strlit("\t");
        let pad = tabs(n) + "\t"@;
        assert("\t#effective:"@ =~= "\t"@ + "#effective:"@);
        assert forall|i: int| 0 <= i < pad.len() implies #[trigger] pad[i] == '\t' by {
            if i < n {
                assert(pad[i] == tabs(n)[i]);
            }
        }
        assert(entry_line(s, e, name) =~= head + pad + "#effective:"@ + perm_text(e.perms & m) + "\n"@);
    } else {
        assert(clipped(s, e) is None);
        assert(entry_line(s, e, name) =~= head + "\n"@);
    }
}


proof fn lemma_count_kind_exists(s: Seq<Entry>, kind: Kind)
    ensures
        (count_kind(s, kind) > 0) == exists|i: int| 0 <= i < s.len() && (#[trigger] s[i]).kind == kind,
    decreases s.len(),
{
    if s.len() > 0 {
        let d = s.drop_last();
        lemma_count_kind_exists(d, kind);
        if exists|i: int| 0 <= i < d.len() && (#[trigger] d[i]).kind == kind {
            let i = choose|i: int| 0 <= i < d.len() && (#[trigger] d[i]).kind == kind;
            assert(s[i] == d[i]);
        }
        if exists|i: int| 0 <= i < s.len() && (#[trigger] s[i]).kind == kind {
            let i = choose|i: int| 0 <= i < s.len() && (#[trigger] s[i]).kind == kind;
            if i < d.len() {
                assert(d[i] == s[i]);
            }
        }
    }
}

proof fn lemma_count_named_exists(s: Seq<Entry>, kind: Kind)
    ensures
        (count_named_spec(s, kind) > 0) == exists|i: int|
            0 <= i < s.len() && (#[trigger] s[i]).kind == kind && tag_named(s[i].tag),
    decreases s.len(),
{
    if s.len() > 0 {
        let d = s.drop_last();
        lemma_count_named_exists(d, kind);
        if exists|i: int| 0 <= i < d.len() && (#[trigger] d[i]).kind == kind && tag_named(d[i].tag) {
            let i = choose|i: int| 0 <= i < d.len() && (#[trigger] d[i]).kind == kind && tag_named(d[i].tag);
            assert(s[i] == d[i]);
        }
        if exists|i: int| 0 <= i < s.len() && (#[trigger] s[i]).kind == kind && tag_named(s[i].tag) {
            let i = choose|i: int| 0 <= i < s.len() && (#[trigger] s[i]).kind == kind && tag_named(s[i].tag);
            if i < d.len() {
                assert(d[i] == s[i]);
            }
        }
    }
}

/// What the kernel accepts of the entries of `kind`: exactly one owner,
/// one owning-group and one other entry, at most one mask and one when
/// there are named entries, and no user or group named twice.
pub open spec fn kind_acceptable(s: Seq<Entry>, kind: Kind) -> bool {
    &&& count_tag(s, kind, Tag::UserObj) == 1
    &&& count_tag(s, kind, Tag::GroupObj) == 1
    &&& count_tag(s, kind, Tag::Other) == 1
    &&& count_tag(s, kind, Tag::Mask) <= 1
    &&& (exists|i: int| 0 <= i < s.len() && (#[trigger] s[i]).kind == kind && tag_named(s[i].tag)) ==> count_tag(
        s,
        kind,
        Tag::Mask,
    ) == 1
    &&& forall|i: int, j: int|
        0 <= i < j < s.len() && (#[trigger] s[i]).kind == kind && (#[trigger] s[j]).kind == kind && tag_named(s[i].tag)
            ==> !(s[j].tag == s[i].tag && s[j].id == s[i].id)
}

/// `validate` accepts exactly the sets the kernel accepts: the access
/// entries acceptable, and, when there are default entries, the object a
/// directory and the default entries acceptable too.
pub proof fn lemma_validate_accepts(s: Seq<Entry>, is_dir: bool)
    ensures
        (acl_problem(s, is_dir) is None) == (kind_acceptable(s, Kind::Access) && ((exists|i: int|
            0 <= i < s.len() && (#[trigger] s[i]).kind == Kind::Default) ==> is_dir && kind_acceptable(
            s,
            Kind::Default,
        ))),
{
    lemma_count_kind_exists(s, Kind::Default);
    lemma_count_named_exists(s, Kind::Access);
    lemma_count_named_exists(s, Kind::Default);
    assert forall|k: Kind| #[trigger] has_duplicate_named(s, k) == !(forall|i: int, j: int|
        0 <= i < j < s.len() && (#[trigger] s[i]).kind == k && (#[trigger] s[j]).kind == k && tag_named(s[i].tag)
            ==> !(s[j].tag == s[i].tag && s[j].id == s[i].id)) by {
        if has_duplicate_named(s, k) {
            let (i, j) = choose|i: int, j: int|
                0 <= i < j < s.len() && #[trigger] counts_as_named(s[i], k) && s[j].kind == k && s[j].tag == s[i].tag
                    && #[trigger] s[j].id == s[i].id;
            assert(s[i].kind == k && s[j].kind == k && tag_named(s[i].tag));
        }
        if !(forall|i: int, j: int|
            0 <= i < j < s.len() && (#[trigger] s[i]).kind == k && (#[trigger] s[j]).kind == k && tag_named(s[i].tag)
                ==> !(s[j].tag == s[i].tag && s[j].id == s[i].id)) {
            let (i, j) = choose|i: int, j: int|
                !(0 <= i < j < s.len() && (#[trigger] s[i]).kind == k && (#[trigger] s[j]).kind == k && tag_named(
                    s[i].tag,
                ) ==> !(s[j].tag == s[i].tag && s[j].id == s[i].id));
            assert(counts_as_named(s[i], k));
        }
    }
    assert(kind_problem(s, Kind::Access) is None == kind_acceptable(s, Kind::Access));
    assert(kind_problem(s, Kind::Default) is None == kind_acceptable(s, Kind::Default));
}

} // verus!
