//! `Model`: the load/stage/apply lifecycle over one filesystem object.
//! The system calls (stat, extended attributes, chown, the directory walk)
//! are made by the caller; the decisions between them are made here: what
//! a set of observations means for the model, what to write where, and how
//! failures are reported.
use vstd::prelude::*;
use super::errno::{EACCES, EINVAL, EIO, ENOENT, ENOTDIR, EOPNOTSUPP, EPERM};
use super::model::{
    canonical, format_getfacl, set_spec, Entry, EntryList, Kind, Tag, count_kind, auto_mask_spec,
    acl_problem, P_ALL, find_spec, same_principal, lemma_find_from_bounds, lemma_set_then_find,
    lemma_set_keeps_principals, lemma_canonical_sorted_permutation, plain_name, names_entries,
};

verus! {

broadcast use vstd::seq_lib::group_to_multiset_ensures;

#[derive(Debug, Clone, Copy, PartialEq, Eq, Structural)]
pub enum LoadStatus {
    /// Loaded without trouble.
    Loaded,
    /// Filesystem has no ACL support: degraded, mode-bits-only view.
    NotSup,
    Denied,
    NoEnt,
    Error,
}

/// File type, owner and permission bits as stat(2) reports them.
#[derive(Debug, Clone, Copy, PartialEq, Eq, Structural)]
pub struct FileStat {
    pub mode: u32,
    pub uid: u32,
    pub gid: u32,
}

/// What the system said about an object: `lstat`, the link target (read
/// when the object is a symlink), `stat`, and the access and default ACLs
/// as `read_acl` returned them (`Ok(None)`: no such attribute). Errors are
/// raw errno values.
pub struct LoadProbe {
    pub lstat: Result<FileStat, i32>,
    pub link_target: Option<String>,
    pub stat: Result<FileStat, i32>,
    pub access_acl: Result<Option<Vec<Entry>>, i32>,
    pub default_acl: Result<Option<Vec<Entry>>, i32>,
}

#[derive(Debug)]
pub struct Model {
    pub path: String,
    pub target: Option<String>,
    pub is_symlink: bool,
    pub is_dir: bool,
    pub mode: u32,
    pub status: LoadStatus,
    pub load_errno: Option<i32>,
    pub acl_supported: bool,
    pub has_default_acl: bool,
    pub owner: u32,
    pub group: u32,
    pub staged_owner: u32,
    pub staged_group: u32,
    pub current: EntryList,
    pub staged: EntryList,
    pub auto_mask: bool,
    pub recursive: bool,
}

/// A `Model` as plain values.
pub struct ModelView {
    pub path: Seq<char>,
    pub target: Option<Seq<char>>,
    pub is_symlink: bool,
    pub is_dir: bool,
    pub mode: u32,
    pub status: LoadStatus,
    pub load_errno: Option<i32>,
    pub acl_supported: bool,
    pub has_default_acl: bool,
    pub owner: u32,
    pub group: u32,
    pub staged_owner: u32,
    pub staged_group: u32,
    pub current: Seq<Entry>,
    pub staged: Seq<Entry>,
    pub auto_mask: bool,
    pub recursive: bool,
}

pub open spec fn opt_text(o: Option<String>) -> Option<Seq<char>> {
    match o {
        Some(s) => Some(s@),
        None => None,
    }
}

impl View for Model {
    type V = ModelView;

    open spec fn view(&self) -> ModelView {
        ModelView {
            path: self.path@,
            target: opt_text(self.target),
            is_symlink: self.is_symlink,
            is_dir: self.is_dir,
            mode: self.mode,
            status: self.status,
            load_errno: self.load_errno,
            acl_supported: self.acl_supported,
            has_default_acl: self.has_default_acl,
            owner: self.owner,
            group: self.group,
            staged_owner: self.staged_owner,
            staged_group: self.staged_group,
            current: self.current@,
            staged: self.staged@,
            auto_mask: self.auto_mask,
            recursive: self.recursive,
        }
    }
}

pub struct ApplyError {
    pub path: String,
    pub errno: i32,
    pub what: &'static str,
}

/// Outcome of an apply: objects written, directories among them, and
/// failures, with the detail of the first 1000 failures.
pub struct Report {
    pub objects: usize,
    pub dirs: usize,
    pub failures: usize,
    pub errors: Vec<ApplyError>,
}

/// At most this many failures are kept in detail.
pub const MAX_ERRORS: usize = 1000;

/// How a load failure with `errno` is classified.
pub open spec fn status_of(errno: i32) -> LoadStatus {
    if errno == EOPNOTSUPP {
        LoadStatus::NotSup
    } else if errno == EACCES || errno == EPERM {
        LoadStatus::Denied
    } else if errno == ENOENT || errno == ENOTDIR {
        LoadStatus::NoEnt
    } else {
        LoadStatus::Error
    }
}

pub open spec fn file_type_bits(mode: u32) -> u32 {
    mode & 0o170000
}

/// The three base entries that stand for the permission bits of `mode`.
pub open spec fn mode_entries(mode: u32) -> Seq<Entry> {
    seq![
        Entry { kind: Kind::Access, tag: Tag::UserObj, id: 0, perms: (((mode >> 6) & 7) as u8) & P_ALL },
        Entry { kind: Kind::Access, tag: Tag::GroupObj, id: 0, perms: (((mode >> 3) & 7) as u8) & P_ALL },
        Entry { kind: Kind::Access, tag: Tag::Other, id: 0, perms: ((mode & 7) as u8) & P_ALL },
    ]
}

/// A freshly loaded model before anything was learnt about the object.
pub open spec fn blank_view(path: Seq<char>) -> ModelView {
    ModelView {
        path,
        target: None,
        is_symlink: false,
        is_dir: false,
        mode: 0,
        status: LoadStatus::Loaded,
        load_errno: None,
        acl_supported: true,
        has_default_acl: false,
        owner: 0,
        group: 0,
        staged_owner: 0,
        staged_group: 0,
        current: Seq::empty(),
        staged: Seq::empty(),
        auto_mask: true,
        recursive: false,
    }
}

pub open spec fn failed_view(v: ModelView, errno: i32) -> ModelView {
    ModelView { load_errno: Some(errno), status: status_of(errno), ..v }
}

pub open spec fn acl_view(r: Result<Option<Vec<Entry>>, i32>) -> Result<Option<Seq<Entry>>, i32> {
    match r {
        Ok(Some(v)) => Ok(Some(v@)),
        Ok(None) => Ok(None),
        Err(e) => Err(e),
    }
}

/// The model `load` builds from the observations: lstat decides whether it
/// is a symlink, stat gives type, owner and mode bits, the access ACL gives
/// the entries (the mode bits stand in when there is none, or when the
/// filesystem has no ACL support, which also makes the view read-only), a
/// directory's default ACL is added, and the result is put in canonical
/// order and staged unchanged. The first failing step decides the status.
pub open spec fn load_view(
    path: Seq<char>,
    lstat: Result<FileStat, i32>,
    link_target: Option<Seq<char>>,
    stat: Result<FileStat, i32>,
    access: Result<Option<Seq<Entry>>, i32>,
    default: Result<Option<Seq<Entry>>, i32>,
) -> ModelView {
    let m0 = blank_view(path);
    match lstat {
        Err(e) => failed_view(m0, e),
        Ok(l) => {
            let is_symlink = file_type_bits(l.mode) == 0o120000;
            let m1 = ModelView { is_symlink, target: if is_symlink { link_target } else { None }, ..m0 };
            match stat {
                Err(e) => failed_view(m1, e),
                Ok(st) => {
                    let mode = st.mode & 0o7777;
                    let m2 = ModelView {
                        is_dir: file_type_bits(st.mode) == 0o040000,
                        mode,
                        owner: st.uid,
                        group: st.gid,
                        staged_owner: st.uid,
                        staged_group: st.gid,
                        ..m1
                    };
                    let m3_opt: Option<ModelView> = match access {
                        Ok(Some(es)) => Some(ModelView { current: es, ..m2 }),
                        Ok(None) => Some(ModelView { current: mode_entries(mode), ..m2 }),
                        Err(e) => if e == EOPNOTSUPP {
                            Some(
                                ModelView {
                                    acl_supported: false,
                                    load_errno: Some(EOPNOTSUPP),
                                    status: LoadStatus::NotSup,
                                    current: mode_entries(mode),
                                    ..m2
                                },
                            )
                        } else {
                            None
                        },
                    };
                    match m3_opt {
                        None => failed_view(m2, access->Err_0),
                        Some(m3) => {
                            let m4 = if m3.is_dir && m3.acl_supported {
                                match default {
                                    Ok(Some(d)) => ModelView {
                                        has_default_acl: d.len() > 0,
                                        current: m3.current + d,
                                        ..m3
                                    },
                                    _ => m3,
                                }
                            } else {
                                m3
                            };
                            ModelView {
                                current: canonical(m4.current),
                                staged: canonical(m4.current),
                                ..m4
                            }
                        },
                    }
                },
            }
        },
    }
}

pub open spec fn has_kind(s: Seq<Entry>, kind: Kind) -> bool {
    exists|i: int| 0 <= i < s.len() && (#[trigger] s[i]).kind == kind
}

/// `s` without its entries of `kind`, order kept.
pub open spec fn drop_kind(s: Seq<Entry>, kind: Kind) -> Seq<Entry>
    decreases s.len(),
{
    if s.len() == 0 {
        s
    } else {
        drop_kind(s.drop_last(), kind) + if s.last().kind == kind { Seq::empty() } else { seq![s.last()] }
    }
}

/// Only the entries of `kind`, order kept.
pub open spec fn keep_kind(s: Seq<Entry>, kind: Kind) -> Seq<Entry>
    decreases s.len(),
{
    if s.len() == 0 {
        s
    } else {
        keep_kind(s.drop_last(), kind) + if s.last().kind == kind { seq![s.last()] } else { Seq::empty() }
    }
}

/// `base` after `set(Default, tag, id, perms)` for each of `es` in turn.
pub open spec fn set_all_default(base: Seq<Entry>, es: Seq<Entry>) -> Seq<Entry>
    decreases es.len(),
{
    if es.len() == 0 {
        base
    } else {
        let e = es.last();
        set_spec(set_all_default(base, es.drop_last()), Kind::Default, e.tag, e.id, e.perms)
    }
}

/// The staged list after copying the access ACL to the default ACL.
pub open spec fn copied_to_default(s: Seq<Entry>) -> Seq<Entry> {
    let base = drop_kind(s, Kind::Default);
    canonical(set_all_default(base, keep_kind(base, Kind::Access)))
}

/// Whether the staged state differs from what is on disk.
pub open spec fn dirty_spec(v: ModelView) -> bool {
    v.staged_owner != v.owner || v.staged_group != v.group || canonical(v.current) != canonical(v.staged)
}

/// The staged list as `apply` writes it: auto-masked when armed (the
/// default ACL only on a directory).
pub open spec fn masked_staged(v: ModelView) -> Seq<Entry> {
    if v.auto_mask {
        let a = auto_mask_spec(v.staged, Kind::Access);
        if v.is_dir {
            auto_mask_spec(a, Kind::Default)
        } else {
            a
        }
    } else {
        v.staged
    }
}

/// Owner change an apply asks for: the new uid and gid, each only if it
/// differs from the current one.
#[derive(Debug, Clone, Copy, PartialEq, Eq, Structural)]
pub struct OwnerChange {
    pub uid: Option<u32>,
    pub gid: Option<u32>,
}

impl OwnerChange {
    /// Whether there is an owner or group to change at all.
    pub fn needed(&self) -> (b: bool)
        ensures
            b == (self.uid is Some || self.gid is Some),
    {
        self.uid.is_some() || self.gid.is_some()
    }
}

/// Whether loading reads the default ACL: only of a directory, and only
/// when reading the access ACL went through (no error, ACLs supported).
pub fn wants_default_acl(st: &FileStat, access: &Result<Option<Vec<Entry>>, i32>) -> (b: bool)
    ensures
        b == (file_type_bits(st.mode) == 0o040000 && access is Ok),
{
    (st.mode & 0o170000) == 0o040000 && access.is_ok()
}

/// What happens to the default ACL of one object during an apply.
#[derive(Debug, Clone, Copy, PartialEq, Eq, Structural)]
pub enum DefaultStep {
    /// Not a directory: default ACLs do not apply.
    Skip,
    /// Write the staged default entries.
    Write,
    /// The staged list has no default entries: remove the attribute.
    Remove,
}

pub open spec fn default_step_spec(s: Seq<Entry>, is_dir: bool) -> DefaultStep {
    if !is_dir {
        DefaultStep::Skip
    } else if has_kind(s, Kind::Default) {
        DefaultStep::Write
    } else {
        DefaultStep::Remove
    }
}

fn has_kind_exec(l: &EntryList, kind: Kind) -> (b: bool)
    ensures
        b == has_kind(l@, kind),
{
    let n: usize = l.0.len();
    let mut i: usize = 0;
    while i < n
        invariant
            n == l@.len(),
            i <= n,
            forall|j: int| 0 <= j < i ==> (#[trigger] l@[j]).kind != kind,
        decreases n - i,
    {
        if l.0[i].kind == kind {
            return true;
        }
        i = i + 1;
    }
    false
}

/// What to do with the default ACL of an object written from `list`.
pub fn default_step(list: &EntryList, is_dir: bool) -> (step: DefaultStep)
    ensures
        step == default_step_spec(list@, is_dir),
{
    if !is_dir {
        DefaultStep::Skip
    } else if has_kind_exec(list, Kind::Default) {
        DefaultStep::Write
    } else {
        DefaultStep::Remove
    }
}

/// The three base entries that stand for the permission bits of `mode`.
pub fn mode_to_entries(mode: u32) -> (l: EntryList)
    ensures
        l@ == mode_entries(mode),
{
    let mut l: EntryList = EntryList::new();
    l.set(Kind::Access, Tag::UserObj, 0, ((mode >> 6) & 0x7) as u8);
    l.set(Kind::Access, Tag::GroupObj, 0, ((mode >> 3) & 0x7) as u8);
    l.set(Kind::Access, Tag::Other, 0, (mode & 0x7) as u8);
    proof {
        reveal_with_fuel(super::model::find_from, 4);
        assert(l@ =~= mode_entries(mode));
    }
    l
}

fn status_of_exec(errno: i32) -> (s: LoadStatus)
    ensures
        s == status_of(errno),
{
    if errno == EOPNOTSUPP {
        LoadStatus::NotSup
    } else if errno == EACCES || errno == EPERM {
        LoadStatus::Denied
    } else if errno == ENOENT || errno == ENOTDIR {
        LoadStatus::NoEnt
    } else {
        LoadStatus::Error
    }
}

fn append_entries(l: &mut EntryList, extra: &Vec<Entry>)
    ensures
        final(l)@ == old(l)@ + extra@,
{
    let ghost start = l@;
    let n: usize = extra.len();
    let mut i: usize = 0;
    while i < n
        invariant
            n == extra@.len(),
            i <= n,
            l@ == start + extra@.take(i as int),
        decreases n - i,
    {
        l.0.push(extra[i]);
        proof {
            assert(l@ =~= start + extra@.take(i + 1));
        }
        i = i + 1;
    }
    proof {
        assert(extra@.take(n as int) =~= extra@);
    }
}

impl Model {
    fn fail(&mut self, errno: i32)
        ensures
            final(self)@ == failed_view(old(self)@, errno),
    {
        self.load_errno = Some(errno);
        self.status = status_of_exec(errno);
    }

    /// Build the model of `path` from what the system said about it (see
    /// `LoadProbe`). Always returns a model; `status` tells how far loading
    /// got. POSIX.1e ACLs do not exist on symlinks: the ACLs are those of
    /// the resolved object, and `follow` only steers what is reported.
    #[verifier::rlimit(40)]
    pub fn load(path: String, follow: bool, probe: LoadProbe) -> (m: Model)
        ensures
            m@ == load_view(
                path@,
                probe.lstat,
                opt_text(probe.link_target),
                probe.stat,
                acl_view(probe.access_acl),
                acl_view(probe.default_acl),
            ),
            read_as(acl_view(probe.access_acl), Kind::Access) && read_as(acl_view(probe.default_acl), Kind::Default)
                ==> m@.has_default_acl == has_kind(m@.current, Kind::Default),
    {
        let ghost access_v = acl_view(probe.access_acl);
        let ghost default_v = acl_view(probe.default_acl);
        let ghost target_v = opt_text(probe.link_target);
        proof {
            if read_as(access_v, Kind::Access) && read_as(default_v, Kind::Default) {
                lemma_loaded_default_flag(path@, probe.lstat, target_v, probe.stat, access_v, default_v);
            }
        }
        let mut m: Model = Model {
            path,
            target: None,
            is_symlink: false,
            is_dir: false,
            mode: 0,
            status: LoadStatus::Loaded,
            load_errno: None,
            acl_supported: true,
            has_default_acl: false,
            owner: 0,
            group: 0,
            staged_owner: 0,
            staged_group: 0,
            current: EntryList::new(),
            staged: EntryList::new(),
            auto_mask: true,
            recursive: false,
        };
        let ghost path_v = m.path@;
        assert(m@ == blank_view(path_v));
        let lst: FileStat = match probe.lstat {
            Ok(st) => st,
            Err(e) => {
                m.fail(e);
                return m;
            },
        };
        if (lst.mode & 0o170000) == 0o120000 {
            m.is_symlink = true;
            m.target = probe.link_target;
        }
        let st: FileStat = match probe.stat {
            Ok(st) => st,
            Err(e) => {
                m.fail(e);
                return m;
            },
        };
        m.is_dir = (st.mode & 0o170000) == 0o040000;
        m.mode = st.mode & 0o7777;
        m.owner = st.uid;
        m.group = st.gid;
        m.staged_owner = st.uid;
        m.staged_group = st.gid;
        match probe.access_acl {
            Ok(Some(entries)) => {
                append_entries(&mut m.current, &entries);
            },
            Ok(None) => {
                m.current = mode_to_entries(m.mode);
            },
            Err(e) => {
                if e == EOPNOTSUPP {
                    m.acl_supported = false;
                    m.load_errno = Some(EOPNOTSUPP);
                    m.status = LoadStatus::NotSup;
                    m.current = mode_to_entries(m.mode);
                } else {
                    m.fail(e);
                    return m;
                }
            },
        }
        if m.is_dir && m.acl_supported {
            match probe.default_acl {
                Ok(Some(entries)) => {
                    m.has_default_acl = entries.len() > 0;
                    append_entries(&mut m.current, &entries);
                },
                _ => {},
            }
        }
        m.current.sort_canonical();
        m.staged = m.current.duplicate();
        m
    }

    /// Staged changes differ from what was loaded or last applied.
    pub fn dirty(&self) -> (b: bool)
        ensures
            b == dirty_spec(self@),
    {
        if self.staged_owner != self.owner || self.staged_group != self.group {
            return true;
        }
        let mut a: EntryList = self.current.duplicate();
        let mut b: EntryList = self.staged.duplicate();
        a.sort_canonical();
        b.sort_canonical();
        !a.same_entries(&b)
    }

    /// Whether an apply walks the whole tree below the object: recursive
    /// apply armed on a directory.
    pub fn walks_tree(&self) -> (b: bool)
        ensures
            b == (self.recursive && self.is_dir),
    {
        self.recursive && self.is_dir
    }

    /// Leaving the object: with nothing staged it may be left as it is;
    /// with staged changes only when the user agreed to discard them
    /// (`discard`), which reverts them. Returns whether it may be left.
    pub fn leave(&mut self, discard: bool) -> (ok: bool)
        ensures
            !dirty_spec(old(self)@) ==> ok && final(self)@ == old(self)@,
            dirty_spec(old(self)@) && discard ==> ok && final(self)@ == (ModelView {
                staged: old(self)@.current,
                staged_owner: old(self)@.owner,
                staged_group: old(self)@.group,
                recursive: false,
                ..old(self)@
            }),
            dirty_spec(old(self)@) && !discard ==> !ok && final(self)@ == old(self)@,
    {
        if !self.dirty() {
            return true;
        }
        if discard {
            self.revert();
            true
        } else {
            false
        }
    }

    /// Throw staged changes away.
    pub fn revert(&mut self)
        ensures
            final(self)@ == (ModelView {
                staged: old(self)@.current,
                staged_owner: old(self)@.owner,
                staged_group: old(self)@.group,
                recursive: false,
                ..old(self)@
            }),
    {
        self.staged = self.current.duplicate();
        self.staged_owner = self.owner;
        self.staged_group = self.group;
        self.recursive = false;
    }

    /// Remove staged entry `idx` (an index past the end changes nothing);
    /// with auto-mask armed, the mask of the removed entry's kind is
    /// recalculated.
    pub fn remove_staged(&mut self, idx: usize)
        ensures
            idx >= old(self)@.staged.len() ==> final(self)@ == old(self)@,
            idx < old(self)@.staged.len() ==> final(self)@ == (ModelView {
                staged: if old(self)@.auto_mask {
                    auto_mask_spec(old(self)@.staged.remove(idx as int), old(self)@.staged[idx as int].kind)
                } else {
                    old(self)@.staged.remove(idx as int)
                },
                ..old(self)@
            }),
    {
        if idx >= self.staged.0.len() {
            return;
        }
        let kind: Kind = self.staged.0[idx].kind;
        self.staged.remove_at(idx);
        if self.auto_mask {
            self.staged.apply_auto_mask(kind);
        }
    }

    /// Arm or disarm auto-mask; arming recalculates the access and the
    /// default mask.
    pub fn set_auto_mask(&mut self, on: bool)
        ensures
            final(self)@ == (ModelView {
                auto_mask: on,
                staged: if on {
                    auto_mask_spec(auto_mask_spec(old(self)@.staged, Kind::Access), Kind::Default)
                } else {
                    old(self)@.staged
                },
                ..old(self)@
            }),
    {
        self.auto_mask = on;
        if on {
            self.staged.apply_auto_mask(Kind::Access);
            self.staged.apply_auto_mask(Kind::Default);
        }
    }

    /// Drop the staged default ACL.
    pub fn remove_default(&mut self)
        ensures
            final(self)@ == (ModelView { staged: drop_kind(old(self)@.staged, Kind::Default), ..old(self)@ }),
    {
        let n: usize = self.staged.0.len();
        let mut kept: Vec<Entry> = Vec::new();
        let mut i: usize = 0;
        while i < n
            invariant
                n == self.staged@.len(),
                i <= n,
                kept@ == drop_kind(self.staged@.take(i as int), Kind::Default),
            decreases n - i,
        {
            proof {
                assert(self.staged@.take(i + 1).drop_last() =~= self.staged@.take(i as int));
            }
            let e: Entry = self.staged.0[i];
            if e.kind != Kind::Default {
                kept.push(e);
            }
            proof {
                assert(kept@ =~= drop_kind(self.staged@.take(i + 1), Kind::Default));
            }
            i = i + 1;
        }
        proof {
            assert(self.staged@.take(n as int) =~= self.staged@);
        }
        self.staged = EntryList(kept);
    }

    /// On a directory, replace the staged default ACL by a copy of the
    /// staged access ACL; anything else is left alone.
    pub fn copy_access_to_default(&mut self)
        ensures
            final(self)@ == if old(self)@.is_dir {
                ModelView { staged: copied_to_default(old(self)@.staged), ..old(self)@ }
            } else {
                old(self)@
            },
    {
        if !self.is_dir {
            return;
        }
        self.remove_default();
        let ghost base = self.staged@;
        let ghost pre = self@;
        let n: usize = self.staged.0.len();
        let mut access: Vec<Entry> = Vec::new();
        let mut i: usize = 0;
        while i < n
            invariant
                n == self.staged@.len(),
                self.staged@ == base,
                i <= n,
                access@ == keep_kind(base.take(i as int), Kind::Access),
            decreases n - i,
        {
            proof {
                assert(base.take(i + 1).drop_last() =~= base.take(i as int));
            }
            let e: Entry = self.staged.0[i];
            if e.kind == Kind::Access {
                access.push(e);
            }
            proof {
                assert(access@ =~= keep_kind(base.take(i + 1), Kind::Access));
            }
            i = i + 1;
        }
        proof {
            assert(base.take(n as int) =~= base);
        }
        let k: usize = access.len();
        let mut j: usize = 0;
        while j < k
            invariant
                k == access@.len(),
                j <= k,
                self.staged@ == set_all_default(base, access@.take(j as int)),
                self@ == (ModelView { staged: self.staged@, ..pre }),
            decreases k - j,
        {
            proof {
                assert(access@.take(j + 1).drop_last() =~= access@.take(j as int));
            }
            let e: Entry = access[j];
            self.staged.set(Kind::Default, e.tag, e.id, e.perms);
            j = j + 1;
        }
        proof {
            assert(access@.take(k as int) =~= access@);
        }
        self.staged.sort_canonical();
    }

    /// getfacl(1)-style listing of the staged ACL with the staged owner.
    pub fn format_getfacl(&self) -> (text: String)
        ensures
            exists|o: Seq<char>, g: Seq<char>, ns: Seq<Seq<char>>|
                plain_name(o) && plain_name(g) && names_entries(
                    canonical(self@.staged),
                    ns,
                ) && text@ == super::model::getfacl_text(self@.path, o, g, canonical(self@.staged), ns),
    {
        let p: &str = self.path.as_str();
        assert(p@ == self@.path);
        let text: String = format_getfacl(p, self.staged_owner, self.staged_group, &self.staged);
        proof {
            let (o, g, ns) = choose|o: Seq<char>, g: Seq<char>, ns: Seq<Seq<char>>|
                plain_name(o) && plain_name(g) && names_entries(
                    canonical(self.staged@),
                    ns,
                ) && text@ == super::model::getfacl_text(p@, o, g, canonical(self.staged@), ns);
            assert(text@ == super::model::getfacl_text(self@.path, o, g, canonical(self@.staged), ns));
        }
        text
    }
}

/// One failure as the report keeps it: path, errno and what was attempted.
pub open spec fn error_view(e: ApplyError) -> (Seq<char>, i32, Seq<char>) {
    (e.path@, e.errno, e.what@)
}

pub open spec fn errors_view(es: Seq<ApplyError>) -> Seq<(Seq<char>, i32, Seq<char>)> {
    es.map_values(|e: ApplyError| error_view(e))
}

impl Default for Report {
    fn default() -> (r: Report)
        ensures
            r.objects == 0 && r.dirs == 0 && r.failures == 0 && r.errors@.len() == 0,
    {
        Report { objects: 0, dirs: 0, failures: 0, errors: Vec::new() }
    }
}

impl Report {
    /// Count a failure on `path`; its detail is kept while fewer than
    /// `MAX_ERRORS` are kept, so a huge tree cannot exhaust memory.
    pub fn add(&mut self, path: &String, errno: i32, what: &'static str)
        requires
            old(self).failures < usize::MAX,
        ensures
            final(self).failures == old(self).failures + 1,
            final(self).objects == old(self).objects,
            final(self).dirs == old(self).dirs,
            errors_view(final(self).errors@) == if old(self).errors@.len() < MAX_ERRORS {
                errors_view(old(self).errors@).push((path@, errno, what@))
            } else {
                errors_view(old(self).errors@)
            },
    {
        self.failures = self.failures + 1;
        if self.errors.len() < MAX_ERRORS {
            let ghost before = self.errors@;
            self.errors.push(ApplyError { path: path.clone(), errno, what });
            proof {
                assert(errors_view(self.errors@) =~= errors_view(before).push((path@, errno, what@)));
            }
        }
    }

    /// One item the recursive walk met: an object it reached, as
    /// `Ok((is_dir, is_symlink))`, or a failure to read, as `Err((path,
    /// errno))` with each part where the walk knows it. Symlinks are
    /// skipped, never followed or modified; a failure is booked as "read
    /// directory" at its path (the walk's `root` when unknown) with its
    /// errno (EIO when unknown), and the walk goes on. Returns
    /// `Some(is_dir)` for an object to write, `None` otherwise.
    pub fn walk_item(&mut self, root: &String, item: Result<(bool, bool), (Option<String>, Option<i32>)>) -> (w:
        Option<bool>)
        requires
            old(self).failures < usize::MAX,
        ensures
            match item {
                Ok((is_dir, is_symlink)) => w == (if is_symlink { None } else { Some(is_dir) }) && final(self).failures
                    == old(self).failures && final(self).objects == old(self).objects && final(self).dirs == old(
                    self,
                ).dirs && final(self).errors@ == old(self).errors@,
                Err((p, e)) => w is None && final(self).failures == old(self).failures + 1 && final(self).objects
                    == old(self).objects && final(self).dirs == old(self).dirs && errors_view(final(self).errors@)
                    == if old(self).errors@.len() < MAX_ERRORS {
                    errors_view(old(self).errors@).push(
                        (
                            match p {
                                Some(p) => p@,
                                None => root@,
                            },
                            match e {
                                Some(e) => e,
                                None => EIO,
                            },
                            "read directory"@,
                        ),
                    )
                } else {
                    errors_view(old(self).errors@)
                },
            },
    {
        match item {
            Ok((is_dir, is_symlink)) => {
                if is_symlink {
                    None
                } else {
                    Some(is_dir)
                }
            },
            Err((p, e)) => {
                let path: String = match p {
                    Some(p) => p,
                    None => root.clone(),
                };
                let errno: i32 = match e {
                    Some(e) => e,
                    None => EIO,
                };
                self.add(&path, errno, "read directory");
                None
            },
        }
    }

    /// Count one object written, and whether it is a directory.
    pub fn object_done(&mut self, is_dir: bool)
        requires
            old(self).objects < usize::MAX,
            old(self).dirs < usize::MAX,
        ensures
            final(self).objects == old(self).objects + 1,
            final(self).dirs == old(self).dirs + if is_dir { 1usize } else { 0usize },
            final(self).failures == old(self).failures,
            final(self).errors@ == old(self).errors@,
    {
        self.objects = self.objects + 1;
        if is_dir {
            self.dirs = self.dirs + 1;
        }
    }

    /// Book the outcome of writing one object: the access ACL write, and
    /// the default ACL step (`default` is ignored when the step is `Skip`).
    /// A missing default ACL, or a filesystem without ACLs, is no failure of
    /// `Remove`. Returns whether the object was written without failure.
    pub fn record_write(
        &mut self,
        path: &String,
        step: DefaultStep,
        access: Result<(), i32>,
        default: Result<(), i32>,
    ) -> (ok: bool)
        requires
            old(self).failures < usize::MAX - 1,
        ensures
            ok == (access is Ok && match step {
                DefaultStep::Skip => true,
                DefaultStep::Write => default is Ok,
                DefaultStep::Remove => match default {
                    Ok(_) => true,
                    Err(e) => e == EOPNOTSUPP || e == ENOENT,
                },
            }),
            final(self).objects == old(self).objects,
            final(self).dirs == old(self).dirs,
            final(self).failures == old(self).failures + (if access is Ok { 0int } else { 1int }) + (if ok
                || access is Err && match step {
                DefaultStep::Skip => true,
                DefaultStep::Write => default is Ok,
                DefaultStep::Remove => match default {
                    Ok(_) => true,
                    Err(e) => e == EOPNOTSUPP || e == ENOENT,
                },
            } {
                0int
            } else {
                1int
            }),
    {
        let mut ok: bool = true;
        if let Err(e) = access {
            self.add(path, e, "set access acl");
            ok = false;
        }
        match step {
            DefaultStep::Skip => {},
            DefaultStep::Write => {
                if let Err(e) = default {
                    self.add(path, e, "set default acl");
                    ok = false;
                }
            },
            DefaultStep::Remove => {
                if let Err(e) = default {
                    if e != EOPNOTSUPP && e != ENOENT {
                        self.add(path, e, "remove default acl");
                        ok = false;
                    }
                }
            },
        }
        ok
    }
}

/// One step of counting the objects a recursive apply would touch: `n`
/// counted so far, `limit` a cap (0: none). Symlinks are not counted.
/// Returns the new count and whether to stop.
pub fn count_step(n: usize, limit: usize, is_symlink: bool) -> (r: (usize, bool))
    requires
        n < usize::MAX,
    ensures
        r.0 == if is_symlink { n } else { (n + 1) as usize },
        r.1 == (!is_symlink && limit > 0 && n + 1 >= limit),
{
    if is_symlink {
        return (n, false);
    }
    let next: usize = n + 1;
    (next, limit > 0 && next >= limit)
}

impl Model {
    /// First stage of writing the staged ACL: refuse when the filesystem
    /// has no ACL support, auto-mask when armed, refuse a set the kernel
    /// would refuse, and put the set in canonical order. On success, the
    /// owner change to make (if any) comes back; each refusal is booked in
    /// the report.
    pub fn apply_begin(&mut self, rep: &mut Report) -> (r: Result<OwnerChange, ()>)
        requires
            old(rep).failures < usize::MAX,
        ensures
            !old(self)@.acl_supported ==> r is Err && final(self)@ == old(self)@
                && final(rep).failures == old(rep).failures + 1
                && errors_view(final(rep).errors@) == if old(rep).errors@.len() < MAX_ERRORS {
                    errors_view(old(rep).errors@).push((old(self)@.path, EOPNOTSUPP, "filesystem has no ACL support"@))
                } else {
                    errors_view(old(rep).errors@)
                },
            old(self)@.acl_supported && acl_problem(masked_staged(old(self)@), old(self)@.is_dir) is Some ==> r is Err
                && final(self)@ == (ModelView { staged: masked_staged(old(self)@), ..old(self)@ })
                && final(rep).failures == old(rep).failures + 1
                && errors_view(final(rep).errors@) == if old(rep).errors@.len() < MAX_ERRORS {
                    errors_view(old(rep).errors@).push((old(self)@.path, EINVAL, "validation"@))
                } else {
                    errors_view(old(rep).errors@)
                },
            old(self)@.acl_supported && acl_problem(masked_staged(old(self)@), old(self)@.is_dir) is None ==> r
                == Ok::<OwnerChange, ()>(
                OwnerChange {
                    uid: if old(self)@.staged_owner != old(self)@.owner {
                        Some(old(self)@.staged_owner)
                    } else {
                        None
                    },
                    gid: if old(self)@.staged_group != old(self)@.group {
                        Some(old(self)@.staged_group)
                    } else {
                        None
                    },
                },
            ) && final(self)@ == (ModelView { staged: canonical(masked_staged(old(self)@)), ..old(self)@ })
                && final(rep).failures == old(rep).failures && final(rep).errors@ == old(rep).errors@,
            final(rep).objects == old(rep).objects,
            final(rep).dirs == old(rep).dirs,
    {
        if !self.acl_supported {
            rep.add(&self.path, EOPNOTSUPP, "filesystem has no ACL support");
            return Err(());
        }
        // Auto-mask first: it can only ever make a set validate that would
        // otherwise fail on "named entries but no mask".
        if self.auto_mask {
            self.staged.apply_auto_mask(Kind::Access);
            if self.is_dir {
                self.staged.apply_auto_mask(Kind::Default);
            }
        }
        if self.staged.validate(self.is_dir).is_err() {
            rep.add(&self.path, EINVAL, "validation");
            return Err(());
        }
        self.staged.sort_canonical();
        let uid: Option<u32> = if self.staged_owner != self.owner { Some(self.staged_owner) } else { None };
        let gid: Option<u32> = if self.staged_group != self.group { Some(self.staged_group) } else { None };
        Ok(OwnerChange { uid, gid })
    }

    /// Book the outcome of the owner change: the new owner and group on
    /// success, a failure in the report otherwise.
    pub fn apply_owner_result(&mut self, result: Result<(), i32>, rep: &mut Report)
        requires
            old(rep).failures < usize::MAX,
        ensures
            match result {
                Ok(_) => final(self)@ == (ModelView {
                    owner: old(self)@.staged_owner,
                    group: old(self)@.staged_group,
                    ..old(self)@
                }) && final(rep).failures == old(rep).failures && final(rep).errors@ == old(rep).errors@,
                Err(e) => final(self)@ == old(self)@ && final(rep).failures == old(rep).failures + 1
                    && errors_view(final(rep).errors@) == if old(rep).errors@.len() < MAX_ERRORS {
                    errors_view(old(rep).errors@).push((old(self)@.path, e, "chown"@))
                } else {
                    errors_view(old(rep).errors@)
                },
            },
            final(rep).objects == old(rep).objects,
            final(rep).dirs == old(rep).dirs,
    {
        match result {
            Ok(()) => {
                self.owner = self.staged_owner;
                self.group = self.staged_group;
            },
            Err(e) => rep.add(&self.path, e, "chown"),
        }
    }

    /// Last stage: with no failure booked, what was written becomes the
    /// current ACL; otherwise nothing changes and the apply failed.
    pub fn apply_finish(&mut self, rep: &Report) -> (r: Result<(), ()>)
        ensures
            rep.failures > 0 ==> r is Err && final(self)@ == old(self)@,
            rep.failures == 0 ==> r is Ok && final(self)@ == (ModelView {
                current: old(self)@.staged,
                has_default_acl: has_kind(old(self)@.staged, Kind::Default),
                ..old(self)@
            }),
    {
        if rep.failures > 0 {
            return Err(());
        }
        self.current = self.staged.duplicate();
        self.has_default_acl = has_kind_exec(&self.current, Kind::Default);
        Ok(())
    }
}

/// A model whose current and staged state agree, owner included, has
/// nothing to write.
pub proof fn lemma_in_sync_is_clean(v: ModelView)
    requires
        v.current == v.staged,
        v.staged_owner == v.owner,
        v.staged_group == v.group,
    ensures
        !dirty_spec(v),
{
}

/// Reverting leaves nothing to write.
pub proof fn lemma_revert_is_clean(v: ModelView)
    ensures
        !dirty_spec(
            ModelView { staged: v.current, staged_owner: v.owner, staged_group: v.group, recursive: false, ..v },
        ),
{
}

/// A freshly loaded model has nothing to write.
pub proof fn lemma_loaded_is_clean(
    path: Seq<char>,
    lstat: Result<FileStat, i32>,
    link_target: Option<Seq<char>>,
    stat: Result<FileStat, i32>,
    access: Result<Option<Seq<Entry>>, i32>,
    default: Result<Option<Seq<Entry>>, i32>,
)
    ensures
        !dirty_spec(load_view(path, lstat, link_target, stat, access, default)),
{
}

/// Every entry of `s` is of `kind`.
pub open spec fn all_of_kind(s: Seq<Entry>, kind: Kind) -> bool {
    forall|i: int| 0 <= i < s.len() ==> (#[trigger] s[i]).kind == kind
}

/// The entry lists an ACL read gave carry entries of the kind read.
pub open spec fn read_as(r: Result<Option<Seq<Entry>>, i32>, kind: Kind) -> bool {
    r matches Ok(Some(es)) ==> all_of_kind(es, kind)
}

proof fn lemma_canonical_has_kind(s: Seq<Entry>, kind: Kind)
    ensures
        has_kind(canonical(s), kind) == has_kind(s, kind),
{
    lemma_canonical_sorted_permutation(s);
    let c = canonical(s);
    if has_kind(s, kind) {
        let i = choose|i: int| 0 <= i < s.len() && (#[trigger] s[i]).kind == kind;
        assert(s.to_multiset().count(s[i]) > 0);
        assert(c.to_multiset().count(s[i]) > 0);
        assert(c.contains(s[i]));
    }
    if has_kind(c, kind) {
        let i = choose|i: int| 0 <= i < c.len() && (#[trigger] c[i]).kind == kind;
        assert(c.to_multiset().count(c[i]) > 0);
        assert(s.to_multiset().count(c[i]) > 0);
        assert(s.contains(c[i]));
    }
}

/// When the access read gave access entries and the default read default
/// entries, a loaded model has a default ACL exactly when its entries
/// include default ones.
pub proof fn lemma_loaded_default_flag(
    path: Seq<char>,
    lstat: Result<FileStat, i32>,
    link_target: Option<Seq<char>>,
    stat: Result<FileStat, i32>,
    access: Result<Option<Seq<Entry>>, i32>,
    default: Result<Option<Seq<Entry>>, i32>,
)
    requires
        read_as(access, Kind::Access),
        read_as(default, Kind::Default),
    ensures
        load_view(path, lstat, link_target, stat, access, default).has_default_acl == has_kind(
            load_view(path, lstat, link_target, stat, access, default).current,
            Kind::Default,
        ),
{
    let v = load_view(path, lstat, link_target, stat, access, default);
    if let (Ok(l), Ok(st)) = (lstat, stat) {
        let mode = st.mode & 0o7777;
        let base: Option<Seq<Entry>> = match access {
            Ok(Some(es)) => Some(es),
            Ok(None) => Some(mode_entries(mode)),
            Err(e) => if e == EOPNOTSUPP { Some(mode_entries(mode)) } else { None },
        };
        if let Some(b) = base {
            assert(!has_kind(b, Kind::Default)) by {
                if has_kind(b, Kind::Default) {
                    let i = choose|i: int| 0 <= i < b.len() && (#[trigger] b[i]).kind == Kind::Default;
                    assert(b[i].kind == Kind::Access);
                }
            }
            let supported = !(access matches Err(_));
            let is_dir = file_type_bits(st.mode) == 0o040000;
            let cur = if is_dir && supported {
                match default {
                    Ok(Some(d)) => b + d,
                    _ => b,
                }
            } else {
                b
            };
            assert(v.current == canonical(cur));
            lemma_canonical_has_kind(cur, Kind::Default);
            if is_dir && supported {
                if let Ok(Some(d)) = default {
                    assert(v.has_default_acl == (d.len() > 0));
                    if d.len() > 0 {
                        assert(cur[b.len() as int].kind == Kind::Default);
                    }
                    if has_kind(cur, Kind::Default) {
                        let i = choose|i: int| 0 <= i < cur.len() && (#[trigger] cur[i]).kind == Kind::Default;
                        if i < b.len() {
                            assert(cur[i] == b[i]);
                        }
                    }
                }
            }
        }
    }
}

/// Once lstat and stat went through, the model describes the object stat
/// reported: its owner and owning group (current and staged alike), its
/// permission bits, whether it is a directory, and whether lstat saw a
/// symlink (then with the link's target); what is staged is what was loaded.
pub proof fn lemma_load_describes_object(
    path: Seq<char>,
    l: FileStat,
    link_target: Option<Seq<char>>,
    st: FileStat,
    access: Result<Option<Seq<Entry>>, i32>,
    default: Result<Option<Seq<Entry>>, i32>,
)
    ensures
        ({
            let v = load_view(path, Ok(l), link_target, Ok(st), access, default);
            &&& v.path == path
            &&& v.owner == st.uid
            &&& v.group == st.gid
            &&& v.staged_owner == st.uid
            &&& v.staged_group == st.gid
            &&& v.mode == st.mode % 0o10000
            &&& v.is_dir == (st.mode / 0o10000 % 0o20 == 0o4)
            &&& v.is_symlink == (l.mode / 0o10000 % 0o20 == 0o12)
            &&& v.target == if v.is_symlink { link_target } else { None }
            &&& v.staged == v.current
        }),
{
    let a = st.mode;
    let c = l.mode;
    assert(a & 0o7777 == a % 0o10000) by (bit_vector);
    assert((a & 0o170000 == 0o040000) == (a / 0o10000 % 0o20 == 0o4)) by (bit_vector);
    assert((c & 0o170000 == 0o120000) == (c / 0o10000 % 0o20 == 0o12)) by (bit_vector);
}

/// A failed lstat or stat leaves the model of a blank object, with the
/// failure's errno, and a status that says what went wrong.
pub proof fn lemma_load_failure(
    path: Seq<char>,
    lstat: Result<FileStat, i32>,
    link_target: Option<Seq<char>>,
    stat: Result<FileStat, i32>,
    access: Result<Option<Seq<Entry>>, i32>,
    default: Result<Option<Seq<Entry>>, i32>,
)
    requires
        lstat is Err || stat is Err,
    ensures
        ({
            let v = load_view(path, lstat, link_target, stat, access, default);
            let e = if lstat is Err { lstat->Err_0 } else { stat->Err_0 };
            &&& v.load_errno == Some(e)
            &&& v.current.len() == 0 && v.staged.len() == 0
            &&& v.owner == 0 && v.group == 0
            &&& (v.status == LoadStatus::NoEnt) == (e == ENOENT || e == ENOTDIR)
            &&& (v.status == LoadStatus::Denied) == (e == EACCES || e == EPERM)
            &&& (v.status == LoadStatus::NotSup) == (e == EOPNOTSUPP)
        }),
{
}

/// The entries a load gives, as a collection: what the access read gave,
/// plus the default read's on a directory; the owner, owning-group and
/// other bits of the mode when there is no ACL attribute, or no ACL support.
pub proof fn lemma_load_entries(
    path: Seq<char>,
    l: FileStat,
    link_target: Option<Seq<char>>,
    st: FileStat,
    access: Result<Option<Seq<Entry>>, i32>,
    default: Result<Option<Seq<Entry>>, i32>,
)
    ensures
        ({
            let v = load_view(path, Ok(l), link_target, Ok(st), access, default);
            let is_dir = st.mode / 0o10000 % 0o20 == 0o4;
            let mode_bits = seq![
                Entry { kind: Kind::Access, tag: Tag::UserObj, id: 0, perms: (st.mode / 64 % 8) as u8 },
                Entry { kind: Kind::Access, tag: Tag::GroupObj, id: 0, perms: (st.mode / 8 % 8) as u8 },
                Entry { kind: Kind::Access, tag: Tag::Other, id: 0, perms: (st.mode % 8) as u8 },
            ];
            let added = match default {
                Ok(Some(d)) => if is_dir { d } else { Seq::empty() },
                _ => Seq::empty(),
            };
            &&& access matches Ok(Some(es)) ==> v.current.to_multiset() == (es + added).to_multiset()
            &&& access matches Ok(None) ==> v.current.to_multiset() == (mode_bits + added).to_multiset()
            &&& access == Err::<Option<Seq<Entry>>, i32>(EOPNOTSUPP) ==> v.current.to_multiset()
                == mode_bits.to_multiset() && !v.acl_supported && v.status == LoadStatus::NotSup
            &&& (access is Err && access->Err_0 != EOPNOTSUPP) ==> v.current.len() == 0 && v.load_errno == Some(
                access->Err_0,
            )
        }),
{
    let a = st.mode;
    assert(a & 0o170000 == 0o040000 <==> a / 0o10000 % 0o20 == 0o4) by (bit_vector);
    assert((((a >> 6) & 7) as u8) & 7 == (a / 64 % 8) as u8) by (bit_vector);
    assert((((a >> 3) & 7) as u8) & 7 == (a / 8 % 8) as u8) by (bit_vector);
    assert(((a & 7) as u8) & 7 == (a % 8) as u8) by (bit_vector);
    let v = load_view(path, Ok(l), link_target, Ok(st), access, default);
    let is_dir = st.mode / 0o10000 % 0o20 == 0o4;
    let mb = mode_entries(a & 0o7777);
    assert((((a & 0o7777) >> 6) & 7) == ((a >> 6) & 7)) by (bit_vector);
    assert((((a & 0o7777) >> 3) & 7) == ((a >> 3) & 7)) by (bit_vector);
    assert(((a & 0o7777) & 7) == (a & 7)) by (bit_vector);
    let mode_bits = seq![
        Entry { kind: Kind::Access, tag: Tag::UserObj, id: 0, perms: (st.mode / 64 % 8) as u8 },
        Entry { kind: Kind::Access, tag: Tag::GroupObj, id: 0, perms: (st.mode / 8 % 8) as u8 },
        Entry { kind: Kind::Access, tag: Tag::Other, id: 0, perms: (st.mode % 8) as u8 },
    ];
    assert(mb =~= mode_bits);
    let added = match default {
        Ok(Some(d)) => if is_dir { d } else { Seq::empty() },
        _ => Seq::empty(),
    };
    let base: Seq<Entry> = match access {
        Ok(Some(es)) => es,
        _ => mode_bits,
    };
    if !(access is Err && access->Err_0 != EOPNOTSUPP) {
        let supported = !(access is Err);
        let cur = if is_dir && supported { match default { Ok(Some(d)) => base + d, _ => base } } else { base };
        assert(v.current == canonical(cur));
        lemma_canonical_sorted_permutation(cur);
        if supported {
            assert(cur =~= base + added);
        } else {
            assert(cur =~= base);
        }
    }
}

proof fn lemma_kept_access(s: Seq<Entry>, i: int)
    requires
        0 <= i < s.len(),
        s[i].kind == Kind::Access,
    ensures
        keep_kind(drop_kind(s, Kind::Default), Kind::Access).contains(s[i]),
    decreases s.len(),
{
    let d = s.drop_last();
    if i < s.len() - 1 {
        lemma_kept_access(d, i);
        let kd = keep_kind(drop_kind(d, Kind::Default), Kind::Access);
        let j = choose|j: int| 0 <= j < kd.len() && kd[j] == s[i];
        let ks = keep_kind(drop_kind(s, Kind::Default), Kind::Access);
        assert(drop_kind(s, Kind::Default).drop_last() =~= drop_kind(d, Kind::Default) || drop_kind(s, Kind::Default)
            =~= drop_kind(d, Kind::Default));
        if s.last().kind == Kind::Default {
            assert(drop_kind(s, Kind::Default) =~= drop_kind(d, Kind::Default));
        } else {
            assert(drop_kind(s, Kind::Default) =~= drop_kind(d, Kind::Default).push(s.last()));
            assert(drop_kind(s, Kind::Default).drop_last() =~= drop_kind(d, Kind::Default));
        }
        assert(ks[j] == s[i]);
    } else {
        assert(drop_kind(s, Kind::Default) =~= drop_kind(d, Kind::Default).push(s.last()));
        assert(drop_kind(s, Kind::Default).drop_last() =~= drop_kind(d, Kind::Default));
        let ks = keep_kind(drop_kind(s, Kind::Default), Kind::Access);
        assert(ks.last() == s[i]);
    }
}

proof fn lemma_set_all_finds(base: Seq<Entry>, es: Seq<Entry>, k: int)
    requires
        0 <= k < es.len(),
    ensures
        find_spec(set_all_default(base, es), Kind::Default, es[k].tag, es[k].id) is Some,
    decreases es.len(),
{
    let d = es.drop_last();
    let e = es.last();
    if k == es.len() - 1 {
        lemma_set_then_find(set_all_default(base, d), Kind::Default, e.tag, e.id, e.perms);
    } else {
        lemma_set_all_finds(base, d, k);
        assert(d[k] == es[k]);
        lemma_set_keeps_principals(set_all_default(base, d), Kind::Default, e.tag, e.id, e.perms, Kind::Default, es[k].tag, es[k].id);
    }
}

/// After copying the access ACL to the default ACL, every principal of
/// the access ACL has a default entry.
pub proof fn lemma_copy_covers_access(s: Seq<Entry>, i: int)
    requires
        0 <= i < s.len(),
        s[i].kind == Kind::Access,
    ensures
        exists|j: int|
            0 <= j < copied_to_default(s).len() && same_principal(
                #[trigger] copied_to_default(s)[j],
                Kind::Default,
                s[i].tag,
                s[i].id,
            ),
{
    let base = drop_kind(s, Kind::Default);
    let es = keep_kind(base, Kind::Access);
    lemma_kept_access(s, i);
    let k = choose|k: int| 0 <= k < es.len() && es[k] == s[i];
    lemma_set_all_finds(base, es, k);
    let r = set_all_default(base, es);
    lemma_find_from_bounds(r, Kind::Default, s[i].tag, s[i].id, 0);
    let idx = find_spec(r, Kind::Default, s[i].tag, s[i].id)->Some_0;
    lemma_canonical_sorted_permutation(r);
    let c = canonical(r);
    assert(r.to_multiset().count(r[idx]) > 0);
    assert(c.to_multiset().count(r[idx]) > 0);
    assert(c.contains(r[idx]));
    let j = choose|j: int| 0 <= j < c.len() && c[j] == r[idx];
    assert(same_principal(c[j], Kind::Default, s[i].tag, s[i].id));
    assert(c == copied_to_default(s));
    assert(same_principal(copied_to_default(s)[j], Kind::Default, s[i].tag, s[i].id));
}

} // verus!
