//! The decisions behind the modal dialogs: the add/edit-entry form, the
//! yes/no prompt, the principal picker and the effective-access prompt.
//! Each is a state plus a step function from a key to the next state and
//! what the caller has to do; drawing and reading keys stay with the caller.
use vstd::prelude::*;
use crate::acl::facade::{Model, ModelView, Report};
use crate::acl::model::{
    auto_mask_spec, canonical, effective_spec, plain_name, find_spec, perm_string, perm_text, set_spec, Effective, Entry, Kind, Matched, Tag,
    P_ALL, P_R, P_W, P_X,
};
use crate::acl::names::{
    display_name_spec, gid_name, lookup_group, lookup_spec, lookup_user, needs_database, uid_name, user_groups,
    decimal_string, decimal_text, merge_groups_spec,
};
use super::term::{is_plain_char, KeyInput};
use crate::tree::text_le;
use crate::sorting::{stable_sort, sorted_by, total_preorder, lemma_insert_at, lemma_stable_sort_sorted};

verus! {

/// Unicode White_Space, the characters `char::is_whitespace` accepts:
/// U+0009 to U+000D, U+0020, U+0085, U+00A0, U+1680, U+2000 to U+200A,
/// U+2028, U+2029, U+202F, U+205F and U+3000.
pub open spec fn is_white_space(c: char) -> bool {
    let n = c as u32;
    ||| 0x9 <= n <= 0xd
    ||| n == 0x20
    ||| n == 0x85
    ||| n == 0xa0
    ||| n == 0x1680
    ||| 0x2000 <= n <= 0x200a
    ||| n == 0x2028
    ||| n == 0x2029
    ||| n == 0x202f
    ||| n == 0x205f
    ||| n == 0x3000
}

/// `s` without its leading white space.
pub open spec fn trim_start_spec(s: Seq<char>) -> Seq<char>
    decreases s.len(),
{
    if s.len() > 0 && is_white_space(s[0]) {
        trim_start_spec(s.drop_first())
    } else {
        s
    }
}

/// `s` without its trailing white space.
pub open spec fn trim_end_spec(s: Seq<char>) -> Seq<char>
    decreases s.len(),
{
    if s.len() > 0 && is_white_space(s.last()) {
        trim_end_spec(s.drop_last())
    } else {
        s
    }
}

/// What `str::trim` leaves of a text: leading and trailing white space
/// removed.
pub open spec fn trimmed(s: Seq<char>) -> Seq<char> {
    trim_end_spec(trim_start_spec(s))
}

/// `String::push`: appends `c`.
#[verifier::external_body]
fn push_char(s: &mut String, c: char)
    ensures
        final(s)@ == old(s)@.push(c),
{
    s.push(c);
}

/// Removes and returns the last character, `None` on an empty string (what
/// `String::pop` does).
fn pop_char(s: &mut String) -> (r: Option<char>)
    ensures
        old(s)@.len() == 0 ==> r is None && final(s)@ == old(s)@,
        old(s)@.len() > 0 ==> r == Some(old(s)@.last()) && final(s)@ == old(s)@.drop_last(),
{
    let n: usize = s.as_str().unicode_len();
    if n == 0 {
        return None;
    }
    let c: char = s.as_str().get_char(n - 1);
    let t: String = String::from_str(s.as_str().substring_char(0, n - 1));
    assert(t@ =~= s@.drop_last());
    *s = t;
    Some(c)
}

fn white(c: char) -> (b: bool)
    ensures
        b == is_white_space(c),
{
    let n: u32 = c as u32;
    (0x9 <= n && n <= 0xd) || n == 0x20 || n == 0x85 || n == 0xa0 || n == 0x1680 || (0x2000 <= n && n <= 0x200a)
        || n == 0x2028 || n == 0x2029 || n == 0x202f || n == 0x205f || n == 0x3000
}

/// The text without leading and trailing white space (what `str::trim`
/// does, white space being the Unicode White_Space property).
fn trim_text(s: &str) -> (r: &str)
    ensures
        r@ == trimmed(s@),
{
    let n: usize = s.unicode_len();
    let mut a: usize = 0;
    assert(s@.subrange(0, n as int) =~= s@);
    while a < n && white(s.get_char(a))
        invariant
            n == s@.len(),
            a <= n,
            trim_start_spec(s@) == trim_start_spec(s@.subrange(a as int, n as int)),
        decreases n - a,
    {
        assert(s@.subrange(a as int, n as int).drop_first() =~= s@.subrange(a + 1, n as int));
        a = a + 1;
    }
    let mut b: usize = n;
    while b > a && white(s.get_char(b - 1))
        invariant
            n == s@.len(),
            a <= b <= n,
            trim_start_spec(s@) == s@.subrange(a as int, n as int),
            trim_end_spec(s@.subrange(a as int, n as int)) == trim_end_spec(s@.subrange(a as int, b as int)),
        decreases b - a,
    {
        assert(s@.subrange(a as int, b as int).drop_last() =~= s@.subrange(a as int, b - 1));
        b = b - 1;
    }
    s.substring_char(a, b)
}

/// What a dialog asks of its caller after a key.
#[derive(Debug, Clone, Copy, PartialEq, Eq, Structural)]
pub enum FormAction {
    /// Redraw and read the next key.
    Continue,
    /// Run the principal picker and hand its choice to `picked`.
    Pick,
    /// OK was pressed: call `commit`.
    Commit,
    /// Close the dialog; `true` when the staged ACL changed.
    Close(bool),
}

/// Number of focusable fields: name, r, w, x, kind, OK, Cancel.
pub const FORM_FIELDS: usize = 7;

/// The add/edit-entry form.
pub struct EntryForm {
    pub is_group: bool,
    /// The principal can be typed (named entries); base entries only have
    /// their permissions edited.
    pub named: bool,
    pub name: String,
    pub perms: u8,
    pub kind: Kind,
    /// 0 name, 1..=3 rwx, 4 kind, 5 OK, 6 Cancel.
    pub focus: usize,
    pub err: String,
    /// The entry being edited.
    pub orig: Option<(Kind, Tag, u32)>,
}

pub struct FormView {
    pub is_group: bool,
    pub named: bool,
    pub name: Seq<char>,
    pub perms: u8,
    pub kind: Kind,
    pub focus: usize,
    pub err: Seq<char>,
    pub orig: Option<(Kind, Tag, u32)>,
}

impl View for EntryForm {
    type V = FormView;

    open spec fn view(&self) -> FormView {
        FormView {
            is_group: self.is_group,
            named: self.named,
            name: self.name@,
            perms: self.perms,
            kind: self.kind,
            focus: self.focus,
            err: self.err@,
            orig: self.orig,
        }
    }
}

/// The label shown for a base entry's principal.
pub open spec fn base_label(t: Tag) -> Seq<char> {
    match t {
        Tag::UserObj => "(owner)"@,
        Tag::GroupObj => "(owning group)"@,
        Tag::Other => "(Everyone)"@,
        Tag::Mask => "(mask)"@,
        _ => Seq::empty(),
    }
}

/// The form opened on entry `e` for editing; `shown` is the name shown
/// for a named entry's id.
pub open spec fn form_for_entry(e: Entry, shown: Seq<char>) -> FormView {
    FormView {
        is_group: e.tag == Tag::Group,
        named: e.tag == Tag::User || e.tag == Tag::Group,
        name: if e.tag == Tag::User || e.tag == Tag::Group { shown } else { base_label(e.tag) },
        perms: e.perms,
        kind: e.kind,
        focus: 0,
        err: Seq::empty(),
        orig: Some((e.kind, e.tag, e.id)),
    }
}

/// The blank form for adding an entry: a user with read permission on
/// the access ACL.
pub open spec fn blank_form() -> FormView {
    FormView {
        is_group: false,
        named: true,
        name: Seq::empty(),
        perms: P_R,
        kind: Kind::Access,
        focus: 0,
        err: Seq::empty(),
        orig: None,
    }
}

/// The form after a key other than Enter's commit: Tab/Down and
/// BackTab/Up move the focus round the seven fields; space toggles the
/// focused permission or kind (or types a space into the name); `/` flips
/// between user and group, Backspace and other characters edit the name
/// while it has the focus; F2 there asks for the picker; Enter on Cancel
/// and Escape close without change, Enter elsewhere commits.
pub open spec fn form_key_spec(f: FormView, k: KeyInput) -> (FormView, FormAction) {
    let text = f.focus == 0 && f.named;
    match k {
        KeyInput::Esc => (f, FormAction::Close(false)),
        KeyInput::Tab | KeyInput::Down => (FormView { focus: ((f.focus + 1) % 7) as usize, ..f }, FormAction::Continue),
        KeyInput::BackTab | KeyInput::Up => (FormView { focus: ((f.focus + 6) % 7) as usize, ..f }, FormAction::Continue),
        KeyInput::F(n) => if n == 2 && text {
            (f, FormAction::Pick)
        } else {
            (f, FormAction::Continue)
        },
        KeyInput::Char(c, _) => if c == ' ' {
            if f.focus == 1 {
                (FormView { perms: f.perms ^ P_R, ..f }, FormAction::Continue)
            } else if f.focus == 2 {
                (FormView { perms: f.perms ^ P_W, ..f }, FormAction::Continue)
            } else if f.focus == 3 {
                (FormView { perms: f.perms ^ P_X, ..f }, FormAction::Continue)
            } else if f.focus == 4 {
                (
                    FormView { kind: if f.kind == Kind::Access { Kind::Default } else { Kind::Access }, ..f },
                    FormAction::Continue,
                )
            } else if text {
                (FormView { name: f.name.push(' '), ..f }, FormAction::Continue)
            } else {
                (f, FormAction::Continue)
            }
        } else if c == '/' && text {
            (FormView { is_group: !f.is_group, ..f }, FormAction::Continue)
        } else if text {
            (FormView { name: f.name.push(c), ..f }, FormAction::Continue)
        } else {
            (f, FormAction::Continue)
        },
        KeyInput::Backspace => if text {
            (FormView { name: if f.name.len() > 0 { f.name.drop_last() } else { f.name }, ..f }, FormAction::Continue)
        } else {
            (f, FormAction::Continue)
        },
        KeyInput::Enter => if f.focus == 6 {
            (f, FormAction::Close(false))
        } else {
            (f, FormAction::Commit)
        },
        _ => (f, FormAction::Continue),
    }
}

/// The staged list after the form is committed with `id` resolved for the
/// typed name, and what the dialog does then. Default entries on a file are
/// refused with a message. Editing a base entry only changes its
/// permissions. Otherwise an unresolved name is reported and nothing
/// changes; a resolved one replaces the edited entry (which is removed) by
/// the principal set with the form's permissions, auto-masked when armed,
/// and the list is put in canonical order.
pub open spec fn commit_spec(f: FormView, m: ModelView, id: Option<u32>) -> (FormView, Seq<Entry>, FormAction) {
    if f.kind == Kind::Default && !m.is_dir {
        (FormView { err: "Default entries need a directory."@, ..f }, m.staged, FormAction::Continue)
    } else if f.orig is Some && !f.named {
        let (k0, t0, i0) = f.orig->Some_0;
        match find_spec(m.staged, k0, t0, i0) {
            Some(i) => (f, m.staged.update(i, Entry { perms: f.perms & P_ALL, ..m.staged[i] }), FormAction::Close(true)),
            None => (f, m.staged, FormAction::Close(false)),
        }
    } else {
        match id {
            None => (
                FormView {
                    err: (if f.is_group { "Unknown group: "@ } else { "Unknown user: "@ }) + trimmed(f.name),
                    ..f
                },
                m.staged,
                FormAction::Continue,
            ),
            Some(x) => {
                let s1 = match f.orig {
                    Some((k0, t0, i0)) => match find_spec(m.staged, k0, t0, i0) {
                        Some(i) => m.staged.remove(i),
                        None => m.staged,
                    },
                    None => m.staged,
                };
                let tag = if f.is_group { Tag::Group } else { Tag::User };
                let s2 = set_spec(s1, f.kind, tag, x, f.perms);
                let s3 = if m.auto_mask { auto_mask_spec(s2, f.kind) } else { s2 };
                (f, canonical(s3), FormAction::Close(true))
            },
        }
    }
}

impl EntryForm {
    /// The form for adding (`edit_idx` None) or editing staged entry
    /// `edit_idx` of `m`; a named entry's principal is shown by name where
    /// the account database knows it, by number otherwise.
    pub fn new(m: &Model, edit_idx: Option<usize>) -> (f: EntryForm)
        requires
            edit_idx matches Some(i) ==> i < m@.staged.len(),
        ensures
            f@.focus < FORM_FIELDS,
            edit_idx is None ==> f@ == blank_form(),
            edit_idx matches Some(i) ==> (exists|shown: Seq<char>|
                plain_name(shown) && f@ == #[trigger] form_for_entry(m@.staged[i as int], shown)),
    {
        match edit_idx {
            None => EntryForm {
                is_group: false,
                named: true,
                name: String::new(),
                perms: P_R,
                kind: Kind::Access,
                focus: 0,
                err: String::new(),
                orig: None,
            },
            Some(i) => {
                let e: Entry = m.staged.0[i];
                let (is_group, named, name): (bool, bool, String) = match e.tag {
                    Tag::User => (false, true, uid_name(e.id)),
                    Tag::Group => (true, true, gid_name(e.id)),
                    Tag::UserObj => (false, false, String::from_str("(owner)")),
                    Tag::GroupObj => (false, false, String::from_str("(owning group)")),
                    Tag::Other => (false, false, String::from_str("(Everyone)")),
                    Tag::Mask => (false, false, String::from_str("(mask)")),
                };
                let f: EntryForm = EntryForm {
                    is_group,
                    named,
                    name,
                    perms: e.perms,
                    kind: e.kind,
                    focus: 0,
                    err: String::new(),
                    orig: Some((e.kind, e.tag, e.id)),
                };
                proof {
                    if e.tag == Tag::User || e.tag == Tag::Group {
                        assert(f@ == form_for_entry(e, f.name@));
                    } else {
                        assert(plain_name(Seq::<char>::empty()));
                        assert(f@ == form_for_entry(e, Seq::<char>::empty()));
                    }
                }
                f
            },
        }
    }

    /// Handle one key (see `form_key_spec`).
    pub fn key(&mut self, k: KeyInput) -> (a: FormAction)
        requires
            old(self)@.focus < FORM_FIELDS,
        ensures
            (final(self)@, a) == form_key_spec(old(self)@, k),
            final(self)@.focus < FORM_FIELDS,
    {
        let text: bool = self.focus == 0 && self.named;
        match k {
            KeyInput::Esc => FormAction::Close(false),
            KeyInput::Tab | KeyInput::Down => {
                self.focus = (self.focus + 1) % FORM_FIELDS;
                FormAction::Continue
            },
            KeyInput::BackTab | KeyInput::Up => {
                self.focus = (self.focus + 6) % FORM_FIELDS;
                FormAction::Continue
            },
            KeyInput::F(n) => if n == 2 && text {
                FormAction::Pick
            } else {
                FormAction::Continue
            },
            KeyInput::Char(c, _) => {
                if c == ' ' {
                    if self.focus == 1 {
                        self.perms = self.perms ^ P_R;
                    } else if self.focus == 2 {
                        self.perms = self.perms ^ P_W;
                    } else if self.focus == 3 {
                        self.perms = self.perms ^ P_X;
                    } else if self.focus == 4 {
                        self.kind = if self.kind == Kind::Access { Kind::Default } else { Kind::Access };
                    } else if text {
                        push_char(&mut self.name, ' ');
                    }
                } else if c == '/' && text {
                    self.is_group = !self.is_group;
                } else if text {
                    push_char(&mut self.name, c);
                }
                FormAction::Continue
            },
            KeyInput::Backspace => {
                if text {
                    pop_char(&mut self.name);
                }
                FormAction::Continue
            },
            KeyInput::Enter => if self.focus == 6 {
                FormAction::Close(false)
            } else {
                FormAction::Commit
            },
            _ => FormAction::Continue,
        }
    }

    /// The principal picked in the picker becomes the typed name.
    pub fn picked(&mut self, name: String)
        ensures
            final(self)@ == (FormView { name: name@, ..old(self)@ }),
    {
        self.name = name;
    }

    /// Commit with `id`, what resolving the typed name gave (see
    /// `commit_spec`).
    #[verifier::rlimit(40)]
    pub fn commit_with_id(&mut self, m: &mut Model, id: Option<u32>) -> (a: FormAction)
        ensures
            ({
                let (f2, s2, a2) = commit_spec(old(self)@, old(m)@, id);
                &&& final(self)@ == f2
                &&& final(m)@ == (ModelView { staged: s2, ..old(m)@ })
                &&& a == a2
            }),
    {
        if self.kind == Kind::Default && !m.is_dir {
            self.err = String::from_str("Default entries need a directory.");
            return FormAction::Continue;
        }
        if let Some((k0, t0, i0)) = self.orig {
            if !self.named {
                match m.staged.find(k0, t0, i0) {
                    Some(i) => {
                        let ghost before = m@;
                        m.staged.0[i].perms = self.perms & P_ALL;
                        assert(m@ == (ModelView {
                            staged: before.staged.update(i as int, Entry { perms: self.perms & P_ALL, ..before.staged[i as int] }),
                            ..before
                        }));
                        return FormAction::Close(true);
                    },
                    None => {
                        return FormAction::Close(false);
                    },
                }
            }
        }
        match id {
            None => {
                let mut msg: String = if self.is_group {
                    String::from_str("Unknown group: ")
                } else {
                    String::from_str("Unknown user: ")
                };
                msg.append(trim_text(self.name.as_str()));
                self.err = msg;
                FormAction::Continue
            },
            Some(x) => {
                if let Some((k0, t0, i0)) = self.orig {
                    if let Some(i) = m.staged.find(k0, t0, i0) {
                        m.staged.remove_at(i);
                    }
                }
                let tag: Tag = if self.is_group { Tag::Group } else { Tag::User };
                m.staged.set(self.kind, tag, x, self.perms);
                if m.auto_mask {
                    m.staged.apply_auto_mask(self.kind);
                }
                m.staged.sort_canonical();
                FormAction::Close(true)
            },
        }
    }

    /// Commit the form: resolve the typed name in the user or group
    /// database (a bare number is that id) and apply `commit_with_id`.
    pub fn commit(&mut self, m: &mut Model) -> (a: FormAction)
        ensures
            exists|id: Option<u32>| {
                let (f2, s2, a2) = #[trigger] commit_spec(old(self)@, old(m)@, id);
                &&& final(self)@ == f2
                &&& final(m)@ == (ModelView { staged: s2, ..old(m)@ })
                &&& a == a2
                &&& !needs_database(trimmed(old(self)@.name)) ==> id == lookup_spec(trimmed(old(self)@.name), None)
            },
    {
        let typed: &str = trim_text(self.name.as_str());
        let id: Option<u32> = if self.is_group { lookup_group(typed) } else { lookup_user(typed) };
        let ghost f0 = self@;
        let ghost m0 = m@;
        let a: FormAction = self.commit_with_id(m, id);
        assert(commit_spec(f0, m0, id) == commit_spec(f0, m0, id));
        a
    }
}

/// Outcome of a key in the yes/no prompt.
#[derive(Debug, Clone, Copy, PartialEq, Eq, Structural)]
pub enum ConfirmStep {
    /// Keep asking, with the focus on Yes (`true`) or No.
    Ask(bool),
    /// The answer.
    Answer(bool),
}

/// The yes/no prompt: arrows and Tab move between the buttons, Enter takes
/// the focused one, `y`/`Y` answers yes, `n`/`N`, Escape and a lost
/// terminal (`None`) answer no.
pub open spec fn confirm_spec(yes: bool, k: Option<KeyInput>) -> ConfirmStep {
    match k {
        None => ConfirmStep::Answer(false),
        Some(k) => match k {
            KeyInput::Left | KeyInput::Right | KeyInput::Tab => ConfirmStep::Ask(!yes),
            KeyInput::Enter => ConfirmStep::Answer(yes),
            KeyInput::Esc => ConfirmStep::Answer(false),
            _ => if is_plain_char(k, 'y') || is_plain_char(k, 'Y') {
                ConfirmStep::Answer(true)
            } else if is_plain_char(k, 'n') || is_plain_char(k, 'N') {
                ConfirmStep::Answer(false)
            } else {
                ConfirmStep::Ask(yes)
            },
        },
    }
}

pub fn confirm_key(yes: bool, k: Option<KeyInput>) -> (r: ConfirmStep)
    ensures
        r == confirm_spec(yes, k),
{
    match k {
        None => ConfirmStep::Answer(false),
        Some(k) => match k {
            KeyInput::Left | KeyInput::Right | KeyInput::Tab => ConfirmStep::Ask(!yes),
            KeyInput::Enter => ConfirmStep::Answer(yes),
            KeyInput::Esc => ConfirmStep::Answer(false),
            _ => if k.is_char('y') || k.is_char('Y') {
                ConfirmStep::Answer(true)
            } else if k.is_char('n') || k.is_char('N') {
                ConfirmStep::Answer(false)
            } else {
                ConfirmStep::Ask(yes)
            },
        },
    }
}

/// `needle` occurs in `hay`.
pub open spec fn contains_text(hay: Seq<char>, needle: Seq<char>) -> bool {
    exists|i: int| 0 <= i && i + needle.len() <= hay.len() && #[trigger] hay.subrange(i, i + needle.len()) == needle
}

fn occurs_at(hay: &str, needle: &str, i: usize) -> (b: bool)
    requires
        i + needle@.len() <= hay@.len(),
    ensures
        b == (hay@.subrange(i as int, i + needle@.len()) == needle@),
{
    let n: usize = needle.unicode_len();
    let h: usize = hay.unicode_len();
    let mut k: usize = 0;
    while k < n
        invariant
            n == needle@.len(),
            h == hay@.len(),
            i + n <= hay@.len(),
            k <= n,
            forall|j: int| 0 <= j < k ==> hay@[i + j] == needle@[j],
        decreases n - k,
    {
        if hay.get_char(i + k) != needle.get_char(k) {
            assert(hay@.subrange(i as int, i + n)[k as int] != needle@[k as int]);
            return false;
        }
        k = k + 1;
    }
    assert(hay@.subrange(i as int, i + n) =~= needle@);
    true
}

fn contains_exec(hay: &str, needle: &str) -> (b: bool)
    ensures
        b == contains_text(hay@, needle@),
{
    let h: usize = hay.unicode_len();
    let n: usize = needle.unicode_len();
    if n > h {
        return false;
    }
    let mut i: usize = 0;
    while i <= h - n
        invariant
            h == hay@.len(),
            n == needle@.len(),
            n <= h,
            forall|j: int| 0 <= j < i ==> #[trigger] hay@.subrange(j, j + n) != needle@,
        decreases h - n + 1 - i,
    {
        if occurs_at(hay, needle, i) {
            return true;
        }
        if i == h - n {
            return false;
        }
        i = i + 1;
    }
    false
}

/// Filterable user/group picker over (name, id) pairs.
pub struct Picker {
    pub items: Vec<(String, u32)>,
    /// Item indices in name order (stable).
    pub order: Vec<usize>,
    pub filter: String,
    pub sel: usize,
}

pub open spec fn item_names(items: Seq<(String, u32)>) -> Seq<Seq<char>> {
    items.map_values(|it: (String, u32)| it.0@)
}

pub open spec fn name_order(names: Seq<Seq<char>>) -> spec_fn(usize, usize) -> bool {
    |a: usize, b: usize| text_le(names[a as int], names[b as int])
}

pub open spec fn indices(n: nat) -> Seq<usize> {
    Seq::new(n, |i: int| i as usize)
}

/// The item indices shown for `filter`: those in `order` whose name
/// contains it, in that order.
pub open spec fn shown_spec(names: Seq<Seq<char>>, order: Seq<usize>, filter: Seq<char>) -> Seq<usize>
    decreases order.len(),
{
    if order.len() == 0 {
        order
    } else {
        shown_spec(names, order.drop_last(), filter) + if contains_text(names[order.last() as int], filter) {
            seq![order.last()]
        } else {
            Seq::empty()
        }
    }
}

/// The selection kept on the list shown: clamped to its last row.
pub open spec fn clamp_sel(sel: usize, len: nat) -> usize {
    if sel >= len {
        if len == 0 { 0 } else { (len - 1) as usize }
    } else {
        sel
    }
}

/// Outcome of a key in the picker.
#[derive(Debug, Clone, Copy, PartialEq, Eq, Structural)]
pub enum PickStep {
    Continue,
    Cancel,
    /// Enter: the selected item, if the list shown is not empty.
    Choose(Option<usize>),
}

proof fn lemma_text_le_total(a: Seq<char>, b: Seq<char>)
    ensures
        text_le(a, b) || text_le(b, a),
    decreases a.len(),
{
    if a.len() > 0 && b.len() > 0 && (a[0] as u32) == (b[0] as u32) {
        lemma_text_le_total(a.drop_first(), b.drop_first());
    }
}

proof fn lemma_text_le_trans(a: Seq<char>, b: Seq<char>, c: Seq<char>)
    requires
        text_le(a, b),
        text_le(b, c),
    ensures
        text_le(a, c),
    decreases a.len(),
{
    if a.len() > 0 && b.len() > 0 && c.len() > 0 && (a[0] as u32) == (b[0] as u32) && (b[0] as u32) == (
    c[0] as u32) {
        lemma_text_le_trans(a.drop_first(), b.drop_first(), c.drop_first());
    }
}

proof fn lemma_name_order_total(names: Seq<Seq<char>>)
    ensures
        total_preorder(name_order(names)),
{
    let le = name_order(names);
    assert forall|a: usize, b: usize| #[trigger] le(a, b) || le(b, a) by {
        lemma_text_le_total(names[a as int], names[b as int]);
    }
    assert forall|a: usize, b: usize, c: usize| #[trigger] le(a, b) && #[trigger] le(b, c) implies le(a, c) by {
        lemma_text_le_trans(names[a as int], names[b as int], names[c as int]);
    }
}

fn name_le(items: &Vec<(String, u32)>, a: usize, b: usize) -> (r: bool)
    requires
        a < items@.len(),
        b < items@.len(),
    ensures
        r == text_le(items@[a as int].0@, items@[b as int].0@),
{
    let sa: &str = items[a].0.as_str();
    let sb: &str = items[b].0.as_str();
    let na: usize = sa.unicode_len();
    let nb: usize = sb.unicode_len();
    let ghost ta = items@[a as int].0@;
    let ghost tb = items@[b as int].0@;
    let mut i: usize = 0;
    assert(ta.skip(0) =~= ta);
    assert(tb.skip(0) =~= tb);
    while i < na && i < nb
        invariant
            na == ta.len(),
            nb == tb.len(),
            ta == items@[a as int].0@,
            tb == items@[b as int].0@,
            sa@ == ta,
            sb@ == tb,
            i <= na,
            i <= nb,
            text_le(ta, tb) == text_le(ta.skip(i as int), tb.skip(i as int)),
        decreases na - i,
    {
        let ca: char = sa.get_char(i);
        let cb: char = sb.get_char(i);
        proof {
            assert(ta.skip(i as int)[0] == ca);
            assert(tb.skip(i as int)[0] == cb);
            assert(ta.skip(i as int).drop_first() =~= ta.skip(i + 1));
            assert(tb.skip(i as int).drop_first() =~= tb.skip(i + 1));
        }
        if (ca as u32) != (cb as u32) {
            return (ca as u32) < (cb as u32);
        }
        i = i + 1;
    }
    i == na
}

impl Picker {
    /// A picker over `items`, listed by name; equal names keep their order.
    #[verifier::rlimit(40)]
    pub fn new(items: Vec<(String, u32)>) -> (p: Picker)
        ensures
            p.items@ == items@,
            p.order@ == stable_sort(indices(items@.len()), name_order(item_names(items@))),
            p.filter@ == Seq::<char>::empty(),
            p.sel == 0,
    {
        let ghost names = item_names(items@);
        let ghost le = name_order(names);
        proof {
            lemma_name_order_total(names);
        }
        let n: usize = items.len();
        let mut out: Vec<usize> = Vec::new();
        let mut i: usize = 0;
        while i < n
            invariant
                n == items@.len(),
                names == item_names(items@),
                le == name_order(names),
                total_preorder(le),
                i <= n,
                out@ == stable_sort(indices(n as nat).take(i as int), le),
                forall|m: int| 0 <= m < out@.len() ==> #[trigger] out@[m] < n,
            decreases n - i,
        {
            proof {
                lemma_stable_sort_sorted(indices(n as nat).take(i as int), le);
                crate::sorting::lemma_stable_sort_multiset(indices(n as nat).take(i as int), le);
            }
            let e: usize = i;
            let mut lo: usize = 0;
            let mut hi: usize = out.len();
            while lo < hi
                invariant
                    0 <= lo <= hi <= out@.len(),
                    n == items@.len(),
                    names == item_names(items@),
                    le == name_order(names),
                    total_preorder(le),
                    sorted_by(out@, le),
                    e < n,
                    forall|m: int| 0 <= m < out@.len() ==> #[trigger] out@[m] < n,
                    forall|k: int| 0 <= k < lo ==> le(#[trigger] out@[k], e),
                    forall|k: int| hi <= k < out@.len() ==> !le(#[trigger] out@[k], e),
                decreases hi - lo,
            {
                let mid: usize = lo + (hi - lo) / 2;
                let x: usize = out[mid];
                let below: bool = name_le(&items, x, e);
                assert(names[x as int] == items@[x as int].0@);
                assert(names[e as int] == items@[e as int].0@);
                assert(below == le(x, e));
                if below {
                    assert forall|k: int| 0 <= k < mid + 1 implies le(#[trigger] out@[k], e) by {
                        if k < mid {
                            assert(le(out@[k], out@[mid as int]));
                        }
                    }
                    lo = mid + 1;
                } else {
                    assert forall|k: int| mid <= k < out@.len() implies !le(#[trigger] out@[k], e) by {
                        if k > mid {
                            assert(le(out@[mid as int], out@[k]));
                        }
                    }
                    hi = mid;
                }
            }
            proof {
                lemma_insert_at(out@, e, le, lo as int);
                assert(indices(n as nat).take(i + 1).drop_last() =~= indices(n as nat).take(i as int));
                assert(indices(n as nat).take(i + 1).last() == e);
            }
            out.insert(lo, e);
            i = i + 1;
        }
        proof {
            assert(indices(n as nat).take(n as int) =~= indices(n as nat));
        }
        Picker { items, order: out, filter: String::new(), sel: 0 }
    }

    /// The item indices shown for the current filter.
    pub fn shown(&self) -> (v: Vec<usize>)
        requires
            forall|m: int| 0 <= m < self.order@.len() ==> #[trigger] self.order@[m] < self.items@.len(),
        ensures
            v@ == shown_spec(item_names(self.items@), self.order@, self.filter@),
            forall|m: int| 0 <= m < v@.len() ==> #[trigger] v@[m] < self.items@.len(),
    {
        let ghost names = item_names(self.items@);
        let n: usize = self.order.len();
        let mut v: Vec<usize> = Vec::new();
        let mut i: usize = 0;
        while i < n
            invariant
                n == self.order@.len(),
                names == item_names(self.items@),
                forall|m: int| 0 <= m < self.order@.len() ==> #[trigger] self.order@[m] < self.items@.len(),
                i <= n,
                v@ == shown_spec(names, self.order@.take(i as int), self.filter@),
                forall|m: int| 0 <= m < v@.len() ==> #[trigger] v@[m] < self.items@.len(),
            decreases n - i,
        {
            proof {
                assert(self.order@.take(i + 1).drop_last() =~= self.order@.take(i as int));
            }
            let k: usize = self.order[i];
            assert(names[k as int] == self.items@[k as int].0@);
            if contains_exec(self.items[k].0.as_str(), self.filter.as_str()) {
                v.push(k);
            }
            proof {
                assert(v@ =~= shown_spec(names, self.order@.take(i + 1), self.filter@));
            }
            i = i + 1;
        }
        proof {
            assert(self.order@.take(n as int) =~= self.order@);
        }
        v
    }

    /// Keep the selection on the list shown.
    pub fn clamp(&mut self, shown_len: usize)
        ensures
            final(self).sel == clamp_sel(old(self).sel, shown_len as nat),
            final(self).items@ == old(self).items@,
            final(self).order@ == old(self).order@,
            final(self).filter@ == old(self).filter@,
    {
        if self.sel >= shown_len {
            self.sel = shown_len.saturating_sub(1);
        }
    }

    /// One key on the list `shown`: Escape cancels, Enter chooses the
    /// selected row, Up and Down move the selection, Backspace and
    /// characters edit the filter (a new character goes back to the top).
    pub fn key(&mut self, k: KeyInput, shown: &Vec<usize>) -> (r: PickStep)
        ensures
            final(self).items@ == old(self).items@,
            final(self).order@ == old(self).order@,
            r == match k {
                KeyInput::Esc => PickStep::Cancel,
                KeyInput::Enter => PickStep::Choose(
                    if old(self).sel < shown@.len() { Some(shown@[old(self).sel as int]) } else { None },
                ),
                _ => PickStep::Continue,
            },
            match k {
                KeyInput::Up => final(self).sel == (if old(self).sel > 0 { old(self).sel - 1 } else { 0 })
                    && final(self).filter@ == old(self).filter@,
                KeyInput::Down => final(self).sel == (if old(self).sel + 1 < shown@.len() {
                    (old(self).sel + 1) as usize
                } else {
                    old(self).sel
                }) && final(self).filter@ == old(self).filter@,
                KeyInput::Backspace => final(self).sel == old(self).sel && final(self).filter@ == (if old(
                    self,
                ).filter@.len() > 0 {
                    old(self).filter@.drop_last()
                } else {
                    old(self).filter@
                }),
                KeyInput::Char(c, _) => final(self).sel == 0 && final(self).filter@ == old(self).filter@.push(c),
                _ => final(self).sel == old(self).sel && final(self).filter@ == old(self).filter@,
            },
    {
        match k {
            KeyInput::Esc => PickStep::Cancel,
            KeyInput::Enter => {
                if self.sel < shown.len() {
                    PickStep::Choose(Some(shown[self.sel]))
                } else {
                    PickStep::Choose(None)
                }
            },
            KeyInput::Up => {
                if self.sel > 0 {
                    self.sel = self.sel - 1;
                }
                PickStep::Continue
            },
            KeyInput::Down => {
                let len: usize = shown.len();
                if self.sel < len && self.sel + 1 < len {
                    self.sel = self.sel + 1;
                }
                PickStep::Continue
            },
            KeyInput::Backspace => {
                pop_char(&mut self.filter);
                PickStep::Continue
            },
            KeyInput::Char(c, _) => {
                push_char(&mut self.filter, c);
                self.sel = 0;
                PickStep::Continue
            },
            _ => PickStep::Continue,
        }
    }
}

/// One line saying which entry class decided an access check.
pub open spec fn explain_text(e: Effective) -> Seq<char> {
    (match e.matched {
        Matched::Owner => "Matched the owner entry (user::)."@,
        Matched::NamedUser => "Matched a named user entry."@,
        Matched::Groups => "Matched the group class: the owning group and named groups the user belongs to."@,
        Matched::Other => "Matched the other entry (Everyone)."@,
    }) + if e.limited_by_mask { "\nThe mask takes permissions away."@ } else { Seq::empty() }
}

/// What the effective-access prompt shows after evaluating `uid` with
/// group set `gids` against the staged entries `s` (`uid` None: the typed
/// user is unknown).
pub open spec fn prompt_result(s: Seq<Entry>, owner: u32, group: u32, typed: Seq<char>, uid: Option<u32>, gids: Seq<
    u32,
>) -> Seq<char> {
    match uid {
        None => "Unknown user: "@ + typed,
        Some(u) => {
            let eff = effective_spec(s, u, owner, group, gids);
            "Effective permissions: "@ + perm_text(eff.granted) + "\n\n"@ + explain_text(eff)
        },
    }
}

/// The effective-access prompt: a typed user name and the last result.
pub struct EffectivePrompt {
    pub user: String,
    pub result: String,
}

fn explain(e: Effective) -> (s: String)
    ensures
        s@ == explain_text(e),
{
    let mut s: String = String::from_str(match e.matched {
        Matched::Owner => "Matched the owner entry (user::).",
        Matched::NamedUser => "Matched a named user entry.",
        Matched::Groups => "Matched the group class: the owning group and named groups the user belongs to.",
        Matched::Other => "Matched the other entry (Everyone).",
    });
    if e.limited_by_mask {
        s.append("\nThe mask takes permissions away.");
    }
    s
}

impl EffectivePrompt {
    pub fn new() -> (p: EffectivePrompt)
        ensures
            p.user@ == Seq::<char>::empty(),
            p.result@ == Seq::<char>::empty(),
    {
        EffectivePrompt { user: String::new(), result: String::new() }
    }

    /// Show the result of evaluating `uid` (what resolving the typed user
    /// gave) with group set `gids` against the staged ACL of `m`.
    pub fn evaluate_with(&mut self, m: &Model, uid: Option<u32>, gids: &Vec<u32>)
        ensures
            final(self).user@ == old(self).user@,
            final(self).result@ == prompt_result(
                m.staged@,
                m.staged_owner,
                m.staged_group,
                trimmed(old(self).user@),
                uid,
                gids@,
            ),
    {
        match uid {
            None => {
                let mut s: String = String::from_str("Unknown user: ");
                s.append(trim_text(self.user.as_str()));
                self.result = s;
            },
            Some(u) => {
                let eff: Effective = m.staged.effective(u, m.staged_owner, m.staged_group, gids);
                let mut s: String = String::from_str("Effective permissions: ");
                let p: String = perm_string(eff.granted);
                s.append(p.as_str());
                s.append("\n\n");
                let x: String = explain(eff);
                s.append(x.as_str());
                self.result = s;
            },
        }
    }

    /// One key: Escape closes, F2 asks for the user picker, Backspace and
    /// characters edit the name, Enter evaluates it: the typed name is
    /// resolved in the user database (a bare number is that uid) and its
    /// group set read from it.
    pub fn key(&mut self, k: KeyInput, m: &Model) -> (a: FormAction)
        ensures
            a == match k {
                KeyInput::Esc => FormAction::Close(false),
                KeyInput::F(n) => if n == 2 { FormAction::Pick } else { FormAction::Continue },
                _ => FormAction::Continue,
            },
            match k {
                KeyInput::Backspace => final(self).user@ == (if old(self).user@.len() > 0 {
                    old(self).user@.drop_last()
                } else {
                    old(self).user@
                }) && final(self).result@ == old(self).result@,
                KeyInput::Char(c, _) => final(self).user@ == old(self).user@.push(c) && final(self).result@ == old(
                    self,
                ).result@,
                KeyInput::Enter => final(self).user@ == old(self).user@ && exists|uid: Option<u32>, gids: Seq<u32>|
                    {
                        &&& final(self).result@ == #[trigger] prompt_result(
                            m.staged@,
                            m.staged_owner,
                            m.staged_group,
                            trimmed(old(self).user@),
                            uid,
                            gids,
                        )
                        &&& !needs_database(trimmed(old(self).user@)) ==> uid == lookup_spec(
                            trimmed(old(self).user@),
                            None,
                        )
                        &&& gids.len() == 0 || exists|primary: u32, extra: Seq<u32>|
                            gids == merge_groups_spec(primary, extra)
                    },
                _ => final(self).user@ == old(self).user@ && final(self).result@ == old(self).result@,
            },
    {
        match k {
            KeyInput::Esc => FormAction::Close(false),
            KeyInput::F(n) => if n == 2 { FormAction::Pick } else { FormAction::Continue },
            KeyInput::Backspace => {
                pop_char(&mut self.user);
                FormAction::Continue
            },
            KeyInput::Char(c, _) => {
                push_char(&mut self.user, c);
                FormAction::Continue
            },
            KeyInput::Enter => {
                let typed: &str = trim_text(self.user.as_str());
                let uid: Option<u32> = lookup_user(typed);
                let gids: Vec<u32> = match uid {
                    Some(u) => user_groups(u),
                    None => Vec::new(),
                };
                self.evaluate_with(m, uid, &gids);
                FormAction::Continue
            },
            _ => FormAction::Continue,
        }
    }

    /// The user picked in the picker becomes the typed name.
    pub fn picked(&mut self, name: String)
        ensures
            final(self).user@ == name@,
            final(self).result@ == old(self).result@,
    {
        self.user = name;
    }
}

pub open spec fn plural(n: usize, one: Seq<char>, many: Seq<char>) -> Seq<char> {
    if n == 1 { one } else { many }
}

/// The first line of the apply report.
pub open spec fn summary_text(objects: usize, dirs: usize, failures: usize) -> Seq<char> {
    "Applied to "@ + decimal_text(objects as nat) + " object"@ + plural(objects, ""@, "s"@) + " ("@ + decimal_text(
        dirs as nat,
    ) + " director"@ + plural(dirs, "y"@, "ies"@) + "), "@ + decimal_text(failures as nat) + " failure"@ + plural(
        failures,
        ""@,
        "s"@,
    ) + "."@
}

/// "Applied to N objects (M directories), K failures." with the plurals right.
pub fn report_summary(rep: &Report) -> (s: String)
    ensures
        s@ == summary_text(rep.objects, rep.dirs, rep.failures),
{
    let mut s: String = String::from_str("Applied to ");
    let a: String = decimal_string(rep.objects as u64);
    s.append(a.as_str());
    s.append(" object");
    s.append(if rep.objects == 1 { "" } else { "s" });
    s.append(" (");
    let b: String = decimal_string(rep.dirs as u64);
    s.append(b.as_str());
    s.append(" director");
    s.append(if rep.dirs == 1 { "y" } else { "ies" });
    s.append("), ");
    let c: String = decimal_string(rep.failures as u64);
    s.append(c.as_str());
    s.append(" failure");
    s.append(if rep.failures == 1 { "" } else { "s" });
    s.append(".");
    s
}

} // verus!
