//! The decisions of the two-panel browser: what a key does, where the
//! selection goes, and which rows of the tree are on screen.
use vstd::prelude::*;
use crate::tree::{Node, NodeId, NodeView};
use crate::acl::facade::{LoadStatus, Model, ModelView};
use super::term::KeyInput;

verus! {

/// What a key asks the browser to do.
#[derive(Debug, Clone, Copy, PartialEq, Eq, Structural)]
pub enum BrowserAction {
    /// Move the selection by this many rows (clamped to the list).
    Move(isize),
    Expand,
    /// Collapse the selected directory, or go up to its parent.
    Left,
    /// Toggle a directory, edit anything else.
    Enter,
    Edit,
    Refresh,
    Help,
    Quit,
    Nothing,
}

/// The browser's key map: arrows and j/k move, PageUp/PageDown by ten,
/// Home/End to the ends; Right, l, + expand; Left, h, - collapse or go up;
/// Tab and e edit; r re-reads; F1 and ? help; q and Escape quit.
pub open spec fn action_spec(k: KeyInput) -> BrowserAction {
    match k {
        KeyInput::Up => BrowserAction::Move(-1isize),
        KeyInput::Down => BrowserAction::Move(1isize),
        KeyInput::PageUp => BrowserAction::Move(-10isize),
        KeyInput::PageDown => BrowserAction::Move(10isize),
        KeyInput::Home => BrowserAction::Move((isize::MIN / 2) as isize),
        KeyInput::End => BrowserAction::Move((isize::MAX / 2) as isize),
        KeyInput::Right => BrowserAction::Expand,
        KeyInput::Left => BrowserAction::Left,
        KeyInput::Enter => BrowserAction::Enter,
        KeyInput::Tab => BrowserAction::Edit,
        KeyInput::F(n) => if n == 1 { BrowserAction::Help } else { BrowserAction::Nothing },
        KeyInput::Esc => BrowserAction::Quit,
        KeyInput::Char(c, _) => if c == 'k' {
            BrowserAction::Move(-1isize)
        } else if c == 'j' {
            BrowserAction::Move(1isize)
        } else if c == 'l' || c == '+' {
            BrowserAction::Expand
        } else if c == 'h' || c == '-' {
            BrowserAction::Left
        } else if c == 'e' {
            BrowserAction::Edit
        } else if c == 'r' {
            BrowserAction::Refresh
        } else if c == '?' {
            BrowserAction::Help
        } else if c == 'q' {
            BrowserAction::Quit
        } else {
            BrowserAction::Nothing
        },
        _ => BrowserAction::Nothing,
    }
}

pub fn browser_action(k: KeyInput) -> (a: BrowserAction)
    ensures
        a == action_spec(k),
{
    match k {
        KeyInput::Up => BrowserAction::Move(-1),
        KeyInput::Down => BrowserAction::Move(1),
        KeyInput::PageUp => BrowserAction::Move(-10),
        KeyInput::PageDown => BrowserAction::Move(10),
        KeyInput::Home => BrowserAction::Move(isize::MIN / 2),
        KeyInput::End => BrowserAction::Move(isize::MAX / 2),
        KeyInput::Right => BrowserAction::Expand,
        KeyInput::Left => BrowserAction::Left,
        KeyInput::Enter => BrowserAction::Enter,
        KeyInput::Tab => BrowserAction::Edit,
        KeyInput::F(n) => if n == 1 { BrowserAction::Help } else { BrowserAction::Nothing },
        KeyInput::Esc => BrowserAction::Quit,
        KeyInput::Char(c, _) => if c == 'k' {
            BrowserAction::Move(-1)
        } else if c == 'j' {
            BrowserAction::Move(1)
        } else if c == 'l' || c == '+' {
            BrowserAction::Expand
        } else if c == 'h' || c == '-' {
            BrowserAction::Left
        } else if c == 'e' {
            BrowserAction::Edit
        } else if c == 'r' {
            BrowserAction::Refresh
        } else if c == '?' {
            BrowserAction::Help
        } else if c == 'q' {
            BrowserAction::Quit
        } else {
            BrowserAction::Nothing
        },
        _ => BrowserAction::Nothing,
    }
}

/// `sel + delta`, saturating at 0 and `usize::MAX`, then kept on the last
/// row of a list of `len` rows.
pub open spec fn moved_spec(sel: usize, delta: isize, len: usize) -> usize {
    let target: int = sel + delta;
    let sat: int = if target < 0 { 0 } else if target > usize::MAX { usize::MAX as int } else { target };
    let last: int = if len == 0 { 0 } else { len - 1 };
    (if sat < last { sat } else { last }) as usize
}

/// Where the selection goes when moved by `delta` on a list of `len` rows.
pub fn moved_selection(sel: usize, delta: isize, len: usize) -> (r: usize)
    ensures
        r == moved_spec(sel, delta, len),
{
    let sat: usize = if delta < 0 {
        let back: usize = if delta == isize::MIN {
            (isize::MAX as usize) + 1
        } else {
            (-delta) as usize
        };
        if back > sel { 0 } else { sel - back }
    } else {
        let fwd: usize = delta as usize;
        if fwd > usize::MAX - sel { usize::MAX } else { sel + fwd }
    };
    let last: usize = if len == 0 { 0 } else { len - 1 };
    if sat < last { sat } else { last }
}

/// Row of `cur` in `flat`, or the top row when it is gone (or there was no
/// selection).
pub fn reselect(cur: Option<NodeId>, flat: &Vec<NodeId>) -> (r: usize)
    ensures
        match cur {
            Some(c) => if flat@.contains(c) {
                r < flat@.len() && flat@[r as int] == c && forall|j: int| 0 <= j < r ==> flat@[j] != c
            } else {
                r == 0
            },
            None => r == 0,
        },
{
    match cur {
        None => 0,
        Some(c) => {
            let n: usize = flat.len();
            let mut i: usize = 0;
            while i < n
                invariant
                    n == flat@.len(),
                    cur == Some(c),
                    i <= n,
                    forall|j: int| 0 <= j < i ==> flat@[j] != c,
                decreases n - i,
            {
                if flat[i] == c {
                    assert(flat@.contains(c));
                    return i;
                }
                i = i + 1;
            }
            0
        },
    }
}

/// First row on screen so that row `sel` is visible in a panel of `h`
/// rows (at least one), moving as little as possible from `top`.
pub open spec fn scroll_spec(sel: usize, top: usize, h: usize) -> usize {
    let hh: int = if h == 0 { 1 } else { h as int };
    let t1: int = if sel < top { sel as int } else { top as int };
    (if sel >= t1 + hh { sel + 1 - hh } else { t1 }) as usize
}

pub fn scroll_top(sel: usize, top: usize, h: usize) -> (t: usize)
    ensures
        t == scroll_spec(sel, top, h),
        t <= sel,
        sel < t + if h == 0 { 1 } else { h },
{
    let hh: usize = if h == 0 { 1 } else { h };
    let t1: usize = if sel < top { sel } else { top };
    if sel - t1 >= hh {
        sel - hh + 1
    } else {
        t1
    }
}

/// Width of the tree panel on a screen `total` cells wide: 35% of it,
/// kept between 24 and 44 cells, and never wider than the screen.
pub open spec fn tree_width_spec(total: u16) -> u16 {
    let p: int = total * 35 / 100;
    let c: int = if p < 24 { 24 } else if p > 44 { 44 } else { p };
    (if c < total { c } else { total as int }) as u16
}

pub fn tree_panel_width(total: u16) -> (w: u16)
    ensures
        w == tree_width_spec(total),
        w <= total,
{
    let p: u32 = (total as u32) * 35 / 100;
    let c: u32 = if p < 24 { 24 } else if p > 44 { 44 } else { p };
    if c < total as u32 { c as u16 } else { total }
}

/// `n` blanks.
pub open spec fn spaces(n: nat) -> Seq<char>
    decreases n,
{
    if n == 0 {
        Seq::empty()
    } else {
        spaces((n - 1) as nat).push(' ')
    }
}

/// The marker before a node's name: `v` for an expanded directory, `>` for
/// a collapsed one, a blank for anything else.
pub open spec fn marker_spec(n: NodeView) -> Seq<char> {
    if n.is_dir {
        if n.expanded { "v"@ } else { ">"@ }
    } else {
        " "@
    }
}

/// The indent level shown for a node `depth` levels down in a panel
/// `width` cells wide: at most (width - 8) / 2 levels.
pub open spec fn shown_depth(depth: nat, width: nat) -> nat {
    let cap: nat = if width >= 8 { ((width - 8) as nat) / 2 } else { 0 };
    if depth < cap { depth } else { cap }
}

/// A tree row before it is fitted to the panel: one blank plus two per
/// indent level, the marker, a blank, the name, `@` after a symlink and
/// ` !` after a directory that could not be read.
pub open spec fn row_body(n: NodeView, depth: nat, width: nat) -> Seq<char> {
    spaces(1 + 2 * shown_depth(depth, width)) + marker_spec(n) + " "@ + n.name + (if n.is_symlink {
        "@"@
    } else {
        Seq::empty()
    }) + (if n.load_failed { " !"@ } else { Seq::empty() })
}

/// A tree row fitted to the panel: cut to `width` characters, padded with
/// blanks to exactly `width`.
pub open spec fn tree_row_spec(n: NodeView, depth: nat, width: nat) -> Seq<char> {
    let b = row_body(n, depth, width);
    let c = if b.len() > width { b.take(width as int) } else { b };
    c + spaces((width - c.len()) as nat)
}

proof fn lemma_spaces_len(n: nat)
    ensures
        spaces(n).len() == n,
    decreases n,
{
    if n > 0 {
        lemma_spaces_len((n - 1) as nat);
    }
}

fn push_spaces(s: &mut String, n: usize)
    ensures
        final(s)@ == old(s)@ + spaces(n as nat),
{
    let ghost start = s@;
    let mut i: usize = 0;
    proof {
        assert(start + spaces(0) =~= start);
    }
    while i < n
        invariant
            i <= n,
            s@ == start + spaces(i as nat),
        decreases n - i,
    {
        s.append(" ");
        proof {
            reveal_strlit(" ");
            assert(start + spaces((i + 1) as nat) =~= start + spaces(i as nat) + " "@);
        }
        i = i + 1;
    }
}

/// The text of node `n`'s row in a tree panel `width` cells wide, the node
/// lying `depth` levels below the root.
pub fn tree_row_text(n: &Node, depth: usize, width: usize) -> (s: String)
    ensures
        s@ == tree_row_spec(n@, depth as nat, width as nat),
        s@.len() == width,
{
    let cap: usize = if width >= 8 { (width - 8) / 2 } else { 0 };
    let d: usize = if depth < cap { depth } else { cap };
    let mut body: String = String::new();
    push_spaces(&mut body, 1 + 2 * d);
    let ghost b0 = body@;
    body.append(if n.is_dir { if n.expanded { "v" } else { ">" } } else { " " });
    body.append(" ");
    body.append(n.name.as_str());
    let ghost b1 = body@;
    if n.is_symlink {
        body.append("@");
    }
    let ghost b2 = body@;
    if n.load_failed {
        body.append(" !");
    }
    proof {
        assert(b1 == b0 + marker_spec(n@) + " "@ + n@.name);
        assert(b2 == b1 + (if n@.is_symlink { "@"@ } else { Seq::empty() })) by {
            if !n@.is_symlink {
                assert(b1 + Seq::<char>::empty() =~= b1);
            }
        }
        assert(body@ == b2 + (if n@.load_failed { " !"@ } else { Seq::empty() })) by {
            if !n@.load_failed {
                assert(b2 + Seq::<char>::empty() =~= b2);
            }
        }
        assert(body@ =~= row_body(n@, depth as nat, width as nat));
    }
    let len: usize = body.unicode_len();
    let mut out: String = if len > width {
        String::from_str(body.as_str().substring_char(0, width))
    } else {
        body
    };
    let ghost c = out@;
    proof {
        if len > width {
            assert(c =~= row_body(n@, depth as nat, width as nat).take(width as int));
        }
    }
    let used: usize = out.unicode_len();
    push_spaces(&mut out, width - used);
    proof {
        lemma_spaces_len((width - used) as nat);
    }
    out
}

/// What the right-hand panel shows for the selected object once loaded.
#[derive(Debug, Clone, Copy, PartialEq, Eq, Structural)]
pub enum PanelState {
    /// The editor; read-only when the filesystem has no ACL support.
    Edit { read_only: bool },
    /// "No such file or directory."
    Missing,
    /// "Permission denied."
    Denied,
    /// Any other failure, with its errno where known.
    Failed(Option<i32>),
}

/// A loaded object, or one whose filesystem has no ACL support, opens in
/// the editor (read-only in the second case); a failed load shows why.
pub open spec fn panel_spec(v: ModelView) -> PanelState {
    match v.status {
        LoadStatus::Loaded | LoadStatus::NotSup => PanelState::Edit { read_only: !v.acl_supported },
        LoadStatus::NoEnt => PanelState::Missing,
        LoadStatus::Denied => PanelState::Denied,
        LoadStatus::Error => PanelState::Failed(v.load_errno),
    }
}

pub fn panel_state(m: &Model) -> (p: PanelState)
    ensures
        p == panel_spec(m@),
{
    match m.status {
        LoadStatus::Loaded | LoadStatus::NotSup => PanelState::Edit { read_only: !m.acl_supported },
        LoadStatus::NoEnt => PanelState::Missing,
        LoadStatus::Denied => PanelState::Denied,
        LoadStatus::Error => PanelState::Failed(m.load_errno),
    }
}

/// What Enter does on a node: toggle a directory, edit anything else.
#[derive(Debug, Clone, Copy, PartialEq, Eq, Structural)]
pub enum EnterAction {
    Collapse,
    Expand,
    Edit,
}

pub fn enter_action(n: &Node) -> (a: EnterAction)
    ensures
        a == if n.is_dir {
            if n.expanded { EnterAction::Collapse } else { EnterAction::Expand }
        } else {
            EnterAction::Edit
        },
{
    if n.is_dir {
        if n.expanded { EnterAction::Collapse } else { EnterAction::Expand }
    } else {
        EnterAction::Edit
    }
}

/// What Left does on a node: collapse an expanded directory, otherwise go
/// up to the parent, if any.
#[derive(Debug, Clone, Copy, PartialEq, Eq, Structural)]
pub enum LeftAction {
    Collapse,
    Up(NodeId),
    Stay,
}

pub fn left_action(n: &Node) -> (a: LeftAction)
    ensures
        a == if n.is_dir && n.expanded {
            LeftAction::Collapse
        } else {
            match n.parent {
                Some(p) => LeftAction::Up(p),
                None => LeftAction::Stay,
            }
        },
{
    if n.is_dir && n.expanded {
        return LeftAction::Collapse;
    }
    match n.parent {
        Some(p) => LeftAction::Up(p),
        None => LeftAction::Stay,
    }
}

} // verus!
