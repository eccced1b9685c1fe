//! The permission editor's key map.
use vstd::prelude::*;
use super::term::KeyInput;

verus! {

/// What a key asks the editor to do.
#[derive(Debug, Clone, Copy, PartialEq, Eq, Structural)]
pub enum EditorAction {
    /// Move the entry selection by this many rows.
    Move(isize),
    /// Back to the tree, or quit when standalone (after the dirty prompt).
    Leave,
    Help,
    Add,
    Edit,
    Remove,
    Effective,
    Revert,
    CopyToDefault,
    DropDefault,
    ToggleAutoMask,
    ToggleRecursive,
    Apply,
    ApplyAndLeave,
    Nothing,
}

/// Keys that change the staged ACL; they do nothing on a read-only object.
pub open spec fn writes(a: EditorAction) -> bool {
    match a {
        EditorAction::Add | EditorAction::Edit | EditorAction::Remove | EditorAction::CopyToDefault
        | EditorAction::DropDefault | EditorAction::ToggleAutoMask | EditorAction::ToggleRecursive
        | EditorAction::Apply | EditorAction::ApplyAndLeave => true,
        _ => false,
    }
}

/// The key map without regard to writability: arrows, j/k, PageUp/PageDown
/// and Home/End move; q and Escape leave; ? and F1 help; a e r add, edit,
/// remove (Enter edits, Delete removes); f effective access; u revert;
/// d copies the access ACL to the default ACL, D drops the default ACL;
/// m toggles auto-mask, R recursive apply; s applies, o applies and leaves.
pub open spec fn key_meaning(k: KeyInput) -> EditorAction {
    match k {
        KeyInput::Up => EditorAction::Move(-1isize),
        KeyInput::Down => EditorAction::Move(1isize),
        KeyInput::PageUp => EditorAction::Move(-10isize),
        KeyInput::PageDown => EditorAction::Move(10isize),
        KeyInput::Home => EditorAction::Move((isize::MIN / 2) as isize),
        KeyInput::End => EditorAction::Move((isize::MAX / 2) as isize),
        KeyInput::Esc => EditorAction::Leave,
        KeyInput::F(n) => if n == 1 { EditorAction::Help } else { EditorAction::Nothing },
        KeyInput::Enter => EditorAction::Edit,
        KeyInput::Delete => EditorAction::Remove,
        KeyInput::Char(c, ctrl) => if ctrl {
            EditorAction::Nothing
        } else if c == 'k' {
            EditorAction::Move(-1isize)
        } else if c == 'j' {
            EditorAction::Move(1isize)
        } else if c == 'q' {
            EditorAction::Leave
        } else if c == '?' {
            EditorAction::Help
        } else if c == 'a' {
            EditorAction::Add
        } else if c == 'e' {
            EditorAction::Edit
        } else if c == 'r' {
            EditorAction::Remove
        } else if c == 'f' {
            EditorAction::Effective
        } else if c == 'u' {
            EditorAction::Revert
        } else if c == 'd' {
            EditorAction::CopyToDefault
        } else if c == 'D' {
            EditorAction::DropDefault
        } else if c == 'm' {
            EditorAction::ToggleAutoMask
        } else if c == 'R' {
            EditorAction::ToggleRecursive
        } else if c == 's' {
            EditorAction::Apply
        } else if c == 'o' {
            EditorAction::ApplyAndLeave
        } else {
            EditorAction::Nothing
        },
        _ => EditorAction::Nothing,
    }
}

fn meaning(k: KeyInput) -> (a: EditorAction)
    ensures
        a == key_meaning(k),
{
    match k {
        KeyInput::Up => EditorAction::Move(-1),
        KeyInput::Down => EditorAction::Move(1),
        KeyInput::PageUp => EditorAction::Move(-10),
        KeyInput::PageDown => EditorAction::Move(10),
        KeyInput::Home => EditorAction::Move(isize::MIN / 2),
        KeyInput::End => EditorAction::Move(isize::MAX / 2),
        KeyInput::Esc => EditorAction::Leave,
        KeyInput::F(n) => if n == 1 { EditorAction::Help } else { EditorAction::Nothing },
        KeyInput::Enter => EditorAction::Edit,
        KeyInput::Delete => EditorAction::Remove,
        KeyInput::Char(c, ctrl) => if ctrl {
            EditorAction::Nothing
        } else if c == 'k' {
            EditorAction::Move(-1)
        } else if c == 'j' {
            EditorAction::Move(1)
        } else if c == 'q' {
            EditorAction::Leave
        } else if c == '?' {
            EditorAction::Help
        } else if c == 'a' {
            EditorAction::Add
        } else if c == 'e' {
            EditorAction::Edit
        } else if c == 'r' {
            EditorAction::Remove
        } else if c == 'f' {
            EditorAction::Effective
        } else if c == 'u' {
            EditorAction::Revert
        } else if c == 'd' {
            EditorAction::CopyToDefault
        } else if c == 'D' {
            EditorAction::DropDefault
        } else if c == 'm' {
            EditorAction::ToggleAutoMask
        } else if c == 'R' {
            EditorAction::ToggleRecursive
        } else if c == 's' {
            EditorAction::Apply
        } else if c == 'o' {
            EditorAction::ApplyAndLeave
        } else {
            EditorAction::Nothing
        },
        _ => EditorAction::Nothing,
    }
}

/// What key `k` does in the editor; on an object whose filesystem has no
/// ACL support (`writable` false) the keys that would change the staged
/// ACL do nothing.
pub fn editor_action(k: KeyInput, writable: bool) -> (a: EditorAction)
    ensures
        a == if !writable && writes(key_meaning(k)) { EditorAction::Nothing } else { key_meaning(k) },
{
    let a: EditorAction = meaning(k);
    if !writable {
        match a {
            EditorAction::Add | EditorAction::Edit | EditorAction::Remove | EditorAction::CopyToDefault
            | EditorAction::DropDefault | EditorAction::ToggleAutoMask | EditorAction::ToggleRecursive
            | EditorAction::Apply | EditorAction::ApplyAndLeave => {
                return EditorAction::Nothing;
            },
            _ => {},
        }
    }
    a
}

} // verus!
