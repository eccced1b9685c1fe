use winfacl::acl::facade::{FileStat, LoadProbe, Model};
use winfacl::acl::model::{Kind, Tag, P_ALL, P_R, P_W, P_X};
use winfacl::ui::browser::{browser_action, moved_selection, reselect, scroll_top, tree_panel_width, tree_row_text, BrowserAction, panel_state, PanelState};
use winfacl::ui::dialogs::{confirm_key, report_summary, ConfirmStep, EffectivePrompt, EntryForm, FormAction, PickStep, Picker};
use winfacl::ui::term::{is_double_click, popup_rect, rect_contains, KeyInput, Rect};
use winfacl::acl::facade::Report;
use winfacl::ui::editor::{editor_action, EditorAction};
use winfacl::tree::Node;

#[test]
fn rect_contains_edges() {
    let r = Rect { x: 2, y: 3, width: 4, height: 2 };
    assert!(rect_contains(r, 2, 3));
    assert!(rect_contains(r, 5, 4));
    assert!(!rect_contains(r, 6, 4)); // one past the right edge
    assert!(!rect_contains(r, 5, 5)); // one past the bottom edge
    assert!(!rect_contains(r, 1, 3));
}

#[test]
fn popups_are_centered_and_clamped() {
    let area = Rect { x: 0, y: 0, width: 80, height: 24 };
    assert_eq!(popup_rect(area, 60, 10), Rect { x: 10, y: 7, width: 60, height: 10 });
    assert_eq!(popup_rect(area, 100, 30), Rect { x: 1, y: 1, width: 78, height: 22 });
    let tiny = Rect { x: 5, y: 5, width: 1, height: 1 };
    assert_eq!(popup_rect(tiny, 10, 10), Rect { x: 5, y: 5, width: 0, height: 0 });
}

#[test]
fn double_clicks_need_the_same_cell_soon() {
    assert!(is_double_click(Some((3, 4)), 3, 4, 0));
    assert!(is_double_click(Some((3, 4)), 3, 4, 399));
    assert!(!is_double_click(Some((3, 4)), 3, 4, 400));
    assert!(!is_double_click(Some((3, 4)), 4, 4, 10));
    assert!(!is_double_click(None, 3, 4, 10));
}

fn model() -> Model {
    let st = FileStat { mode: 0o100644, uid: 1000, gid: 100 };
    Model::load(
        "/tmp/f".to_string(),
        true,
        LoadProbe { lstat: Ok(st), link_target: None, stat: Ok(st), access_acl: Ok(None), default_acl: Ok(None) },
    )
}

fn typed(f: &mut EntryForm, s: &str) {
    for c in s.chars() {
        assert_eq!(f.key(KeyInput::Char(c, false)), FormAction::Continue);
    }
}

#[test]
fn entry_form_adds_a_named_user() {
    let mut m = model();
    let mut f = EntryForm::new(&m, None);
    typed(&mut f, "4242");
    f.key(KeyInput::Tab); // r
    f.key(KeyInput::Tab); // w
    f.key(KeyInput::Char(' ', false));
    assert_eq!(f.perms, P_R | P_W);
    assert_eq!(f.key(KeyInput::Enter), FormAction::Commit);
    assert_eq!(f.commit(&mut m), FormAction::Close(true));
    let i = m.staged.find(Kind::Access, Tag::User, 4242).unwrap();
    assert_eq!(m.staged.0[i].perms, P_R | P_W);
    // auto-mask added a mask covering the group class
    let i = m.staged.find(Kind::Access, Tag::Mask, 0).unwrap();
    assert_eq!(m.staged.0[i].perms, P_R | P_W);
}

#[test]
fn entry_form_refusals() {
    let mut m = model();
    let mut f = EntryForm::new(&m, None);
    typed(&mut f, "x");
    assert_eq!(f.commit_with_id(&mut m, None), FormAction::Continue);
    assert_eq!(f.err, "Unknown user: x");
    for _ in 0..4 {
        f.key(KeyInput::Tab);
    }
    f.key(KeyInput::Char(' ', false));
    assert_eq!(f.kind, Kind::Default);
    assert_eq!(f.commit_with_id(&mut m, Some(1)), FormAction::Continue);
    assert_eq!(f.err, "Default entries need a directory.");
    f.key(KeyInput::Tab);
    f.key(KeyInput::Tab);
    assert_eq!(f.focus, 6);
    assert_eq!(f.key(KeyInput::Enter), FormAction::Close(false));
    assert_eq!(f.key(KeyInput::Esc), FormAction::Close(false));
}

#[test]
fn entry_form_edits_base_entry_perms_only() {
    let mut m = model();
    let i = m.staged.find(Kind::Access, Tag::Other, 0).unwrap();
    let mut f = EntryForm::new(&m, Some(i));
    assert!(!f.named);
    assert_eq!(f.name, "(Everyone)");
    typed(&mut f, "ignored");
    assert_eq!(f.name, "(Everyone)");
    f.key(KeyInput::BackTab); // Cancel
    f.key(KeyInput::BackTab); // OK
    f.key(KeyInput::BackTab); // kind
    f.key(KeyInput::BackTab); // x
    f.key(KeyInput::Char(' ', false));
    assert_eq!(f.commit_with_id(&mut m, None), FormAction::Close(true));
    assert_eq!(m.staged.0[i].perms, P_R | P_X);
    assert_eq!(m.staged.0.len(), 3);
}

#[test]
fn entry_form_editing_a_named_entry_replaces_it() {
    let mut m = model();
    m.staged.set(Kind::Access, Tag::User, 4242424, P_R);
    m.staged.sort_canonical();
    let i = m.staged.find(Kind::Access, Tag::User, 4242424).unwrap();
    let mut f = EntryForm::new(&m, Some(i));
    assert_eq!(f.name, "4242424");
    f.key(KeyInput::Char('/', false)); // now a group
    assert!(f.is_group);
    assert_eq!(f.commit_with_id(&mut m, Some(7)), FormAction::Close(true));
    assert!(m.staged.find(Kind::Access, Tag::User, 4242424).is_none());
    assert!(m.staged.find(Kind::Access, Tag::Group, 7).is_some());
}

#[test]
fn confirm_answers() {
    assert_eq!(confirm_key(false, None), ConfirmStep::Answer(false));
    assert_eq!(confirm_key(false, Some(KeyInput::Tab)), ConfirmStep::Ask(true));
    assert_eq!(confirm_key(true, Some(KeyInput::Enter)), ConfirmStep::Answer(true));
    assert_eq!(confirm_key(true, Some(KeyInput::Esc)), ConfirmStep::Answer(false));
    assert_eq!(confirm_key(false, Some(KeyInput::Char('Y', false))), ConfirmStep::Answer(true));
    assert_eq!(confirm_key(false, Some(KeyInput::Char('y', true))), ConfirmStep::Ask(false));
    assert_eq!(confirm_key(true, Some(KeyInput::Char('n', false))), ConfirmStep::Answer(false));
}

#[test]
fn picker_sorts_filters_and_chooses() {
    let mut p = Picker::new(vec![("zoe".to_string(), 3), ("adm".to_string(), 4), ("bob".to_string(), 1)]);
    let shown = p.shown();
    assert_eq!(shown, vec![1, 2, 0]);
    p.key(KeyInput::Down, &shown);
    p.key(KeyInput::Down, &shown);
    p.key(KeyInput::Down, &shown);
    assert_eq!(p.sel, 2);
    p.key(KeyInput::Char('o', false), &shown);
    let shown = p.shown();
    assert_eq!(shown, vec![2, 0]);
    p.clamp(shown.len());
    assert_eq!(p.key(KeyInput::Enter, &shown), PickStep::Choose(Some(2)));
    p.key(KeyInput::Char('x', false), &shown);
    let shown = p.shown();
    assert!(shown.is_empty());
    assert_eq!(p.key(KeyInput::Enter, &shown), PickStep::Choose(None));
    assert_eq!(p.key(KeyInput::Esc, &shown), PickStep::Cancel);
}

#[test]
fn effective_prompt_evaluates() {
    let mut m = model();
    m.staged.set(Kind::Access, Tag::User, 7, P_ALL);
    m.staged.set(Kind::Access, Tag::Mask, 0, P_R);
    let mut e = EffectivePrompt::new();
    e.key(KeyInput::Char('7', false), &m);
    e.evaluate_with(&m, Some(7), &vec![]);
    assert_eq!(e.result, "Effective permissions: r--\n\nMatched a named user entry.\nThe mask takes permissions away.");
    e.evaluate_with(&m, None, &vec![]);
    assert_eq!(e.result, "Unknown user: 7");
    assert_eq!(e.key(KeyInput::Esc, &m), FormAction::Close(false));
}

#[test]
fn report_summary_plurals() {
    let rep = Report { objects: 1, dirs: 1, failures: 0, errors: vec![] };
    assert_eq!(report_summary(&rep), "Applied to 1 object (1 directory), 0 failures.");
    let rep = Report { objects: 6, dirs: 3, failures: 1, errors: vec![] };
    assert_eq!(report_summary(&rep), "Applied to 6 objects (3 directories), 1 failure.");
}

#[test]
fn browser_keys_and_selection() {
    assert_eq!(browser_action(KeyInput::Char('j', false)), BrowserAction::Move(1));
    assert_eq!(browser_action(KeyInput::PageUp), BrowserAction::Move(-10));
    assert_eq!(browser_action(KeyInput::Char('?', false)), BrowserAction::Help);
    assert_eq!(browser_action(KeyInput::Esc), BrowserAction::Quit);
    assert_eq!(moved_selection(3, -10, 20), 0);
    assert_eq!(moved_selection(3, isize::MAX / 2, 20), 19);
    assert_eq!(moved_selection(0, isize::MIN, 0), 0);
    assert_eq!(reselect(Some(9), &vec![1, 9, 9]), 1);
    assert_eq!(reselect(Some(5), &vec![1, 9]), 0);
    assert_eq!(scroll_top(30, 0, 10), 21);
    assert_eq!(scroll_top(2, 5, 10), 2);
    assert_eq!(scroll_top(7, 5, 0), 7);
}

#[test]
fn tree_panel_takes_a_clamped_third() {
    assert_eq!(tree_panel_width(80), 28);
    assert_eq!(tree_panel_width(40), 24);
    assert_eq!(tree_panel_width(200), 44);
    assert_eq!(tree_panel_width(10), 10);
    assert_eq!(tree_panel_width(0), 0);
}

#[test]
fn editor_keys_and_read_only_objects() {
    assert_eq!(editor_action(KeyInput::Char('a', false), true), EditorAction::Add);
    assert_eq!(editor_action(KeyInput::Char('a', false), false), EditorAction::Nothing);
    assert_eq!(editor_action(KeyInput::Char('a', true), true), EditorAction::Nothing);
    assert_eq!(editor_action(KeyInput::Enter, true), EditorAction::Edit);
    assert_eq!(editor_action(KeyInput::Delete, true), EditorAction::Remove);
    assert_eq!(editor_action(KeyInput::Char('D', false), true), EditorAction::DropDefault);
    assert_eq!(editor_action(KeyInput::Char('d', false), true), EditorAction::CopyToDefault);
    assert_eq!(editor_action(KeyInput::Char('R', false), true), EditorAction::ToggleRecursive);
    assert_eq!(editor_action(KeyInput::Char('o', false), true), EditorAction::ApplyAndLeave);
    assert_eq!(editor_action(KeyInput::Char('s', false), false), EditorAction::Nothing);
    assert_eq!(editor_action(KeyInput::Char('f', false), false), EditorAction::Effective);
    assert_eq!(editor_action(KeyInput::Char('u', false), false), EditorAction::Revert);
    assert_eq!(editor_action(KeyInput::Char('j', false), false), EditorAction::Move(1));
    assert_eq!(editor_action(KeyInput::PageUp, false), EditorAction::Move(-10));
    assert_eq!(editor_action(KeyInput::Esc, false), EditorAction::Leave);
    assert_eq!(editor_action(KeyInput::Char('q', false), true), EditorAction::Leave);
    assert_eq!(editor_action(KeyInput::F(1), true), EditorAction::Help);
    assert_eq!(editor_action(KeyInput::F(2), true), EditorAction::Nothing);
}

fn row_node(name: &str, is_dir: bool, is_symlink: bool, expanded: bool, load_failed: bool) -> Node {
    Node {
        name: name.to_string(),
        parent: Some(0),
        children: vec![],
        is_dir,
        is_symlink,
        expanded,
        loaded: expanded,
        load_failed,
        load_error: None,
    }
}

#[test]
fn tree_rows_show_markers_indent_and_fit_the_panel() {
    assert_eq!(tree_row_text(&row_node("beta", true, false, true, false), 1, 20), "   v beta           ");
    assert_eq!(tree_row_text(&row_node("gamma", true, false, false, false), 0, 10), " > gamma  ");
    assert_eq!(tree_row_text(&row_node("link", false, true, false, false), 0, 10), "   link@  ");
    // indent capped at (12 - 8) / 2 levels, then cut to the width
    assert_eq!(tree_row_text(&row_node("locked", true, false, false, true), 5, 12), "     > locke");
    assert_eq!(tree_row_text(&row_node("x", false, false, false, false), 3, 0), "");
}

#[test]
fn retyping_an_unknown_name_changes_nothing() {
    let mut m = model();
    m.staged.set(Kind::Access, Tag::User, 4242424, P_R);
    m.staged.sort_canonical();
    let before = m.staged.clone();
    let i = m.staged.find(Kind::Access, Tag::User, 4242424).unwrap();
    let mut f = EntryForm::new(&m, Some(i));
    for _ in 0..7 {
        f.key(KeyInput::Backspace);
    }
    f.key(KeyInput::Char('n', false));
    f.key(KeyInput::Char('o', false));
    f.key(KeyInput::Char('-', false));
    assert_eq!(f.commit_with_id(&mut m, None), FormAction::Continue);
    assert_eq!(m.staged, before);
    assert_eq!(f.key(KeyInput::Esc), FormAction::Close(false));
    assert_eq!(m.staged, before);
}

#[test]
fn unknown_names_are_reported_trimmed() {
    let mut m = model();
    let mut f = EntryForm::new(&m, None);
    f.picked(" \u{3000}nobody\t\n".to_string());
    assert_eq!(f.commit_with_id(&mut m, None), FormAction::Continue);
    assert_eq!(f.err, "Unknown user: nobody");
}

#[test]
fn panel_for_each_load_status() {
    let m = model();
    assert_eq!(panel_state(&m), PanelState::Edit { read_only: false });
    let st = FileStat { mode: 0o100644, uid: 1000, gid: 100 };
    let probe = |access: Result<Option<Vec<winfacl::acl::model::Entry>>, i32>, lstat: Result<FileStat, i32>| LoadProbe {
        lstat,
        link_target: None,
        stat: Ok(st),
        access_acl: access,
        default_acl: Ok(None),
    };
    let m = Model::load("/f".to_string(), true, probe(Err(95), Ok(st)));
    assert_eq!(panel_state(&m), PanelState::Edit { read_only: true });
    let m = Model::load("/f".to_string(), true, probe(Ok(None), Err(2)));
    assert_eq!(panel_state(&m), PanelState::Missing);
    let m = Model::load("/f".to_string(), true, probe(Ok(None), Err(13)));
    assert_eq!(panel_state(&m), PanelState::Denied);
    let m = Model::load("/f".to_string(), true, probe(Err(5), Ok(st)));
    assert_eq!(panel_state(&m), PanelState::Failed(Some(5)));
}
