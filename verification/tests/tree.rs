use winfacl::tree::{FileKind, Listed, NodeId, Tree};

fn dir(name: &str) -> Listed {
    Listed { name: name.to_string(), kind: Some(FileKind { is_dir: true, is_symlink: false }) }
}

fn file(name: &str) -> Listed {
    Listed { name: name.to_string(), kind: Some(FileKind { is_dir: false, is_symlink: false }) }
}

/// Fixture, as the directory reads it: beta/ (holding inner.txt), alpha/,
/// zz.txt, aa.txt, link -> aa.txt.
fn fixture_listing() -> Vec<Listed> {
    vec![
        dir("beta"),
        dir("alpha"),
        file("zz.txt"),
        file("aa.txt"),
        Listed { name: "link".to_string(), kind: Some(FileKind { is_dir: false, is_symlink: true }) },
    ]
}

const ROOT: &str = "/tmp/fixture";

fn names(t: &Tree, ids: &[NodeId]) -> Vec<String> {
    ids.iter().map(|&i| t.node(i).name.clone()).collect()
}

fn fixture() -> Tree {
    Tree::new(ROOT.to_string(), true, false)
}

#[test]
fn new_and_root() {
    let t = fixture();
    let r = t.node(t.root);
    assert!(r.is_dir);
    assert!(!r.loaded);
    assert_eq!(t.depth(t.root), 0);
    assert_eq!(t.path(t.root), ROOT);
}

#[test]
fn expand_sorts_dirs_first() {
    let mut t = fixture();
    t.expand(t.root, Ok(fixture_listing())).unwrap();
    let r = t.node(t.root);
    assert!(r.loaded && r.expanded);
    assert_eq!(names(&t, &t.node(t.root).children), vec!["alpha", "beta", "aa.txt", "link", "zz.txt"]);
    let kids = t.node(t.root).children.clone();
    assert!(t.node(kids[0]).is_dir);
    assert!(t.node(kids[1]).is_dir);
    assert!(!t.node(kids[2]).is_dir);
    assert!(t.node(kids[3]).is_symlink);
    assert_eq!(t.node(kids[2]).parent, Some(t.root));
}

#[test]
fn expand_file_fails_but_is_retryable_dirs_recover() {
    let mut t = fixture();
    t.expand(t.root, Ok(fixture_listing())).unwrap();
    let kids = t.node(t.root).children.clone();

    // aa.txt is not a directory
    assert_eq!(t.expand(kids[2], Ok(vec![])), Err(20));

    // unreadable dir fails, marks the node, then recovers on retry
    assert_eq!(t.expand(kids[0], Err(13)), Err(13));
    assert!(t.node(kids[0]).load_failed);
    assert_eq!(t.node(kids[0]).load_error, Some(13));
    assert!(t.node(kids[0]).children.is_empty());
    assert!(t.expand(kids[0], Ok(vec![])).is_ok());
    assert!(!t.node(kids[0]).load_failed);
}

#[test]
fn path_and_depth_nested() {
    let mut t = fixture();
    t.expand(t.root, Ok(fixture_listing())).unwrap();
    let beta = t.node(t.root).children[1];
    t.expand(beta, Ok(vec![file("inner.txt")])).unwrap();
    let inner = t.node(beta).children[0];
    assert_eq!(t.node(inner).name, "inner.txt");
    assert_eq!(t.depth(inner), 2);
    assert_eq!(t.path(inner), "/tmp/fixture/beta/inner.txt");
}

#[test]
fn flatten_respects_expansion() {
    let mut t = fixture();
    assert_eq!(t.flatten().len(), 1); // collapsed root

    t.expand(t.root, Ok(fixture_listing())).unwrap();
    assert_eq!(t.flatten().len(), 6);

    let beta = t.node(t.root).children[1];
    t.expand(beta, Ok(vec![file("inner.txt")])).unwrap();
    let flat = t.flatten();
    assert_eq!(flat.len(), 7);
    // depth-first: inner.txt right after beta
    assert_eq!(names(&t, &flat)[2..5], ["beta", "inner.txt", "aa.txt"]);

    t.collapse(beta);
    assert_eq!(t.flatten().len(), 6);
    assert!(t.node(beta).loaded); // collapse keeps the subtree loaded
    // re-expand needs no reload: the listing is not looked at
    t.expand(beta, Err(5)).unwrap();
    assert_eq!(t.flatten().len(), 7);
}

#[test]
fn refresh_picks_up_changes_and_preserves_state() {
    let mut t = fixture();
    t.expand(t.root, Ok(fixture_listing())).unwrap();
    assert_eq!(t.node(t.root).children.len(), 5);

    // expand beta so we can prove refresh preserves its state
    let beta = t.node(t.root).children[1];
    t.expand(beta, Ok(vec![file("inner.txt")])).unwrap();

    let mut with_new = fixture_listing();
    with_new.push(file("new.txt"));
    t.refresh(t.root, Ok(with_new)).unwrap();
    assert_eq!(t.node(t.root).children.len(), 6);
    let beta = t.node(t.root).children[1];
    assert_eq!(t.node(beta).name, "beta");
    assert!(t.node(beta).expanded && t.node(beta).loaded);

    t.refresh(t.root, Ok(fixture_listing())).unwrap();
    assert_eq!(t.node(t.root).children.len(), 5);
}

#[test]
fn root_can_be_a_file() {
    let f = "/tmp/fixture/aa.txt";
    let mut t = Tree::new(f.to_string(), false, false);
    assert!(!t.node(t.root).is_dir);
    assert!(t.expand(t.root, Ok(vec![])).is_err());
    assert_eq!(t.path(t.root), f);
}

#[test]
fn entries_of_unknown_type_are_left_out_unless_known() {
    let mut t = fixture();
    t.expand(t.root, Ok(vec![dir("keep"), Listed { name: "odd".to_string(), kind: None }])).unwrap();
    assert_eq!(names(&t, &t.node(t.root).children), vec!["keep"]);
    // a known child keeps its node even when its type cannot be read now
    let keep = t.node(t.root).children[0];
    t.refresh(t.root, Ok(vec![Listed { name: "keep".to_string(), kind: None }])).unwrap();
    assert_eq!(t.node(t.root).children, vec![keep]);
}

#[test]
fn paths_join_like_pathbuf() {
    let mut t = Tree::new("/".to_string(), true, false);
    t.expand(t.root, Ok(vec![dir("etc")])).unwrap();
    let etc = t.node(t.root).children[0];
    assert_eq!(t.path(etc), "/etc");
}

#[test]
fn names_sort_by_code_point() {
    let mut t = fixture();
    t.expand(t.root, Ok(vec![file("b"), file("B"), file("a"), file("ab"), dir("Z")])).unwrap();
    assert_eq!(names(&t, &t.node(t.root).children), vec!["Z", "B", "a", "ab", "b"]);
}
