//! Lazy filesystem tree behind the browser's left panel: an arena of nodes
//! indexed by `NodeId`, children read on first expand, directories first
//! and then names in order. Directory listings are read by the caller and
//! handed in; everything done with them is decided here.
use vstd::prelude::*;
use crate::acl::errno::ENOTDIR;
use crate::sorting::{stable_sort, sorted_by, total_preorder, lemma_insert_at, lemma_stable_sort_sorted,
    lemma_stable_sort_multiset};

verus! {

broadcast use vstd::seq_lib::group_to_multiset_ensures;

pub type NodeId = usize;

#[derive(Debug)]
pub struct Node {
    pub name: String,
    pub parent: Option<NodeId>,
    pub children: Vec<NodeId>,
    pub is_dir: bool,
    pub is_symlink: bool,
    pub expanded: bool,
    pub loaded: bool,
    pub load_failed: bool,
    /// Raw errno of the last failed read of the directory.
    pub load_error: Option<i32>,
}

#[derive(Debug)]
pub struct Tree {
    pub nodes: Vec<Node>,
    pub root: NodeId,
}

/// File type of a directory entry.
#[derive(Debug, Clone, Copy, PartialEq, Eq, Structural)]
pub struct FileKind {
    /// A directory, or a symlink to one.
    pub is_dir: bool,
    pub is_symlink: bool,
}

/// One directory entry as read from disk; `kind` is `None` when its type
/// could not be determined.
#[derive(Debug)]
pub struct Listed {
    pub name: String,
    pub kind: Option<FileKind>,
}

pub struct NodeView {
    pub name: Seq<char>,
    pub parent: Option<NodeId>,
    pub children: Seq<NodeId>,
    pub is_dir: bool,
    pub is_symlink: bool,
    pub expanded: bool,
    pub loaded: bool,
    pub load_failed: bool,
    pub load_error: Option<i32>,
}

impl View for Node {
    type V = NodeView;

    open spec fn view(&self) -> NodeView {
        NodeView {
            name: self.name@,
            parent: self.parent,
            children: self.children@,
            is_dir: self.is_dir,
            is_symlink: self.is_symlink,
            expanded: self.expanded,
            loaded: self.loaded,
            load_failed: self.load_failed,
            load_error: self.load_error,
        }
    }
}

impl View for Tree {
    type V = Seq<NodeView>;

    open spec fn view(&self) -> Seq<NodeView> {
        self.nodes@.map_values(|n: Node| n@)
    }
}

pub struct ListedView {
    pub name: Seq<char>,
    pub kind: Option<FileKind>,
}

pub open spec fn listing_view(v: Seq<Listed>) -> Seq<ListedView> {
    v.map_values(|d: Listed| ListedView { name: d.name@, kind: d.kind })
}

/// Arena shape: node 0 is the root and has no parent, every other node's
/// parent comes before it, and each child of a node comes after it and
/// names it as parent.
pub open spec fn tree_ok(t: Seq<NodeView>) -> bool {
    &&& t.len() > 0
    &&& t[0].parent is None
    &&& forall|i: int| 0 < i < t.len() ==> ((#[trigger] t[i]).parent matches Some(p) && p < i)
    &&& forall|i: int, k: int|
        0 <= i < t.len() && 0 <= k < t[i].children.len() ==> i < #[trigger] t[i].children[k] < t.len()
            && t[t[i].children[k] as int].parent == Some(i as NodeId)
}

impl Tree {
    pub open spec fn wf(&self) -> bool {
        self.root == 0 && tree_ok(self@)
    }
}

/// Lexicographic order of names by character code (the order of their
/// UTF-8 bytes).
pub open spec fn text_le(a: Seq<char>, b: Seq<char>) -> bool
    decreases a.len(),
{
    if a.len() == 0 {
        true
    } else if b.len() == 0 {
        false
    } else if (a[0] as u32) != (b[0] as u32) {
        (a[0] as u32) < (b[0] as u32)
    } else {
        text_le(a.drop_first(), b.drop_first())
    }
}

/// Directories before everything else, then names in order.
pub open spec fn node_le(t: Seq<NodeView>, a: NodeId, b: NodeId) -> bool {
    if t[a as int].is_dir != t[b as int].is_dir {
        t[a as int].is_dir
    } else {
        text_le(t[a as int].name, t[b as int].name)
    }
}

pub open spec fn child_order(t: Seq<NodeView>) -> spec_fn(NodeId, NodeId) -> bool {
    |a: NodeId, b: NodeId| node_le(t, a, b)
}

/// The node a listing entry of known type becomes under `parent`.
pub open spec fn fresh_node(name: Seq<char>, parent: NodeId, kind: FileKind) -> NodeView {
    NodeView {
        name,
        parent: Some(parent),
        children: Seq::empty(),
        is_dir: kind.is_dir,
        is_symlink: kind.is_symlink,
        expanded: false,
        loaded: false,
        load_failed: false,
        load_error: None,
    }
}

/// Arena, not-yet-reused old children, and collected children while a
/// listing is merged.
pub struct MergeState {
    pub nodes: Seq<NodeView>,
    pub unused: Seq<Option<NodeId>>,
    pub kids: Seq<NodeId>,
}

/// First slot at or after `j` holding an old child called `name`.
pub open spec fn reuse_slot(nodes: Seq<NodeView>, unused: Seq<Option<NodeId>>, name: Seq<char>, j: int) -> Option<int>
    decreases unused.len() - j,
{
    if j < 0 || j >= unused.len() {
        None
    } else if (unused[j] matches Some(c) && nodes[c as int].name == name) {
        Some(j)
    } else {
        reuse_slot(nodes, unused, name, j + 1)
    }
}

/// Merge one listing entry: an old child with the same name is reused
/// (keeping its loaded subtree and expansion state), otherwise an entry of
/// known type becomes a new node, and one of unknown type is left out.
pub open spec fn merge_step(st: MergeState, parent: NodeId, d: ListedView) -> MergeState {
    match reuse_slot(st.nodes, st.unused, d.name, 0) {
        Some(j) => MergeState {
            nodes: st.nodes,
            unused: st.unused.update(j, None),
            kids: st.kids.push(st.unused[j]->Some_0),
        },
        None => match d.kind {
            Some(k) => MergeState {
                nodes: st.nodes.push(fresh_node(d.name, parent, k)),
                unused: st.unused,
                kids: st.kids.push(st.nodes.len() as NodeId),
            },
            None => st,
        },
    }
}

pub open spec fn merge_listing(t: Seq<NodeView>, parent: NodeId, ents: Seq<ListedView>) -> MergeState
    decreases ents.len(),
{
    if ents.len() == 0 {
        MergeState {
            nodes: t,
            unused: t[parent as int].children.map_values(|c: NodeId| Some(c)),
            kids: Seq::empty(),
        }
    } else {
        merge_step(merge_listing(t, parent, ents.drop_last()), parent, ents.last())
    }
}

/// The arena after reading `ents` as the contents of directory `id`.
pub open spec fn loaded_tree(t: Seq<NodeView>, id: NodeId, ents: Seq<ListedView>) -> Seq<NodeView> {
    let st = merge_listing(t, id, ents);
    st.nodes.update(
        id as int,
        NodeView {
            children: stable_sort(st.kids, child_order(st.nodes)),
            loaded: true,
            load_failed: false,
            load_error: None,
            ..st.nodes[id as int]
        },
    )
}

/// The arena after a failed read of directory `id`: marked failed, still
/// retryable, children as they were.
pub open spec fn failed_tree(t: Seq<NodeView>, id: NodeId, errno: i32) -> Seq<NodeView> {
    t.update(id as int, NodeView { load_failed: true, load_error: Some(errno), ..t[id as int] })
}

/// `name` appended to `base` the way `PathBuf::push` does it.
pub open spec fn join_path(base: Seq<char>, name: Seq<char>) -> Seq<char> {
    if name.len() > 0 && name[0] == '/' {
        name
    } else if base.len() == 0 || base.last() == '/' {
        base + name
    } else {
        base + "/"@ + name
    }
}

pub open spec fn path_spec(t: Seq<NodeView>, id: int) -> Seq<char>
    decreases id,
{
    if 0 <= id < t.len() {
        match t[id].parent {
            Some(p) => if 0 <= p < id {
                join_path(path_spec(t, p as int), t[id].name)
            } else {
                t[id].name
            },
            None => t[id].name,
        }
    } else {
        Seq::empty()
    }
}

pub open spec fn depth_spec(t: Seq<NodeView>, id: int) -> nat
    decreases id,
{
    if 0 <= id < t.len() {
        match t[id].parent {
            Some(p) => if 0 <= p < id {
                depth_spec(t, p as int) + 1
            } else {
                0
            },
            None => 0,
        }
    } else {
        0
    }
}

/// Visible nodes from `id` on: the node, then depth-first through its
/// children when it is expanded.
pub open spec fn flat_from(t: Seq<NodeView>, id: int) -> Seq<NodeId>
    decreases t.len() - id, 1int, 0int,
{
    if 0 <= id < t.len() {
        seq![id as NodeId] + if t[id].expanded {
            flat_kids(t, id, t[id].children.len() as int)
        } else {
            Seq::empty()
        }
    } else {
        Seq::empty()
    }
}

/// Visible nodes under the first `k` children of `id`.
pub open spec fn flat_kids(t: Seq<NodeView>, id: int, k: int) -> Seq<NodeId>
    decreases t.len() - id, 0int, k,
{
    if 0 <= id < t.len() && 0 < k <= t[id].children.len() {
        let c = t[id].children[k - 1] as int;
        flat_kids(t, id, k - 1) + if id < c < t.len() {
            flat_from(t, c)
        } else {
            Seq::empty()
        }
    } else {
        Seq::empty()
    }
}

fn copy_ids(v: &Vec<NodeId>) -> (r: Vec<NodeId>)
    ensures
        r@ == v@,
{
    let n: usize = v.len();
    let mut r: Vec<NodeId> = Vec::new();
    let mut i: usize = 0;
    while i < n
        invariant
            n == v@.len(),
            i <= n,
            r@ == v@.take(i as int),
        decreases n - i,
    {
        r.push(v[i]);
        proof {
            assert(r@ =~= v@.take(i + 1));
        }
        i = i + 1;
    }
    proof {
        assert(v@.take(n as int) =~= v@);
    }
    r
}

fn text_le_exec(a: &String, b: &String) -> (r: bool)
    ensures
        r == text_le(a@, b@),
{
    let sa: &str = a.as_str();
    let sb: &str = b.as_str();
    let na: usize = sa.unicode_len();
    let nb: usize = sb.unicode_len();
    let mut i: usize = 0;
    assert(a@.skip(0) =~= a@);
    assert(b@.skip(0) =~= b@);
    while i < na && i < nb
        invariant
            na == a@.len(),
            nb == b@.len(),
            sa@ == a@,
            sb@ == b@,
            i <= na,
            i <= nb,
            text_le(a@, b@) == text_le(a@.skip(i as int), b@.skip(i as int)),
        decreases na - i,
    {
        let ca: char = sa.get_char(i);
        let cb: char = sb.get_char(i);
        proof {
            assert(a@.skip(i as int)[0] == ca);
            assert(b@.skip(i as int)[0] == cb);
            assert(a@.skip(i as int).drop_first() =~= a@.skip(i + 1));
            assert(b@.skip(i as int).drop_first() =~= b@.skip(i + 1));
        }
        if (ca as u32) != (cb as u32) {
            return (ca as u32) < (cb as u32);
        }
        i = i + 1;
    }
    i == na
}

impl Tree {
    /// A tree holding only its root: `name` is the path it stands for.
    pub fn new(name: String, is_dir: bool, is_symlink: bool) -> (t: Tree)
        ensures
            t.wf(),
            t@ == seq![NodeView {
                name: name@,
                parent: None,
                children: Seq::empty(),
                is_dir,
                is_symlink,
                expanded: false,
                loaded: false,
                load_failed: false,
                load_error: None,
            }],
    {
        let mut nodes: Vec<Node> = Vec::new();
        nodes.push(
            Node {
                name,
                parent: None,
                children: Vec::new(),
                is_dir,
                is_symlink,
                expanded: false,
                loaded: false,
                load_failed: false,
                load_error: None,
            },
        );
        let t: Tree = Tree { nodes, root: 0 };
        assert(t@ =~= seq![t.nodes@[0]@]);
        t
    }

    pub fn node(&self, id: NodeId) -> (n: &Node)
        requires
            id < self@.len(),
        ensures
            n@ == self@[id as int],
    {
        &self.nodes[id]
    }

    fn child_le(&self, a: NodeId, b: NodeId) -> (r: bool)
        requires
            a < self@.len(),
            b < self@.len(),
        ensures
            r == node_le(self@, a, b),
    {
        let na: &Node = &self.nodes[a];
        let nb: &Node = &self.nodes[b];
        if na.is_dir != nb.is_dir {
            na.is_dir
        } else {
            text_le_exec(&na.name, &nb.name)
        }
    }
}

impl Tree {
    pub fn collapse(&mut self, id: NodeId)
        requires
            old(self).wf(),
            id < old(self)@.len(),
        ensures
            final(self).wf(),
            final(self)@ == old(self)@.update(id as int, NodeView { expanded: false, ..old(self)@[id as int] }),
    {
        self.nodes[id].expanded = false;
        assert(self@ =~= old(self)@.update(id as int, NodeView { expanded: false, ..old(self)@[id as int] }));
    }

    /// Depth below the root (root itself is 0).
    pub fn depth(&self, id: NodeId) -> (d: usize)
        requires
            self.wf(),
            id < self@.len(),
        ensures
            d == depth_spec(self@, id as int),
            d <= id,
        decreases id,
    {
        match self.nodes[id].parent {
            None => 0,
            Some(p) => {
                assert(p < id) by {
                    if id == 0 {
                    } else {
                        assert(self@[id as int].parent == Some(p));
                    }
                };
                self.depth(p) + 1
            },
        }
    }

    /// Absolute path of a node: its ancestors' names joined as paths join.
    pub fn path(&self, id: NodeId) -> (p: String)
        requires
            self.wf(),
            id < self@.len(),
        ensures
            p@ == path_spec(self@, id as int),
        decreases id,
    {
        match self.nodes[id].parent {
            None => self.nodes[id].name.clone(),
            Some(parent) => {
                assert(parent < id) by {
                    if id == 0 {
                    } else {
                        assert(self@[id as int].parent == Some(parent));
                    }
                };
                let base: String = self.path(parent);
                let name: &str = self.nodes[id].name.as_str();
                join(base, name)
            },
        }
    }

    fn flatten_into(&self, id: NodeId, out: &mut Vec<NodeId>)
        requires
            self.wf(),
            id < self@.len(),
        ensures
            final(out)@ == old(out)@ + flat_from(self@, id as int),
        decreases self@.len() - id,
    {
        let ghost start = out@;
        out.push(id);
        if self.nodes[id].expanded {
            let n: usize = self.nodes[id].children.len();
            let mut k: usize = 0;
            while k < n
                invariant
                    self.wf(),
                    id < self@.len(),
                    self@[id as int].expanded,
                    n == self@[id as int].children.len(),
                    k <= n,
                    out@ == start + seq![id] + flat_kids(self@, id as int, k as int),
                decreases n - k,
            {
                let c: NodeId = self.nodes[id].children[k];
                assert(id < c < self@.len()) by {
                    assert(self@[id as int].children[k as int] == c);
                };
                self.flatten_into(c, out);
                assert(out@ =~= start + seq![id] + flat_kids(self@, id as int, k + 1));
                k = k + 1;
            }
            assert(out@ =~= start + flat_from(self@, id as int));
        } else {
            assert(out@ =~= start + flat_from(self@, id as int));
        }
    }

    /// Visible nodes: root first, depth-first through expanded dirs.
    pub fn flatten(&self) -> (v: Vec<NodeId>)
        requires
            self.wf(),
        ensures
            v@ == flat_from(self@, 0),
    {
        let mut out: Vec<NodeId> = Vec::new();
        self.flatten_into(self.root, &mut out);
        assert(out@ =~= flat_from(self@, 0));
        out
    }
}

fn ends_with_slash(s: &str) -> (b: bool)
    ensures
        b == (s@.len() > 0 && s@.last() == '/'),
{
    let n: usize = s.unicode_len();
    n > 0 && s.get_char(n - 1) == '/'
}

fn starts_with_slash(s: &str) -> (b: bool)
    ensures
        b == (s@.len() > 0 && s@[0] == '/'),
{
    s.unicode_len() > 0 && s.get_char(0) == '/'
}

/// `name` appended to `base` as `PathBuf::push` does.
fn join(base: String, name: &str) -> (p: String)
    ensures
        p@ == join_path(base@, name@),
{
    if starts_with_slash(name) {
        return String::from_str(name);
    }
    let mut p: String = base;
    if p.as_str().unicode_len() > 0 && !ends_with_slash(p.as_str()) {
        p.append("/");
    }
    p.append(name);
    p
}

proof fn lemma_text_le_total(a: Seq<char>, b: Seq<char>)
    ensures
        text_le(a, b) || text_le(b, a),
    decreases a.len(),
{
    if a.len() > 0 && b.len() > 0 && (a[0] as u32) == (b[0] as u32) {
        lemma_text_le_total(a.drop_first(), b.drop_first());
    }
}

proof fn lemma_text_le_trans(a: Seq<char>, b: Seq<char>, c: Seq<char>)
    requires
        text_le(a, b),
        text_le(b, c),
    ensures
        text_le(a, c),
    decreases a.len(),
{
    if a.len() > 0 && b.len() > 0 && c.len() > 0 && (a[0] as u32) == (b[0] as u32) && (b[0] as u32) == (
    c[0] as u32) {
        lemma_text_le_trans(a.drop_first(), b.drop_first(), c.drop_first());
    }
}

/// Directories-first, then by name, is a total preorder.
pub proof fn lemma_child_order_total(t: Seq<NodeView>)
    ensures
        total_preorder(child_order(t)),
{
    let le = child_order(t);
    assert forall|a: NodeId, b: NodeId| #[trigger] le(a, b) || le(b, a) by {
        lemma_text_le_total(t[a as int].name, t[b as int].name);
    }
    assert forall|a: NodeId, b: NodeId, c: NodeId| #[trigger] le(a, b) && #[trigger] le(b, c) implies le(a, c) by {
        if t[a as int].is_dir == t[b as int].is_dir && t[b as int].is_dir == t[c as int].is_dir {
            lemma_text_le_trans(t[a as int].name, t[b as int].name, t[c as int].name);
        }
    }
}

/// What merging a listing keeps and adds: old nodes are untouched, new
/// nodes hang under `id` with no children, and every collected child (and
/// every old child not reused yet) is a node under `id` placed after it.
pub proof fn lemma_merge_shape(t: Seq<NodeView>, id: NodeId, ents: Seq<ListedView>)
    requires
        tree_ok(t),
        id < t.len(),
        merge_listing(t, id, ents).nodes.len() <= usize::MAX,
    ensures
        ({
            let st = merge_listing(t, id, ents);
            &&& st.nodes.len() >= t.len()
            &&& forall|k: int| 0 <= k < t.len() ==> #[trigger] st.nodes[k] == t[k]
            &&& forall|k: int| t.len() <= k < st.nodes.len() ==> (#[trigger] st.nodes[k]).parent == Some(id)
                && st.nodes[k].children.len() == 0
            &&& forall|m: int| 0 <= m < st.kids.len() ==> id < #[trigger] st.kids[m] < st.nodes.len()
                && st.nodes[st.kids[m] as int].parent == Some(id)
            &&& st.unused.len() == t[id as int].children.len()
            &&& forall|m: int| 0 <= m < st.unused.len() ==> (#[trigger] st.unused[m] matches Some(c) ==> id < c < t.len()
                && t[c as int].parent == Some(id))
        }),
    decreases ents.len(),
{
    if ents.len() == 0 {
        let st = merge_listing(t, id, ents);
        assert forall|m: int| 0 <= m < st.unused.len() implies (#[trigger] st.unused[m] matches Some(c) ==> id < c
            < t.len() && t[c as int].parent == Some(id)) by {
            assert(st.unused[m] == Some(t[id as int].children[m]));
        }
    } else {
        let prev = merge_listing(t, id, ents.drop_last());
        let d = ents.last();
        let st = merge_listing(t, id, ents);
        assert(st == merge_step(prev, id, d));
        assert(prev.nodes.len() <= st.nodes.len());
        lemma_merge_shape(t, id, ents.drop_last());
        lemma_reuse_slot_bounds(prev.nodes, prev.unused, d.name, 0);
        match reuse_slot(prev.nodes, prev.unused, d.name, 0) {
            Some(j) => {
                let c = prev.unused[j]->Some_0;
                assert(id < c < t.len() && t[c as int].parent == Some(id));
                assert(st.nodes == prev.nodes);
                assert forall|m: int| 0 <= m < st.kids.len() implies id < #[trigger] st.kids[m] < st.nodes.len()
                    && st.nodes[st.kids[m] as int].parent == Some(id) by {
                    if m < prev.kids.len() {
                        assert(st.kids[m] == prev.kids[m]);
                    } else {
                        assert(st.kids[m] == c);
                        assert(st.nodes[c as int] == t[c as int]);
                    }
                }
                assert forall|m: int| 0 <= m < st.unused.len() implies (#[trigger] st.unused[m] matches Some(c2) ==> id < c2
                    < t.len() && t[c2 as int].parent == Some(id)) by {
                    if m != j {
                        assert(st.unused[m] == prev.unused[m]);
                    }
                }
            },
            None => {
                match d.kind {
                    Some(k) => {
                        assert forall|m: int| 0 <= m < st.kids.len() implies id < #[trigger] st.kids[m] < st.nodes.len()
                            && st.nodes[st.kids[m] as int].parent == Some(id) by {
                            if m < prev.kids.len() {
                                assert(st.kids[m] == prev.kids[m]);
                                assert(st.nodes[prev.kids[m] as int] == prev.nodes[prev.kids[m] as int]);
                            } else {
                                assert(st.kids[m] == prev.nodes.len());
                            }
                        }
                        assert forall|k2: int| 0 <= k2 < t.len() implies #[trigger] st.nodes[k2] == t[k2] by {
                            assert(st.nodes[k2] == prev.nodes[k2]);
                        }
                        assert forall|k2: int| t.len() <= k2 < st.nodes.len() implies (#[trigger] st.nodes[k2]).parent == Some(id)
                            && st.nodes[k2].children.len() == 0 by {
                            if k2 < prev.nodes.len() {
                                assert(st.nodes[k2] == prev.nodes[k2]);
                            }
                        }
                    },
                    None => {},
                }
            },
        }
    }
}

proof fn lemma_reuse_slot_bounds(nodes: Seq<NodeView>, unused: Seq<Option<NodeId>>, name: Seq<char>, j: int)
    ensures
        reuse_slot(nodes, unused, name, j) matches Some(k) ==> j <= k < unused.len() && unused[k] is Some
            && nodes[unused[k]->Some_0 as int].name == name,
        reuse_slot(nodes, unused, name, j) is None ==> forall|k: int|
            0 <= j <= k < unused.len() ==> !(#[trigger] unused[k] matches Some(c) && nodes[c as int].name == name),
    decreases unused.len() - j,
{
    if 0 <= j < unused.len() {
        lemma_reuse_slot_bounds(nodes, unused, name, j + 1);
    }
}

/// Reading a directory keeps the arena well-formed and changes no node
/// but the directory itself: the loaded subtrees and expansion state of
/// everything else survive a refresh.
pub proof fn lemma_loaded_tree_ok(t: Seq<NodeView>, id: NodeId, ents: Seq<ListedView>)
    requires
        tree_ok(t),
        id < t.len(),
        merge_listing(t, id, ents).nodes.len() <= usize::MAX,
    ensures
        tree_ok(loaded_tree(t, id, ents)),
        loaded_tree(t, id, ents).len() >= t.len(),
        forall|k: int| 0 <= k < t.len() && k != id ==> #[trigger] loaded_tree(t, id, ents)[k] == t[k],
        sorted_by(loaded_tree(t, id, ents)[id as int].children, child_order(merge_listing(t, id, ents).nodes)),
{
    lemma_merge_shape(t, id, ents);
    let st = merge_listing(t, id, ents);
    let le = child_order(st.nodes);
    lemma_child_order_total(st.nodes);
    lemma_stable_sort_sorted(st.kids, le);
    lemma_stable_sort_multiset(st.kids, le);
    let sorted = stable_sort(st.kids, le);
    let r = loaded_tree(t, id, ents);
    assert forall|m: int| 0 <= m < sorted.len() implies id < #[trigger] sorted[m] < st.nodes.len()
        && st.nodes[sorted[m] as int].parent == Some(id) by {
        assert(sorted.to_multiset().count(sorted[m]) > 0);
        assert(st.kids.contains(sorted[m]));
    }
    assert forall|i: int| 0 < i < r.len() implies ((#[trigger] r[i]).parent matches Some(p) && p < i) by {
        if i < t.len() {
            assert(t[i].parent matches Some(p) && p < i);
        }
    }
    assert forall|i: int, k: int| 0 <= i < r.len() && 0 <= k < r[i].children.len() implies i < #[trigger] r[i].children[k]
        < r.len() && r[r[i].children[k] as int].parent == Some(i as NodeId) by {
        if i == id {
            assert(r[i].children[k] == sorted[k]);
        } else if i < t.len() {
            let c = t[i].children[k];
            assert(i < c < t.len());
        }
    }
}

impl Tree {
    fn mark_failed(&mut self, id: NodeId, errno: i32)
        requires
            old(self).wf(),
            id < old(self)@.len(),
        ensures
            final(self).wf(),
            final(self)@ == failed_tree(old(self)@, id, errno),
    {
        self.nodes[id].load_failed = true;
        self.nodes[id].load_error = Some(errno);
        assert(self@ =~= failed_tree(old(self)@, id, errno));
    }

    /// Sort `kids` directories-first, then by name, keeping the order of
    /// equal keys.
    #[verifier::rlimit(40)]
    fn sort_children(&self, kids: &Vec<NodeId>) -> (out: Vec<NodeId>)
        requires
            forall|m: int| 0 <= m < kids@.len() ==> #[trigger] kids@[m] < self@.len(),
        ensures
            out@ == stable_sort(kids@, child_order(self@)),
    {
        let ghost le = child_order(self@);
        proof {
            lemma_child_order_total(self@);
        }
        let n: usize = kids.len();
        let mut out: Vec<NodeId> = Vec::new();
        let mut i: usize = 0;
        while i < n
            invariant
                n == kids@.len(),
                i <= n,
                le == child_order(self@),
                total_preorder(le),
                forall|m: int| 0 <= m < kids@.len() ==> #[trigger] kids@[m] < self@.len(),
                out@ == stable_sort(kids@.take(i as int), le),
                forall|m: int| 0 <= m < out@.len() ==> #[trigger] out@[m] < self@.len(),
            decreases n - i,
        {
            proof {
                lemma_stable_sort_sorted(kids@.take(i as int), le);
            }
            let e: NodeId = kids[i];
            let mut lo: usize = 0;
            let mut hi: usize = out.len();
            while lo < hi
                invariant
                    0 <= lo <= hi <= out@.len(),
                    le == child_order(self@),
                    total_preorder(le),
                    sorted_by(out@, le),
                    e < self@.len(),
                    forall|m: int| 0 <= m < out@.len() ==> #[trigger] out@[m] < self@.len(),
                    forall|k: int| 0 <= k < lo ==> le(#[trigger] out@[k], e),
                    forall|k: int| hi <= k < out@.len() ==> !le(#[trigger] out@[k], e),
                decreases hi - lo,
            {
                let mid: usize = lo + (hi - lo) / 2;
                let x: NodeId = out[mid];
                let below: bool = self.child_le(x, e);
                assert(below == le(x, e));
                if below {
                    assert forall|k: int| 0 <= k < mid + 1 implies le(#[trigger] out@[k], e) by {
                        if k < mid {
                            assert(le(out@[k], out@[mid as int]));
                        } else {
                            assert(le(out@[k], e) == le(x, e));
                        }
                    }
                    lo = mid + 1;
                } else {
                    assert forall|k: int| mid <= k < out@.len() implies !le(#[trigger] out@[k], e) by {
                        if k > mid {
                            assert(le(out@[mid as int], out@[k]));
                        }
                    }
                    hi = mid;
                }
            }
            proof {
                lemma_insert_at(out@, e, le, lo as int);
                assert(kids@.take(i + 1).drop_last() =~= kids@.take(i as int));
            }
            out.insert(lo, e);
            i = i + 1;
        }
        proof {
            assert(kids@.take(n as int) =~= kids@);
        }
        out
    }

    /// Merge a directory listing into the children of `id` and mark it
    /// loaded; a failed read marks the node failed and leaves its children.
    #[verifier::rlimit(40)]
    fn load_children(&mut self, id: NodeId, listing: Result<Vec<Listed>, i32>) -> (r: Result<(), i32>)
        requires
            old(self).wf(),
            id < old(self)@.len(),
        ensures
            final(self).wf(),
            final(self)@.len() >= old(self)@.len(),
            match listing {
                Ok(ents) => r is Ok && final(self)@ == loaded_tree(old(self)@, id, listing_view(ents@)),
                Err(e) => r == Err::<(), i32>(e) && final(self)@ == failed_tree(old(self)@, id, e),
            },
    {
        let ents: Vec<Listed> = match listing {
            Err(e) => {
                self.mark_failed(id, e);
                return Err(e);
            },
            Ok(ents) => ents,
        };
        let ghost t0 = self@;
        let ghost lv = listing_view(ents@);
        let old_kids: Vec<NodeId> = copy_ids(&self.nodes[id].children);
        let mut unused: Vec<Option<NodeId>> = Vec::new();
        let m: usize = old_kids.len();
        let mut q: usize = 0;
        while q < m
            invariant
                m == old_kids@.len(),
                self@ == t0,
                self.root == 0,
                tree_ok(t0),
                id < t0.len(),
                old_kids@ == t0[id as int].children,
                q <= m,
                unused@ == old_kids@.take(q as int).map_values(|c: NodeId| Some(c)),
            decreases m - q,
        {
            unused.push(Some(old_kids[q]));
            proof {
                assert(unused@ =~= old_kids@.take(q + 1).map_values(|c: NodeId| Some(c)));
            }
            q = q + 1;
        }
        proof {
            assert(old_kids@.take(m as int) =~= old_kids@);
            assert(merge_listing(t0, id, lv.take(0)).unused =~= unused@);
        }
        let mut kids: Vec<NodeId> = Vec::new();
        let n: usize = ents.len();
        let mut i: usize = 0;
        while i < n
            invariant
                n == ents@.len(),
                lv == listing_view(ents@),
                tree_ok(t0),
                id < t0.len(),
                i <= n,
                self.root == 0,
                self@ == merge_listing(t0, id, lv.take(i as int)).nodes,
                unused@ == merge_listing(t0, id, lv.take(i as int)).unused,
                kids@ == merge_listing(t0, id, lv.take(i as int)).kids,
            decreases n - i,
        {
            let cur_len: usize = self.nodes.len();
            proof {
                assert(lv.take(i + 1).drop_last() =~= lv.take(i as int));
                lemma_merge_shape(t0, id, lv.take(i as int));
            }
            let ghost st = merge_listing(t0, id, lv.take(i as int));
            let d: &Listed = &ents[i];
            let ghost dv = lv[i as int];
            assert(dv.name == d.name@ && dv.kind == d.kind);
            let u: usize = unused.len();
            let mut j: usize = 0;
            let mut found: Option<usize> = None;
            while j < u && found.is_none()
                invariant
                    u == unused@.len(),
                    dv.name == d.name@,
                    self.root == 0,
                    self@ == st.nodes,
                    unused@ == st.unused,
                    j <= u,
                    found is None ==> reuse_slot(st.nodes, st.unused, dv.name, 0) == reuse_slot(
                        st.nodes,
                        st.unused,
                        dv.name,
                        j as int,
                    ),
                    found matches Some(f) ==> reuse_slot(st.nodes, st.unused, dv.name, 0) == Some(f as int),
                    forall|k: int| 0 <= k < u ==> (#[trigger] unused@[k] matches Some(c) ==> c < self@.len()),
                decreases u - j,
            {
                let slot: Option<NodeId> = unused[j];
                assert(slot == st.unused[j as int]);
                match slot {
                    Some(c) => {
                        assert(c < self@.len());
                        assert(self@[c as int] == self.nodes@[c as int]@);
                        let same: bool = self.nodes[c].name == d.name;
                        assert(same == (st.nodes[c as int].name == dv.name));
                        if same {
                            found = Some(j);
                            assert(reuse_slot(st.nodes, st.unused, dv.name, j as int) == Some(j as int));
                        } else {
                            assert(reuse_slot(st.nodes, st.unused, dv.name, j as int) == reuse_slot(
                                st.nodes,
                                st.unused,
                                dv.name,
                                j + 1,
                            ));
                        }
                    },
                    None => {
                        assert(reuse_slot(st.nodes, st.unused, dv.name, j as int) == reuse_slot(
                            st.nodes,
                            st.unused,
                            dv.name,
                            j + 1,
                        ));
                    },
                }
                j = j + 1;
            }
            proof {
                lemma_reuse_slot_bounds(st.nodes, st.unused, dv.name, 0);
            }
            match found {
                Some(f) => {
                    let c: NodeId = unused[f].unwrap();
                    unused.set(f, None);
                    kids.push(c);
                },
                None => {
                    match d.kind {
                        Some(k) => {
                            let name: String = d.name.clone();
                            self.nodes.push(
                                Node {
                                    name,
                                    parent: Some(id),
                                    children: Vec::new(),
                                    is_dir: k.is_dir,
                                    is_symlink: k.is_symlink,
                                    expanded: false,
                                    loaded: false,
                                    load_failed: false,
                                    load_error: None,
                                },
                            );
                            kids.push(self.nodes.len() - 1);
                        },
                        None => {},
                    }
                },
            }
            proof {
                assert(self@ =~= merge_listing(t0, id, lv.take(i + 1)).nodes);
                assert(unused@ =~= merge_listing(t0, id, lv.take(i + 1)).unused);
                assert(kids@ =~= merge_listing(t0, id, lv.take(i + 1)).kids);
            }
            i = i + 1;
        }
        let final_len: usize = self.nodes.len();
        proof {
            assert(lv.take(n as int) =~= lv);
            lemma_merge_shape(t0, id, lv);
        }
        let sorted: Vec<NodeId> = self.sort_children(&kids);
        let ghost merged = self@;
        self.nodes[id].children = sorted;
        self.nodes[id].loaded = true;
        self.nodes[id].load_failed = false;
        self.nodes[id].load_error = None;
        proof {
            assert(self@ =~= loaded_tree(t0, id, lv));
            lemma_loaded_tree_ok(t0, id, lv);
        }
        Ok(())
    }

    /// Expand a directory, merging `listing` (what reading it gave) as its
    /// children when they are not loaded yet; the listing is not looked at
    /// otherwise. A failed read leaves the node marked failed but
    /// retryable; expanding a non-directory fails with ENOTDIR and changes
    /// nothing.
    pub fn expand(&mut self, id: NodeId, listing: Result<Vec<Listed>, i32>) -> (r: Result<(), i32>)
        requires
            old(self).wf(),
            id < old(self)@.len(),
        ensures
            final(self).wf(),
            !old(self)@[id as int].is_dir ==> r == Err::<(), i32>(ENOTDIR) && final(self)@ == old(self)@,
            old(self)@[id as int].is_dir && old(self)@[id as int].loaded ==> r is Ok && final(self)@ == old(
                self,
            )@.update(id as int, NodeView { expanded: true, ..old(self)@[id as int] }),
            old(self)@[id as int].is_dir && !old(self)@[id as int].loaded ==> match listing {
                Ok(ents) => r is Ok && final(self)@ == ({
                    let l = loaded_tree(old(self)@, id, listing_view(ents@));
                    l.update(id as int, NodeView { expanded: true, ..l[id as int] })
                }),
                Err(e) => r == Err::<(), i32>(e) && final(self)@ == failed_tree(old(self)@, id, e),
            },
    {
        if !self.nodes[id].is_dir {
            return Err(ENOTDIR);
        }
        if !self.nodes[id].loaded {
            let ghost t0 = self@;
            let r: Result<(), i32> = self.load_children(id, listing);
            if let Err(e) = r {
                return Err(e);
            }
        }
        let ghost before = self@;
        self.nodes[id].expanded = true;
        assert(self@ =~= before.update(id as int, NodeView { expanded: true, ..before[id as int] }));
        Ok(())
    }

    /// Re-read children from `listing`, keeping the loaded and expanded
    /// state of children that still exist by name.
    pub fn refresh(&mut self, id: NodeId, listing: Result<Vec<Listed>, i32>) -> (r: Result<(), i32>)
        requires
            old(self).wf(),
            id < old(self)@.len(),
        ensures
            final(self).wf(),
            match listing {
                Ok(ents) => r is Ok && final(self)@ == loaded_tree(old(self)@, id, listing_view(ents@)),
                Err(e) => r == Err::<(), i32>(e) && final(self)@ == failed_tree(old(self)@, id, e),
            },
    {
        self.load_children(id, listing)
    }
}

/// The children of `id` have pairwise different names.
pub open spec fn distinct_child_names(t: Seq<NodeView>, id: NodeId) -> bool {
    forall|a: int, b: int|
        0 <= a < b < t[id as int].children.len() ==> #[trigger] t[t[id as int].children[a] as int].name
            != #[trigger] t[t[id as int].children[b] as int].name
}

/// Some entry of the listing is called `name`.
pub open spec fn listed_name(ents: Seq<ListedView>, name: Seq<char>) -> bool {
    exists|k: int| 0 <= k < ents.len() && #[trigger] ents[k].name == name
}

/// While a listing is merged, each slot of the old children still holds
/// its child or has been taken; the old child in slot `s` has been taken
/// into the new children once its name was listed, and is still waiting
/// otherwise.
proof fn lemma_merge_tracks_old_child(t: Seq<NodeView>, id: NodeId, ents: Seq<ListedView>, s: int)
    requires
        tree_ok(t),
        id < t.len(),
        merge_listing(t, id, ents).nodes.len() <= usize::MAX,
        distinct_child_names(t, id),
        0 <= s < t[id as int].children.len(),
    ensures
        ({
            let st = merge_listing(t, id, ents);
            let c = t[id as int].children[s];
            &&& forall|m: int| 0 <= m < st.unused.len() ==> (#[trigger] st.unused[m] is None || st.unused[m] == Some(
                t[id as int].children[m],
            ))
            &&& listed_name(ents, t[c as int].name) ==> st.kids.contains(c)
            &&& !listed_name(ents, t[c as int].name) ==> st.unused[s] == Some(c)
        }),
    decreases ents.len(),
{
    let kids0 = t[id as int].children;
    let c = kids0[s];
    lemma_merge_shape(t, id, ents);
    if ents.len() == 0 {
        let st = merge_listing(t, id, ents);
        assert forall|m: int| 0 <= m < st.unused.len() implies (#[trigger] st.unused[m] is None || st.unused[m] == Some(
            kids0[m],
        )) by {}
    } else {
        let prev = merge_listing(t, id, ents.drop_last());
        let d = ents.last();
        let st = merge_listing(t, id, ents);
        assert(st == merge_step(prev, id, d));
        lemma_merge_shape(t, id, ents.drop_last());
        lemma_merge_tracks_old_child(t, id, ents.drop_last(), s);
        lemma_reuse_slot_bounds(prev.nodes, prev.unused, d.name, 0);
        let was_listed = listed_name(ents.drop_last(), t[c as int].name);
        if was_listed {
            let k = choose|k: int| 0 <= k < ents.drop_last().len() && #[trigger] ents.drop_last()[k].name == t[c as int].name;
            assert(ents[k].name == t[c as int].name);
        }
        if d.name == t[c as int].name {
            assert(ents[ents.len() - 1].name == t[c as int].name);
        }
        if !was_listed && d.name != t[c as int].name {
            assert forall|k: int| 0 <= k < ents.len() implies #[trigger] ents[k].name != t[c as int].name by {
                if k < ents.len() - 1 {
                    assert(ents.drop_last()[k].name == ents[k].name);
                }
            }
        }
        match reuse_slot(prev.nodes, prev.unused, d.name, 0) {
            Some(j) => {
                assert(st.unused == prev.unused.update(j, None));
                assert(st.kids == prev.kids.push(prev.unused[j]->Some_0));
                if was_listed {
                    assert(prev.kids.contains(c));
                    let w = choose|w: int| 0 <= w < prev.kids.len() && prev.kids[w] == c;
                    assert(st.kids[w] == c);
                } else if d.name == t[c as int].name {
                    let c2 = prev.unused[j]->Some_0;
                    assert(prev.unused[j] == Some(kids0[j]));
                    assert(prev.nodes[c2 as int] == t[c2 as int]);
                    if j != s {
                        assert(prev.nodes[c as int] == t[c as int]);
                        if j < s {
                            assert(t[kids0[j] as int].name != t[kids0[s] as int].name);
                        } else {
                            assert(t[kids0[s] as int].name != t[kids0[j] as int].name);
                        }
                    }
                    assert(j == s);
                    assert(st.kids[st.kids.len() - 1] == c);
                } else {
                    if j == s {
                        assert(prev.nodes[c as int] == t[c as int]);
                    }
                    assert(j != s);
                    assert(st.unused[s] == prev.unused[s]);
                }
            },
            None => {
                if !was_listed && d.name == t[c as int].name {
                    assert(prev.unused[s] == Some(c));
                    assert(prev.nodes[c as int] == t[c as int]);
                    assert(false);
                }
                match d.kind {
                    Some(_) => {
                        if was_listed {
                            let w = choose|w: int| 0 <= w < prev.kids.len() && prev.kids[w] == c;
                            assert(st.kids[w] == c);
                        }
                    },
                    None => {},
                }
            },
        }
    }
}

/// Re-reading a directory keeps every old child whose name is still
/// listed: the same node, with its loaded subtree and expansion state,
/// stays among the children.
pub proof fn lemma_reread_keeps_listed_children(t: Seq<NodeView>, id: NodeId, ents: Seq<ListedView>, c: NodeId)
    requires
        tree_ok(t),
        id < t.len(),
        merge_listing(t, id, ents).nodes.len() <= usize::MAX,
        distinct_child_names(t, id),
        t[id as int].children.contains(c),
        listed_name(ents, t[c as int].name),
    ensures
        loaded_tree(t, id, ents)[id as int].children.contains(c),
        loaded_tree(t, id, ents)[c as int] == t[c as int],
{
    let s = choose|s: int| 0 <= s < t[id as int].children.len() && t[id as int].children[s] == c;
    lemma_merge_tracks_old_child(t, id, ents, s);
    lemma_merge_shape(t, id, ents);
    let st = merge_listing(t, id, ents);
    let le = child_order(st.nodes);
    lemma_stable_sort_multiset(st.kids, le);
    let sorted = stable_sort(st.kids, le);
    assert(st.kids.to_multiset().count(c) > 0);
    assert(sorted.to_multiset().count(c) > 0);
    assert(sorted.contains(c));
    assert(id < c);
}

/// After a directory is read, its children come directories first, then
/// in name order.
pub proof fn lemma_loaded_children_sorted(t: Seq<NodeView>, id: NodeId, ents: Seq<ListedView>)
    requires
        tree_ok(t),
        id < t.len(),
        merge_listing(t, id, ents).nodes.len() <= usize::MAX,
    ensures
        sorted_by(loaded_tree(t, id, ents)[id as int].children, child_order(loaded_tree(t, id, ents))),
{
    lemma_loaded_tree_ok(t, id, ents);
    lemma_merge_shape(t, id, ents);
    let r = loaded_tree(t, id, ents);
    let merged = merge_listing(t, id, ents).nodes;
    let c = r[id as int].children;
    assert(r.len() == merged.len());
    assert forall|i: int, j: int| 0 <= i < j < c.len() implies child_order(r)(#[trigger] c[i], #[trigger] c[j]) by {
        assert(child_order(merged)(c[i], c[j]));
        assert(id < c[i] < r.len() && id < c[j] < r.len());
        assert(r[c[i] as int].name == merged[c[i] as int].name);
        assert(r[c[j] as int].name == merged[c[j] as int].name);
    }
}

/// A node that is not expanded shows only itself.
pub proof fn lemma_collapsed_shows_itself(t: Seq<NodeView>, id: int)
    requires
        0 <= id < t.len(),
        !t[id].expanded,
    ensures
        flat_from(t, id) == seq![id as NodeId],
{
    assert(flat_from(t, id) =~= seq![id as NodeId]);
}

/// The visible list always starts with the node it is taken from.
pub proof fn lemma_flat_starts_with_root(t: Seq<NodeView>, id: int)
    requires
        0 <= id < t.len(),
    ensures
        flat_from(t, id).len() >= 1,
        flat_from(t, id)[0] == id as NodeId,
{
}

} // verus!
