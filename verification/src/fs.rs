use crate::arena::{Arena, Handle};
use vstd::prelude::*;
use vstd::string::*;

verus! {

// ------------------------------------------------------------------
// Nodes
// ------------------------------------------------------------------
/// A node of the filesystem tree: its full path and what it is.
pub struct FsNode {
    pub path: String,
    pub kind: FsNodeKind,
}

/// A directory carries the handles of its children (in the order they were
/// created), whether it is open in the browser, and whether its children have
/// been listed yet; a file carries nothing.
pub enum FsNodeKind {
    Directory { children: Vec<Handle>, is_open: bool, children_loaded: bool },
    File,
}

/// What the directory-listing collaborator reports for one child of a
/// directory: the child's leaf name, and whether the kind probe found a
/// directory there.
pub struct ChildEntry {
    pub name: String,
    pub is_dir: bool,
}

/// The mathematical value of an [`FsNode`].
pub ghost struct NodeView {
    pub path: Seq<char>,
    pub kind: KindView,
}

/// The mathematical value of an [`FsNodeKind`].
pub ghost enum KindView {
    Directory { children: Seq<int>, is_open: bool, loaded: bool },
    File,
}

/// The mathematical value of a [`ChildEntry`].
pub ghost struct EntryView {
    pub name: Seq<char>,
    pub is_dir: bool,
}

impl View for FsNode {
    type V = NodeView;

    open spec fn view(&self) -> NodeView {
        NodeView {
            path: self.path@,
            kind: match self.kind {
                FsNodeKind::Directory { children, is_open, children_loaded } => {
                    KindView::Directory {
                        children: children@.map_values(|h: Handle| h.index as int),
                        is_open,
                        loaded: children_loaded,
                    }
                },
                FsNodeKind::File => KindView::File,
            },
        }
    }
}

impl View for ChildEntry {
    type V = EntryView;

    open spec fn view(&self) -> EntryView {
        EntryView { name: self.name@, is_dir: self.is_dir }
    }
}

/// The views of a listing, entry by entry.
pub open spec fn entry_views(l: Seq<ChildEntry>) -> Seq<EntryView> {
    l.map_values(|e: ChildEntry| e@)
}

impl FsNode {
    /// A fresh node for `path`: an unloaded, closed directory when `is_dir`
    /// says so (the caller probes the real filesystem for the kind),
    /// otherwise a file.
    pub fn new(path: String, is_dir: bool) -> (r: FsNode)
        ensures
            r@ == node_for(path@, is_dir),
    {
        let kind = if is_dir {
            let children: Vec<Handle> = Vec::new();
            proof {
                assert(children@.map_values(|h: Handle| h.index as int) =~= Seq::<int>::empty());
            }
            FsNodeKind::Directory { children, is_open: false, children_loaded: false }
        } else {
            FsNodeKind::File
        };
        FsNode { path, kind }
    }
}

/// The view of a node newly created for `path`.
pub open spec fn node_for(path: Seq<char>, is_dir: bool) -> NodeView {
    NodeView {
        path,
        kind: if is_dir {
            KindView::Directory { children: Seq::empty(), is_open: false, loaded: false }
        } else {
            KindView::File
        },
    }
}

// ------------------------------------------------------------------
// The tree as a mathematical value
// ------------------------------------------------------------------
/// The whole tree as a mathematical value: the nodes in creation order. The
/// node a handle names is the node at the handle's index; the root is node 0.
pub ghost struct TreeView {
    pub nodes: Seq<NodeView>,
}

/// A usable leaf name: nonempty and without a path separator, as every name a
/// real directory listing reports is. Entries that fail this are ignored.
pub open spec fn valid_name(n: Seq<char>) -> bool {
    n.len() > 0 && forall|k: int| 0 <= k < n.len() ==> n[k] != '/'
}

/// The path of a child named `name` inside the directory at `parent`.
pub open spec fn child_path_of(parent: Seq<char>, name: Seq<char>) -> Seq<char> {
    parent.push('/') + name
}

/// `cp` is what a child path of a node with path `pp` looks like: `pp`, a
/// separator, then a nonempty leaf name free of separators.
pub open spec fn child_edge(cp: Seq<char>, pp: Seq<char>) -> bool {
    &&& cp.len() > pp.len() + 1
    &&& cp.subrange(0, pp.len() as int) == pp
    &&& cp[pp.len() as int] == '/'
    &&& forall|m: int| pp.len() < m < cp.len() ==> cp[m] != '/'
}

/// `p` lies strictly below `q`: `q` is a proper prefix of `p` with a
/// separator right after it.
pub open spec fn strict_descendant(p: Seq<char>, q: Seq<char>) -> bool {
    &&& q.len() < p.len()
    &&& p.subrange(0, q.len() as int) == q
    &&& p[q.len() as int] == '/'
}

/// A child path lies strictly below its directory's path.
pub proof fn lemma_edge_desc(cp: Seq<char>, pp: Seq<char>)
    requires
        child_edge(cp, pp),
    ensures
        strict_descendant(cp, pp),
{
}

/// Lying strictly below is transitive.
pub proof fn lemma_desc_trans(a: Seq<char>, b: Seq<char>, c: Seq<char>)
    requires
        strict_descendant(a, b),
        strict_descendant(b, c),
    ensures
        strict_descendant(a, c),
{
    assert forall|m: int| 0 <= m < c.len() implies a[m] == c[m] by {
        assert(b[m] == a.subrange(0, b.len() as int)[m]);
        assert(c[m] == b.subrange(0, c.len() as int)[m]);
    }
    assert(a.subrange(0, c.len() as int) =~= c);
    assert(a[c.len() as int] == b.subrange(0, b.len() as int)[c.len() as int]);
    assert(b[c.len() as int] == a.subrange(0, b.len() as int)[c.len() as int]);
}

/// Some node of the tree has this path.
pub open spec fn has_path(t: TreeView, p: Seq<char>) -> bool {
    exists|i: int| 0 <= i < t.nodes.len() && t.nodes[i].path == p
}

/// `h` names a directory of the tree.
pub open spec fn is_dir_at(t: TreeView, h: Handle) -> bool {
    &&& h.generation == 0
    &&& (h.index as int) < t.nodes.len()
    &&& t.nodes[h.index as int].kind is Directory
}

/// `h` names a directory that is open.
pub open spec fn is_open_at(t: TreeView, h: Handle) -> bool {
    is_dir_at(t, h) && t.nodes[h.index as int].kind->Directory_is_open
}

/// `h` names a directory whose children have been listed.
pub open spec fn is_loaded_at(t: TreeView, h: Handle) -> bool {
    is_dir_at(t, h) && t.nodes[h.index as int].kind->Directory_loaded
}

impl TreeView {
    /// The children of the directory node at `i`, as node indices.
    pub open spec fn kids(self, i: int) -> Seq<int>
        recommends
            0 <= i < self.nodes.len(),
            self.nodes[i].kind is Directory,
    {
        self.nodes[i].kind->Directory_children
    }

    /// Structural soundness of the node at `i`: a directory's children sit
    /// strictly after it in creation order (so the structure is a dag with no
    /// sharing downward), in strictly increasing order, at generation zero;
    /// each child's path extends the directory's path by one separator-free
    /// leaf name; and a directory is only open once its children are loaded.
    pub open spec fn node_wf(self, i: int) -> bool {
        self.nodes[i].kind matches KindView::Directory { children, is_open, loaded } ==> {
            &&& forall|k: int|
                0 <= k < children.len() ==> (i < #[trigger] children[k] < self.nodes.len())
            &&& forall|k1: int, k2: int|
                0 <= k1 < k2 < children.len() ==> children[k1] < children[k2]
            &&& forall|k: int|
                0 <= k < children.len() ==> child_edge(
                    self.nodes[#[trigger] children[k]].path,
                    self.nodes[i].path,
                )
            &&& (is_open ==> loaded)
        }
    }

    /// Soundness of the whole tree: it has a root, every node is structurally
    /// sound, and paths identify nodes uniquely.
    pub open spec fn wf(self) -> bool {
        &&& self.nodes.len() > 0
        &&& forall|i: int| 0 <= i < self.nodes.len() ==> self.node_wf(i)
        &&& forall|i: int, j: int|
            0 <= i < j < self.nodes.len() ==> self.nodes[i].path != self.nodes[j].path
        &&& forall|j: int|
            0 < j < self.nodes.len() ==> strict_descendant(
                (#[trigger] self.nodes[j]).path,
                self.nodes[0].path,
            )
    }
}

// ------------------------------------------------------------------
// Transitions
// ------------------------------------------------------------------
/// `n` with the child node index `c` appended.
pub open spec fn with_child(n: NodeView, c: int) -> NodeView
    recommends
        n.kind is Directory,
{
    NodeView {
        path: n.path,
        kind: KindView::Directory {
            children: n.kind->Directory_children.push(c),
            is_open: n.kind->Directory_is_open,
            loaded: n.kind->Directory_loaded,
        },
    }
}

/// `n` with its open flag set to `open`.
pub open spec fn with_open(n: NodeView, open: bool) -> NodeView
    recommends
        n.kind is Directory,
{
    NodeView {
        path: n.path,
        kind: KindView::Directory {
            children: n.kind->Directory_children,
            is_open: open,
            loaded: n.kind->Directory_loaded,
        },
    }
}

/// `n` with its children marked loaded.
pub open spec fn with_loaded(n: NodeView) -> NodeView
    recommends
        n.kind is Directory,
{
    NodeView {
        path: n.path,
        kind: KindView::Directory {
            children: n.kind->Directory_children,
            is_open: n.kind->Directory_is_open,
            loaded: true,
        },
    }
}

/// One step of loading: what the tree becomes when the listing of the
/// directory at `i` reports `e`. An entry with an unusable name, or whose
/// path is already present, is ignored; otherwise a fresh node is appended
/// and its handle is added to the directory's children.
pub open spec fn add_child_spec(t: TreeView, i: int, e: EntryView) -> TreeView
    recommends
        0 <= i < t.nodes.len(),
        t.nodes[i].kind is Directory,
{
    let p = child_path_of(t.nodes[i].path, e.name);
    if !valid_name(e.name) || has_path(t, p) {
        t
    } else {
        let c = t.nodes.len() as int;
        TreeView { nodes: t.nodes.update(i, with_child(t.nodes[i], c)).push(node_for(p, e.is_dir)) }
    }
}

/// Loading, entry by entry, front first.
pub open spec fn load_entries_spec(t: TreeView, i: int, es: Seq<EntryView>) -> TreeView
    decreases es.len(),
{
    if es.len() == 0 {
        t
    } else {
        load_entries_spec(add_child_spec(t, i, es[0]), i, es.drop_first())
    }
}

/// The tree with the directory node at `i` closed; anything else is left
/// untouched.
pub open spec fn close_at(t: TreeView, i: int) -> TreeView {
    if 0 <= i < t.nodes.len() && t.nodes[i].kind is Directory {
        TreeView { nodes: t.nodes.update(i, with_open(t.nodes[i], false)) }
    } else {
        t
    }
}

/// What the tree becomes when the directory `h` is asked to load `es`: its
/// children are created and it is marked loaded. Anything but an unloaded
/// directory is left untouched, so loading is idempotent.
pub open spec fn load_children_spec(t: TreeView, h: Handle, es: Seq<EntryView>) -> TreeView {
    if is_dir_at(t, h) && !is_loaded_at(t, h) {
        let t1 = load_entries_spec(t, h.index as int, es);
        TreeView { nodes: t1.nodes.update(h.index as int, with_loaded(t1.nodes[h.index as int])) }
    } else {
        t
    }
}

/// What the tree becomes when the directory `h` is opened or closed. Opening
/// a directory whose children are not loaded yet first loads `es`: open and
/// loaded are coupled, a directory is never open but unloaded. Files and
/// absent handles are left untouched.
pub open spec fn set_open_spec(t: TreeView, h: Handle, open: bool, es: Seq<EntryView>) -> TreeView {
    if !is_dir_at(t, h) {
        t
    } else {
        let t1 = if open && !is_loaded_at(t, h) {
            load_children_spec(t, h, es)
        } else {
            t
        };
        TreeView { nodes: t1.nodes.update(h.index as int, with_open(t1.nodes[h.index as int], open)) }
    }
}

/// What the tree becomes when the directory `h` is toggled.
pub open spec fn toggle_open_spec(t: TreeView, h: Handle, es: Seq<EntryView>) -> TreeView {
    if !is_dir_at(t, h) {
        t
    } else {
        set_open_spec(t, h, !is_open_at(t, h), es)
    }
}

// ------------------------------------------------------------------
// What the transitions preserve
// ------------------------------------------------------------------
/// One loading step keeps the tree sound and touches nothing but the loading
/// directory's children and the appended node: every existing node keeps its
/// path, its kind of node, and its flags, and nodes are never removed.
pub proof fn lemma_add_child_step(t: TreeView, i: int, e: EntryView)
    requires
        t.wf(),
        0 <= i < t.nodes.len(),
        t.nodes[i].kind is Directory,
    ensures
        add_child_spec(t, i, e).wf(),
        t.nodes.len() <= add_child_spec(t, i, e).nodes.len(),
        forall|j: int|
            0 <= j < t.nodes.len() ==> (#[trigger] add_child_spec(t, i, e).nodes[j]).path
                == t.nodes[j].path,
        forall|j: int|
            0 <= j < t.nodes.len() ==> ((#[trigger] add_child_spec(t, i, e).nodes[j]).kind
                is Directory) == (t.nodes[j].kind is Directory),
        forall|j: int|
            0 <= j < t.nodes.len() && t.nodes[j].kind is Directory ==> ((#[trigger] add_child_spec(
                t,
                i,
                e,
            ).nodes[j]).kind->Directory_is_open == t.nodes[j].kind->Directory_is_open
                && add_child_spec(t, i, e).nodes[j].kind->Directory_loaded
                == t.nodes[j].kind->Directory_loaded),
{
    let p = child_path_of(t.nodes[i].path, e.name);
    if !valid_name(e.name) || has_path(t, p) {
    } else {
        let t1 = add_child_spec(t, i, e);
        let c = t.nodes.len() as int;
        let pp = t.nodes[i].path;
        assert(child_edge(p, pp)) by {
            assert(p.subrange(0, pp.len() as int) =~= pp);
            assert forall|m: int| pp.len() < m < p.len() implies p[m] != '/' by {
                assert(p[m] == e.name[m - pp.len() - 1]);
            }
        }
        assert forall|j: int| 0 <= j < t1.nodes.len() implies t1.node_wf(j) by {
            if j < t.nodes.len() {
                assert(t.node_wf(j));
                if j == i {
                    let ch0 = t.nodes[i].kind->Directory_children;
                    let ch1 = t1.nodes[i].kind->Directory_children;
                    assert(ch1 == ch0.push(c));
                    assert forall|k: int| 0 <= k < ch1.len() implies ((i < #[trigger] ch1[k]
                        < t1.nodes.len()) && child_edge(t1.nodes[ch1[k]].path, t1.nodes[i].path))
                        by {
                        if k < ch0.len() {
                            assert(ch1[k] == ch0[k]);
                            let ci = ch0[k];
                            assert(t1.nodes[ci].path == t.nodes[ci].path);
                        } else {
                            assert(ch1[k] == c);
                            assert(t1.nodes[c] == node_for(p, e.is_dir));
                        }
                    }
                    assert forall|k1: int, k2: int| 0 <= k1 < k2 < ch1.len() implies ch1[k1]
                        < ch1[k2] by {
                        if k2 < ch0.len() {
                            assert(ch1[k1] == ch0[k1] && ch1[k2] == ch0[k2]);
                        } else {
                            assert(ch1[k2] == c);
                            assert(ch1[k1] == ch0[k1]);
                        }
                    }
                } else {
                    assert(t1.nodes[j] == t.nodes[j]);
                    if t.nodes[j].kind is Directory {
                        let ch = t.nodes[j].kind->Directory_children;
                        assert forall|k: int| 0 <= k < ch.len() implies child_edge(
                            t1.nodes[#[trigger] ch[k]].path,
                            t1.nodes[j].path,
                        ) by {
                            let ci = ch[k];
                            assert(t1.nodes[ci].path == t.nodes[ci].path);
                        }
                    }
                }
            } else {
                assert(t1.nodes[j] == node_for(p, e.is_dir));
            }
        }
        assert forall|j1: int, j2: int| 0 <= j1 < j2 < t1.nodes.len() implies t1.nodes[j1].path
            != t1.nodes[j2].path by {
            if j2 < t.nodes.len() {
                assert(t1.nodes[j1].path == t.nodes[j1].path);
                assert(t1.nodes[j2].path == t.nodes[j2].path);
            } else {
                assert(t1.nodes[j2].path == p);
                assert(t1.nodes[j1].path == t.nodes[j1].path);
                assert(!has_path(t, p));
            }
        }
        assert forall|j: int| 0 < j < t1.nodes.len() implies strict_descendant(
            (#[trigger] t1.nodes[j]).path,
            t1.nodes[0].path,
        ) by {
            assert(t1.nodes[0].path == t.nodes[0].path);
            if j < t.nodes.len() {
                assert(t1.nodes[j].path == t.nodes[j].path);
            } else {
                assert(t1.nodes[j].path == p);
                lemma_edge_desc(p, pp);
                if i == 0 {
                    assert(pp == t.nodes[0].path);
                } else {
                    assert(strict_descendant(pp, t.nodes[0].path));
                    lemma_desc_trans(p, pp, t.nodes[0].path);
                }
            }
        }
    }
}

/// Loading a listing extended by one entry is loading the listing, then that
/// entry.
pub proof fn lemma_load_entries_snoc(t: TreeView, i: int, es: Seq<EntryView>, x: EntryView)
    ensures
        load_entries_spec(t, i, es.push(x)) == add_child_spec(load_entries_spec(t, i, es), i, x),
    decreases es.len(),
{
    if es.len() == 0 {
        assert(es.push(x).drop_first() =~= Seq::<EntryView>::empty());
        assert(es.push(x)[0] == x);
        assert(load_entries_spec(t, i, es.push(x)) == load_entries_spec(
            add_child_spec(t, i, x),
            i,
            es.push(x).drop_first(),
        ));
        assert(load_entries_spec(add_child_spec(t, i, x), i, es.push(x).drop_first())
            == add_child_spec(t, i, x));
        assert(load_entries_spec(t, i, es) == t);
    } else {
        assert(es.push(x).drop_first() =~= es.drop_first().push(x));
        assert(es.push(x)[0] == es[0]);
        assert(load_entries_spec(t, i, es.push(x)) == load_entries_spec(
            add_child_spec(t, i, es[0]),
            i,
            es.drop_first().push(x),
        ));
        lemma_load_entries_snoc(add_child_spec(t, i, es[0]), i, es.drop_first(), x);
        assert(load_entries_spec(t, i, es) == load_entries_spec(
            add_child_spec(t, i, es[0]),
            i,
            es.drop_first(),
        ));
    }
}

/// Marking a sound directory loaded keeps the tree sound.
pub proof fn lemma_with_loaded_wf(t: TreeView, i: int)
    requires
        t.wf(),
        0 <= i < t.nodes.len(),
        t.nodes[i].kind is Directory,
    ensures
        (TreeView { nodes: t.nodes.update(i, with_loaded(t.nodes[i])) }).wf(),
{
    let t1 = TreeView { nodes: t.nodes.update(i, with_loaded(t.nodes[i])) };
    assert forall|j: int| 0 <= j < t1.nodes.len() implies t1.node_wf(j) by {
        assert(t.node_wf(j));
        if t1.nodes[j].kind is Directory {
            let ch = t1.nodes[j].kind->Directory_children;
            assert(ch == t.nodes[j].kind->Directory_children);
            assert forall|k: int| 0 <= k < ch.len() implies child_edge(
                t1.nodes[#[trigger] ch[k]].path,
                t1.nodes[j].path,
            ) by {
                assert(t1.nodes[ch[k]].path == t.nodes[ch[k]].path);
            }
        }
    }
    assert forall|j1: int, j2: int| 0 <= j1 < j2 < t1.nodes.len() implies t1.nodes[j1].path != t1
        .nodes[j2].path by {
        assert(t1.nodes[j1].path == t.nodes[j1].path && t1.nodes[j2].path == t.nodes[j2].path);
    }
}

/// Setting the open flag of a sound directory keeps the tree sound, as long
/// as a directory is only opened once it is loaded.
pub proof fn lemma_with_open_wf(t: TreeView, i: int, open: bool)
    requires
        t.wf(),
        0 <= i < t.nodes.len(),
        t.nodes[i].kind is Directory,
        open ==> t.nodes[i].kind->Directory_loaded,
    ensures
        (TreeView { nodes: t.nodes.update(i, with_open(t.nodes[i], open)) }).wf(),
{
    let t1 = TreeView { nodes: t.nodes.update(i, with_open(t.nodes[i], open)) };
    assert forall|j: int| 0 <= j < t1.nodes.len() implies t1.node_wf(j) by {
        assert(t.node_wf(j));
        if t1.nodes[j].kind is Directory {
            let ch = t1.nodes[j].kind->Directory_children;
            assert(ch == t.nodes[j].kind->Directory_children);
            assert forall|k: int| 0 <= k < ch.len() implies child_edge(
                t1.nodes[#[trigger] ch[k]].path,
                t1.nodes[j].path,
            ) by {
                assert(t1.nodes[ch[k]].path == t.nodes[ch[k]].path);
            }
        }
    }
    assert forall|j1: int, j2: int| 0 <= j1 < j2 < t1.nodes.len() implies t1.nodes[j1].path != t1
        .nodes[j2].path by {
        assert(t1.nodes[j1].path == t.nodes[j1].path && t1.nodes[j2].path == t.nodes[j2].path);
    }
}

/// Loading any listing into a sound directory keeps the tree sound, never
/// removes a node, and leaves every existing node's path, kind of node and
/// flags as they were.
pub proof fn lemma_load_entries_preserves(t: TreeView, i: int, es: Seq<EntryView>)
    requires
        t.wf(),
        0 <= i < t.nodes.len(),
        t.nodes[i].kind is Directory,
    ensures
        load_entries_spec(t, i, es).wf(),
        t.nodes.len() <= load_entries_spec(t, i, es).nodes.len(),
        forall|j: int|
            0 <= j < t.nodes.len() ==> (#[trigger] load_entries_spec(t, i, es).nodes[j]).path
                == t.nodes[j].path,
        forall|j: int|
            0 <= j < t.nodes.len() ==> ((#[trigger] load_entries_spec(t, i, es).nodes[j]).kind
                is Directory) == (t.nodes[j].kind is Directory),
        forall|j: int|
            0 <= j < t.nodes.len() && t.nodes[j].kind is Directory ==> ((
            #[trigger] load_entries_spec(t, i, es).nodes[j]).kind->Directory_is_open
                == t.nodes[j].kind->Directory_is_open && load_entries_spec(
                t,
                i,
                es,
            ).nodes[j].kind->Directory_loaded == t.nodes[j].kind->Directory_loaded),
    decreases es.len(),
{
    if es.len() == 0 {
    } else {
        lemma_add_child_step(t, i, es[0]);
        lemma_load_entries_preserves(add_child_spec(t, i, es[0]), i, es.drop_first());
    }
}

/// Asking a directory to load leaves the tree sound; the directory stays a
/// directory, keeps its open flag, and is loaded afterwards whether or not it
/// was before. Anything that is not an unloaded directory is untouched.
pub proof fn lemma_load_children_facts(t: TreeView, h: Handle, es: Seq<EntryView>)
    requires
        t.wf(),
    ensures
        load_children_spec(t, h, es).wf(),
        is_dir_at(load_children_spec(t, h, es), h) == is_dir_at(t, h),
        is_dir_at(t, h) ==> is_loaded_at(load_children_spec(t, h, es), h) == (is_loaded_at(t, h)
            || true),
        is_dir_at(t, h) ==> is_open_at(load_children_spec(t, h, es), h) == is_open_at(t, h),
        !(is_dir_at(t, h) && !is_loaded_at(t, h)) ==> load_children_spec(t, h, es) == t,
{
    if is_dir_at(t, h) && !is_loaded_at(t, h) {
        let i = h.index as int;
        lemma_load_entries_preserves(t, i, es);
        let t1 = load_entries_spec(t, i, es);
        lemma_with_loaded_wf(t1, i);
    }
}

/// Opening or closing a directory leaves the tree sound, leaves everything
/// but that directory's flags alone, and sets the open flag to what was
/// asked; anything that is not a directory is untouched.
pub proof fn lemma_set_open_facts(t: TreeView, h: Handle, open: bool, es: Seq<EntryView>)
    requires
        t.wf(),
    ensures
        set_open_spec(t, h, open, es).wf(),
        is_dir_at(set_open_spec(t, h, open, es), h) == is_dir_at(t, h),
        is_dir_at(t, h) ==> is_open_at(set_open_spec(t, h, open, es), h) == open,
        !is_dir_at(t, h) ==> set_open_spec(t, h, open, es) == t,
{
    if is_dir_at(t, h) {
        lemma_load_children_facts(t, h, es);
        let t1 = if open && !is_loaded_at(t, h) {
            load_children_spec(t, h, es)
        } else {
            t
        };
        lemma_with_open_wf(t1, h.index as int, open);
    }
}

/// Loading is idempotent: asking a directory to load a second time — with
/// whatever listing — changes nothing, because the first load marked it
/// loaded. The child set stays the same, no handle is duplicated, and the
/// tree does not grow.
pub proof fn lemma_load_children_idempotent(
    t: TreeView,
    h: Handle,
    es1: Seq<EntryView>,
    es2: Seq<EntryView>,
)
    requires
        t.wf(),
    ensures
        load_children_spec(load_children_spec(t, h, es1), h, es2) == load_children_spec(t, h, es1),
{
    lemma_load_children_facts(t, h, es1);
    let t1 = load_children_spec(t, h, es1);
    lemma_load_children_facts(t1, h, es2);
}

/// Toggling a directory twice returns its open flag to where it started,
/// whatever listings the two toggles may load along the way.
pub proof fn lemma_toggle_open_twice(t: TreeView, h: Handle, es1: Seq<EntryView>, es2: Seq<EntryView>)
    requires
        t.wf(),
    ensures
        is_open_at(toggle_open_spec(toggle_open_spec(t, h, es1), h, es2), h) == is_open_at(t, h),
{
    if is_dir_at(t, h) {
        lemma_set_open_facts(t, h, !is_open_at(t, h), es1);
        let t1 = set_open_spec(t, h, !is_open_at(t, h), es1);
        lemma_set_open_facts(t1, h, !is_open_at(t1, h), es2);
    }
}

/// After a directory loads its listing, every usable entry's path is present
/// in the tree, so a lookup of it resolves to a node carrying exactly that
/// path.
pub proof fn lemma_load_entries_creates(t: TreeView, i: int, es: Seq<EntryView>, k: int)
    requires
        t.wf(),
        0 <= i < t.nodes.len(),
        t.nodes[i].kind is Directory,
        0 <= k < es.len(),
        valid_name(es[k].name),
    ensures
        has_path(load_entries_spec(t, i, es), child_path_of(t.nodes[i].path, es[k].name)),
    decreases es.len(),
{
    let t1 = add_child_spec(t, i, es[0]);
    lemma_add_child_step(t, i, es[0]);
    if k == 0 {
        let p = child_path_of(t.nodes[i].path, es[0].name);
        assert(has_path(t1, p)) by {
            if has_path(t, p) {
                let i0 = choose|i0: int| 0 <= i0 < t.nodes.len() && t.nodes[i0].path == p;
                assert(t1.nodes[i0].path == p);
            } else {
                assert(t1.nodes[t.nodes.len() as int].path == p);
            }
        }
        let i0 = choose|i0: int| 0 <= i0 < t1.nodes.len() && t1.nodes[i0].path == p;
        lemma_load_entries_preserves(t1, i, es.drop_first());
        assert(load_entries_spec(t1, i, es.drop_first()).nodes[i0].path == p);
        assert(load_entries_spec(t, i, es) == load_entries_spec(t1, i, es.drop_first()));
    } else {
        lemma_load_entries_creates(t1, i, es.drop_first(), k - 1);
        assert(es.drop_first()[k - 1] == es[k]);
        assert(t1.nodes[i].path == t.nodes[i].path);
    }
}

/// The same, through the public loading entry point: loading makes each
/// usable entry's path findable.
pub proof fn lemma_load_children_creates(t: TreeView, h: Handle, es: Seq<EntryView>, k: int)
    requires
        t.wf(),
        is_dir_at(t, h),
        !is_loaded_at(t, h),
        0 <= k < es.len(),
        valid_name(es[k].name),
    ensures
        has_path(
            load_children_spec(t, h, es),
            child_path_of(t.nodes[h.index as int].path, es[k].name),
        ),
{
    let i = h.index as int;
    lemma_load_entries_creates(t, i, es, k);
    lemma_load_entries_preserves(t, i, es);
    let t1 = load_entries_spec(t, i, es);
    let p = child_path_of(t.nodes[i].path, es[k].name);
    assert(has_path(t1, p));
    let i0 = choose|i0: int| 0 <= i0 < t1.nodes.len() && t1.nodes[i0].path == p;
    assert(0 <= i0 < t1.nodes.len() && t1.nodes[i0].path == p);
    let t2 = load_children_spec(t, h, es);
    assert(t2.nodes == t1.nodes.update(i, with_loaded(t1.nodes[i])));
    if i0 == i {
        assert(t2.nodes[i0].path == t1.nodes[i].path);
    } else {
        assert(t2.nodes[i0] == t1.nodes[i0]);
    }
    assert(t2.nodes[i0].path == p);
}

// ------------------------------------------------------------------
// Path helpers
// ------------------------------------------------------------------
/// Checks that a leaf name is usable: nonempty and free of separators.
fn valid_name_exec(name: &str) -> (r: bool)
    ensures
        r == valid_name(name@),
{
    let n = name.unicode_len();
    if n == 0 {
        return false;
    }
    let mut k: usize = 0;
    while k < n
        invariant
            n as int == name@.len(),
            k <= n,
            forall|m: int| 0 <= m < k ==> name@[m] != '/',
        decreases n - k,
    {
        let c = name.get_char(k);
        if c == '/' {
            return false;
        }
        k += 1;
    }
    true
}

/// Joins a directory path and a child leaf name with a separator.
fn join_path(parent: &str, name: &str) -> (r: String)
    ensures
        r@ == child_path_of(parent@, name@),
{
    let mut s = parent.to_owned();
    s.append("/");
    s.append(name);
    proof {
        reveal_strlit("/");
        assert(s@ =~= parent@.push('/') + name@);
    }
    s
}

// ------------------------------------------------------------------
// The tree itself
// ------------------------------------------------------------------
/// The lazily loaded filesystem tree: an arena holding the nodes, the root's
/// handle, and a path index resolving a full path to the handle of its node.
/// The tree never removes nodes, so its arena stays dense: node `i` is named
/// by the handle with index `i` at generation zero, and the path index lists
/// the nodes in creation order.
pub struct StateManager {
    arena: Arena<FsNode>,
    root: Handle,
    index: Vec<(String, Handle)>,
}

impl View for StateManager {
    type V = TreeView;

    /// The tree as a mathematical value: the views of the nodes, in creation
    /// order.
    closed spec fn view(&self) -> TreeView {
        TreeView {
            nodes: Seq::new(
                self.index@.len(),
                |i: int| self.arena@[Handle { index: i as usize, generation: 0u64 }]@,
            ),
        }
    }
}

impl StateManager {
    /// Storage bookkeeping: the arena is sound and dense, the path index has
    /// exactly one entry per node in creation order, and the root is node 0.
    pub closed spec fn wf_store(self) -> bool {
        &&& self.arena.wf()
        &&& self.index@.len() <= usize::MAX
        &&& self.arena.is_dense()
        &&& self.arena.slot_count() == self.index@.len()
        &&& self.index@.len() > 0
        &&& self.root == (Handle { index: 0usize, generation: 0u64 })
        &&& forall|i: int|
            0 <= i < self.index@.len() ==> #[trigger] self.index@[i].1 == (Handle {
                index: i as usize,
                generation: 0u64,
            })
    }

    /// The path index agrees with the nodes: entry `i` carries the path of
    /// node `i`.
    pub closed spec fn wf_glue(self) -> bool {
        forall|i: int|
            0 <= i < self.index@.len() ==> #[trigger] self.index@[i].0@ == self@.nodes[i].path
    }

    /// The tree is sound: storage bookkeeping, the path index agreeing with
    /// the nodes, and the structural soundness of the tree value itself.
    pub open spec fn wf(self) -> bool {
        self.wf_store() && self.wf_glue() && self@.wf()
    }

    /// Creates a tree holding only the root node, closed and unloaded. The
    /// caller probes the real filesystem and passes whether the root is a
    /// directory.
    pub fn new(root_path: String, root_is_dir: bool) -> (r: StateManager)
        ensures
            r.wf(),
            r@ == (TreeView { nodes: seq![node_for(root_path@, root_is_dir)] }),
    {
        let mut arena = Arena::<FsNode>::new();
        let node = FsNode::new(root_path.clone(), root_is_dir);
        let root = arena.insert(node);
        let mut index: Vec<(String, Handle)> = Vec::new();
        index.push((root_path, root));
        let n = index.len();
        proof {
            assert(index@.len() == n as int);
        }
        let r = StateManager { arena, root, index };
        proof {
            assert(r@.nodes =~= seq![node_for(root_path@, root_is_dir)]);
        }
        r
    }

    /// The root's handle.
    pub fn root(&self) -> (r: Handle)
        requires
            self.wf(),
        ensures
            r == (Handle { index: 0usize, generation: 0u64 }),
    {
        self.root
    }

    /// How many nodes the tree holds.
    pub fn len(&self) -> (r: usize)
        requires
            self.wf(),
        ensures
            r as int == self@.nodes.len(),
    {
        self.index.len()
    }

    /// Resolves a full path to the handle of its node. Paths identify nodes
    /// uniquely, so this returns the one node carrying `path`, or `None` when
    /// no node does.
    pub fn lookup(&self, path: &str) -> (r: Option<Handle>)
        requires
            self.wf(),
        ensures
            (match r {
                Some(h) => h.generation == 0 && (h.index as int) < self@.nodes.len()
                    && self@.nodes[h.index as int].path == path@,
                None => !has_path(self@, path@),
            }),
    {
        let probe = path.to_owned();
        let n = self.index.len();
        let mut k: usize = 0;
        while k < n
            invariant
                self.wf(),
                n as int == self@.nodes.len(),
                probe@ == path@,
                k <= n,
                forall|j: int| 0 <= j < k ==> self@.nodes[j].path != path@,
            decreases n - k,
        {
            if self.index[k].0 == probe {
                return Some(self.index[k].1);
            }
            k += 1;
        }
        None
    }

    /// Looks a handle up: `Some` with the node it names exactly when the
    /// handle is one the tree has issued.
    pub fn get_entry(&self, handle: &Handle) -> (r: Option<&FsNode>)
        requires
            self.wf(),
        ensures
            (match r {
                Some(n) => handle.generation == 0 && (handle.index as int) < self@.nodes.len()
                    && n@ == self@.nodes[handle.index as int],
                None => !(handle.generation == 0 && (handle.index as int) < self@.nodes.len()),
            }),
    {
        proof {
            crate::arena::lemma_dense_contains(self.arena);
        }
        self.arena.get(handle)
    }

    /// Appends a fresh node, registering it in the arena and the path index.
    fn add_path(&mut self, path: String, is_dir: bool) -> (h: Handle)
        requires
            old(self).wf_store(),
            old(self).wf_glue(),
        ensures
            final(self).wf_store(),
            final(self).wf_glue(),
            h == (Handle { index: old(self)@.nodes.len() as usize, generation: 0u64 }),
            final(self)@.nodes == old(self)@.nodes.push(node_for(path@, is_dir)),
    {
        let node = FsNode::new(path.clone(), is_dir);
        let h = self.arena.insert(node);
        self.index.push((path, h));
        let n = self.index.len();
        proof {
            assert(self.index@.len() == n as int);
            let n0 = old(self)@.nodes.len();
            assert forall|i: int| 0 <= i < self@.nodes.len() implies self@.nodes[i] == old(
                self,
            )@.nodes.push(node_for(path@, is_dir))[i] by {
                let hi = Handle { index: i as usize, generation: 0u64 };
                if i < n0 {
                    assert(hi != h);
                    assert(self.arena@[hi] == old(self).arena@[hi]);
                } else {
                    assert(hi == h);
                    assert(self.arena@[h]@ == node_for(path@, is_dir));
                }
            }
            assert(self@.nodes =~= old(self)@.nodes.push(node_for(path@, is_dir)));
            assert forall|i: int| 0 <= i < self.index@.len() implies #[trigger] self.index@[i].0@
                == self@.nodes[i].path by {
                if i < n0 {
                    assert(self.index@[i] == old(self).index@[i]);
                    assert(old(self).index@[i].0@ == old(self)@.nodes[i].path);
                } else {
                    assert(self.index@[i].0@ == path@);
                }
            }
        }
        h
    }

    /// Swaps the node `handle` names out of the arena, leaving a placeholder
    /// behind; the caller puts a node with the same path back through
    /// [`Self::put_node`] before anyone else looks.
    fn take_node(&mut self, handle: Handle) -> (n: FsNode)
        requires
            old(self).wf_store(),
            handle.generation == 0,
            (handle.index as int) < old(self)@.nodes.len(),
        ensures
            final(self).wf_store(),
            final(self).index@ == old(self).index@,
            n@ == old(self)@.nodes[handle.index as int],
            forall|j: int|
                0 <= j < old(self)@.nodes.len() && j != handle.index as int
                    ==> #[trigger] final(self)@.nodes[j] == old(self)@.nodes[j],
            final(self)@.nodes.len() == old(self)@.nodes.len(),
    {
        proof {
            crate::arena::lemma_dense_contains(self.arena);
        }
        let mut node = FsNode { path: String::new(), kind: FsNodeKind::File };
        let hit = self.arena.get_mut(&handle, &mut node);
        assert(hit);
        proof {
            assert forall|j: int|
                0 <= j < old(self)@.nodes.len() && j != handle.index as int implies self@.nodes[j]
                == old(self)@.nodes[j] by {
                let hj = Handle { index: j as usize, generation: 0u64 };
                assert(hj != handle);
                assert(self.arena@[hj] == old(self).arena@[hj]);
            }
        }
        node
    }

    /// Writes a node back into the slot `handle` names.
    fn put_node(&mut self, handle: Handle, node: FsNode)
        requires
            old(self).wf_store(),
            handle.generation == 0,
            (handle.index as int) < old(self)@.nodes.len(),
        ensures
            final(self).wf_store(),
            final(self).index@ == old(self).index@,
            final(self)@.nodes == old(self)@.nodes.update(handle.index as int, node@),
    {
        proof {
            crate::arena::lemma_dense_contains(self.arena);
        }
        let mut slot = node;
        let hit = self.arena.get_mut(&handle, &mut slot);
        assert(hit);
        proof {
            assert forall|j: int| 0 <= j < self@.nodes.len() implies self@.nodes[j] == old(
                self,
            )@.nodes.update(handle.index as int, node@)[j] by {
                let hj = Handle { index: j as usize, generation: 0u64 };
                if j != handle.index as int {
                    assert(hj != handle);
                    assert(self.arena@[hj] == old(self).arena@[hj]);
                } else {
                    assert(hj == handle);
                    assert(self.arena@[handle]@ == node@);
                }
            }
            assert(self@.nodes =~= old(self)@.nodes.update(handle.index as int, node@));
        }
    }

    /// Appends `child` to the children list of the directory `parent` names.
    fn push_child(&mut self, parent: Handle, child: Handle)
        requires
            old(self).wf_store(),
            old(self).wf_glue(),
            is_dir_at(old(self)@, parent),
        ensures
            final(self).wf_store(),
            final(self).wf_glue(),
            final(self)@.nodes == old(self)@.nodes.update(
                parent.index as int,
                with_child(old(self)@.nodes[parent.index as int], child.index as int),
            ),
    {
        let node = self.take_node(parent);
        let FsNode { path, kind } = node;
        let kind = match kind {
            FsNodeKind::Directory { mut children, is_open, children_loaded } => {
                children.push(child);
                FsNodeKind::Directory { children, is_open, children_loaded }
            },
            FsNodeKind::File => {
                proof {
                    assert(false);
                }
                FsNodeKind::File
            },
        };
        self.put_node(parent, FsNode { path, kind });
        proof {
            let prev = old(self)@.nodes[parent.index as int];
            assert(self@.nodes[parent.index as int].kind->Directory_children
                =~= prev.kind->Directory_children.push(child.index as int));
            assert(self@.nodes =~= old(self)@.nodes.update(
                parent.index as int,
                with_child(old(self)@.nodes[parent.index as int], child.index as int),
            ));
        }
    }

    /// Sets the open flag of the directory `handle` names.
    fn write_open(&mut self, handle: Handle, open: bool)
        requires
            old(self).wf_store(),
            old(self).wf_glue(),
            is_dir_at(old(self)@, handle),
        ensures
            final(self).wf_store(),
            final(self).wf_glue(),
            final(self)@.nodes == old(self)@.nodes.update(
                handle.index as int,
                with_open(old(self)@.nodes[handle.index as int], open),
            ),
    {
        let node = self.take_node(handle);
        let FsNode { path, kind } = node;
        let kind = match kind {
            FsNodeKind::Directory { children, is_open: _, children_loaded } => {
                FsNodeKind::Directory { children, is_open: open, children_loaded }
            },
            FsNodeKind::File => {
                proof {
                    assert(false);
                }
                FsNodeKind::File
            },
        };
        self.put_node(handle, FsNode { path, kind });
        proof {
            assert(self@.nodes =~= old(self)@.nodes.update(
                handle.index as int,
                with_open(old(self)@.nodes[handle.index as int], open),
            ));
        }
    }

    /// Marks the directory `handle` names as loaded.
    fn mark_loaded(&mut self, handle: Handle)
        requires
            old(self).wf_store(),
            old(self).wf_glue(),
            is_dir_at(old(self)@, handle),
        ensures
            final(self).wf_store(),
            final(self).wf_glue(),
            final(self)@.nodes == old(self)@.nodes.update(
                handle.index as int,
                with_loaded(old(self)@.nodes[handle.index as int]),
            ),
    {
        let node = self.take_node(handle);
        let FsNode { path, kind } = node;
        let kind = match kind {
            FsNodeKind::Directory { children, is_open, children_loaded: _ } => {
                FsNodeKind::Directory { children, is_open, children_loaded: true }
            },
            FsNodeKind::File => {
                proof {
                    assert(false);
                }
                FsNodeKind::File
            },
        };
        self.put_node(handle, FsNode { path, kind });
        proof {
            assert(self@.nodes =~= old(self)@.nodes.update(
                handle.index as int,
                with_loaded(old(self)@.nodes[handle.index as int]),
            ));
        }
    }

    /// Loads the children of the directory `handle` names from `listing`:
    /// for each usable entry whose path is not taken yet, creates the child
    /// node and links it, then marks the directory loaded. A second call, or
    /// a call on a file, a loaded directory or a stale handle, changes
    /// nothing. A failed listing is passed as an empty `listing` and leaves
    /// an empty, loaded directory behind.
    pub fn load_children(&mut self, handle: Handle, listing: Vec<ChildEntry>)
        requires
            old(self).wf(),
        ensures
            final(self).wf(),
            final(self)@ == load_children_spec(old(self)@, handle, entry_views(listing@)),
    {
        let ghost t0 = self@;
        let ghost vs = entry_views(listing@);
        let parent_path: String;
        match self.get_entry(&handle) {
            Some(n) => {
                match &n.kind {
                    FsNodeKind::Directory { children_loaded, .. } => {
                        if *children_loaded {
                            proof {
                                assert(is_loaded_at(t0, handle));
                            }
                            return;
                        }
                        parent_path = n.path.clone();
                    },
                    FsNodeKind::File => {
                        proof {
                            assert(!is_dir_at(t0, handle));
                        }
                        return;
                    },
                }
            },
            None => {
                proof {
                    assert(!is_dir_at(t0, handle));
                }
                return;
            },
        }
        let ghost i = handle.index as int;
        proof {
            assert(is_dir_at(t0, handle) && !is_loaded_at(t0, handle));
            assert(vs.take(0) =~= Seq::<EntryView>::empty());
        }
        let n_entries = listing.len();
        let mut j: usize = 0;
        while j < n_entries
            invariant
                self.wf_store(),
                self.wf_glue(),
                self@.wf(),
                j <= n_entries,
                n_entries as int == listing@.len(),
                vs == entry_views(listing@),
                vs.len() == listing@.len(),
                handle.generation == 0,
                i == handle.index as int,
                0 <= i < self@.nodes.len(),
                self@.nodes[i].kind is Directory,
                !self@.nodes[i].kind->Directory_loaded,
                parent_path@ == self@.nodes[i].path,
                self@ == load_entries_spec(t0, i, vs.take(j as int)),
            decreases n_entries - j,
        {
            let ghost t_j = self@;
            let e_is_dir = listing[j].is_dir;
            let e_name = listing[j].name.clone();
            proof {
                assert(listing@[j as int]@ == (EntryView {
                    name: e_name@,
                    is_dir: e_is_dir,
                }));
                assert(vs[j as int] == listing@[j as int]@);
            }
            if valid_name_exec(e_name.as_str()) {
                let cp = join_path(parent_path.as_str(), e_name.as_str());
                if self.lookup(cp.as_str()).is_none() {
                    let child = self.add_path(cp, e_is_dir);
                    self.push_child(handle, child);
                    proof {
                        assert(!has_path(t_j, child_path_of(t_j.nodes[i].path, e_name@)));
                        assert(self@.nodes =~= add_child_spec(t_j, i, vs[j as int]).nodes);
                        assert(self@ == add_child_spec(t_j, i, vs[j as int]));
                    }
                } else {
                    proof {
                        assert(has_path(t_j, child_path_of(t_j.nodes[i].path, e_name@)));
                        assert(self@ == add_child_spec(t_j, i, vs[j as int]));
                    }
                }
            } else {
                proof {
                    assert(self@ == add_child_spec(t_j, i, vs[j as int]));
                }
            }
            j += 1;
            proof {
                lemma_add_child_step(t_j, i, vs[j as int - 1]);
                assert(vs.take(j as int) =~= vs.take(j as int - 1).push(vs[j as int - 1]));
                lemma_load_entries_snoc(t0, i, vs.take(j as int - 1), vs[j as int - 1]);
            }
        }
        proof {
            assert(vs.take(n_entries as int) =~= vs);
        }
        let ghost t1 = self@;
        self.mark_loaded(handle);
        proof {
            lemma_with_loaded_wf(t1, i);
            assert(self@.nodes =~= load_children_spec(t0, handle, vs).nodes);
            assert(self@ == load_children_spec(t0, handle, vs));
        }
    }

    /// Opens or closes the directory `handle` names. Opening a directory
    /// whose children are not loaded yet first loads them from `listing`, so
    /// an open directory is always loaded. Files and stale handles are left
    /// untouched.
    pub fn set_open(&mut self, handle: Handle, open: bool, listing: Vec<ChildEntry>)
        requires
            old(self).wf(),
        ensures
            final(self).wf(),
            final(self)@ == set_open_spec(old(self)@, handle, open, entry_views(listing@)),
    {
        let ghost t0 = self@;
        let info = match self.get_entry(&handle) {
            Some(n) => {
                match &n.kind {
                    FsNodeKind::Directory { children_loaded, .. } => Some(*children_loaded),
                    FsNodeKind::File => None,
                }
            },
            None => None,
        };
        match info {
            None => {
                proof {
                    assert(!is_dir_at(t0, handle));
                }
            },
            Some(loaded) => {
                if open && !loaded {
                    self.load_children(handle, listing);
                }
                let ghost t1 = self@;
                proof {
                    lemma_load_children_facts(t0, handle, entry_views(listing@));
                    assert(is_dir_at(t1, handle));
                    assert(open ==> t1.nodes[handle.index as int].kind->Directory_loaded);
                }
                self.write_open(handle, open);
                proof {
                    lemma_with_open_wf(t1, handle.index as int, open);
                    assert(self@ == set_open_spec(t0, handle, open, entry_views(listing@)));
                }
            },
        }
    }

    /// Flips the open state of the directory `handle` names, loading its
    /// children from `listing` first when it opens for the first time. Files
    /// and stale handles are left untouched.
    pub fn toggle_open(&mut self, handle: Handle, listing: Vec<ChildEntry>)
        requires
            old(self).wf(),
        ensures
            final(self).wf(),
            final(self)@ == toggle_open_spec(old(self)@, handle, entry_views(listing@)),
    {
        let cur = match self.get_entry(&handle) {
            Some(n) => {
                match &n.kind {
                    FsNodeKind::Directory { is_open, .. } => Some(*is_open),
                    FsNodeKind::File => None,
                }
            },
            None => None,
        };
        match cur {
            None => {
                proof {
                    assert(!is_dir_at(self@, handle));
                }
            },
            Some(was_open) => {
                self.set_open(handle, !was_open, listing);
            },
        }
    }
}

} // verus!
