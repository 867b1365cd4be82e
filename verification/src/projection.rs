use crate::arena::Handle;
use crate::fs::{FsNodeKind, KindView, StateManager, TreeView, child_edge, close_at, strict_descendant};
use crate::view::{Filter, ItemView, Sort, ViewItem, ViewItemKind, item_views};
use vstd::prelude::*;
use vstd::multiset::Multiset;
use vstd::string::*;

verus! {

// ------------------------------------------------------------------
// Leaf names and path order
// ------------------------------------------------------------------
/// Where the leaf name of `p` starts: just after the last separator, or 0
/// when `p` has none.
pub open spec fn leaf_start(p: Seq<char>) -> int
    decreases p.len(),
{
    if p.len() == 0 {
        0
    } else if p[p.len() - 1] == '/' {
        p.len() as int
    } else {
        leaf_start(p.drop_last())
    }
}

/// The leaf name of `p`: everything after its last separator.
pub open spec fn leaf_of(p: Seq<char>) -> Seq<char> {
    p.subrange(leaf_start(p), p.len() as int)
}

/// The leaf name of `p` starts with a dot.
pub open spec fn is_dotted(p: Seq<char>) -> bool {
    leaf_start(p) < p.len() && p[leaf_start(p)] == '.'
}

/// Lexicographic order on paths, by character code; the shorter string comes
/// first when one is a prefix of the other.
pub open spec fn lex_le(a: Seq<char>, b: Seq<char>) -> bool
    decreases a.len(),
{
    if a.len() == 0 {
        true
    } else if b.len() == 0 {
        false
    } else if a[0] == b[0] {
        lex_le(a.drop_first(), b.drop_first())
    } else {
        (a[0] as u32) < (b[0] as u32)
    }
}

// ------------------------------------------------------------------
// The filter and the sibling order
// ------------------------------------------------------------------
/// Whether the node at `i` passes `f`: its leaf must not be dotted when
/// dotfiles are hidden, it must not be a file when files are hidden, and it
/// must not be a closed directory when directories are hidden — an open
/// directory always passes that switch.
pub open spec fn should_display_spec(t: TreeView, f: Filter, i: int) -> bool
    recommends
        0 <= i < t.nodes.len(),
{
    let n = t.nodes[i];
    &&& !(f.dotfiles && is_dotted(n.path))
    &&& !(f.files && n.kind is File)
    &&& !(f.directories && n.kind is Directory && !n.kind->Directory_is_open)
}

/// The sibling order `s` imposes between the nodes at `a` and `b`.
pub open spec fn child_le(t: TreeView, s: Sort, a: int, b: int) -> bool
    recommends
        0 <= a < t.nodes.len(),
        0 <= b < t.nodes.len(),
{
    let a_dir = t.nodes[a].kind is Directory;
    let b_dir = t.nodes[b].kind is Directory;
    match s {
        Sort::Directory => {
            if a_dir != b_dir {
                a_dir
            } else {
                lex_le(t.nodes[a].path, t.nodes[b].path)
            }
        },
        Sort::File => {
            if a_dir != b_dir {
                b_dir
            } else {
                lex_le(t.nodes[a].path, t.nodes[b].path)
            }
        },
        Sort::Alphabetical => lex_le(t.nodes[a].path, t.nodes[b].path),
    }
}

/// `x` inserted in front of the first element of `l` it precedes.
pub open spec fn insert_sorted_spec(t: TreeView, s: Sort, x: int, l: Seq<int>) -> Seq<int>
    decreases l.len(),
{
    if l.len() == 0 {
        seq![x]
    } else if child_le(t, s, x, l[0]) {
        seq![x] + l
    } else {
        seq![l[0]] + insert_sorted_spec(t, s, x, l.drop_first())
    }
}

/// The children sorted under `s`: insertion sort, back to front.
pub open spec fn sort_spec(t: TreeView, s: Sort, l: Seq<int>) -> Seq<int>
    decreases l.len(),
{
    if l.len() == 0 {
        l
    } else {
        insert_sorted_spec(t, s, l[0], sort_spec(t, s, l.drop_first()))
    }
}

// ------------------------------------------------------------------
// The projection
// ------------------------------------------------------------------
/// The row the node at `i` contributes.
pub open spec fn item_of(t: TreeView, i: int, depth: int) -> ItemView
    recommends
        0 <= i < t.nodes.len(),
{
    let n = t.nodes[i];
    ItemView {
        index: i,
        name: leaf_of(n.path),
        path: n.path,
        kind: match n.kind {
            KindView::Directory { is_open, .. } => ViewItemKind::Directory { is_open },
            KindView::File => ViewItemKind::File,
        },
        depth,
    }
}

/// The pre-order projection of the subtree at `i`: the node's own row, then,
/// if it is an open directory, the projections of its children, freshly
/// sorted under `s`, each child filtered by `f` — a child that fails the
/// filter is skipped with its entire subtree, whatever its own open state.
/// The root of the walk itself is always emitted.
pub open spec fn proj_node(t: TreeView, f: Filter, s: Sort, i: int, depth: int) -> Seq<ItemView>
    decreases t.nodes.len() - i, 0int,
{
    if !(0 <= i < t.nodes.len()) {
        Seq::empty()
    } else {
        let head = seq![item_of(t, i, depth)];
        match t.nodes[i].kind {
            KindView::Directory { children, is_open, .. } => {
                if is_open {
                    head + proj_kids(t, f, s, sort_spec(t, s, children), depth + 1, i + 1)
                } else {
                    head
                }
            },
            KindView::File => head,
        }
    }
}

/// The projections of the children listed in `cs`, in order, each filtered
/// by `f`. `lo` is a lower bound on the children's indices, which makes the
/// walk well-founded; in a sound tree every child clears it.
pub open spec fn proj_kids(
    t: TreeView,
    f: Filter,
    s: Sort,
    cs: Seq<int>,
    depth: int,
    lo: int,
) -> Seq<ItemView>
    decreases t.nodes.len() - lo, cs.len() + 1,
{
    if cs.len() == 0 || !(0 <= lo <= t.nodes.len()) {
        Seq::empty()
    } else {
        let c = cs[0];
        let rest = proj_kids(t, f, s, cs.drop_first(), depth, lo);
        if lo <= c < t.nodes.len() && should_display_spec(t, f, c) {
            proj_node(t, f, s, c, depth) + rest
        } else {
            rest
        }
    }
}

/// The whole display list: the pre-order projection from the root.
pub open spec fn project(t: TreeView, f: Filter, s: Sort) -> Seq<ItemView> {
    proj_node(t, f, s, 0, 0)
}

// ------------------------------------------------------------------
// What sorting keeps
// ------------------------------------------------------------------
/// Inserting into the sorted order adds exactly that element.
pub proof fn lemma_insert_sorted_multiset(t: TreeView, s: Sort, x: int, l: Seq<int>)
    ensures
        insert_sorted_spec(t, s, x, l).to_multiset() == l.to_multiset().insert(x),
    decreases l.len(),
{
    broadcast use vstd::seq_lib::group_to_multiset_ensures;

    if l.len() == 0 {
        assert(insert_sorted_spec(t, s, x, l) == seq![x]);
        assert(seq![x] =~= Seq::<int>::empty().push(x));
        assert(l.to_multiset() =~= Multiset::<int>::empty());
    } else if child_le(t, s, x, l[0]) {
        assert(seq![x] + l =~= l.insert(0, x));
        vstd::seq_lib::to_multiset_insert(l, 0, x);
    } else {
        lemma_insert_sorted_multiset(t, s, x, l.drop_first());
        let rec = insert_sorted_spec(t, s, x, l.drop_first());
        assert(seq![l[0]] + rec =~= rec.insert(0, l[0]));
        vstd::seq_lib::to_multiset_insert(rec, 0, l[0]);
        assert(l =~= l.drop_first().insert(0, l[0]));
        vstd::seq_lib::to_multiset_insert(l.drop_first(), 0, l[0]);
        assert(l.drop_first().to_multiset().insert(x).insert(l[0]) =~= l.drop_first().to_multiset()
            .insert(l[0]).insert(x));
    }
}

/// Sorting the children permutes them: same elements, same number of times.
pub proof fn lemma_sort_multiset(t: TreeView, s: Sort, l: Seq<int>)
    ensures
        sort_spec(t, s, l).to_multiset() == l.to_multiset(),
    decreases l.len(),
{
    broadcast use vstd::seq_lib::group_to_multiset_ensures;

    if l.len() == 0 {
    } else {
        lemma_sort_multiset(t, s, l.drop_first());
        lemma_insert_sorted_multiset(t, s, l[0], sort_spec(t, s, l.drop_first()));
        assert(l =~= l.drop_first().insert(0, l[0]));
        vstd::seq_lib::to_multiset_insert(l.drop_first(), 0, l[0]);
    }
}

/// Sorting neither adds nor loses a child.
pub proof fn lemma_sort_contains(t: TreeView, s: Sort, l: Seq<int>)
    ensures
        forall|y: int| #[trigger] sort_spec(t, s, l).contains(y) <==> l.contains(y),
        sort_spec(t, s, l).len() == l.len(),
{
    broadcast use vstd::seq_lib::group_to_multiset_ensures;

    lemma_sort_multiset(t, s, l);
    let r = sort_spec(t, s, l);
    r.to_multiset_ensures();
    l.to_multiset_ensures();
    assert forall|y: int| #[trigger] r.contains(y) <==> l.contains(y) by {
        assert(r.contains(y) <==> r.to_multiset().count(y) > 0);
        assert(l.contains(y) <==> l.to_multiset().count(y) > 0);
    }
}

/// Where the first fitting position is, the sorted insertion puts `x` there.
pub proof fn lemma_insert_sorted_at(t: TreeView, s: Sort, x: int, l: Seq<int>, j: int)
    requires
        0 <= j <= l.len(),
        forall|m: int| 0 <= m < j ==> !child_le(t, s, x, #[trigger] l[m]),
        j < l.len() ==> child_le(t, s, x, l[j]),
    ensures
        insert_sorted_spec(t, s, x, l) == l.take(j) + seq![x] + l.skip(j),
    decreases l.len(),
{
    if l.len() == 0 {
        assert(l.take(0) + seq![x] + l.skip(0) =~= seq![x]);
    } else if child_le(t, s, x, l[0]) {
        assert(j == 0);
        assert(l.take(0) + seq![x] + l.skip(0) =~= seq![x] + l);
    } else {
        assert(j >= 1);
        assert forall|m: int| 0 <= m < j - 1 implies !child_le(
            t,
            s,
            x,
            #[trigger] l.drop_first()[m],
        ) by {
            assert(l.drop_first()[m] == l[m + 1]);
        }
        assert(j - 1 < l.drop_first().len() ==> child_le(t, s, x, l.drop_first()[j - 1]));
        lemma_insert_sorted_at(t, s, x, l.drop_first(), j - 1);
        assert(seq![l[0]] + (l.drop_first().take(j - 1) + seq![x] + l.drop_first().skip(j - 1))
            =~= l.take(j) + seq![x] + l.skip(j));
    }
}

// ------------------------------------------------------------------
// Changing the sort changes the order of the rows, never the rows
// ------------------------------------------------------------------
/// What one child contributes to its parent's projection: its subtree when
/// it clears the bound and the filter, nothing otherwise.
pub open spec fn kid_chunk(t: TreeView, f: Filter, s: Sort, c: int, depth: int, lo: int) -> Seq<
    ItemView,
> {
    if 0 <= lo <= t.nodes.len() && lo <= c < t.nodes.len() && should_display_spec(t, f, c) {
        proj_node(t, f, s, c, depth)
    } else {
        Seq::empty()
    }
}

/// A nonempty children list projects as its first child's contribution
/// followed by the rest.
pub proof fn lemma_kids_unfold(t: TreeView, f: Filter, s: Sort, cs: Seq<int>, depth: int, lo: int)
    requires
        cs.len() > 0,
    ensures
        proj_kids(t, f, s, cs, depth, lo) == kid_chunk(t, f, s, cs[0], depth, lo) + proj_kids(
            t,
            f,
            s,
            cs.drop_first(),
            depth,
            lo,
        ),
{
    if !(0 <= lo <= t.nodes.len()) {
        assert(proj_kids(t, f, s, cs.drop_first(), depth, lo) =~= Seq::<ItemView>::empty());
        assert(proj_kids(t, f, s, cs, depth, lo) =~= Seq::<ItemView>::empty() + Seq::<
            ItemView,
        >::empty());
    } else if lo <= cs[0] < t.nodes.len() && should_display_spec(t, f, cs[0]) {
    } else {
        assert(proj_kids(t, f, s, cs, depth, lo) =~= Seq::<ItemView>::empty() + proj_kids(
            t,
            f,
            s,
            cs.drop_first(),
            depth,
            lo,
        ));
    }
}

/// Taking one child out of the list takes exactly its contribution out of
/// the projected rows, counted as a multiset.
pub proof fn lemma_kids_extract(
    t: TreeView,
    f: Filter,
    s: Sort,
    cs: Seq<int>,
    depth: int,
    lo: int,
    w: int,
)
    requires
        0 <= w < cs.len(),
    ensures
        proj_kids(t, f, s, cs, depth, lo).to_multiset() == proj_kids(
            t,
            f,
            s,
            cs.remove(w),
            depth,
            lo,
        ).to_multiset().add(kid_chunk(t, f, s, cs[w], depth, lo).to_multiset()),
    decreases cs.len(),
{
    broadcast use vstd::multiset::group_multiset_axioms;

    lemma_kids_unfold(t, f, s, cs, depth, lo);
    vstd::seq_lib::lemma_multiset_commutative(
        kid_chunk(t, f, s, cs[0], depth, lo),
        proj_kids(t, f, s, cs.drop_first(), depth, lo),
    );
    if w == 0 {
        assert(cs.remove(0) =~= cs.drop_first());
    } else {
        lemma_kids_extract(t, f, s, cs.drop_first(), depth, lo, w - 1);
        assert(cs.drop_first()[w - 1] == cs[w]);
        assert(cs.remove(w)[0] == cs[0]);
        assert(cs.remove(w).drop_first() =~= cs.drop_first().remove(w - 1));
        lemma_kids_unfold(t, f, s, cs.remove(w), depth, lo);
        vstd::seq_lib::lemma_multiset_commutative(
            kid_chunk(t, f, s, cs[0], depth, lo),
            proj_kids(t, f, s, cs.drop_first().remove(w - 1), depth, lo),
        );
        assert(proj_kids(t, f, s, cs, depth, lo).to_multiset() =~= proj_kids(
            t,
            f,
            s,
            cs.remove(w),
            depth,
            lo,
        ).to_multiset().add(kid_chunk(t, f, s, cs[w], depth, lo).to_multiset()));
    }
}

/// The subtree at `i` projects the same rows under any two sorts, as a
/// multiset: only their order can differ.
pub proof fn lemma_node_sortinv(t: TreeView, f: Filter, s1: Sort, s2: Sort, i: int, depth: int)
    ensures
        proj_node(t, f, s1, i, depth).to_multiset() == proj_node(t, f, s2, i, depth).to_multiset(),
    decreases t.nodes.len() - i, 0int,
{
    broadcast use vstd::multiset::group_multiset_axioms;

    if !(0 <= i < t.nodes.len()) {
    } else {
        match t.nodes[i].kind {
            KindView::Directory { children, is_open, .. } => {
                if is_open {
                    let head = seq![item_of(t, i, depth)];
                    let cs1 = sort_spec(t, s1, children);
                    let cs2 = sort_spec(t, s2, children);
                    lemma_sort_multiset(t, s1, children);
                    lemma_sort_multiset(t, s2, children);
                    lemma_kids_sortinv(t, f, s1, s2, cs1, cs2, depth + 1, i + 1);
                    vstd::seq_lib::lemma_multiset_commutative(
                        head,
                        proj_kids(t, f, s1, cs1, depth + 1, i + 1),
                    );
                    vstd::seq_lib::lemma_multiset_commutative(
                        head,
                        proj_kids(t, f, s2, cs2, depth + 1, i + 1),
                    );
                    assert(proj_node(t, f, s1, i, depth).to_multiset() =~= proj_node(
                        t,
                        f,
                        s2,
                        i,
                        depth,
                    ).to_multiset());
                }
            },
            KindView::File => {},
        }
    }
}

/// Two children lists with the same members project the same rows under any
/// two sorts, as a multiset.
pub proof fn lemma_kids_sortinv(
    t: TreeView,
    f: Filter,
    s1: Sort,
    s2: Sort,
    cs1: Seq<int>,
    cs2: Seq<int>,
    depth: int,
    lo: int,
)
    requires
        cs1.to_multiset() == cs2.to_multiset(),
    ensures
        proj_kids(t, f, s1, cs1, depth, lo).to_multiset() == proj_kids(
            t,
            f,
            s2,
            cs2,
            depth,
            lo,
        ).to_multiset(),
    decreases t.nodes.len() - lo, cs1.len() + 1,
{
    broadcast use vstd::multiset::group_multiset_axioms;
    broadcast use vstd::seq_lib::group_to_multiset_ensures;

    cs1.to_multiset_ensures();
    cs2.to_multiset_ensures();
    if cs1.len() == 0 {
        assert(cs2.len() == 0);
        assert(proj_kids(t, f, s1, cs1, depth, lo) =~= Seq::<ItemView>::empty());
        assert(proj_kids(t, f, s2, cs2, depth, lo) =~= Seq::<ItemView>::empty());
    } else {
        let c = cs1[0];
        assert(cs1.contains(c));
        assert(cs2.to_multiset().count(c) > 0);
        assert(cs2.contains(c));
        let w = choose|w: int| 0 <= w < cs2.len() && cs2[w] == c;
        lemma_kids_unfold(t, f, s1, cs1, depth, lo);
        vstd::seq_lib::lemma_multiset_commutative(
            kid_chunk(t, f, s1, c, depth, lo),
            proj_kids(t, f, s1, cs1.drop_first(), depth, lo),
        );
        lemma_kids_extract(t, f, s2, cs2, depth, lo, w);
        assert(cs1 =~= cs1.drop_first().insert(0, c));
        vstd::seq_lib::to_multiset_insert(cs1.drop_first(), 0, c);
        assert(cs2.remove(w).to_multiset() =~= cs1.drop_first().to_multiset());
        lemma_kids_sortinv(t, f, s1, s2, cs1.drop_first(), cs2.remove(w), depth, lo);
        if 0 <= lo <= t.nodes.len() && lo <= c < t.nodes.len() && should_display_spec(t, f, c) {
            lemma_node_sortinv(t, f, s1, s2, c, depth);
        }
        assert(kid_chunk(t, f, s1, c, depth, lo).to_multiset() =~= kid_chunk(
            t,
            f,
            s2,
            c,
            depth,
            lo,
        ).to_multiset());
        assert(proj_kids(t, f, s1, cs1, depth, lo).to_multiset() =~= proj_kids(
            t,
            f,
            s2,
            cs2,
            depth,
            lo,
        ).to_multiset());
    }
}

/// Some row of the projection carries exactly this path.
pub open spec fn displays_path(t: TreeView, f: Filter, s: Sort, p: Seq<char>) -> bool {
    exists|k: int|
        0 <= k < project(t, f, s).len() && #[trigger] project(t, f, s)[k].path == p
}

/// Changing the sort alone never changes which rows are displayed — in
/// particular the set of displayed paths — only the order they come in.
pub proof fn lemma_sort_changes_only_order(t: TreeView, f: Filter, s1: Sort, s2: Sort)
    ensures
        project(t, f, s1).to_multiset() == project(t, f, s2).to_multiset(),
        forall|p: Seq<char>| displays_path(t, f, s1, p) <==> displays_path(t, f, s2, p),
{
    broadcast use vstd::seq_lib::group_to_multiset_ensures;

    lemma_node_sortinv(t, f, s1, s2, 0, 0);
    let pr1 = project(t, f, s1);
    let pr2 = project(t, f, s2);
    pr1.to_multiset_ensures();
    pr2.to_multiset_ensures();
    assert forall|p: Seq<char>| displays_path(t, f, s1, p) <==> displays_path(t, f, s2, p) by {
        if displays_path(t, f, s1, p) {
            let k = choose|k: int| 0 <= k < pr1.len() && pr1[k].path == p;
            assert(pr1.contains(pr1[k]));
            assert(pr1.to_multiset().count(pr1[k]) > 0);
            assert(pr2.to_multiset().count(pr1[k]) > 0);
            assert(pr2.contains(pr1[k]));
            let k2 = choose|k2: int| 0 <= k2 < pr2.len() && pr2[k2] == pr1[k];
            assert(project(t, f, s2)[k2].path == p);
        }
        if displays_path(t, f, s2, p) {
            let k = choose|k: int| 0 <= k < pr2.len() && pr2[k].path == p;
            assert(pr2.contains(pr2[k]));
            assert(pr2.to_multiset().count(pr2[k]) > 0);
            assert(pr1.to_multiset().count(pr2[k]) > 0);
            assert(pr1.contains(pr2[k]));
            let k2 = choose|k2: int| 0 <= k2 < pr1.len() && pr1[k2] == pr2[k];
            assert(project(t, f, s1)[k2].path == p);
        }
    }
}

// ------------------------------------------------------------------
// Closing a directory removes exactly the rows strictly below it
// ------------------------------------------------------------------
/// The paths of the projected rows, in order.
pub open spec fn paths_of(items: Seq<ItemView>) -> Seq<Seq<char>> {
    items.map_values(|it: ItemView| it.path)
}

/// Keeps the paths that do not lie strictly below `pd`.
pub open spec fn outside(pd: Seq<char>) -> spec_fn(Seq<char>) -> bool {
    |p: Seq<char>| !strict_descendant(p, pd)
}

/// The paths of two row lists, glued.
pub proof fn lemma_paths_of_add(a: Seq<ItemView>, b: Seq<ItemView>)
    ensures
        paths_of(a + b) == paths_of(a) + paths_of(b),
{
    assert(paths_of(a + b) =~= paths_of(a) + paths_of(b));
}

/// A filter that rejects every element leaves nothing.
pub proof fn lemma_filter_rejects_all(s: Seq<Seq<char>>, pred: spec_fn(Seq<char>) -> bool)
    requires
        forall|k: int| 0 <= k < s.len() ==> !pred(#[trigger] s[k]),
    ensures
        s.filter(pred) == Seq::<Seq<char>>::empty(),
    decreases s.len(),
{
    reveal(Seq::filter);
    if s.len() == 0 {
        assert(s.filter(pred) =~= Seq::<Seq<char>>::empty());
    } else {
        lemma_filter_rejects_all(s.drop_last(), pred);
    }
}

/// Every row a subtree projects carries the subtree root's path or one
/// strictly below it.
pub proof fn lemma_subtree_paths_node(t: TreeView, f: Filter, s: Sort, i: int, depth: int)
    requires
        t.wf(),
        0 <= i < t.nodes.len(),
    ensures
        forall|k: int|
            0 <= k < proj_node(t, f, s, i, depth).len() ==> ((#[trigger] proj_node(
                t,
                f,
                s,
                i,
                depth,
            )[k]).path == t.nodes[i].path || strict_descendant(
                proj_node(t, f, s, i, depth)[k].path,
                t.nodes[i].path,
            )),
    decreases t.nodes.len() - i, 0int,
{
    match t.nodes[i].kind {
        KindView::Directory { children, is_open, .. } => {
            if is_open {
                let cs = sort_spec(t, s, children);
                lemma_sort_contains(t, s, children);
                assert(t.node_wf(i));
                assert forall|m: int|
                    0 <= m < cs.len() && 0 <= cs[m] < t.nodes.len() implies strict_descendant(
                    t.nodes[cs[m]].path,
                    t.nodes[i].path,
                ) by {
                    assert(cs.contains(cs[m]));
                    assert(children.contains(cs[m]));
                    let w = choose|w: int| 0 <= w < children.len() && children[w] == cs[m];
                    assert(child_edge(t.nodes[children[w]].path, t.nodes[i].path));
                    crate::fs::lemma_edge_desc(t.nodes[cs[m]].path, t.nodes[i].path);
                }
                lemma_subtree_paths_kids(t, f, s, cs, depth + 1, i + 1, t.nodes[i].path);
            }
        },
        KindView::File => {},
    }
}

/// The same for a children list whose in-range members all lie strictly
/// below `q`: every projected row does too.
pub proof fn lemma_subtree_paths_kids(
    t: TreeView,
    f: Filter,
    s: Sort,
    cs: Seq<int>,
    depth: int,
    lo: int,
    q: Seq<char>,
)
    requires
        t.wf(),
        forall|m: int|
            0 <= m < cs.len() && 0 <= #[trigger] cs[m] < t.nodes.len() ==> strict_descendant(
                t.nodes[cs[m]].path,
                q,
            ),
    ensures
        forall|k: int|
            0 <= k < proj_kids(t, f, s, cs, depth, lo).len() ==> strict_descendant(
                (#[trigger] proj_kids(t, f, s, cs, depth, lo)[k]).path,
                q,
            ),
    decreases t.nodes.len() - lo, cs.len() + 1,
{
    if cs.len() == 0 || !(0 <= lo <= t.nodes.len()) {
    } else {
        let c = cs[0];
        assert forall|m: int|
            0 <= m < cs.drop_first().len() && 0 <= #[trigger] cs.drop_first()[m] < t.nodes.len()
            implies strict_descendant(t.nodes[cs.drop_first()[m]].path, q) by {
            assert(cs.drop_first()[m] == cs[m + 1]);
        }
        lemma_subtree_paths_kids(t, f, s, cs.drop_first(), depth, lo, q);
        if lo <= c < t.nodes.len() && should_display_spec(t, f, c) {
            lemma_subtree_paths_node(t, f, s, c, depth);
            assert forall|k: int| 0 <= k < proj_kids(t, f, s, cs, depth, lo).len()
                implies strict_descendant(
                (#[trigger] proj_kids(t, f, s, cs, depth, lo)[k]).path,
                q,
            ) by {
                let sub = proj_node(t, f, s, c, depth);
                if k < sub.len() {
                    assert(proj_kids(t, f, s, cs, depth, lo)[k] == sub[k]);
                    if sub[k].path == t.nodes[c].path {
                    } else {
                        crate::fs::lemma_desc_trans(sub[k].path, t.nodes[c].path, q);
                    }
                } else {
                    assert(proj_kids(t, f, s, cs, depth, lo)[k] == proj_kids(
                        t,
                        f,
                        s,
                        cs.drop_first(),
                        depth,
                        lo,
                    )[k - sub.len()]);
                }
            }
        }
    }
}

/// Closing a directory changes no sibling comparison: the order reads kinds
/// and paths, never the open flag.
pub proof fn lemma_child_le_close(t: TreeView, d: int, s: Sort, a: int, b: int)
    requires
        0 <= d < t.nodes.len(),
        t.nodes[d].kind is Directory,
        0 <= a < t.nodes.len(),
        0 <= b < t.nodes.len(),
    ensures
        child_le(close_at(t, d), s, a, b) == child_le(t, s, a, b),
{
}

/// Closing a directory leaves every sorted insertion unchanged.
pub proof fn lemma_insert_close(t: TreeView, d: int, s: Sort, x: int, l: Seq<int>)
    requires
        0 <= d < t.nodes.len(),
        t.nodes[d].kind is Directory,
        0 <= x < t.nodes.len(),
        forall|m: int| 0 <= m < l.len() ==> 0 <= #[trigger] l[m] < t.nodes.len(),
    ensures
        insert_sorted_spec(close_at(t, d), s, x, l) == insert_sorted_spec(t, s, x, l),
    decreases l.len(),
{
    if l.len() == 0 {
    } else {
        lemma_child_le_close(t, d, s, x, l[0]);
        assert forall|m: int| 0 <= m < l.drop_first().len() implies 0 <= #[trigger] l.drop_first()[m]
            < t.nodes.len() by {
            assert(l.drop_first()[m] == l[m + 1]);
        }
        lemma_insert_close(t, d, s, x, l.drop_first());
    }
}

/// Closing a directory leaves every sorted children list unchanged.
pub proof fn lemma_sort_close(t: TreeView, d: int, s: Sort, l: Seq<int>)
    requires
        0 <= d < t.nodes.len(),
        t.nodes[d].kind is Directory,
        forall|m: int| 0 <= m < l.len() ==> 0 <= #[trigger] l[m] < t.nodes.len(),
    ensures
        sort_spec(close_at(t, d), s, l) == sort_spec(t, s, l),
    decreases l.len(),
{
    if l.len() == 0 {
    } else {
        assert forall|m: int| 0 <= m < l.drop_first().len() implies 0 <= #[trigger] l.drop_first()[m]
            < t.nodes.len() by {
            assert(l.drop_first()[m] == l[m + 1]);
        }
        lemma_sort_close(t, d, s, l.drop_first());
        let rec = sort_spec(t, s, l.drop_first());
        lemma_sort_contains(t, s, l.drop_first());
        assert forall|m: int| 0 <= m < rec.len() implies 0 <= #[trigger] rec[m] < t.nodes.len() by {
            assert(rec.contains(rec[m]));
            assert(l.drop_first().contains(rec[m]));
            let w = choose|w: int| 0 <= w < l.drop_first().len() && l.drop_first()[w] == rec[m];
            assert(l.drop_first()[w] == l[w + 1]);
        }
        lemma_insert_close(t, d, s, l[0], rec);
    }
}

/// Closing a directory hides or reveals no row directly, as long as closed
/// directories are not being filtered out.
pub proof fn lemma_display_close(t: TreeView, d: int, f: Filter, c: int)
    requires
        0 <= d < t.nodes.len(),
        t.nodes[d].kind is Directory,
        !f.directories,
        0 <= c < t.nodes.len(),
    ensures
        should_display_spec(close_at(t, d), f, c) == should_display_spec(t, f, c),
{
}

/// A child of a node outside the closed directory's subtree is the closed
/// directory itself or stays outside: leaf names hold no separators, so a
/// path cannot jump into a foreign subtree.
pub proof fn lemma_edge_outside(cp: Seq<char>, pi: Seq<char>, pd: Seq<char>)
    requires
        child_edge(cp, pi),
        pi != pd,
        !strict_descendant(pi, pd),
    ensures
        cp == pd || !strict_descendant(cp, pd),
{
    if strict_descendant(cp, pd) && cp != pd {
        let lp = pi.len() as int;
        let ld = pd.len() as int;
        if ld == lp {
            assert forall|m: int| 0 <= m < ld implies pd[m] == pi[m] by {
                assert(pd[m] == cp.subrange(0, ld)[m]);
                assert(pi[m] == cp.subrange(0, lp)[m]);
            }
            assert(pd =~= pi);
            assert(false);
        } else if ld < lp {
            assert forall|m: int| 0 <= m < ld implies pi[m] == pd[m] by {
                assert(pd[m] == cp.subrange(0, ld)[m]);
                assert(pi[m] == cp.subrange(0, lp)[m]);
            }
            assert(pi.subrange(0, ld) =~= pd);
            assert(pi[ld] == cp.subrange(0, lp)[ld]);
            assert(pi[ld] == '/');
            assert(strict_descendant(pi, pd));
            assert(false);
        } else {
            assert(lp < ld < cp.len());
            assert(cp[ld] == '/');
            assert(false);
        }
    }
}

/// Closing the directory at `d` removes from the subtree projection at `i`
/// — a node outside `d`'s subtree — exactly the rows whose paths lie
/// strictly below `d`'s.
pub proof fn lemma_close_paths_node(t: TreeView, f: Filter, s: Sort, d: int, i: int, depth: int)
    requires
        t.wf(),
        !f.directories,
        0 <= d < t.nodes.len(),
        t.nodes[d].kind is Directory,
        0 <= i < t.nodes.len(),
        t.nodes[i].path != t.nodes[d].path,
        !strict_descendant(t.nodes[i].path, t.nodes[d].path),
    ensures
        paths_of(proj_node(close_at(t, d), f, s, i, depth)) == paths_of(
            proj_node(t, f, s, i, depth),
        ).filter(outside(t.nodes[d].path)),
    decreases t.nodes.len() - i, 0int,
{
    reveal(Seq::filter);
    let t1 = close_at(t, d);
    let pd = t.nodes[d].path;
    assert(i != d);
    assert(t1.nodes[i] == t.nodes[i]);
    let head = seq![item_of(t, i, depth)];
    assert(item_of(t1, i, depth) == item_of(t, i, depth));
    assert(paths_of(head) =~= seq![t.nodes[i].path]);
    assert(outside(pd)(t.nodes[i].path));
    match t.nodes[i].kind {
        KindView::Directory { children, is_open, .. } => {
            if is_open {
                assert(t.node_wf(i));
                assert forall|m: int| 0 <= m < children.len() implies 0 <= #[trigger] children[m]
                    < t.nodes.len() by {}
                lemma_sort_close(t, d, s, children);
                let cs = sort_spec(t, s, children);
                lemma_sort_contains(t, s, children);
                assert forall|m: int|
                    0 <= m < cs.len() && 0 <= #[trigger] cs[m] < t.nodes.len() implies (t.nodes[
                    cs[m]].path == pd || !strict_descendant(t.nodes[cs[m]].path, pd)) by {
                    assert(cs.contains(cs[m]));
                    assert(children.contains(cs[m]));
                    let w = choose|w: int| 0 <= w < children.len() && children[w] == cs[m];
                    assert(child_edge(t.nodes[children[w]].path, t.nodes[i].path));
                    lemma_edge_outside(t.nodes[cs[m]].path, t.nodes[i].path, pd);
                }
                lemma_close_paths_kids(t, f, s, d, cs, depth + 1, i + 1);
                lemma_paths_of_add(head, proj_kids(t1, f, s, cs, depth + 1, i + 1));
                lemma_paths_of_add(head, proj_kids(t, f, s, cs, depth + 1, i + 1));
                Seq::filter_distributes_over_add(
                    paths_of(head),
                    paths_of(proj_kids(t, f, s, cs, depth + 1, i + 1)),
                    outside(pd),
                );
                assert(paths_of(head).filter(outside(pd)) =~= paths_of(head));
            } else {
                assert(paths_of(proj_node(t, f, s, i, depth)).filter(outside(pd)) =~= paths_of(
                    head,
                ));
            }
        },
        KindView::File => {
            assert(paths_of(proj_node(t, f, s, i, depth)).filter(outside(pd)) =~= paths_of(head));
        },
    }
}

/// The same, list of children by list of children: the in-range members are
/// `d` itself or lie outside its subtree.
pub proof fn lemma_close_paths_kids(
    t: TreeView,
    f: Filter,
    s: Sort,
    d: int,
    cs: Seq<int>,
    depth: int,
    lo: int,
)
    requires
        t.wf(),
        !f.directories,
        0 <= d < t.nodes.len(),
        t.nodes[d].kind is Directory,
        forall|m: int|
            0 <= m < cs.len() && 0 <= #[trigger] cs[m] < t.nodes.len() ==> (t.nodes[cs[m]].path
                == t.nodes[d].path || !strict_descendant(t.nodes[cs[m]].path, t.nodes[d].path)),
    ensures
        paths_of(proj_kids(close_at(t, d), f, s, cs, depth, lo)) == paths_of(
            proj_kids(t, f, s, cs, depth, lo),
        ).filter(outside(t.nodes[d].path)),
    decreases t.nodes.len() - lo, cs.len() + 1,
{
    reveal(Seq::filter);
    let t1 = close_at(t, d);
    let pd = t.nodes[d].path;
    assert(t1.nodes.len() == t.nodes.len());
    if cs.len() == 0 || !(0 <= lo <= t.nodes.len()) {
        assert(paths_of(Seq::<ItemView>::empty()) =~= Seq::<Seq<char>>::empty());
        assert(Seq::<Seq<char>>::empty().filter(outside(pd)) =~= Seq::<Seq<char>>::empty());
    } else {
        let c = cs[0];
        assert forall|m: int|
            0 <= m < cs.drop_first().len() && 0 <= #[trigger] cs.drop_first()[m] < t.nodes.len()
            implies (t.nodes[cs.drop_first()[m]].path == pd || !strict_descendant(
            t.nodes[cs.drop_first()[m]].path,
            pd,
        )) by {
            assert(cs.drop_first()[m] == cs[m + 1]);
        }
        lemma_close_paths_kids(t, f, s, d, cs.drop_first(), depth, lo);
        let rest1 = proj_kids(t1, f, s, cs.drop_first(), depth, lo);
        let rest0 = proj_kids(t, f, s, cs.drop_first(), depth, lo);
        if lo <= c < t.nodes.len() {
            lemma_display_close(t, d, f, c);
            if should_display_spec(t, f, c) {
                let chunk1 = proj_node(t1, f, s, c, depth);
                let chunk0 = proj_node(t, f, s, c, depth);
                if t.nodes[c].path == pd {
                    assert(c == d);
                    assert(t1.nodes[d].kind is Directory
                        && !t1.nodes[d].kind->Directory_is_open);
                    assert(chunk1 =~= seq![item_of(t1, d, depth)]);
                    assert(item_of(t1, d, depth).path == pd);
                    assert(paths_of(chunk1) =~= seq![pd]);
                    assert(!strict_descendant(pd, pd));
                    match t.nodes[d].kind {
                        KindView::Directory { children, is_open, .. } => {
                            if is_open {
                                let head = seq![item_of(t, d, depth)];
                                let dk = proj_kids(
                                    t,
                                    f,
                                    s,
                                    sort_spec(t, s, children),
                                    depth + 1,
                                    d + 1,
                                );
                                lemma_sort_contains(t, s, children);
                                assert(t.node_wf(d));
                                assert forall|m: int|
                                    0 <= m < sort_spec(t, s, children).len() && 0 <= #[trigger] sort_spec(
                                    t,
                                    s,
                                    children,
                                )[m] < t.nodes.len() implies strict_descendant(
                                    t.nodes[sort_spec(t, s, children)[m]].path,
                                    pd,
                                ) by {
                                    let e = sort_spec(t, s, children)[m];
                                    assert(sort_spec(t, s, children).contains(e));
                                    assert(children.contains(e));
                                    let w = choose|w: int|
                                        0 <= w < children.len() && children[w] == e;
                                    assert(child_edge(t.nodes[children[w]].path, t.nodes[d].path));
                                    crate::fs::lemma_edge_desc(t.nodes[e].path, pd);
                                }
                                lemma_subtree_paths_kids(t, f, s, sort_spec(t, s, children), depth + 1, d + 1, pd);
                                lemma_paths_of_add(head, dk);
                                Seq::filter_distributes_over_add(
                                    paths_of(head),
                                    paths_of(dk),
                                    outside(pd),
                                );
                                assert forall|k: int| 0 <= k < paths_of(dk).len() implies !outside(
                                    pd,
                                )(#[trigger] paths_of(dk)[k]) by {
                                    assert(paths_of(dk)[k] == dk[k].path);
                                }
                                lemma_filter_rejects_all(paths_of(dk), outside(pd));
                                assert(paths_of(head).filter(outside(pd)) =~= seq![pd]);
                                assert(paths_of(chunk0).filter(outside(pd)) =~= seq![pd]);
                            } else {
                                assert(chunk0 =~= seq![item_of(t, d, depth)]);
                                assert(paths_of(chunk0).filter(outside(pd)) =~= seq![pd]);
                            }
                        },
                        KindView::File => {
                            assert(false);
                        },
                    }
                } else {
                    assert(!strict_descendant(t.nodes[c].path, pd));
                    lemma_close_paths_node(t, f, s, d, c, depth);
                }
                lemma_paths_of_add(chunk1, rest1);
                lemma_paths_of_add(chunk0, rest0);
                Seq::filter_distributes_over_add(paths_of(chunk0), paths_of(rest0), outside(pd));
                assert(paths_of(proj_kids(t1, f, s, cs, depth, lo)) =~= paths_of(
                    proj_kids(t, f, s, cs, depth, lo),
                ).filter(outside(pd)));
            }
        }
    }
}

/// The law: closing a directory removes from the projection exactly the
/// rows whose paths lie strictly below it; its own row remains. (The one
/// proviso: the closed-directory filter must be off — with it on, closing a
/// directory hides the directory's own row as well.)
pub proof fn lemma_close_removes_descendants(t: TreeView, f: Filter, s: Sort, d: int)
    requires
        t.wf(),
        !f.directories,
        0 <= d < t.nodes.len(),
        t.nodes[d].kind is Directory,
    ensures
        paths_of(project(close_at(t, d), f, s)) == paths_of(project(t, f, s)).filter(
            outside(t.nodes[d].path),
        ),
{
    reveal(Seq::filter);
    let t1 = close_at(t, d);
    let pd = t.nodes[d].path;
    if d == 0 {
        let head = seq![item_of(t, 0, 0)];
        assert(item_of(t1, 0, 0).path == pd);
        assert(t1.nodes[0].kind is Directory && !t1.nodes[0].kind->Directory_is_open);
        assert(proj_node(t1, f, s, 0, 0) =~= seq![item_of(t1, 0, 0)]);
        assert(paths_of(proj_node(t1, f, s, 0, 0)) =~= seq![pd]);
        assert(!strict_descendant(pd, pd));
        match t.nodes[0].kind {
            KindView::Directory { children, is_open, .. } => {
                if is_open {
                    let dk = proj_kids(t, f, s, sort_spec(t, s, children), 1, 1);
                    lemma_sort_contains(t, s, children);
                    assert(t.node_wf(0));
                    assert forall|m: int|
                        0 <= m < sort_spec(t, s, children).len() && 0 <= #[trigger] sort_spec(
                        t,
                        s,
                        children,
                    )[m] < t.nodes.len() implies strict_descendant(
                        t.nodes[sort_spec(t, s, children)[m]].path,
                        pd,
                    ) by {
                        let e = sort_spec(t, s, children)[m];
                        assert(sort_spec(t, s, children).contains(e));
                        assert(children.contains(e));
                        let w = choose|w: int| 0 <= w < children.len() && children[w] == e;
                        assert(child_edge(t.nodes[children[w]].path, t.nodes[0].path));
                        crate::fs::lemma_edge_desc(t.nodes[e].path, pd);
                    }
                    lemma_subtree_paths_kids(t, f, s, sort_spec(t, s, children), 1, 1, pd);
                    lemma_paths_of_add(head, dk);
                    Seq::filter_distributes_over_add(paths_of(head), paths_of(dk), outside(pd));
                    assert forall|k: int| 0 <= k < paths_of(dk).len() implies !outside(pd)(
                        #[trigger] paths_of(dk)[k],
                    ) by {
                        assert(paths_of(dk)[k] == dk[k].path);
                    }
                    lemma_filter_rejects_all(paths_of(dk), outside(pd));
                    assert(paths_of(head).filter(outside(pd)) =~= seq![pd]);
                    assert(paths_of(project(t, f, s)).filter(outside(pd)) =~= seq![pd]);
                } else {
                    assert(paths_of(project(t, f, s)).filter(outside(pd)) =~= seq![pd]);
                }
            },
            KindView::File => {
                assert(false);
            },
        }
    } else {
        assert(t.nodes[0].path != pd);
        assert(strict_descendant(pd, t.nodes[0].path));
        assert(!strict_descendant(t.nodes[0].path, pd));
        lemma_close_paths_node(t, f, s, d, 0, 0);
    }
}

// ------------------------------------------------------------------
// Closing a directory leaves every row above it in place
// ------------------------------------------------------------------
/// A filter that accepts every element changes nothing.
pub proof fn lemma_filter_keeps_all(s: Seq<Seq<char>>, pred: spec_fn(Seq<char>) -> bool)
    requires
        forall|k: int| 0 <= k < s.len() ==> pred(#[trigger] s[k]),
    ensures
        s.filter(pred) == s,
    decreases s.len(),
{
    reveal(Seq::filter);
    if s.len() == 0 {
        assert(s.filter(pred) =~= s);
    } else {
        lemma_filter_keeps_all(s.drop_last(), pred);
        assert(s.filter(pred) =~= s);
    }
}

/// In the subtree projection of a node outside `pd`'s subtree, a row whose
/// path lies strictly below `pd` only ever appears after a row carrying `pd`
/// itself: pre-order emits a directory before anything below it.
pub proof fn lemma_desc_rows_after_node(
    t: TreeView,
    f: Filter,
    s: Sort,
    i: int,
    depth: int,
    pd: Seq<char>,
)
    requires
        t.wf(),
        0 <= i < t.nodes.len(),
        t.nodes[i].path != pd,
        !strict_descendant(t.nodes[i].path, pd),
    ensures
        forall|k: int|
            0 <= k < proj_node(t, f, s, i, depth).len() && strict_descendant(
                (#[trigger] proj_node(t, f, s, i, depth)[k]).path,
                pd,
            ) ==> exists|k2: int|
                0 <= k2 < k && #[trigger] proj_node(t, f, s, i, depth)[k2].path == pd,
    decreases t.nodes.len() - i, 0int,
{
    match t.nodes[i].kind {
        KindView::Directory { children, is_open, .. } => {
            if is_open {
                assert(t.node_wf(i));
                let cs = sort_spec(t, s, children);
                lemma_sort_contains(t, s, children);
                assert forall|m: int|
                    0 <= m < cs.len() && 0 <= #[trigger] cs[m] < t.nodes.len() implies (t.nodes[
                    cs[m]].path == pd || (!strict_descendant(t.nodes[cs[m]].path, pd)
                    && t.nodes[cs[m]].path != pd)) by {
                    assert(cs.contains(cs[m]));
                    assert(children.contains(cs[m]));
                    let w = choose|w: int| 0 <= w < children.len() && children[w] == cs[m];
                    assert(child_edge(t.nodes[children[w]].path, t.nodes[i].path));
                    lemma_edge_outside(t.nodes[cs[m]].path, t.nodes[i].path, pd);
                }
                lemma_desc_rows_after_kids(t, f, s, cs, depth + 1, i + 1, pd);
                let head = seq![item_of(t, i, depth)];
                let kid_items = proj_kids(t, f, s, cs, depth + 1, i + 1);
                let items = proj_node(t, f, s, i, depth);
                assert forall|k: int|
                    0 <= k < items.len() && strict_descendant((#[trigger] items[k]).path, pd)
                    implies exists|k2: int| 0 <= k2 < k && #[trigger] items[k2].path == pd by {
                    if k == 0 {
                        assert(false);
                    } else {
                        assert(items[k] == kid_items[k - 1]);
                        let k2 = choose|k2: int|
                            0 <= k2 < k - 1 && #[trigger] kid_items[k2].path == pd;
                        assert(items[k2 + 1].path == pd);
                    }
                }
            }
        },
        KindView::File => {},
    }
}

/// The same over a children list: each in-range member carries `pd` itself
/// or lies outside `pd`'s subtree.
pub proof fn lemma_desc_rows_after_kids(
    t: TreeView,
    f: Filter,
    s: Sort,
    cs: Seq<int>,
    depth: int,
    lo: int,
    pd: Seq<char>,
)
    requires
        t.wf(),
        forall|m: int|
            0 <= m < cs.len() && 0 <= #[trigger] cs[m] < t.nodes.len() ==> (t.nodes[cs[m]].path
                == pd || (!strict_descendant(t.nodes[cs[m]].path, pd) && t.nodes[cs[m]].path
                != pd)),
    ensures
        forall|k: int|
            0 <= k < proj_kids(t, f, s, cs, depth, lo).len() && strict_descendant(
                (#[trigger] proj_kids(t, f, s, cs, depth, lo)[k]).path,
                pd,
            ) ==> exists|k2: int|
                0 <= k2 < k && #[trigger] proj_kids(t, f, s, cs, depth, lo)[k2].path == pd,
    decreases t.nodes.len() - lo, cs.len() + 1,
{
    if cs.len() == 0 || !(0 <= lo <= t.nodes.len()) {
    } else {
        let c = cs[0];
        assert forall|m: int|
            0 <= m < cs.drop_first().len() && 0 <= #[trigger] cs.drop_first()[m] < t.nodes.len()
            implies (t.nodes[cs.drop_first()[m]].path == pd || (!strict_descendant(
            t.nodes[cs.drop_first()[m]].path,
            pd,
        ) && t.nodes[cs.drop_first()[m]].path != pd)) by {
            assert(cs.drop_first()[m] == cs[m + 1]);
        }
        lemma_desc_rows_after_kids(t, f, s, cs.drop_first(), depth, lo, pd);
        let rest = proj_kids(t, f, s, cs.drop_first(), depth, lo);
        let items = proj_kids(t, f, s, cs, depth, lo);
        if lo <= c < t.nodes.len() && should_display_spec(t, f, c) {
            let chunk = proj_node(t, f, s, c, depth);
            if t.nodes[c].path == pd {
                lemma_subtree_paths_node(t, f, s, c, depth);
                assert(chunk[0].path == pd);
                assert forall|k: int|
                    0 <= k < items.len() && strict_descendant((#[trigger] items[k]).path, pd)
                    implies exists|k2: int| 0 <= k2 < k && #[trigger] items[k2].path == pd by {
                    if k < chunk.len() {
                        assert(items[k] == chunk[k]);
                        assert(k != 0);
                        assert(items[0].path == pd);
                    } else {
                        assert(items[k] == rest[k - chunk.len()]);
                        if strict_descendant(rest[k - chunk.len()].path, pd) {
                            assert(items[0].path == pd);
                        }
                    }
                }
            } else {
                lemma_desc_rows_after_node(t, f, s, c, depth, pd);
                assert forall|k: int|
                    0 <= k < items.len() && strict_descendant((#[trigger] items[k]).path, pd)
                    implies exists|k2: int| 0 <= k2 < k && #[trigger] items[k2].path == pd by {
                    if k < chunk.len() {
                        assert(items[k] == chunk[k]);
                        let k2 = choose|k2: int| 0 <= k2 < k && #[trigger] chunk[k2].path == pd;
                        assert(items[k2].path == pd);
                    } else {
                        assert(items[k] == rest[k - chunk.len()]);
                        let k2 = choose|k2: int|
                            0 <= k2 < k - chunk.len() && #[trigger] rest[k2].path == pd;
                        assert(items[k2 + chunk.len()].path == pd);
                    }
                }
            }
        }
    }
}

/// The law behind moving the selection up on close: closing a directory
/// leaves every row before the directory's own first row exactly where it
/// was, and the directory's row itself too — only rows below it vanish. So
/// the parent's index in the rebuilt display list is its index in the old
/// one. (As with the removal law, the closed-directory filter must be off.)
pub proof fn lemma_close_keeps_parent_row(t: TreeView, f: Filter, s: Sort, d: int, ix: int)
    requires
        t.wf(),
        !f.directories,
        0 <= d < t.nodes.len(),
        t.nodes[d].kind is Directory,
        0 <= ix < paths_of(project(t, f, s)).len(),
        paths_of(project(t, f, s))[ix] == t.nodes[d].path,
        forall|m: int| 0 <= m < ix ==> #[trigger] paths_of(project(t, f, s))[m] != t.nodes[d].path,
    ensures
        ix < paths_of(project(close_at(t, d), f, s)).len(),
        forall|m: int|
            0 <= m <= ix ==> #[trigger] paths_of(project(close_at(t, d), f, s))[m] == paths_of(
                project(t, f, s),
            )[m],
{
    let pd = t.nodes[d].path;
    let keep = outside(pd);
    let paths0 = paths_of(project(t, f, s));
    let paths1 = paths_of(project(close_at(t, d), f, s));
    lemma_close_removes_descendants(t, f, s, d);
    assert forall|m: int| 0 <= m <= ix implies keep(#[trigger] paths0[m]) by {
        if m == ix {
            assert(!strict_descendant(pd, pd));
        } else if strict_descendant(paths0[m], pd) {
            if d == 0 {
                let items = project(t, f, s);
                assert(items[0].path == t.nodes[0].path);
                assert(paths0[0] == pd);
                assert(ix == 0);
                assert(false);
            } else {
                assert(t.nodes[0].path != pd);
                assert(strict_descendant(pd, t.nodes[0].path));
                assert(!strict_descendant(t.nodes[0].path, pd));
                lemma_desc_rows_after_node(t, f, s, 0, 0, pd);
                let items = project(t, f, s);
                assert(strict_descendant(items[m].path, pd));
                let k2 = choose|k2: int| 0 <= k2 < m && #[trigger] items[k2].path == pd;
                assert(paths0[k2] == pd);
                assert(false);
            }
        }
    }
    let front = paths0.take(ix + 1);
    let back = paths0.skip(ix + 1);
    assert(paths0 =~= front + back);
    Seq::filter_distributes_over_add(front, back, keep);
    assert forall|k: int| 0 <= k < front.len() implies keep(#[trigger] front[k]) by {
        assert(front[k] == paths0[k]);
    }
    lemma_filter_keeps_all(front, keep);
    assert forall|m: int| 0 <= m <= ix implies #[trigger] paths1[m] == paths0[m] by {
        assert(paths1[m] == (front + back.filter(keep))[m]);
        assert(paths1[m] == front[m]);
    }
}

// ------------------------------------------------------------------
// The dotfile filter removes the dotted rows with their whole subtrees
// ------------------------------------------------------------------
/// `f` with the dotfile switch turned on.
pub open spec fn with_dotfilter(f: Filter) -> Filter {
    Filter { directories: f.directories, files: f.files, dotfiles: true }
}

/// Some path segment strictly below the root starts with a dot: `p` has a
/// separator at or past the end of `rp` followed by a dot.
pub open spec fn dotted_below(p: Seq<char>, rp: Seq<char>) -> bool {
    exists|j: int| rp.len() <= j && j + 1 < p.len() && #[trigger] p[j] == '/' && p[j + 1] == '.'
}

/// When everything after position `b` is separator-free and `b` holds a
/// separator, the leaf starts right after `b`.
pub proof fn lemma_leaf_start_region(p: Seq<char>, b: int)
    requires
        0 <= b < p.len(),
        p[b] == '/',
        forall|m: int| b < m < p.len() ==> p[m] != '/',
    ensures
        leaf_start(p) == b + 1,
    decreases p.len(),
{
    if p.len() == b + 1 {
    } else {
        assert(p.drop_last()[b] == p[b]);
        assert forall|m: int| b < m < p.drop_last().len() implies p.drop_last()[m] != '/' by {
            assert(p.drop_last()[m] == p[m]);
        }
        lemma_leaf_start_region(p.drop_last(), b);
    }
}

/// A child's leaf starts right after its parent's path, so the child is
/// dotted exactly when the character there is a dot.
pub proof fn lemma_edge_leaf(cp: Seq<char>, pp: Seq<char>)
    requires
        child_edge(cp, pp),
    ensures
        leaf_start(cp) == pp.len() + 1,
        is_dotted(cp) == (cp[pp.len() as int + 1] == '.'),
{
    lemma_leaf_start_region(cp, pp.len() as int);
}

/// Along a child edge below the root, a dotted segment appears either in
/// the parent already or as the child's own leaf: leaf names hold no
/// separators, so no other boundary is added.
pub proof fn lemma_edge_dotted(cp: Seq<char>, pp: Seq<char>, rp: Seq<char>)
    requires
        child_edge(cp, pp),
        rp.len() <= pp.len(),
    ensures
        dotted_below(cp, rp) == (dotted_below(pp, rp) || is_dotted(cp)),
{
    lemma_edge_leaf(cp, pp);
    let lp = pp.len() as int;
    if dotted_below(cp, rp) {
        let j = choose|j: int|
            rp.len() <= j && j + 1 < cp.len() && #[trigger] cp[j] == '/' && cp[j + 1] == '.';
        if j < lp - 1 {
            assert(pp[j] == cp.subrange(0, lp)[j]);
            assert(pp[j + 1] == cp.subrange(0, lp)[j + 1]);
            assert(dotted_below(pp, rp));
        } else if j == lp - 1 {
            assert(cp[j + 1] == '/');
            assert(false);
        } else if j == lp {
            assert(is_dotted(cp));
        } else {
            assert(cp[j] != '/');
            assert(false);
        }
    }
    if dotted_below(pp, rp) {
        let j = choose|j: int|
            rp.len() <= j && j + 1 < pp.len() && #[trigger] pp[j] == '/' && pp[j + 1] == '.';
        assert(cp[j] == cp.subrange(0, lp)[j]);
        assert(cp[j + 1] == cp.subrange(0, lp)[j + 1]);
        assert(dotted_below(cp, rp));
    }
    if is_dotted(cp) {
        assert(cp[lp] == '/' && cp[lp + 1] == '.');
        assert(dotted_below(cp, rp));
    }
}

/// Every path strictly below a dotted-below path is dotted below too.
pub proof fn lemma_dotted_desc(p: Seq<char>, q: Seq<char>, rp: Seq<char>)
    requires
        strict_descendant(p, q),
        dotted_below(q, rp),
    ensures
        dotted_below(p, rp),
{
    let j = choose|j: int|
        rp.len() <= j && j + 1 < q.len() && #[trigger] q[j] == '/' && q[j + 1] == '.';
    assert(p[j] == p.subrange(0, q.len() as int)[j]);
    assert(p[j + 1] == p.subrange(0, q.len() as int)[j + 1]);
}

/// Enabling the dotfile filter removes from the subtree projection at `i` —
/// itself not below a dotted segment — exactly the rows whose paths are.
pub proof fn lemma_dot_paths_node(t: TreeView, f: Filter, s: Sort, i: int, depth: int)
    requires
        t.wf(),
        0 <= i < t.nodes.len(),
        !dotted_below(t.nodes[i].path, t.nodes[0].path),
    ensures
        paths_of(proj_node(t, with_dotfilter(f), s, i, depth)) == paths_of(
            proj_node(t, f, s, i, depth),
        ).filter(|p: Seq<char>| !dotted_below(p, t.nodes[0].path)),
    decreases t.nodes.len() - i, 0int,
{
    reveal(Seq::filter);
    let rp = t.nodes[0].path;
    let keep = |p: Seq<char>| !dotted_below(p, rp);
    let head = seq![item_of(t, i, depth)];
    assert(paths_of(head) =~= seq![t.nodes[i].path]);
    match t.nodes[i].kind {
        KindView::Directory { children, is_open, .. } => {
            if is_open {
                assert(t.node_wf(i));
                let cs = sort_spec(t, s, children);
                lemma_sort_contains(t, s, children);
                assert forall|m: int|
                    0 <= m < cs.len() && 0 <= #[trigger] cs[m] < t.nodes.len() implies (
                dotted_below(t.nodes[cs[m]].path, rp) == is_dotted(t.nodes[cs[m]].path)) by {
                    assert(cs.contains(cs[m]));
                    assert(children.contains(cs[m]));
                    let w = choose|w: int| 0 <= w < children.len() && children[w] == cs[m];
                    assert(child_edge(t.nodes[children[w]].path, t.nodes[i].path));
                    if i == 0 {
                        lemma_edge_dotted(t.nodes[cs[m]].path, t.nodes[i].path, rp);
                    } else {
                        assert(strict_descendant(t.nodes[i].path, rp));
                        lemma_edge_dotted(t.nodes[cs[m]].path, t.nodes[i].path, rp);
                    }
                }
                lemma_dot_paths_kids(t, f, s, cs, depth + 1, i + 1);
                lemma_paths_of_add(head, proj_kids(t, with_dotfilter(f), s, cs, depth + 1, i + 1));
                lemma_paths_of_add(head, proj_kids(t, f, s, cs, depth + 1, i + 1));
                Seq::filter_distributes_over_add(
                    paths_of(head),
                    paths_of(proj_kids(t, f, s, cs, depth + 1, i + 1)),
                    keep,
                );
                assert(paths_of(head).filter(keep) =~= paths_of(head));
            } else {
                assert(paths_of(proj_node(t, f, s, i, depth)).filter(keep) =~= paths_of(head));
            }
        },
        KindView::File => {
            assert(paths_of(proj_node(t, f, s, i, depth)).filter(keep) =~= paths_of(head));
        },
    }
}

/// The same, list of children by list of children: each in-range member is
/// dotted below the root exactly when its own leaf is dotted.
pub proof fn lemma_dot_paths_kids(
    t: TreeView,
    f: Filter,
    s: Sort,
    cs: Seq<int>,
    depth: int,
    lo: int,
)
    requires
        t.wf(),
        forall|m: int|
            0 <= m < cs.len() && 0 <= #[trigger] cs[m] < t.nodes.len() ==> (dotted_below(
                t.nodes[cs[m]].path,
                t.nodes[0].path,
            ) == is_dotted(t.nodes[cs[m]].path)),
    ensures
        paths_of(proj_kids(t, with_dotfilter(f), s, cs, depth, lo)) == paths_of(
            proj_kids(t, f, s, cs, depth, lo),
        ).filter(|p: Seq<char>| !dotted_below(p, t.nodes[0].path)),
    decreases t.nodes.len() - lo, cs.len() + 1,
{
    reveal(Seq::filter);
    let rp = t.nodes[0].path;
    let keep = |p: Seq<char>| !dotted_below(p, rp);
    if cs.len() == 0 || !(0 <= lo <= t.nodes.len()) {
        assert(paths_of(Seq::<ItemView>::empty()) =~= Seq::<Seq<char>>::empty());
        assert(Seq::<Seq<char>>::empty().filter(keep) =~= Seq::<Seq<char>>::empty());
    } else {
        let c = cs[0];
        assert forall|m: int|
            0 <= m < cs.drop_first().len() && 0 <= #[trigger] cs.drop_first()[m] < t.nodes.len()
            implies (dotted_below(t.nodes[cs.drop_first()[m]].path, rp) == is_dotted(
            t.nodes[cs.drop_first()[m]].path,
        )) by {
            assert(cs.drop_first()[m] == cs[m + 1]);
        }
        lemma_dot_paths_kids(t, f, s, cs.drop_first(), depth, lo);
        let rest2 = proj_kids(t, with_dotfilter(f), s, cs.drop_first(), depth, lo);
        let rest0 = proj_kids(t, f, s, cs.drop_first(), depth, lo);
        if lo <= c < t.nodes.len() {
            if should_display_spec(t, f, c) {
                let chunk0 = proj_node(t, f, s, c, depth);
                if is_dotted(t.nodes[c].path) {
                    // The dotted child is skipped with its whole subtree.
                    assert(!should_display_spec(t, with_dotfilter(f), c));
                    lemma_subtree_paths_node(t, f, s, c, depth);
                    assert forall|k: int| 0 <= k < paths_of(chunk0).len() implies !keep(
                        #[trigger] paths_of(chunk0)[k],
                    ) by {
                        assert(paths_of(chunk0)[k] == chunk0[k].path);
                        if chunk0[k].path == t.nodes[c].path {
                        } else {
                            lemma_dotted_desc(chunk0[k].path, t.nodes[c].path, rp);
                        }
                    }
                    lemma_filter_rejects_all(paths_of(chunk0), keep);
                    lemma_paths_of_add(chunk0, rest0);
                    Seq::filter_distributes_over_add(paths_of(chunk0), paths_of(rest0), keep);
                    assert(paths_of(proj_kids(t, with_dotfilter(f), s, cs, depth, lo))
                        =~= paths_of(proj_kids(t, f, s, cs, depth, lo)).filter(keep));
                } else {
                    assert(should_display_spec(t, with_dotfilter(f), c));
                    assert(!dotted_below(t.nodes[c].path, rp));
                    lemma_dot_paths_node(t, f, s, c, depth);
                    let chunk2 = proj_node(t, with_dotfilter(f), s, c, depth);
                    lemma_paths_of_add(chunk2, rest2);
                    lemma_paths_of_add(chunk0, rest0);
                    Seq::filter_distributes_over_add(paths_of(chunk0), paths_of(rest0), keep);
                    assert(paths_of(proj_kids(t, with_dotfilter(f), s, cs, depth, lo))
                        =~= paths_of(proj_kids(t, f, s, cs, depth, lo)).filter(keep));
                }
            } else {
                assert(!should_display_spec(t, with_dotfilter(f), c));
            }
        }
    }
}

/// The law: enabling the dotfile filter removes exactly the rows whose
/// leaf name, or the leaf name of an ancestor below the root, starts with a
/// dot — each dotted row disappears together with its entire subtree.
pub proof fn lemma_dotfilter_removes_dotted(t: TreeView, f: Filter, s: Sort)
    requires
        t.wf(),
    ensures
        paths_of(project(t, with_dotfilter(f), s)) == paths_of(project(t, f, s)).filter(
            |p: Seq<char>| !dotted_below(p, t.nodes[0].path),
        ),
{
    lemma_dot_paths_node(t, f, s, 0, 0);
}

// ------------------------------------------------------------------
// With nothing filtered and the alphabetical sort, the projection is the
// plain pre-order walk of the open directories, ordered by path
// ------------------------------------------------------------------
/// The filter that hides nothing.
pub open spec fn filter_none() -> Filter {
    Filter { directories: false, files: false, dotfiles: false }
}

/// `x` inserted into `l` by path comparison alone.
pub open spec fn alpha_insert(t: TreeView, x: int, l: Seq<int>) -> Seq<int>
    decreases l.len(),
{
    if l.len() == 0 {
        seq![x]
    } else if lex_le(t.nodes[x].path, t.nodes[l[0]].path) {
        seq![x] + l
    } else {
        seq![l[0]] + alpha_insert(t, x, l.drop_first())
    }
}

/// The children ordered by path comparison alone.
pub open spec fn alpha_sort(t: TreeView, l: Seq<int>) -> Seq<int>
    decreases l.len(),
{
    if l.len() == 0 {
        l
    } else {
        alpha_insert(t, l[0], alpha_sort(t, l.drop_first()))
    }
}

/// The plain pre-order walk from the node at `i`: every node is emitted, an
/// open directory's children follow it ordered by path string comparison,
/// and nothing is filtered.
pub open spec fn preorder_alpha_node(t: TreeView, i: int, depth: int) -> Seq<ItemView>
    decreases t.nodes.len() - i, 0int,
{
    if !(0 <= i < t.nodes.len()) {
        Seq::empty()
    } else {
        let head = seq![item_of(t, i, depth)];
        match t.nodes[i].kind {
            KindView::Directory { children, is_open, .. } => {
                if is_open {
                    head + preorder_alpha_kids(t, alpha_sort(t, children), depth + 1, i + 1)
                } else {
                    head
                }
            },
            KindView::File => head,
        }
    }
}

/// The walks of the children in `cs`, in order, none filtered.
pub open spec fn preorder_alpha_kids(t: TreeView, cs: Seq<int>, depth: int, lo: int) -> Seq<
    ItemView,
>
    decreases t.nodes.len() - lo, cs.len() + 1,
{
    if cs.len() == 0 || !(0 <= lo <= t.nodes.len()) {
        Seq::empty()
    } else {
        let c = cs[0];
        let rest = preorder_alpha_kids(t, cs.drop_first(), depth, lo);
        if lo <= c < t.nodes.len() {
            preorder_alpha_node(t, c, depth) + rest
        } else {
            rest
        }
    }
}

/// Inserting by the alphabetical sibling order is inserting by path.
pub proof fn lemma_alpha_insert_eq(t: TreeView, x: int, l: Seq<int>)
    ensures
        alpha_insert(t, x, l) == insert_sorted_spec(t, Sort::Alphabetical, x, l),
    decreases l.len(),
{
    if l.len() == 0 {
    } else {
        lemma_alpha_insert_eq(t, x, l.drop_first());
    }
}

/// Sorting by the alphabetical sibling order is sorting by path.
pub proof fn lemma_alpha_sort_eq(t: TreeView, l: Seq<int>)
    ensures
        alpha_sort(t, l) == sort_spec(t, Sort::Alphabetical, l),
    decreases l.len(),
{
    if l.len() == 0 {
    } else {
        lemma_alpha_sort_eq(t, l.drop_first());
        lemma_alpha_insert_eq(t, l[0], sort_spec(t, Sort::Alphabetical, l.drop_first()));
    }
}

/// With every filter off and the alphabetical sort, the projection of the
/// subtree at `i` is exactly its pre-order walk of open directories ordered
/// by path string comparison.
pub proof fn lemma_alpha_projection_node(t: TreeView, i: int, depth: int)
    ensures
        proj_node(t, filter_none(), Sort::Alphabetical, i, depth) == preorder_alpha_node(
            t,
            i,
            depth,
        ),
    decreases t.nodes.len() - i, 0int,
{
    if !(0 <= i < t.nodes.len()) {
    } else {
        match t.nodes[i].kind {
            KindView::Directory { children, is_open, .. } => {
                if is_open {
                    lemma_alpha_sort_eq(t, children);
                    lemma_alpha_projection_kids(
                        t,
                        sort_spec(t, Sort::Alphabetical, children),
                        depth + 1,
                        i + 1,
                    );
                }
            },
            KindView::File => {},
        }
    }
}

/// The same, list of children by list of children.
pub proof fn lemma_alpha_projection_kids(t: TreeView, cs: Seq<int>, depth: int, lo: int)
    ensures
        proj_kids(t, filter_none(), Sort::Alphabetical, cs, depth, lo) == preorder_alpha_kids(
            t,
            cs,
            depth,
            lo,
        ),
    decreases t.nodes.len() - lo, cs.len() + 1,
{
    if cs.len() == 0 || !(0 <= lo <= t.nodes.len()) {
    } else {
        let c = cs[0];
        lemma_alpha_projection_kids(t, cs.drop_first(), depth, lo);
        if lo <= c < t.nodes.len() {
            assert(should_display_spec(t, filter_none(), c));
            lemma_alpha_projection_node(t, c, depth);
        }
    }
}

/// The law at the top level: with filtering disabled and the alphabetical
/// sort, the whole display list is exactly the pre-order traversal of the
/// open directories, ordered by path string comparison.
pub proof fn lemma_alpha_projection(t: TreeView)
    ensures
        project(t, filter_none(), Sort::Alphabetical) == preorder_alpha_node(t, 0, 0),
{
    lemma_alpha_projection_node(t, 0, 0);
}

// ------------------------------------------------------------------
// Executable path helpers
// ------------------------------------------------------------------
/// The views of a list of node indices.
pub open spec fn idx_views(v: Seq<usize>) -> Seq<int> {
    v.map_values(|u: usize| u as int)
}

/// Compares two paths lexicographically by character code.
fn lex_le_exec(a: &str, b: &str) -> (r: bool)
    ensures
        r == lex_le(a@, b@),
{
    let na = a.unicode_len();
    let nb = b.unicode_len();
    let mut k: usize = 0;
    proof {
        assert(a@.skip(0) =~= a@);
        assert(b@.skip(0) =~= b@);
    }
    while k < na && k < nb
        invariant
            na as int == a@.len(),
            nb as int == b@.len(),
            k <= na,
            k <= nb,
            lex_le(a@, b@) == lex_le(a@.skip(k as int), b@.skip(k as int)),
        decreases na - k,
    {
        let ca = a.get_char(k);
        let cb = b.get_char(k);
        proof {
            assert(a@.skip(k as int)[0] == ca);
            assert(b@.skip(k as int)[0] == cb);
            assert(a@.skip(k as int).drop_first() =~= a@.skip(k as int + 1));
            assert(b@.skip(k as int).drop_first() =~= b@.skip(k as int + 1));
        }
        if ca != cb {
            return (ca as u32) < (cb as u32);
        }
        k += 1;
    }
    proof {
        if na <= nb {
            assert(a@.skip(k as int).len() == 0);
        } else {
            assert(b@.skip(k as int).len() == 0);
            assert(a@.skip(k as int).len() > 0);
        }
    }
    na <= nb
}

/// Finds where the leaf name of `path` starts.
pub fn leaf_start_exec(path: &str) -> (r: usize)
    ensures
        r as int == leaf_start(path@),
        r as int <= path@.len(),
{
    let n = path.unicode_len();
    let mut k = n;
    proof {
        assert(path@.take(n as int) =~= path@);
    }
    while k > 0
        invariant
            n as int == path@.len(),
            k <= n,
            leaf_start(path@) == leaf_start(path@.take(k as int)),
        decreases k,
    {
        let c = path.get_char(k - 1);
        proof {
            let p = path@.take(k as int);
            assert(p[p.len() - 1] == c);
            assert(p.drop_last() =~= path@.take(k as int - 1));
        }
        if c == '/' {
            proof {
                assert(leaf_start(path@.take(k as int)) == k as int);
            }
            return k;
        }
        k -= 1;
    }
    proof {
        assert(path@.take(0) =~= Seq::<char>::empty());
    }
    0
}

/// Extracts the leaf name of `path`.
fn leaf_name(path: &str) -> (r: String)
    ensures
        r@ == leaf_of(path@),
{
    let start = leaf_start_exec(path);
    let n = path.unicode_len();
    let s = path.substring_char(start, n);
    s.to_owned()
}

/// Whether the leaf name of `path` starts with a dot.
fn is_dotted_exec(path: &str) -> (r: bool)
    ensures
        r == is_dotted(path@),
{
    let start = leaf_start_exec(path);
    let n = path.unicode_len();
    if start < n {
        let c = path.get_char(start);
        c == '.'
    } else {
        false
    }
}

// ------------------------------------------------------------------
// The executable projector
// ------------------------------------------------------------------
/// Whether the node `handle` names passes the filter.
pub fn should_display(state: &StateManager, handle: &Handle, filter: &Filter) -> (r: bool)
    requires
        state.wf(),
        handle.generation == 0,
        (handle.index as int) < state@.nodes.len(),
    ensures
        r == should_display_spec(state@, *filter, handle.index as int),
{
    let node = match state.get_entry(handle) {
        Some(n) => n,
        None => {
            proof {
                assert(false);
            }
            return false;
        },
    };
    if filter.dotfiles && is_dotted_exec(node.path.as_str()) {
        return false;
    }
    match &node.kind {
        FsNodeKind::File => !filter.files,
        FsNodeKind::Directory { is_open, .. } => !(filter.directories && !*is_open),
    }
}

/// The sibling order between the nodes at indices `a` and `b`.
fn child_le_exec(state: &StateManager, s: &Sort, a: usize, b: usize) -> (r: bool)
    requires
        state.wf(),
        (a as int) < state@.nodes.len(),
        (b as int) < state@.nodes.len(),
    ensures
        r == child_le(state@, *s, a as int, b as int),
{
    let na = match state.get_entry(&Handle { index: a, generation: 0 }) {
        Some(n) => n,
        None => {
            proof {
                assert(false);
            }
            return true;
        },
    };
    let nb = match state.get_entry(&Handle { index: b, generation: 0 }) {
        Some(n) => n,
        None => {
            proof {
                assert(false);
            }
            return true;
        },
    };
    let a_dir = matches!(na.kind, FsNodeKind::Directory { .. });
    let b_dir = matches!(nb.kind, FsNodeKind::Directory { .. });
    match s {
        Sort::Directory => {
            if a_dir != b_dir {
                a_dir
            } else {
                lex_le_exec(na.path.as_str(), nb.path.as_str())
            }
        },
        Sort::File => {
            if a_dir != b_dir {
                b_dir
            } else {
                lex_le_exec(na.path.as_str(), nb.path.as_str())
            }
        },
        Sort::Alphabetical => lex_le_exec(na.path.as_str(), nb.path.as_str()),
    }
}

/// Where `x` belongs in the already sorted `out`: the first position whose
/// element `x` precedes.
fn find_insert_pos(state: &StateManager, s: &Sort, x: usize, out: &Vec<usize>) -> (pos: usize)
    requires
        state.wf(),
        (x as int) < state@.nodes.len(),
        forall|m: int| 0 <= m < out@.len() ==> (#[trigger] out@[m] as int) < state@.nodes.len(),
    ensures
        pos <= out@.len(),
        forall|m: int|
            0 <= m < pos ==> !child_le(state@, *s, x as int, #[trigger] out@[m] as int),
        (pos as int) < out@.len() ==> child_le(state@, *s, x as int, out@[pos as int] as int),
{
    let n = out.len();
    let mut j: usize = 0;
    while j < n
        invariant
            state.wf(),
            (x as int) < state@.nodes.len(),
            forall|m: int| 0 <= m < out@.len() ==> (#[trigger] out@[m] as int) < state@.nodes.len(),
            n as int == out@.len(),
            j <= n,
            forall|m: int|
                0 <= m < j ==> !child_le(state@, *s, x as int, #[trigger] out@[m] as int),
        decreases n - j,
    {
        if child_le_exec(state, s, x, out[j]) {
            return j;
        }
        j += 1;
    }
    n
}

/// Produces a freshly sorted copy of a directory's children under `sort`.
/// The sorted order is never written back into the tree.
pub fn sort_children(children: Vec<usize>, state: &StateManager, sort: &Sort) -> (r: Vec<usize>)
    requires
        state.wf(),
        forall|m: int|
            0 <= m < children@.len() ==> (#[trigger] children@[m] as int) < state@.nodes.len(),
    ensures
        idx_views(r@) == sort_spec(state@, *sort, idx_views(children@)),
        forall|m: int| 0 <= m < r@.len() ==> (#[trigger] r@[m] as int) < state@.nodes.len(),
{
    let ghost t = state@;
    let ghost l = idx_views(children@);
    let n = children.len();
    let mut out: Vec<usize> = Vec::new();
    let mut k = n;
    proof {
        assert(l.skip(n as int) =~= Seq::<int>::empty());
    }
    while k > 0
        invariant
            state.wf(),
            t == state@,
            l == idx_views(children@),
            n as int == children@.len(),
            forall|m: int| 0 <= m < children@.len() ==> (#[trigger] children@[m] as int)
                < t.nodes.len(),
            k <= n,
            idx_views(out@) == sort_spec(t, *sort, l.skip(k as int)),
            forall|m: int| 0 <= m < out@.len() ==> (#[trigger] out@[m] as int) < t.nodes.len(),
        decreases k,
    {
        k -= 1;
        let x = children[k];
        let pos = find_insert_pos(state, sort, x, &out);
        let ghost outv0 = out@;
        let ghost out0 = idx_views(out@);
        out.insert(pos, x);
        proof {
            assert forall|m: int| 0 <= m < pos implies !child_le(
                t,
                *sort,
                x as int,
                #[trigger] out0[m],
            ) by {
                assert(out0[m] == outv0[m] as int);
            }
            if (pos as int) < out0.len() {
                assert(out0[pos as int] == outv0[pos as int] as int);
            }
            lemma_insert_sorted_at(t, *sort, x as int, out0, pos as int);
            assert(out@ == outv0.insert(pos as int, x));
            assert(idx_views(out@) =~= out0.take(pos as int) + seq![x as int] + out0.skip(
                pos as int,
            ));
            assert(l.skip(k as int)[0] == x as int);
            assert(l.skip(k as int).drop_first() =~= l.skip(k as int + 1));
            assert(idx_views(out@) == sort_spec(t, *sort, l.skip(k as int)));
            assert forall|m: int| 0 <= m < out@.len() implies (#[trigger] out@[m] as int)
                < t.nodes.len() by {
                if m < pos {
                    assert(out@[m] == outv0[m]);
                } else if m == pos {
                    assert(out@[m] == x);
                } else {
                    assert(out@[m] == outv0[m - 1]);
                }
            }
        }
    }
    proof {
        assert(l.skip(0) =~= l);
    }
    out
}

/// Copies a children list into plain node indices.
fn copy_indices(children: &Vec<Handle>) -> (r: Vec<usize>)
    ensures
        idx_views(r@) == children@.map_values(|h: Handle| h.index as int),
{
    let n = children.len();
    let mut r: Vec<usize> = Vec::new();
    let mut k: usize = 0;
    while k < n
        invariant
            n as int == children@.len(),
            k <= n,
            r@.len() == k as int,
            forall|j: int| 0 <= j < k ==> #[trigger] r@[j] == children@[j].index,
        decreases n - k,
    {
        r.push(children[k].index);
        k += 1;
    }
    proof {
        assert(idx_views(r@) =~= children@.map_values(|h: Handle| h.index as int));
    }
    r
}

/// Emits the row for the node `handle` names and reports its kind snapshot
/// and its children (empty for files); misses — a stale or forged handle —
/// emit nothing and report `None`.
pub fn process_current_entry(
    state: &StateManager,
    handle: &Handle,
    depth: usize,
    items: &mut Vec<ViewItem>,
) -> (r: Option<(ViewItemKind, Vec<usize>)>)
    requires
        state.wf(),
    ensures
        (match r {
            Some(parts) => {
                &&& handle.generation == 0
                &&& (handle.index as int) < state@.nodes.len()
                &&& item_views(final(items)@) == item_views(old(items)@).push(
                    item_of(state@, handle.index as int, depth as int),
                )
                &&& parts.0 == item_of(state@, handle.index as int, depth as int).kind
                &&& (state@.nodes[handle.index as int].kind is Directory ==> idx_views(parts.1@)
                    == state@.kids(handle.index as int))
                &&& (state@.nodes[handle.index as int].kind is File ==> parts.1@.len() == 0)
            },
            None => {
                &&& !(handle.generation == 0 && (handle.index as int) < state@.nodes.len())
                &&& final(items)@ == old(items)@
            },
        }),
{
    let node = match state.get_entry(handle) {
        Some(n) => n,
        None => {
            return None;
        },
    };
    let name = leaf_name(node.path.as_str());
    let path = node.path.clone();
    let kind = match &node.kind {
        FsNodeKind::Directory { is_open, .. } => ViewItemKind::Directory { is_open: *is_open },
        FsNodeKind::File => ViewItemKind::File,
    };
    let children: Vec<usize> = match &node.kind {
        FsNodeKind::Directory { children, .. } => copy_indices(children),
        FsNodeKind::File => Vec::new(),
    };
    items.push(ViewItem { handle: *handle, name, path, kind, depth });
    proof {
        assert(item_views(items@) =~= item_views(old(items)@).push(
            item_of(state@, handle.index as int, depth as int),
        ));
    }
    Some((kind, children))
}

/// Walks the subtree `handle` names in pre-order, appending its projection
/// to `items`: the node's own row always, then — for an open directory — its
/// children, freshly sorted, each child filtered, a filtered child skipped
/// with its whole subtree.
pub fn collect_recursive(
    state: &StateManager,
    handle: Handle,
    depth: usize,
    items: &mut Vec<ViewItem>,
    filter: &Filter,
    sort: &Sort,
)
    requires
        state.wf(),
        handle.generation == 0,
        (handle.index as int) < state@.nodes.len(),
        depth <= handle.index,
    ensures
        item_views(final(items)@) == item_views(old(items)@) + proj_node(
            state@,
            *filter,
            *sort,
            handle.index as int,
            depth as int,
        ),
    decreases state@.nodes.len() - handle.index as int,
{
    let ghost t = state@;
    let ghost i = handle.index as int;
    let total = state.len();
    match process_current_entry(state, &handle, depth, items) {
        None => {
            proof {
                assert(false);
            }
        },
        Some((kind, children)) => {
            let open_dir = matches!(kind, ViewItemKind::Directory { is_open: true });
            if open_dir {
                proof {
                    assert(t.nodes[i].kind is Directory);
                    assert(t.node_wf(i));
                    assert forall|m: int| 0 <= m < children@.len() implies (
                    #[trigger] children@[m] as int) < t.nodes.len() by {
                        assert(idx_views(children@)[m] == t.kids(i)[m]);
                    }
                }
                let sorted = sort_children(children, state, sort);
                let ghost sv = sort_spec(t, *sort, t.kids(i));
                proof {
                    lemma_sort_contains(t, *sort, t.kids(i));
                    assert forall|m: int| 0 <= m < sv.len() implies i < #[trigger] sv[m]
                        < t.nodes.len() by {
                        assert(sv.contains(sv[m]));
                        assert(t.kids(i).contains(sv[m]));
                        let w = choose|w: int| 0 <= w < t.kids(i).len() && t.kids(i)[w] == sv[m];
                        assert(i < t.kids(i)[w] < t.nodes.len());
                    }
                }
                let n = sorted.len();
                let mut k: usize = 0;
                proof {
                    assert(sv.skip(0) =~= sv);
                }
                while k < n
                    invariant
                        state.wf(),
                        t == state@,
                        i == handle.index as int,
                        0 <= i < t.nodes.len(),
                        depth <= handle.index,
                        total as int == t.nodes.len(),
                        t.nodes[i].kind is Directory,
                        n as int == sorted@.len(),
                        idx_views(sorted@) == sv,
                        sv == sort_spec(t, *sort, t.kids(i)),
                        forall|m: int| 0 <= m < sv.len() ==> i < #[trigger] sv[m] < t.nodes.len(),
                        k <= n,
                        item_views(items@) + proj_kids(
                            t,
                            *filter,
                            *sort,
                            sv.skip(k as int),
                            depth as int + 1,
                            i + 1,
                        ) == item_views(old(items)@) + proj_node(
                            t,
                            *filter,
                            *sort,
                            i,
                            depth as int,
                        ),
                    decreases n - k,
                {
                    let ci = sorted[k];
                    let ch = Handle { index: ci, generation: 0 };
                    proof {
                        assert(idx_views(sorted@)[k as int] == ci as int);
                        assert(sv.skip(k as int)[0] == ci as int);
                        assert(sv.skip(k as int).drop_first() =~= sv.skip(k as int + 1));
                        assert(i < (ci as int) < t.nodes.len());
                    }
                    if should_display(state, &ch, filter) {
                        collect_recursive(state, ch, depth + 1, items, filter, sort);
                    }
                    k += 1;
                }
                proof {
                    assert(sv.skip(n as int) =~= Seq::<ItemView>::empty().map_values(
                        |it: ItemView| 0int,
                    ));
                    assert(sv.skip(n as int).len() == 0);
                }
            } else {
                proof {
                    assert(item_views(items@) == item_views(old(items)@) + proj_node(
                        t,
                        *filter,
                        *sort,
                        i,
                        depth as int,
                    ));
                }
            }
        },
    }
}

/// The full projection: the ordered, filtered display list for the current
/// tree state. Pure — it reads the tree and writes nothing back — and
/// deterministic in the tree snapshot, the filter and the sort, so it is
/// safe to re-run on every frame.
pub fn state_to_view(state: &StateManager, filter: &Filter, sort: &Sort) -> (items: Vec<ViewItem>)
    requires
        state.wf(),
    ensures
        item_views(items@) == project(state@, *filter, *sort),
{
    let mut items: Vec<ViewItem> = Vec::new();
    let root = state.root();
    proof {
        assert(item_views(Seq::<ViewItem>::empty()) =~= Seq::<ItemView>::empty());
    }
    collect_recursive(state, root, 0, &mut items, filter, sort);
    items
}

} // verus!
