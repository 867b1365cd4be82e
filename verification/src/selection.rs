use crate::arena::Handle;
use crate::fs::{
    ChildEntry, EntryView, FsNodeKind, StateManager, TreeView, close_at, entry_views, has_path,
    is_open_at, set_open_spec, toggle_open_spec,
};
use crate::projection::leaf_start;
use crate::view::ViewItem;
use vstd::prelude::*;

verus! {

// ------------------------------------------------------------------
// Moving the selection by list position
// ------------------------------------------------------------------
/// The four ways a command can move the selection within the display list.
#[derive(Clone, Copy, Debug, PartialEq, Eq, Structural)]
pub enum SelectionMove {
    Up,
    Down,
    First,
    Last,
}

/// Where the selection lands: one step up or down, clamped to the list, or
/// its first or last row; an empty list pins it to 0.
pub open spec fn move_selection_spec(selected: int, len: int, m: SelectionMove) -> int {
    if len <= 0 {
        0
    } else {
        match m {
            SelectionMove::Up => {
                if selected <= 0 {
                    0
                } else if selected >= len {
                    len - 1
                } else {
                    selected - 1
                }
            },
            SelectionMove::Down => {
                if selected + 1 >= len {
                    len - 1
                } else {
                    selected + 1
                }
            },
            SelectionMove::First => 0,
            SelectionMove::Last => len - 1,
        }
    }
}

/// Moves the selection within a display list of `len` rows.
pub fn move_selection(selected: usize, len: usize, m: SelectionMove) -> (r: usize)
    ensures
        r as int == move_selection_spec(selected as int, len as int, m),
        len > 0 ==> r < len,
{
    if len == 0 {
        return 0;
    }
    match m {
        SelectionMove::Up => {
            if selected == 0 {
                0
            } else if selected >= len {
                len - 1
            } else {
                selected - 1
            }
        },
        SelectionMove::Down => {
            if selected >= len - 1 {
                len - 1
            } else {
                selected + 1
            }
        },
        SelectionMove::First => 0,
        SelectionMove::Last => len - 1,
    }
}

// ------------------------------------------------------------------
// Re-resolving the selection after a re-projection
// ------------------------------------------------------------------
/// The first row whose node index matches, if any.
pub open spec fn first_at_index(items: Seq<ViewItem>, idx: int) -> Option<int>
    decreases items.len(),
{
    if items.len() == 0 {
        None
    } else if items[0].handle.index as int == idx {
        Some(0)
    } else {
        match first_at_index(items.drop_first(), idx) {
            Some(i) => Some(i + 1),
            None => None,
        }
    }
}

/// The first row carrying exactly this path, if any.
pub open spec fn first_at_path(items: Seq<ViewItem>, p: Seq<char>) -> Option<int>
    decreases items.len(),
{
    if items.len() == 0 {
        None
    } else if items[0].path@ == p {
        Some(0)
    } else {
        match first_at_path(items.drop_first(), p) {
            Some(i) => Some(i + 1),
            None => None,
        }
    }
}

/// Walking up from `p`: the row of the nearest ancestor (or of `p` itself)
/// still present in the list, and row 0 when no ancestor is left — which
/// cannot happen in a real projection, where the root is always present.
pub open spec fn nearest_present_spec(items: Seq<ViewItem>, p: Seq<char>) -> int
    decreases p.len(),
{
    match first_at_path(items, p) {
        Some(ix) => ix,
        None => {
            if leaf_start(p) <= 0 || leaf_start(p) > p.len() {
                0
            } else {
                nearest_present_spec(items, p.take(leaf_start(p) - 1))
            }
        },
    }
}

/// Where the selection lands after a re-projection: the row of the same node
/// when it is still shown; else the row of the nearest ancestor, found by
/// walking the selected node's path upwards; else row 0.
pub open spec fn remap_selection_spec(items: Seq<ViewItem>, h: Handle, p: Seq<char>) -> int {
    match first_at_index(items, h.index as int) {
        Some(ix) => ix,
        None => {
            if leaf_start(p) <= 0 || leaf_start(p) > p.len() {
                0
            } else {
                nearest_present_spec(items, p.take(leaf_start(p) - 1))
            }
        },
    }
}

/// What `first_at_index` means, row by row: it is the first match.
pub proof fn lemma_first_at_index(items: Seq<ViewItem>, idx: int)
    ensures
        (match first_at_index(items, idx) {
            Some(ix) => 0 <= ix < items.len() && items[ix].handle.index as int == idx
                && (forall|m: int| 0 <= m < ix ==> (#[trigger] items[m].handle.index as int) != idx),
            None => forall|m: int|
                0 <= m < items.len() ==> (#[trigger] items[m].handle.index as int) != idx,
        }),
    decreases items.len(),
{
    if items.len() == 0 {
    } else {
        lemma_first_at_index(items.drop_first(), idx);
        assert forall|m: int| 1 <= m < items.len() implies items.drop_first()[m - 1] == items[m] by {}
    }
}

/// What `first_at_path` means, row by row: it is the first match.
pub proof fn lemma_first_at_path(items: Seq<ViewItem>, p: Seq<char>)
    ensures
        (match first_at_path(items, p) {
            Some(ix) => 0 <= ix < items.len() && items[ix].path@ == p && (forall|m: int|
                0 <= m < ix ==> (#[trigger] items[m].path@) != p),
            None => forall|m: int| 0 <= m < items.len() ==> (#[trigger] items[m].path@) != p,
        }),
    decreases items.len(),
{
    if items.len() == 0 {
    } else {
        lemma_first_at_path(items.drop_first(), p);
        assert forall|m: int| 1 <= m < items.len() implies items.drop_first()[m - 1] == items[m] by {}
    }
}

/// Finds the first row whose node index matches, scanning from the top.
fn find_by_index(items: &Vec<ViewItem>, idx: usize) -> (r: Option<usize>)
    ensures
        (match r {
            Some(ix) => first_at_index(items@, idx as int) == Some(ix as int) && (ix as int)
                < items@.len(),
            None => first_at_index(items@, idx as int) is None,
        }),
{
    proof {
        lemma_first_at_index(items@, idx as int);
    }
    let n = items.len();
    let mut k: usize = 0;
    while k < n
        invariant
            n as int == items@.len(),
            k <= n,
            forall|m: int| 0 <= m < k ==> (#[trigger] items@[m].handle.index as int) != idx as int,
        decreases n - k,
    {
        if items[k].handle.index == idx {
            proof {
                lemma_first_at_index(items@, idx as int);
            }
            return Some(k);
        }
        k += 1;
    }
    None
}

/// Finds the first row carrying exactly this path, scanning from the top.
fn find_by_path(items: &Vec<ViewItem>, p: &str) -> (r: Option<usize>)
    ensures
        (match r {
            Some(ix) => first_at_path(items@, p@) == Some(ix as int) && (ix as int)
                < items@.len(),
            None => first_at_path(items@, p@) is None,
        }),
{
    proof {
        lemma_first_at_path(items@, p@);
    }
    let probe = p.to_owned();
    let n = items.len();
    let mut k: usize = 0;
    while k < n
        invariant
            n as int == items@.len(),
            probe@ == p@,
            k <= n,
            forall|m: int| 0 <= m < k ==> (#[trigger] items@[m].path@) != p@,
        decreases n - k,
    {
        if items[k].path == probe {
            proof {
                lemma_first_at_path(items@, p@);
            }
            return Some(k);
        }
        k += 1;
    }
    None
}

/// Cuts the leaf name and its separator off `p`; `None` when `p` has no
/// separator to cut at.
fn parent_path(p: &str) -> (r: Option<String>)
    ensures
        (match r {
            Some(pp) => 0 < leaf_start(p@) <= p@.len() && pp@ == p@.take(leaf_start(p@) - 1),
            None => leaf_start(p@) <= 0 || leaf_start(p@) > p@.len(),
        }),
{
    let start = crate::projection::leaf_start_exec(p);
    if start == 0 {
        return None;
    }
    let s = p.substring_char(0, start - 1);
    proof {
        assert(s@ =~= p@.take(leaf_start(p@) - 1));
    }
    Some(s.to_owned())
}

/// Re-resolves the selection after the display list has been rebuilt: the
/// same node when it is still shown, else the nearest ancestor on its path
/// that is, else row 0. The result is a row of the new list whenever the
/// list is not empty.
pub fn remap_selection(items: &Vec<ViewItem>, prev_handle: &Handle, prev_path: &str) -> (r: usize)
    ensures
        r as int == remap_selection_spec(items@, *prev_handle, prev_path@),
        items@.len() > 0 ==> (r as int) < items@.len(),
{
    if let Some(ix) = find_by_index(items, prev_handle.index) {
        return ix;
    }
    let mut cur: String = match parent_path(prev_path) {
        Some(pp) => pp,
        None => {
            return 0;
        },
    };
    loop
        invariant
            remap_selection_spec(items@, *prev_handle, prev_path@) == nearest_present_spec(
                items@,
                cur@,
            ),
        decreases cur@.len(),
    {
        if let Some(ix) = find_by_path(items, cur.as_str()) {
            return ix;
        }
        cur = match parent_path(cur.as_str()) {
            Some(pp) => pp,
            None => {
                return 0;
            },
        };
    }
}

// ------------------------------------------------------------------
// The two commands that mutate the tree from a selection
// ------------------------------------------------------------------
/// The index of the node carrying `p` — under soundness there is at most
/// one.
pub open spec fn path_index(t: TreeView, p: Seq<char>) -> int {
    choose|i: int| 0 <= i < t.nodes.len() && t.nodes[i].path == p
}

/// What the close-nearest command does. When the selected row is an open
/// directory, it is closed in place and the selection stays on it; otherwise
/// the selected row's parent is closed and the selection moves up to the
/// parent's row — the one command that moves the selection structurally
/// rather than by list position. Out-of-range selections, rows without a
/// parent, and parents not on display change nothing.
pub open spec fn close_nearest_spec(t: TreeView, items: Seq<ViewItem>, sel: int) -> (TreeView, int) {
    if !(0 <= sel < items.len()) {
        (t, sel)
    } else {
        let h = items[sel].handle;
        if is_open_at(t, h) {
            (close_at(t, h.index as int), sel)
        } else {
            let p = items[sel].path@;
            if leaf_start(p) <= 0 || leaf_start(p) > p.len() {
                (t, sel)
            } else {
                let pp = p.take(leaf_start(p) - 1);
                match first_at_path(items, pp) {
                    None => (t, sel),
                    Some(ix) => ((if has_path(t, pp) {
                        close_at(t, path_index(t, pp))
                    } else {
                        t
                    }), ix),
                }
            }
        }
    }
}

/// Toggles the directory on the selected row, loading its children from
/// `listing` when it opens for the first time; an out-of-range selection
/// changes nothing.
pub fn toggle_folder(
    state: &mut StateManager,
    items: &Vec<ViewItem>,
    selected: usize,
    listing: Vec<ChildEntry>,
)
    requires
        old(state).wf(),
    ensures
        final(state).wf(),
        (selected as int) < items@.len() ==> final(state)@ == toggle_open_spec(
            old(state)@,
            items@[selected as int].handle,
            entry_views(listing@),
        ),
        (selected as int) >= items@.len() ==> final(state)@ == old(state)@,
{
    if selected >= items.len() {
        return;
    }
    let h = items[selected].handle;
    state.toggle_open(h, listing);
}

/// Runs the close-nearest command and returns the new selection row: an open
/// directory is closed in place, anything else closes its parent and moves
/// the selection to the parent's row.
pub fn close_nearest(state: &mut StateManager, items: &Vec<ViewItem>, selected: usize) -> (r:
    usize)
    requires
        old(state).wf(),
    ensures
        final(state).wf(),
        final(state)@ == close_nearest_spec(old(state)@, items@, selected as int).0,
        r as int == close_nearest_spec(old(state)@, items@, selected as int).1,
{
    let ghost t0 = state@;
    if selected >= items.len() {
        return selected;
    }
    let h = items[selected].handle;
    let open_dir = match state.get_entry(&h) {
        Some(n) => matches!(n.kind, FsNodeKind::Directory { is_open: true, .. }),
        None => false,
    };
    proof {
        assert(open_dir == is_open_at(t0, h));
    }
    if open_dir {
        let none: Vec<ChildEntry> = Vec::new();
        state.set_open(h, false, none);
        proof {
            assert(entry_views(Seq::<ChildEntry>::empty()) =~= Seq::<EntryView>::empty());
            assert(state@ == close_at(t0, h.index as int));
        }
        return selected;
    }
    let pp = match parent_path(items[selected].path.as_str()) {
        Some(pp) => pp,
        None => {
            return selected;
        },
    };
    let ix = match find_by_path(items, pp.as_str()) {
        Some(ix) => ix,
        None => {
            return selected;
        },
    };
    match state.lookup(pp.as_str()) {
        Some(ph) => {
            let none: Vec<ChildEntry> = Vec::new();
            state.set_open(ph, false, none);
            proof {
                assert(entry_views(Seq::<ChildEntry>::empty()) =~= Seq::<EntryView>::empty());
                assert(has_path(t0, pp@));
                let i0 = path_index(t0, pp@);
                assert(0 <= i0 < t0.nodes.len() && t0.nodes[i0].path == pp@);
                if i0 != ph.index as int {
                    assert(t0.nodes[i0].path == t0.nodes[ph.index as int].path);
                    assert(false);
                }
                assert(state@ == close_at(t0, path_index(t0, pp@)));
            }
            ix
        },
        None => {
            proof {
                assert(!has_path(t0, pp@));
            }
            ix
        },
    }
}

} // verus!