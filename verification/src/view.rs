use crate::arena::Handle;
use vstd::prelude::*;

verus! {

/// One row of projected output: the node's handle, its leaf name, its full
/// path, a snapshot of its kind, and its depth below the root (used for
/// indentation). Rebuilt on every projection, never stored.
pub struct ViewItem {
    pub handle: Handle,
    pub name: String,
    pub path: String,
    pub kind: ViewItemKind,
    pub depth: usize,
}

/// The kind snapshot a [`ViewItem`] carries.
#[derive(Clone, Copy, Debug, PartialEq, Eq, Structural)]
pub enum ViewItemKind {
    Directory { is_open: bool },
    File,
}

/// The mathematical value of a [`ViewItem`]: the handle is reduced to the
/// node index it names.
pub ghost struct ItemView {
    pub index: int,
    pub name: Seq<char>,
    pub path: Seq<char>,
    pub kind: ViewItemKind,
    pub depth: int,
}

impl View for ViewItem {
    type V = ItemView;

    open spec fn view(&self) -> ItemView {
        ItemView {
            index: self.handle.index as int,
            name: self.name@,
            path: self.path@,
            kind: self.kind,
            depth: self.depth as int,
        }
    }
}

/// The views of a projected list, row by row.
pub open spec fn item_views(l: Seq<ViewItem>) -> Seq<ItemView> {
    l.map_values(|it: ViewItem| it@)
}

/// The order in which siblings are shown. It is applied at projection time
/// only and never written back into the tree.
#[derive(Clone, Copy, Debug, PartialEq, Eq, Structural)]
pub enum Sort {
    /// Directories before files, ties broken by path.
    Directory,
    /// Files before directories, ties broken by path.
    File,
    /// By path alone, ignoring kind.
    Alphabetical,
}

impl Default for Sort {
    /// The default order puts directories first.
    fn default() -> (r: Sort)
        ensures
            r == Sort::Directory,
    {
        Sort::Directory
    }
}

/// Which rows are hidden. The three switches are independent and combine
/// conjunctively: a node must pass every enabled one to be shown.
#[derive(Clone, Copy, Debug, PartialEq, Eq, Structural)]
pub struct Filter {
    /// Hide directories — but only while they are closed: an open directory
    /// is being explored and stays visible.
    pub directories: bool,
    /// Hide files.
    pub files: bool,
    /// Hide nodes whose leaf name starts with a dot, and with them their
    /// whole subtrees.
    pub dotfiles: bool,
}

impl Default for Filter {
    /// The default filter hides nothing.
    fn default() -> (r: Filter)
        ensures
            r == (Filter { directories: false, files: false, dotfiles: false }),
    {
        Filter { directories: false, files: false, dotfiles: false }
    }
}

/// Names one of the three filter switches, for toggle commands.
#[derive(Clone, Copy, Debug, PartialEq, Eq, Structural)]
pub enum FilterType {
    Directory,
    File,
    Dotfile,
}

} // verus!
