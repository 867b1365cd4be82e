//! An in-memory model of a lazily explored filesystem subtree, for an
//! interactive browser: a generational slot arena giving stable references to
//! tree nodes, a lazily loaded directory tree built on it, a pure projection
//! of tree state into an ordered, filtered display list, and selection
//! tracking across structural changes.

pub mod arena;
pub mod fs;
pub mod input;
pub mod projection;
pub mod selection;
pub mod tree;
pub mod view;
