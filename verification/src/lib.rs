//! Tracker for a tree of named units of work ("goals").
//!
//! A goal is a named node with a lifecycle status; goals form one tree per
//! run, anchored at a parentless root.  The shared registry (the holder)
//! owns identity allocation, the name index, the status table and the
//! parent/child graph, and answers aggregate queries over subtrees.

pub mod goal;
pub mod holder;
pub mod status;
pub mod view;
