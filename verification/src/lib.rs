//! Disk usage as a chart of rings: the size tree of a directory, its layout
//! as arcs, and the way back from a point of the chart to the tree.
//!
//! The chart shows a directory as a disc. Its entries share the turn about
//! the disc in proportion to the bytes they hold, each directory among them
//! is divided in the same way one ring further out, and every file reaches
//! out to the outer radius.
//!
//! - [`tree`]: the size tree, in which every directory holds the sum of its
//!   entries.
//! - [`scan`]: what a scan decides while the tree is read from disk.
//! - [`geometry`]: the units of the chart and the radius of each ring.
//! - [`subdivide`]: the angles of the entries of one directory.
//! - [`layout`]: the arcs of a tree, in drawing order.
//! - [`pick`]: the node under a point of the chart.
//! - [`view`]: the place of the chart in its window, and what the pointer
//!   does to it.
//! - [`color`]: the colour sequence of the arcs.
//!
//! Every quantity is a whole number of fixed-point units, so that layouts are
//! exact: the arcs of a directory cover its angles without gap or overlap,
//! and a search at any point of an arc finds the node that the arc was drawn
//! for. Reading the disk, the window and the arithmetic of the screen are
//! left to the program that uses the library.

pub mod color;
pub mod geometry;
pub mod layout;
pub mod pick;
pub mod scan;
pub mod subdivide;
pub mod tree;
pub mod view;
