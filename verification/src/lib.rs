//! Verified core of a robot-exploration simulator driven by a
//! rapidly-exploring random tree (RRT): pixel-grid geometry and shapes,
//! the simulator's frame-buffer rules, command protocol and run
//! bookkeeping, the environment's obstacles, the RRT's tree bookkeeping
//! and navigation decisions, the pruning rewards of the training loop,
//! the Weisfeiler-Lehman labels of the tree, and the text and image
//! encodings handed to other programs.

pub mod api;
pub mod colors;
pub mod env;
pub mod frame;
pub mod grid;
pub mod image;
pub mod json;
pub mod nav;
pub mod opts;
pub mod session;
pub mod shapes;
pub mod train;
pub mod tree;
pub mod text;
pub mod wl;
