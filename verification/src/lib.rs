//! Shared ownership with explicit bookkeeping.
//!
//! The core is a small runtime for data that has several owners at once:
//!
//! - [`owner_cell`]: cells kept alive by counted strong handles and observed
//!   through counted weak handles, with a release hook that fires once when
//!   the last strong handle is given up; [`owner_laws`] states what holds of
//!   every sequence of clones and releases.
//! - [`access_cell`]: a value behind a borrow state that admits many readers
//!   or one writer, checked when a borrow is requested.
//! - [`wrapper`]: a wrapper that shows the wrapped value as if it were not
//!   wrapped.
//! - [`shared_list`]: persistent lists that share their tails.
//! - [`node_graph`]: trees in which parents own their children and children
//!   only observe their parents; [`graph_laws`] states what that buys.
//! - [`cyclic_list`]: lists with redirectable strong links, in which a cycle
//!   leaks.
//!
//! Beside it stand a few small worked examples: [`blog`], [`rect`],
//! [`units`], [`outline`], [`callables`], [`animals`] and [`guessing`].

pub mod access_cell;
pub mod animals;
pub mod blog;
pub mod callables;
pub mod cyclic_list;
pub mod fault;
pub mod graph_laws;
pub mod guessing;
pub mod node_graph;
pub mod outline;
pub mod owner_cell;
pub mod owner_laws;
pub mod rect;
pub mod shared_list;
pub mod units;
pub mod wrapper;
