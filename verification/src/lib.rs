//! Intrusive circular doubly-linked lists over an index arena.
//!
//! Every node lives in an [`Arena`] and is named by its position there. The
//! two links of a node are positions too, so a ring of nodes needs no shared
//! ownership. Any node may serve as the sentinel of a list: the list at a
//! sentinel is the sequence of nodes that follow it around its ring.
//!
//! The operations are associated functions of [`ListHead`]; each takes the
//! arena first. Their contracts speak of the arena's view, a sequence of
//! nodes, in two ways: link by link, through the functions of [`links`],
//! and list by list, through [`ring::list_of`].
//!
//! - [`arena`]: the node store.
//! - [`links`]: the model of the store, what it means that it is
//!   consistent, and the store that each operation produces.
//! - [`ring`]: lists as sequences of nodes.
//! - [`effects`]: what each operation does to the lists.
//! - [`list`]: the basic linkage operations, and splicing.
//! - [`order`]: comparators.
//! - [`sorting`]: what a merge and a stable sort of sequences are.
//! - [`merge`] and [`sort`]: the two-way merge and the merge sort of lists.
//! - [`laws`]: what holds of the operations taken together.

pub mod arena;
pub mod effects;
pub mod laws;
pub mod links;
pub mod list;
pub mod merge;
mod merging;
pub mod order;
pub mod ring;
mod runs;
pub mod sort;
pub mod sorting;

pub use arena::Arena;
pub use links::ListHead;
pub use order::cmp_func;
