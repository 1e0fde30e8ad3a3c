//! A retained-mode, statically-typed view-tree rendering and reconciliation
//! engine over a verified arena-backed node tree.
//!
//! A view value describes what should be displayed now.  Building it turns
//! it into retained state plus backend nodes; rebuilding consumes a new
//! view value of the same static shape and updates the retained state in
//! place, touching the backend only where the value actually changed.
//! Every combinator's build and rebuild carries a contract saying exactly
//! what it renders and which nodes it may touch, and the structural
//! combinators — optional, fallible, two-way-branching, list, tuple and
//! type-erased views — are proved to splice replacement nodes into exactly
//! the position the replaced ones occupied.

pub mod any_view;
pub mod context;
pub mod dom;
pub mod either;
pub mod erased;
pub mod error_boundary;
pub mod fragment;
pub mod iterators;
pub mod keep_alive;
pub mod oco;
pub mod owned;
pub mod primitives;
pub mod reactive_graph;
pub mod serde_lite;
pub mod strings;
pub mod suspense;
pub mod tuples;
pub mod view;

use vstd::prelude::*;

verus! {

} // verus!
