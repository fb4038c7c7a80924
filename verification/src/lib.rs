//! Storage-neutral access to a position-ordered commit graph.
//!
//! An index implements [`PositionIndex`]: it gives out the entry of a commit by
//! its position, and the position of a commit by its identifier. The functions of
//! this crate answer questions about the graph by such reads: whether one commit
//! is an ancestor of another, which commits of a set are its heads, which are the
//! best common ancestors of two sets, and which are the heads of a filtered range.
//!
//! The contracts speak of [`position_index::IndexModel`], which says what the
//! index answers and which reads may fail. They hold of every graph. For a graph
//! in which parents have lower positions and generation numbers than their
//! children ([`graph::is_ordered`]) they also say what the result means in terms
//! of ancestors. The modules whose names end in `_laws` hold what follows.
pub mod adapter;
pub mod all_heads;
pub mod ancestor_laws;
pub mod ancestors;
pub mod answer_laws;
pub mod commit_laws;
pub mod commits;
pub mod common;
pub mod common_laws;
pub mod common_path_laws;
pub mod delta;
pub mod error;
mod frontier;
pub mod graph;
pub mod head_laws;
pub mod head_path_laws;
pub mod heads;
mod heap;
pub mod hex_util;
pub mod lookup;
pub mod model_laws;
pub mod object_id;
pub mod path_laws;
pub mod position;
pub mod position_index;
mod queue;
pub mod range;
pub mod range_answer_laws;
pub mod range_laws;
pub mod range_path_laws;
pub mod read_laws;
pub mod readable_laws;
pub mod recorder;
pub mod repo_path;
pub mod revset;
pub mod walk;
pub mod walk_laws;

pub use crate::adapter::PositionIndexAdapter;
pub use crate::all_heads::all_head_positions;
pub use crate::ancestors::{is_ancestor, is_ancestor_positions};
pub use crate::commits::{all_heads, common_ancestors, heads};
pub use crate::common::common_ancestor_positions;
pub use crate::delta::{ChangedPathRecord, IndexCommitRecord, IndexDelta};
pub use crate::error::{IndexError, IndexResult};
pub use crate::heads::heads_positions;
pub use crate::object_id::{ChangeId, CommitId, HexPrefix, PrefixResolution};
pub use crate::position::GlobalPosition;
pub use crate::position_index::{IndexGraphEntry, PositionIndex};
pub use crate::range::{heads_from_range_and_filter, search_range};
pub use crate::recorder::RecordedFilter;
pub use crate::repo_path::RepoPathBuf;
pub use crate::revset::evaluate_revset;
