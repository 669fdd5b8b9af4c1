//! Sort enforcement for physical query plans.
//!
//! Given a tree of execution operators, the rewrite makes sure that every
//! operator receives its inputs in the order it asks for, using as few
//! sort operators as it can: sorts are added where an ordering is asked and
//! not met, sorts whose effect is already there or is not used are removed,
//! and, where that is asked for, a sort of a single coalesced stream is
//! turned into sorts of the partitions that are merged in order.
//!
//! The data:
//! - [`ordering`]: sort keys, ordering requirements, and what it means for
//!   an ordering to meet a requirement;
//! - [`model`]: the mathematical model of a plan and of the attributes of
//!   its nodes, over which every contract is stated;
//! - [`plan`] and [`attributes`]: plans as they are held in memory, and
//!   their attributes as they are computed;
//! - [`lineage`]: the lineage trees that record, for a slot of a node, the
//!   chain of operators down to the sorts or coalesces that can be removed.
//!
//! The rewrite:
//! - [`surgery`]: removing the operators at the leaves of a lineage tree,
//!   and placing a sort above a node;
//! - [`window`]: choosing the window evaluation that fits an input;
//! - [`enforce`]: the rewrite of one node, for sort enforcement and for
//!   sort parallelization;
//! - [`traversal`]: the bottom-up traversal that both passes share;
//! - [`optimizer`]: the two passes and the rule that runs them;
//! - [`engine`]: the calls into the execution engine that are taken on
//!   trust.
//!
//! What is proved of the rewrite:
//! - [`totality`]: it succeeds on every well-formed plan;
//! - [`asking`]: what a window asks of its input as the input changes;
//! - [`validity`], [`merging`], [`alignment`]: afterwards every input
//!   meets the ordering that the operator above it asks, where every
//!   window takes its partitions as sorted before and after;
//! - [`steadiness`]: windows that take their partitions as sorted over
//!   bounded sources stay so, hence on such plans every input meets the
//!   ordering asked of it afterwards;
//! - [`partitions`], [`positivity`]: an input of which a single partition
//!   is asked still yields one;
//! - [`sources`]: the rewritten plan reads the same sources;
//! - [`thinning`]: sort parallelization takes the coalesces that it tracks
//!   out of the plan;
//! - [`stability`]: a plan in which nothing is left to do is returned as it
//!   is;
//! - [`rerun`]: after sort enforcement nothing is left to do but to remove
//!   sorts that the rewrite itself has made redundant, so that a second
//!   run changes nothing where there is no such sort.

pub mod alignment;
pub mod asking;
pub mod attributes;
pub mod enforce;
pub mod engine;
pub mod error;
pub mod lineage;
pub mod merging;
pub mod model;
pub mod optimizer;
pub mod ordering;
pub mod partitions;
pub mod plan;
pub mod positivity;
pub mod rerun;
pub mod sources;
pub mod stability;
pub mod steadiness;
pub mod surgery;
pub mod thinning;
pub mod totality;
pub mod traversal;
pub mod validity;
pub mod window;
