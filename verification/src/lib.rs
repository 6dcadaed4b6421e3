//! A migration engine for a hierarchical configuration store.
//!
//! A configuration is a tree whose nodes are addressed by dotted paths such as
//! `settings.pki`. A migration moves such a tree from one schema version to
//! another by applying an ordered chain of small operations on the shape of the
//! tree.
//!
//! The functions of this crate are verified against contracts over a
//! mathematical model: a tree is a map from paths to node kinds, an operation
//! is a function on such maps, and a run is the fold of the operations of its
//! steps.
//!
//! - [`path`] and [`order`]: dotted paths and their order.
//! - [`model`] and [`tree`]: the model of a tree and the tree itself.
//! - [`operation`]: the operations and what they do to a tree.
//! - [`version`] and [`registry`]: versions, steps, and the steps between two
//!   versions.
//! - [`runner`]: the run of a migration.
//! - [`error`]: what can go wrong.

pub mod error;
pub mod model;
pub mod operation;
pub mod order;
pub mod path;
pub mod registry;
pub mod runner;
pub mod tree;
pub mod version;

pub use error::MigrationError;
pub use operation::MigrationOperation;
pub use order::Side;
pub use path::Path;
pub use registry::{MigrationStep, Registry};
pub use runner::{run_migration, MigrationOutcome, Phase, RunnerState};
pub use tree::{ConfigTree, Node};
pub use version::{Direction, Version};
