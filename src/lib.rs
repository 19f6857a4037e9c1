//! Source-build orchestration for a federation of products kept in separate
//! repositories: where each product is cloned from, which ref is checked out,
//! how the dependency graph is walked, how a closure is fingerprinted, and
//! which steps an install takes.

pub mod checkout;
pub mod graph;
pub mod identity;
pub mod install;
pub mod options;
pub mod resolve;
pub mod source;
pub mod walk;

pub use checkout::{Checkout, CheckoutAction, Probe};
pub use graph::{DepGraph, GraphError, NodeKind};
pub use install::{InstallAction, Installer, Phase};
pub use options::{RegenError, RegenOptions};
pub use resolve::{ResolveStep, Resolver};
pub use source::{ProductMap, RepoEntry, RepoSourceWrapper};
