//! The settings of a run, and the errors a run can end with.

use vstd::prelude::*;
use crate::graph::GraphError;
use crate::source::{default_branches, names_of, preference_list};

verus! {

/// std's `PathBuf`, carried through the run settings unread.
#[verifier::external_type_specification]
#[verifier::external_body]
pub struct ExPathBuf(std::path::PathBuf);

/// The settings of a run.
pub struct RegenOptions {
    /// Branches to try before the fallback, in order.
    pub branches: Option<Vec<String>>,
    /// A local overlay of the product map, if any.
    pub local_yaml: Option<std::path::PathBuf>,
    /// Where working copies are kept, one directory per product.
    pub clone_root: String,
    /// Where products are installed, under `<product>/<version>`.
    pub install_root: String,
    /// The version every product is built and declared as.
    pub version: String,
    /// The build tool to run.
    pub build_tool: String,
    /// The tag to declare products with, if any.
    pub tag: Option<String>,
    /// Where the remote product map is fetched from.
    pub remote_package_url: String,
}

impl RegenOptions {
    /// The run's ref preference list: the given branches, then `master`.
    pub fn branch_preference(&self) -> (r: Vec<String>)
        ensures
            names_of(r@) == preference_list(
                match self.branches {
                    Some(b) => Some(names_of(b@)),
                    None => None,
                },
            ),
    {
        default_branches(&self.branches)
    }
}

/// The ways a run can fail; each carries what it concerns.
#[derive(Debug)]
pub enum RegenError {
    /// The remote product map could not be fetched or parsed.
    RemoteMapUnavailable(String),
    /// Neither map gives a URL for the product.
    UnknownProduct(String),
    /// A working copy could not be cloned.
    CloneFailed(String),
    /// A working copy could not be opened, nor cloned anew.
    OpenFailed(String),
    /// No candidate ref could be checked out for the product.
    NoMatchingRef(String),
    /// A table could not be read or parsed.
    TableParseError(String),
    /// A graph operation named a product that is not a node.
    UnknownNode(String),
    /// A dependency's declared table was not found in the database.
    UndeclaredDependency(String),
    /// The build tool failed on a product and verb; `status` is its exit
    /// status, if it ran at all.
    BuildToolFailure { product: String, verb: String, status: Option<i32> },
    /// A file system operation failed.
    IOFailure(String),
}

impl RegenError {
    /// The run error for a graph error.
    pub fn from_graph(e: GraphError) -> (r: RegenError)
        ensures
            match e {
                GraphError::UnknownNode(n) => r matches RegenError::UnknownNode(m) && m@ == n@,
            },
    {
        match e {
            GraphError::UnknownNode(n) => RegenError::UnknownNode(n),
        }
    }
}

} // verus!
