//! What a launch of an optimization is handed: where to write its detailed
//! reports, and the objective function held for evaluation on a runtime.
use vstd::prelude::*;
use std::path::PathBuf;
use std::sync::Arc;

verus! {

/// A path of the file system, carried through unchanged.
#[verifier::external_type_specification]
#[verifier::external_body]
pub struct ExPathBuf(PathBuf);

/// Where the detailed report of every evaluation, and the best value seen,
/// are written.
pub struct DetailedReportingFileInfo {
    pub detailed_report_file_path: PathBuf,
    pub best_seen_file_path: PathBuf,
}

/// An objective function shared between the evaluations that run at once.
pub struct AsyncObjectiveFunctionImpl<F> {
    pub obj_func: Arc<F>,
}

impl<F> AsyncObjectiveFunctionImpl<F> {
    /// Holds the objective function for shared use.
    pub fn wrap(obj_func: F) -> (r: AsyncObjectiveFunctionImpl<F>)
        ensures
            *r.obj_func == obj_func,
    {
        AsyncObjectiveFunctionImpl { obj_func: Arc::new(obj_func) }
    }
}

} // verus!
