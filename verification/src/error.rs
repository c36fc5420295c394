//! What can go wrong with one artifact of a run.

use vstd::prelude::*;

verus! {

/// Why an artifact, named by its identifier, gave no findings or not all of
/// them. None of these ends the run.
#[derive(Debug, PartialEq, Eq)]
pub enum WalkError {
    /// The artifact has no syntax tree.
    MissingTree { artifact: String },
    /// The source map has no line table under the artifact's source path, so
    /// its findings have no positions.
    MissingLineTable { artifact: String, path: String },
    /// A detector failed at a node of the artifact's tree, and the walk over
    /// that tree stopped there. `node` is the node's place in document order,
    /// `detector` the detector's place in the registry.
    TraversalFailure { artifact: String, node: usize, detector: usize, message: String },
    /// The path of the artifact's tree gives no short name for its file.
    MalformedIdentity { artifact: String, path: String },
}

/// An error with its texts as sequences of characters.
pub enum WalkErrorView {
    MissingTree { artifact: Seq<char> },
    MissingLineTable { artifact: Seq<char>, path: Seq<char> },
    TraversalFailure { artifact: Seq<char>, node: usize, detector: usize, message: Seq<char> },
    MalformedIdentity { artifact: Seq<char>, path: Seq<char> },
}

impl View for WalkError {
    type V = WalkErrorView;

    open spec fn view(&self) -> WalkErrorView {
        match *self {
            WalkError::MissingTree { artifact } => WalkErrorView::MissingTree {
                artifact: artifact@,
            },
            WalkError::MissingLineTable { artifact, path } => WalkErrorView::MissingLineTable {
                artifact: artifact@,
                path: path@,
            },
            WalkError::TraversalFailure {
                artifact,
                node,
                detector,
                message,
            } => WalkErrorView::TraversalFailure {
                artifact: artifact@,
                node,
                detector,
                message: message@,
            },
            WalkError::MalformedIdentity { artifact, path } => WalkErrorView::MalformedIdentity {
                artifact: artifact@,
                path: path@,
            },
        }
    }
}

/// The errors of a list, in its order.
pub open spec fn error_views(errors: Seq<WalkError>) -> Seq<WalkErrorView> {
    Seq::new(errors.len(), |i: int| errors[i]@)
}

} // verus!
