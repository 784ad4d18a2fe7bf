//! The error taxonomy shared by the graph, the map and the path search.
//! Every fallible operation reports one of these to its immediate caller;
//! nothing here aborts the process.

use vstd::prelude::*;

verus! {

/// Reported outcome of a failed operation.
#[derive(Debug, Clone, Copy, PartialEq, Eq, Structural)]
pub enum MapError {
    /// An entity was inserted where an equal one already exists: a hex at
    /// an occupied coordinate, a river over an existing side pair, or a
    /// graph node id already present.
    DuplicateEntity,
    /// A referenced entity is absent: a neighbor id not yet in the graph,
    /// a river side without a matching hex, removal of an absent node, or
    /// a weight entry missing during the path search.
    MissingEntity,
    /// A river's two sides are not adjacent hexes.
    InvalidGeometry,
    /// An internal consistency check failed; with a well-formed map this
    /// is never reported.
    InternalInconsistency,
}

impl MapError {
    /// A short human-readable description of the error.
    pub fn describe(&self) -> (r: &'static str)
        ensures
            r@ =~= match self {
                MapError::DuplicateEntity => "duplicate entity"@,
                MapError::MissingEntity => "missing entity"@,
                MapError::InvalidGeometry => "invalid geometry"@,
                MapError::InternalInconsistency => "internal inconsistency"@,
            },
    {
        match self {
            MapError::DuplicateEntity => "duplicate entity",
            MapError::MissingEntity => "missing entity",
            MapError::InvalidGeometry => "invalid geometry",
            MapError::InternalInconsistency => "internal inconsistency",
        }
    }
}

} // verus!
