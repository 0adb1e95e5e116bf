use vstd::prelude::*;

verus! {

/// Failure kinds raised by the embedding core.
///
/// `InvalidBitDepth` rejects a bit-depth parameter outside `[1, 32]`.
/// `InsufficientCapacity` rejects a frame that does not fit the mesh's
/// bit capacity; it is raised before any vertex is touched.
/// `QueueOverflow` and `PayloadUnderrun` signal protocol violations in
/// the streaming codecs: pushing a bit with no free slot, or a
/// non-repeating byte source running dry before the declared frame
/// length was reached.
#[derive(Clone, Copy, Debug, PartialEq, Eq, Structural)]
pub enum StegoError {
    InvalidBitDepth,
    InsufficientCapacity,
    QueueOverflow,
    PayloadUnderrun,
}

impl StegoError {
    /// A short human-readable description of the failure.
    pub fn describe(&self) -> (r: &'static str)
        ensures
            r@.len() > 0,
    {
        let r = match self {
            StegoError::InvalidBitDepth => "bit depth must lie between 1 and 32",
            StegoError::InsufficientCapacity => "frame exceeds the mesh's embedding capacity",
            StegoError::QueueOverflow => "bit pushed into a full queue",
            StegoError::PayloadUnderrun => "byte source ran dry before the declared length",
        };
        proof {
            reveal_strlit("bit depth must lie between 1 and 32");
            reveal_strlit("frame exceeds the mesh's embedding capacity");
            reveal_strlit("bit pushed into a full queue");
            reveal_strlit("byte source ran dry before the declared length");
        }
        r
    }
}

} // verus!
