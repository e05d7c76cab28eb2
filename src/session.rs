//! The application side's grouping of delta entries by file. Entries arrive in
//! archive order, all deltas of one file together; a file is finished when an
//! entry for another file arrives, or when the archive ends.
use vstd::prelude::*;
use crate::delta::ChunkDelta;

verus! {

/// The deltas gathered so far for the file at `path`.
#[derive(Debug, Clone, PartialEq, Eq)]
pub struct PendingFile {
    pub path: Vec<u8>,
    pub deltas: Vec<ChunkDelta>,
}

/// Whether the pending file `p` is the file at `path`.
pub open spec fn continues(p: Option<PendingFile>, path: Seq<u8>) -> bool {
    p is Some && p->0.path@ == path
}

/// Takes the delta entry `delta` for the file at `path`. If it continues the
/// pending file it is added to it, and nothing is finished. Otherwise the
/// pending file, if any, is handed back as finished and a new pending file
/// starts with this delta.
pub fn push_delta(pending: &mut Option<PendingFile>, path: Vec<u8>, delta: ChunkDelta) -> (r: Option<PendingFile>)
    ensures
        (*final(pending)) is Some,
        (*final(pending))->0.path@ == path@,
        continues(*old(pending), path@) ==> r is None && (*final(pending))->0.deltas@ == (*old(pending))->0.deltas@.push(delta),
        !continues(*old(pending), path@) ==> r == *old(pending) && (*final(pending))->0.deltas@ == seq![delta],
{
    let same = match pending {
        Some(p) => crate::delta::bytes_equal(p.path.as_slice(), path.as_slice()),
        None => false,
    };
    if same {
        match pending {
            Some(p) => {
                p.deltas.push(delta);
            },
            None => {},
        }
        None
    } else {
        let mut deltas: Vec<ChunkDelta> = Vec::new();
        deltas.push(delta);
        let finished = pending.take();
        *pending = Some(PendingFile { path, deltas });
        finished
    }
}

} // verus!
