//! The round-trip law.

use crate::value::lemma_norm_identity;
use crate::value::norm;
use crate::value::wf;
use crate::value::ValueV;
use crate::wire::sdecode;
use vstd::prelude::*;

verus! {

/// Round trip: bytes that read as a well-formed value tree decode to
/// exactly that tree. The encoder promises `sdecode(out) == Some((v, len))`
/// for the bytes it emits and the decoder returns `norm` of what the bytes
/// read as, so decoding an encoding of any well-formed value — unique keys
/// in every property list — yields the value back, structurally equal.
pub proof fn lemma_round_trip(b: Seq<u8>, v: ValueV, n: int)
    requires
        wf(v),
        sdecode(b) == Some((v, n)),
    ensures
        norm(sdecode(b).unwrap().0) == v,
{
    lemma_norm_identity(v);
}

} // verus!
