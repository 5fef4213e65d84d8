use crate::bit_vec::{spec_rank0, spec_rank1};
use vstd::prelude::*;

verus! {

/// In a LOUDS sequence, node `v`'s child run begins one past the
/// `(v + 1)`-th zero, and a set bit there is the first child's edge bit.
/// A position `z` is that zero exactly when it is clear and `v` zeros
/// precede it.
pub open spec fn is_child_start_zero(s: Seq<bool>, v: int, z: int) -> bool {
    &&& 0 <= z < s.len()
    &&& !s[z]
    &&& spec_rank0(s, z) == v
}

/// LOUDS consistency: if node `v`'s child run starts after the zero at
/// `z` with a set bit at `z + 1`, then the first child is node
/// `rank1(z + 1)`, and the parent rule — one less than the zero-rank at
/// the child's edge bit — leads from that child back to `v`.
///
/// The parent rule reads any position `q` carrying the child's edge bit,
/// which rank pins to `z + 1` alone.
pub proof fn lemma_parent_of_first_child(s: Seq<bool>, v: int, z: int)
    requires
        0 <= v,
        is_child_start_zero(s, v, z),
        z + 1 < s.len(),
        s[z + 1],
    ensures
        spec_rank0(s, z + 1) == v + 1,
        forall|q: int|
            0 <= q < s.len() && #[trigger] spec_rank1(s, q) == spec_rank1(s, z + 1) && s[q] ==> q
                == z + 1 && spec_rank0(s, q) - 1 == v,
{
    crate::bit_vec::lemma_rank1_step(s, z);
    assert(spec_rank0(s, z + 1) == v + 1);
    assert forall|q: int|
        0 <= q < s.len() && #[trigger] spec_rank1(s, q) == spec_rank1(s, z + 1) && s[q] implies q
        == z + 1 && spec_rank0(s, q) - 1 == v by {
        if q <= z + 1 {
            crate::bit_vec::lemma_select1_unique(s, q, z + 1);
        } else {
            crate::bit_vec::lemma_select1_unique(s, z + 1, q);
        }
    }
}

} // verus!
