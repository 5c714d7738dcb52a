//! Cutting a run of bits into groups of equal size.

use itertools::Itertools;
use vstd::prelude::*;

verus! {

/// How many groups of `size` items a run of `len` items is cut into, the last
/// group being shorter where `size` does not divide `len`.
pub open spec fn group_count(len: int, size: int) -> int {
    (len + size - 1) / size
}

/// Group `i` of the groups of `size` items that `items` is cut into.
pub open spec fn group_at<A>(items: Seq<A>, size: int, i: int) -> Seq<A> {
    items.subrange(
        i * size,
        if (i + 1) * size <= items.len() {
            (i + 1) * size
        } else {
            items.len() as int
        },
    )
}

/// Cuts `items` into consecutive groups of `size` bits with
/// `itertools::Itertools::chunks` and collects each group.
///
/// Not proved: that the groups in order are the consecutive runs of `size`
/// items of the input, the last one shorter if the items run out, and that
/// there is no empty group. The call panics for a `size` of zero, which the
/// precondition excludes.
#[verifier::external_body]
pub(crate) fn chunk_bits(items: Vec<bool>, size: usize) -> (groups: Vec<Vec<bool>>)
    requires
        size > 0,
    ensures
        groups@.len() == group_count(items@.len() as int, size as int),
        forall|i: int|
            0 <= i < groups@.len() ==> (#[trigger] groups@[i])@ == group_at(
                items@,
                size as int,
                i,
            ),
{
    let chunks = items.into_iter().chunks(size);
    chunks.into_iter().map(|chunk| chunk.collect()).collect()
}

} // verus!
