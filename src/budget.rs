//! Size and count limits on the replies served to peers.
use vstd::prelude::*;

verus! {

/// Maximum number of receipt lists served in one reply.
pub const MAX_RECEIPTS_SERVE: usize = 1024;

/// Maximum number of block headers served in one reply.
pub const MAX_HEADERS_SERVE: usize = 1024;

/// Maximum number of block bodies served in one reply.
///
/// With today's block sizes the byte limit is nearly always reached first.
pub const MAX_BODIES_SERVE: usize = 1024;

/// Soft limit on the encoded size of a reply: 2 MiB.
///
/// The element that crosses it is still served; nothing after it is.
pub const SOFT_RESPONSE_LIMIT: usize = 2097152;

/// Sum of the encoded sizes of the elements of a reply.
pub open spec fn sum_sizes(sizes: Seq<usize>) -> int
    decreases sizes.len(),
{
    if sizes.len() == 0 {
        0
    } else {
        sum_sizes(sizes.drop_last()) + sizes.last()
    }
}

/// A reply whose first `n` elements have these sizes is complete: it holds
/// `cap` elements, or their encoded size exceeds the soft limit.
pub open spec fn is_full(sizes: Seq<usize>, cap: usize, n: int) -> bool {
    n >= cap || sum_sizes(sizes.take(n)) > SOFT_RESPONSE_LIMIT
}

/// Elements are only appended while the reply is not yet full: no element
/// follows the one that filled it.
pub open spec fn is_shaped(sizes: Seq<usize>, cap: usize) -> bool {
    forall|k: int| 0 < k < sizes.len() ==> !#[trigger] is_full(sizes, cap, k)
}

/// At most `cap` elements, and all but the last fit within the soft limit.
pub open spec fn respects_budget(sizes: Seq<usize>, cap: usize) -> bool {
    &&& sizes.len() <= cap
    &&& sizes.len() > 0 ==> sum_sizes(sizes.drop_last()) <= SOFT_RESPONSE_LIMIT
}

/// A reply that was shaped respects the budget: at most `cap` elements, and
/// only its last element may carry the total past the soft limit.
pub proof fn lemma_shaped_respects_budget(sizes: Seq<usize>, cap: usize)
    requires
        cap > 0,
        is_shaped(sizes, cap),
    ensures
        respects_budget(sizes, cap),
{
    let n = sizes.len() as int;
    if n > 1 {
        assert(!is_full(sizes, cap, n - 1));
        assert(sizes.take(n - 1) =~= sizes.drop_last());
    }
}

/// Adds the size of one more element to a running total that is within the
/// soft limit. Returns the new total if it is still within the limit, and
/// `None` once the limit is exceeded.
pub fn add_within_limit(total: usize, size: usize) -> (r: Option<usize>)
    requires
        total <= SOFT_RESPONSE_LIMIT,
    ensures
        r == (if total + size <= SOFT_RESPONSE_LIMIT {
            Some((total + size) as usize)
        } else {
            None::<usize>
        }),
{
    if size <= SOFT_RESPONSE_LIMIT - total {
        Some(total + size)
    } else {
        None
    }
}

} // verus!
