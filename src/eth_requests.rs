//! Answers to the block header, body and receipt requests of peers.
//!
//! The chain store is reached through lookup closures: what they return
//! depends on what is stored, so each contract is stated over what every
//! lookup made returned, and the traversal is verified for all of it.
use vstd::prelude::*;
use crate::budget::{
    add_within_limit, is_full, is_shaped, lemma_shaped_respects_budget, respects_budget,
    sum_sizes, MAX_BODIES_SERVE, MAX_HEADERS_SERVE, MAX_RECEIPTS_SERVE, SOFT_RESPONSE_LIMIT,
};

verus! {

/// A 32-byte block hash.
#[derive(Clone, Copy, Debug, PartialEq, Eq)]
pub struct BlockHash {
    pub bytes: [u8; 32],
}

/// A block named by its hash or by its number.
#[derive(Clone, Copy, Debug, PartialEq, Eq)]
pub enum BlockRef {
    Hash(BlockHash),
    Number(u64),
}

/// The direction in which headers are walked.
#[derive(Clone, Copy, Debug, PartialEq, Eq)]
pub enum HeadersDirection {
    /// Towards higher block numbers.
    Rising,
    /// Towards lower block numbers.
    Falling,
}

/// A request for block headers.
#[derive(Clone, Copy, Debug, PartialEq, Eq)]
pub struct GetBlockHeaders {
    /// The first block to return.
    pub start_block: BlockRef,
    /// The largest number of headers to return.
    pub limit: u64,
    /// The number of blocks left out between two returned headers.
    pub skip: u32,
    pub direction: HeadersDirection,
}

/// What the traversal reads of a header.
#[derive(Clone, Copy, Debug, PartialEq, Eq)]
pub struct HeaderInfo {
    pub number: u64,
    pub parent_hash: BlockHash,
}

/// The block that follows a header in a traversal, or `None` where its
/// number would leave the range of `u64`. Walking down without a skip
/// follows the parent hash rather than the number.
pub open spec fn next_block_spec(direction: HeadersDirection, skip: u64, info: HeaderInfo) -> Option<
    BlockRef,
> {
    match direction {
        HeadersDirection::Rising => if info.number + 1 + skip <= u64::MAX {
            Some(BlockRef::Number((info.number + 1 + skip) as u64))
        } else {
            None
        },
        HeadersDirection::Falling => if skip == 0 {
            Some(BlockRef::Hash(info.parent_hash))
        } else if info.number >= 1 + skip {
            Some(BlockRef::Number((info.number - 1 - skip) as u64))
        } else {
            None
        },
    }
}

/// The block that follows the header `info` when walking in `direction`
/// with `skip` blocks left out.
pub fn next_block(direction: HeadersDirection, skip: u64, info: &HeaderInfo) -> (r: Option<BlockRef>)
    ensures
        r == next_block_spec(direction, skip, *info),
{
    match direction {
        HeadersDirection::Rising => match info.number.checked_add(1) {
            Some(n) => match n.checked_add(skip) {
                Some(m) => Some(BlockRef::Number(m)),
                None => None,
            },
            None => None,
        },
        HeadersDirection::Falling => if skip == 0 {
            Some(BlockRef::Hash(info.parent_hash))
        } else {
            match info.number.checked_sub(1) {
                Some(n) => match n.checked_sub(skip) {
                    Some(m) => Some(BlockRef::Number(m)),
                    None => None,
                },
                None => None,
            }
        },
    }
}

/// The block looked up for the `i`-th header of a traversal from `start`.
pub open spec fn walk_ref(
    start: BlockRef,
    direction: HeadersDirection,
    skip: u64,
    infos: Seq<HeaderInfo>,
    i: int,
) -> BlockRef {
    if i == 0 {
        start
    } else {
        next_block_spec(direction, skip, infos[i - 1])->Some_0
    }
}

/// The headers served for a traversal from `start`.
pub struct HeadersResponse<H> {
    pub headers: Vec<H>,
    /// Number and parent hash of each header served.
    pub infos: Vec<HeaderInfo>,
    /// Encoded size of each header served.
    pub sizes: Vec<usize>,
}

/// `headers` is the traversal from `start`: header `i` is what the lookup
/// returned for the block that header `i - 1` leads to, at most `limit` of
/// them are served, the reply is shaped, and it stops early only when it
/// became full, the next block number left the range of `u64`, or the next
/// lookup found nothing.
pub open spec fn walked_from<H, F: Fn(BlockRef) -> Option<(H, HeaderInfo, usize)>>(
    lookup: F,
    start: BlockRef,
    limit: u64,
    skip: u64,
    direction: HeadersDirection,
    headers: Seq<H>,
    infos: Seq<HeaderInfo>,
    sizes: Seq<usize>,
) -> bool {
    let n = headers.len() as int;
    &&& infos.len() == n
    &&& sizes.len() == n
    &&& n <= limit
    &&& forall|i: int|
        #![trigger headers[i]]
        0 <= i < n ==> call_ensures(
            lookup,
            (walk_ref(start, direction, skip, infos, i),),
            Some((headers[i], infos[i], sizes[i])),
        )
    &&& forall|i: int|
        0 <= i < n - 1 ==> (#[trigger] next_block_spec(direction, skip, infos[i])).is_some()
    &&& is_shaped(sizes, MAX_HEADERS_SERVE)
    &&& n < limit ==> {
        ||| n > 0 && is_full(sizes, MAX_HEADERS_SERVE, n)
        ||| n > 0 && next_block_spec(direction, skip, infos[n - 1]).is_none()
        ||| call_ensures(lookup, (walk_ref(start, direction, skip, infos, n),), None)
    }
}

/// Walks the headers from `start`, `limit` at most, looking up each block
/// with `lookup`.
pub fn walk_headers<H, F: Fn(BlockRef) -> Option<(H, HeaderInfo, usize)>>(
    start: BlockRef,
    limit: u64,
    skip: u64,
    direction: HeadersDirection,
    lookup: &F,
) -> (r: HeadersResponse<H>)
    requires
        forall|b: BlockRef| call_requires(*lookup, (b,)),
    ensures
        walked_from(*lookup, start, limit, skip, direction, r.headers@, r.infos@, r.sizes@),
        respects_budget(r.sizes@, MAX_HEADERS_SERVE),
{
    let mut headers: Vec<H> = Vec::new();
    let mut infos: Vec<HeaderInfo> = Vec::new();
    let mut sizes: Vec<usize> = Vec::new();
    let mut total: usize = 0;
    let mut n: u64 = 0;
    let mut block = start;
    while n < limit
        invariant
            forall|b: BlockRef| call_requires(*lookup, (b,)),
            n <= limit,
            headers@.len() == n,
            infos@.len() == n,
            sizes@.len() == n,
            n < MAX_HEADERS_SERVE,
            total == sum_sizes(sizes@),
            total <= SOFT_RESPONSE_LIMIT,
            block == walk_ref(start, direction, skip, infos@, n as int),
            forall|i: int|
                0 <= i < n ==> #[trigger] call_ensures(
                    *lookup,
                    (walk_ref(start, direction, skip, infos@, i),),
                    Some((headers@[i], infos@[i], sizes@[i])),
                ),
            forall|i: int|
                0 <= i < n ==> (#[trigger] next_block_spec(direction, skip, infos@[i])).is_some(),
            is_shaped(sizes@, MAX_HEADERS_SERVE),
        decreases limit - n,
    {
        proof {
            assert(sizes@.take(n as int) =~= sizes@);
        }
        let found = lookup(block);
        match found {
            None => {
                proof {
                    lemma_shaped_respects_budget(sizes@, MAX_HEADERS_SERVE);
                }
                return HeadersResponse { headers, infos, sizes };
            },
            Some((header, info, size)) => {
                let next = next_block(direction, skip, &info);
                let ghost old_headers = headers@;
                let ghost old_infos = infos@;
                let ghost old_sizes = sizes@;
                proof {
                    lemma_push_size(sizes@, size, MAX_HEADERS_SERVE);
                }
                headers.push(header);
                infos.push(info);
                sizes.push(size);
                proof {
                    lemma_shaped_respects_budget(sizes@, MAX_HEADERS_SERVE);
                    assert forall|i: int| 0 <= i <= n implies #[trigger] call_ensures(
                        *lookup,
                        (walk_ref(start, direction, skip, infos@, i),),
                        Some((headers@[i], infos@[i], sizes@[i])),
                    ) by {
                        if i > 0 {
                            assert(infos@[i - 1] == old_infos[i - 1]);
                        }
                        assert(walk_ref(start, direction, skip, infos@, i) == walk_ref(
                            start,
                            direction,
                            skip,
                            old_infos,
                            i,
                        ));
                        if i < n {
                            assert(headers@[i] == old_headers[i]);
                            assert(infos@[i] == old_infos[i]);
                            assert(sizes@[i] == old_sizes[i]);
                        }
                    }
                    assert(walk_ref(start, direction, skip, infos@, n as int + 1) == next->Some_0);
                }
                match add_within_limit(total, size) {
                    Some(t) => {
                        total = t;
                    },
                    None => {
                        return HeadersResponse { headers, infos, sizes };
                    },
                }
                if sizes.len() >= MAX_HEADERS_SERVE {
                    return HeadersResponse { headers, infos, sizes };
                }
                match next {
                    Some(b) => {
                        block = b;
                    },
                    None => {
                        return HeadersResponse { headers, infos, sizes };
                    },
                }
            },
        }
        n = n + 1;
    }
    proof {
        lemma_shaped_respects_budget(sizes@, MAX_HEADERS_SERVE);
    }
    HeadersResponse { headers, infos, sizes }
}

/// The elements of a reply, with the encoded size of each.
pub struct ShapedResponse<T> {
    pub items: Vec<T>,
    pub sizes: Vec<usize>,
}

/// `items` and `sizes` answer a request for the blocks `hashes`: element `i`
/// is what the lookup returned for `hashes[i]`, the reply is shaped within
/// `cap` elements and the soft limit, and it stops early only when it became
/// full or the lookup of the next hash found nothing.
pub open spec fn served_by_hash<T, F: Fn(BlockHash) -> Option<(T, usize)>>(
    lookup: F,
    hashes: Seq<BlockHash>,
    cap: usize,
    items: Seq<T>,
    sizes: Seq<usize>,
) -> bool {
    &&& items.len() == sizes.len()
    &&& items.len() <= hashes.len()
    &&& forall|i: int|
        #![trigger items[i]]
        0 <= i < items.len() ==> call_ensures(lookup, (hashes[i],), Some((items[i], sizes[i])))
    &&& is_shaped(sizes, cap)
    &&& items.len() < hashes.len() ==> {
        ||| is_full(sizes, cap, items.len() as int)
        ||| call_ensures(lookup, (hashes[items.len() as int],), None)
    }
}

proof fn lemma_push_size(sizes: Seq<usize>, size: usize, cap: usize)
    requires
        is_shaped(sizes, cap),
        !is_full(sizes, cap, sizes.len() as int),
    ensures
        is_shaped(sizes.push(size), cap),
        sum_sizes(sizes.push(size)) == sum_sizes(sizes) + size,
        sizes.push(size).take(sizes.len() as int + 1) == sizes.push(size),
{
    let s2 = sizes.push(size);
    assert(s2.drop_last() =~= sizes);
    assert(s2.take(s2.len() as int) =~= s2);
    assert forall|k: int| 0 < k < s2.len() implies !#[trigger] is_full(s2, cap, k) by {
        assert(s2.take(k) =~= sizes.take(k));
        if k < sizes.len() {
            assert(!is_full(sizes, cap, k));
        }
    }
}

/// Looks up the blocks `hashes` in order and collects what is found into a
/// reply of at most `cap` elements, stopping at the first block not found or
/// once the reply is full. The element that carries the encoded size past
/// the soft limit is included.
pub fn collect_by_hash<T, F: Fn(BlockHash) -> Option<(T, usize)>>(
    hashes: &Vec<BlockHash>,
    cap: usize,
    lookup: &F,
) -> (r: ShapedResponse<T>)
    requires
        cap > 0,
        forall|h: BlockHash| call_requires(*lookup, (h,)),
    ensures
        served_by_hash(*lookup, hashes@, cap, r.items@, r.sizes@),
        respects_budget(r.sizes@, cap),
{
    let mut items: Vec<T> = Vec::new();
    let mut sizes: Vec<usize> = Vec::new();
    let mut total: usize = 0;
    let mut i: usize = 0;
    while i < hashes.len()
        invariant
            cap > 0,
            forall|h: BlockHash| call_requires(*lookup, (h,)),
            i <= hashes.len(),
            items@.len() == i,
            sizes@.len() == i,
            i < cap,
            total == sum_sizes(sizes@),
            total <= SOFT_RESPONSE_LIMIT,
            forall|j: int|
                0 <= j < i ==> #[trigger] call_ensures(
                    *lookup,
                    (hashes@[j],),
                    Some((items@[j], sizes@[j])),
                ),
            is_shaped(sizes@, cap),
        decreases hashes.len() - i,
    {
        proof {
            assert(sizes@.take(i as int) =~= sizes@);
        }
        let found = lookup(hashes[i]);
        match found {
            None => {
                proof {
                    lemma_shaped_respects_budget(sizes@, cap);
                }
                return ShapedResponse { items, sizes };
            },
            Some((item, size)) => {
                proof {
                    lemma_push_size(sizes@, size, cap);
                }
                items.push(item);
                sizes.push(size);
                let next_total = add_within_limit(total, size);
                match next_total {
                    Some(t) => {
                        total = t;
                    },
                    None => {
                        proof {
                            lemma_shaped_respects_budget(sizes@, cap);
                        }
                        return ShapedResponse { items, sizes };
                    },
                }
                if i + 1 >= cap {
                    proof {
                        lemma_shaped_respects_budget(sizes@, cap);
                    }
                    return ShapedResponse { items, sizes };
                }
            },
        }
        i = i + 1;
    }
    proof {
        lemma_shaped_respects_budget(sizes@, cap);
    }
    ShapedResponse { items, sizes }
}

/// The headers that answer `request`: a start given by number is first
/// mapped to its hash with `block_hash`, and nothing is served if it has
/// none; the traversal then goes from that hash.
pub open spec fn headers_answer<H, FB: Fn(u64) -> Option<BlockHash>, FH: Fn(BlockRef) -> Option<(H, HeaderInfo, usize)>>(
    block_hash: FB,
    lookup: FH,
    request: GetBlockHeaders,
    r: HeadersResponse<H>,
) -> bool {
    match request.start_block {
        BlockRef::Hash(h) => walked_from(
            lookup,
            BlockRef::Hash(h),
            request.limit,
            request.skip as u64,
            request.direction,
            r.headers@,
            r.infos@,
            r.sizes@,
        ),
        BlockRef::Number(num) => {
            ||| (call_ensures(block_hash, (num,), None) && r.headers@.len() == 0
                && r.infos@.len() == 0 && r.sizes@.len() == 0)
            ||| exists|h: BlockHash|
                #[trigger] call_ensures(block_hash, (num,), Some(h)) && walked_from(
                    lookup,
                    BlockRef::Hash(h),
                    request.limit,
                    request.skip as u64,
                    request.direction,
                    r.headers@,
                    r.infos@,
                    r.sizes@,
                )
        },
    }
}

/// Answers a request for block headers.
pub fn get_headers_response<H, FB: Fn(u64) -> Option<BlockHash>, FH: Fn(BlockRef) -> Option<(H, HeaderInfo, usize)>>(
    request: GetBlockHeaders,
    block_hash: &FB,
    lookup: &FH,
) -> (r: HeadersResponse<H>)
    requires
        forall|n: u64| call_requires(*block_hash, (n,)),
        forall|b: BlockRef| call_requires(*lookup, (b,)),
    ensures
        headers_answer(*block_hash, *lookup, request, r),
        respects_budget(r.sizes@, MAX_HEADERS_SERVE),
{
    match request.start_block {
        BlockRef::Hash(h) => walk_headers(
            BlockRef::Hash(h),
            request.limit,
            request.skip as u64,
            request.direction,
            lookup,
        ),
        BlockRef::Number(num) => match block_hash(num) {
            Some(h) => {
                let r = walk_headers(
                    BlockRef::Hash(h),
                    request.limit,
                    request.skip as u64,
                    request.direction,
                    lookup,
                );
                proof {
                    assert(call_ensures(*block_hash, (num,), Some(h)));
                }
                r
            },
            None => HeadersResponse { headers: Vec::new(), infos: Vec::new(), sizes: Vec::new() },
        },
    }
}

/// Answers a request for block bodies: `lookup` gives the body of a block
/// and its encoded size.
pub fn get_bodies_response<B, F: Fn(BlockHash) -> Option<(B, usize)>>(
    hashes: &Vec<BlockHash>,
    lookup: &F,
) -> (r: ShapedResponse<B>)
    requires
        forall|h: BlockHash| call_requires(*lookup, (h,)),
    ensures
        served_by_hash(*lookup, hashes@, MAX_BODIES_SERVE, r.items@, r.sizes@),
        respects_budget(r.sizes@, MAX_BODIES_SERVE),
{
    collect_by_hash(hashes, MAX_BODIES_SERVE, lookup)
}

/// Answers a request for receipts: `lookup` gives the receipts of a block,
/// already in the form the reply carries, and their encoded size.
pub fn get_receipts_response<R, F: Fn(BlockHash) -> Option<(Vec<R>, usize)>>(
    hashes: &Vec<BlockHash>,
    lookup: &F,
) -> (r: ShapedResponse<Vec<R>>)
    requires
        forall|h: BlockHash| call_requires(*lookup, (h,)),
    ensures
        served_by_hash(*lookup, hashes@, MAX_RECEIPTS_SERVE, r.items@, r.sizes@),
        respects_budget(r.sizes@, MAX_RECEIPTS_SERVE),
{
    collect_by_hash(hashes, MAX_RECEIPTS_SERVE, lookup)
}

} // verus!
