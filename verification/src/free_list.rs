//! The free list in the storage file: a chain of block-sized pages.
//!
//! A page begins with the identifier of the next page of the chain, or
//! `INVALID_BLOCK` on the last page, and goes on with a length-prefixed list
//! of free block identifiers. The rest of the page is padding.

use vstd::prelude::*;
use vstd::bytes::{
    lemma_auto_spec_u32_to_from_le_bytes, lemma_auto_spec_u64_to_from_le_bytes,
    spec_u32_to_le_bytes, spec_u64_to_le_bytes,
};
use vstd::slice::{slice_subrange, slice_to_vec};
use crate::serializer::{
    encode_i64, encode_items, encode_list, items_encodable, lemma_encode_items_injective,
    lemma_parse_items_encoding, read_list, write_list, BufferDeserializer, BufferSerializer,
    Deserializer, Serializable, Serializer,
};
use crate::storage_info::{BlockId, BLOCK_SIZE, INVALID_BLOCK};

verus! {

/// How many free block identifiers one page holds at most.
pub const FREE_PAGE_CAPACITY: usize = 32766;

/// How many bytes a page with the identifiers `ids` begins with.
pub open spec fn head_len(ids: Seq<BlockId>) -> int {
    12 + 8 * (ids.len() as int)
}

/// The bytes that a page begins with: the next page, then the identifiers.
pub open spec fn page_head(next: BlockId, ids: Seq<BlockId>) -> Seq<u8> {
    encode_i64(next) + encode_list(ids)
}

/// Whether `page` is a page that names `next` as the next page and holds the
/// identifiers `ids`.
pub open spec fn page_holds(page: Seq<u8>, next: BlockId, ids: Seq<BlockId>) -> bool {
    &&& page.len() == BLOCK_SIZE
    &&& ids.len() <= FREE_PAGE_CAPACITY
    &&& page.subrange(0, head_len(ids)) == page_head(next, ids)
}

/// Whether `page` reads as the next page and the identifiers of `pair`.
pub open spec fn page_reads(page: Seq<u8>, pair: (BlockId, Seq<BlockId>)) -> bool {
    page_holds(page, pair.0, pair.1)
}

/// What the page `page` names as the next page, and the identifiers it
/// holds, if it is a page of a free list.
pub open spec fn decode_page(page: Seq<u8>) -> Option<(BlockId, Seq<BlockId>)> {
    if exists|pair: (BlockId, Seq<BlockId>)| page_reads(page, pair) {
        Some(choose|pair: (BlockId, Seq<BlockId>)| page_reads(page, pair))
    } else {
        None
    }
}

/// Identifiers, one after another, take eight bytes each.
pub proof fn lemma_ids_len(ids: Seq<BlockId>)
    ensures
        encode_items(ids).len() == 8 * ids.len(),
        encode_list(ids).len() == 4 + 8 * ids.len(),
        page_head(0, ids).len() == head_len(ids),
        items_encodable(ids),
    decreases ids.len(),
{
    lemma_auto_spec_u64_to_from_le_bytes();
    lemma_auto_spec_u32_to_from_le_bytes();
    assert(spec_u32_to_le_bytes(ids.len() as u32).len() == 4);
    assert(spec_u64_to_le_bytes(0i64 as u64).len() == 8);
    if ids.len() > 0 {
        lemma_ids_len(ids.skip(1));
        assert(spec_u64_to_le_bytes(ids.first() as u64).len() == 8);
    }
}

/// A page names one next page and holds one list of identifiers.
pub proof fn lemma_page_unique(page: Seq<u8>, next: BlockId, ids: Seq<BlockId>)
    requires
        page_holds(page, next, ids),
    ensures
        decode_page(page) == Some((next, ids)),
{
    assert(page_reads(page, (next, ids)));
    let pair = choose|pair: (BlockId, Seq<BlockId>)| page_reads(page, pair);
    lemma_same_page(page, next, ids, pair.0, pair.1);
}

/// Two readings of one page are the same reading.
pub proof fn lemma_same_page(
    page: Seq<u8>,
    next: BlockId,
    ids: Seq<BlockId>,
    other_next: BlockId,
    other_ids: Seq<BlockId>,
)
    requires
        page_holds(page, next, ids),
        page_holds(page, other_next, other_ids),
    ensures
        next == other_next,
        ids == other_ids,
{
    lemma_auto_spec_u64_to_from_le_bytes();
    lemma_auto_spec_u32_to_from_le_bytes();
    lemma_ids_len(ids);
    lemma_ids_len(other_ids);
    let a = page_head(next, ids);
    let b = page_head(other_next, other_ids);
    assert(spec_u64_to_le_bytes(next as u64).len() == 8);
    assert(spec_u64_to_le_bytes(other_next as u64).len() == 8);
    assert(page.subrange(0, 8) =~= a.subrange(0, 8));
    assert(page.subrange(0, 8) =~= b.subrange(0, 8));
    assert(a.subrange(0, 8) =~= spec_u64_to_le_bytes(next as u64));
    assert(b.subrange(0, 8) =~= spec_u64_to_le_bytes(other_next as u64));
    crate::storage_info::lemma_field_injective(next as u64, other_next as u64);
    crate::storage_info::lemma_signed_injective(next, other_next);
    let ca = ids.len() as u32;
    let cb = other_ids.len() as u32;
    assert(spec_u32_to_le_bytes(ca).len() == 4);
    assert(spec_u32_to_le_bytes(cb).len() == 4);
    assert(page.subrange(8, 12) =~= a.subrange(8, 12));
    assert(page.subrange(8, 12) =~= b.subrange(8, 12));
    assert(a.subrange(8, 12) =~= spec_u32_to_le_bytes(ca));
    assert(b.subrange(8, 12) =~= spec_u32_to_le_bytes(cb));
    assert(ca == cb);
    let n: int = head_len(ids);
    assert(page.subrange(12, n) =~= a.subrange(12, n));
    assert(page.subrange(12, n) =~= b.subrange(12, n));
    assert(a.subrange(12, n) =~= encode_items(ids));
    assert(b.subrange(12, n) =~= encode_items(other_ids));
    lemma_encode_items_injective::<BlockId>(ids, other_ids);
    assert(ids =~= other_ids);
}

/// The page that names `next` as the next page and holds `ids`.
pub fn write_free_page(next: BlockId, ids: &[BlockId]) -> (page: Vec<u8>)
    requires
        ids@.len() <= FREE_PAGE_CAPACITY,
    ensures
        page_holds(page@, next, ids@),
        decode_page(page@) == Some((next, ids@)),
{
    let mut sink = BufferSerializer::new();
    proof {
        lemma_ids_len(ids@);
    }
    let first = sink.write_i64(next);
    let second = write_list(&mut sink, ids);
    let mut page = sink.into_bytes();
    let ghost head = page_head(next, ids@);
    proof {
        lemma_auto_spec_u64_to_from_le_bytes();
        assert(spec_u64_to_le_bytes(next as u64).len() == 8);
        assert(page@ =~= head);
        assert(head.len() == head_len(ids@));
    }
    while page.len() < BLOCK_SIZE
        invariant
            head.len() == head_len(ids@),
            head.len() <= page@.len() <= BLOCK_SIZE,
            page@.subrange(0, head.len() as int) == head,
        decreases BLOCK_SIZE - page@.len(),
    {
        let ghost prior = page@;
        page.push(0u8);
        assert(page@.subrange(0, head.len() as int) =~= prior.subrange(0, head.len() as int));
    }
    proof {
        lemma_page_unique(page@, next, ids@);
    }
    page
}

/// Reads a page of a free list: what it names as the next page, and the
/// identifiers it holds.
pub fn read_free_page(page: &[u8]) -> (r: Option<(BlockId, Vec<BlockId>)>)
    ensures
        match decode_page(page@) {
            Some((next, ids)) => r matches Some((n, list)) && n == next && list@ == ids,
            None => r is None,
        },
{
    if page.len() != BLOCK_SIZE {
        return None;
    }
    let mut source = BufferDeserializer::new(slice_to_vec(page));
    let read_next = source.read_i64();
    let ghost after_next = source@;
    let read_ids = match read_next {
        Ok(_) => read_list::<BufferDeserializer, BlockId>(&mut source),
        Err(e) => Err(e),
    };
    proof {
        lemma_auto_spec_u64_to_from_le_bytes();
        lemma_auto_spec_u32_to_from_le_bytes();
        // If the page is a page of a free list, both reads succeed.
        if exists|pair: (BlockId, Seq<BlockId>)| page_reads(page@, pair) {
            let pair = choose|pair: (BlockId, Seq<BlockId>)| page_reads(page@, pair);
            let (next, ids) = pair;
            lemma_page_unique(page@, next, ids);
            lemma_ids_len(ids);
            assert(read_next is Ok);
            let got = read_next->Ok_0;
            assert(spec_u64_to_le_bytes(got as u64).len() == 8);
            assert(after_next =~= page@.skip(8));
            let tail = page@.skip(head_len(ids));
            assert(after_next =~= encode_list(ids) + tail) by {
                assert(page@ =~= page@.subrange(0, head_len(ids)) + tail);
                assert(spec_u64_to_le_bytes(next as u64).len() == 8);
                assert(page_head(next, ids).skip(8) =~= encode_list(ids));
            }
            assert(spec_u32_to_le_bytes(ids.len() as u32).len() == 4);
            assert(after_next.subrange(0, 4) =~= spec_u32_to_le_bytes(ids.len() as u32));
            assert(after_next.skip(4) =~= encode_items(ids) + tail);
            lemma_parse_items_encoding::<BlockId>(ids, tail);
            assert(read_ids is Ok);
        }
    }
    match (read_next, read_ids) {
        (Ok(next), Ok(list)) => {
            if list.len() > FREE_PAGE_CAPACITY {
                proof {
                    if exists|pair: (BlockId, Seq<BlockId>)| page_reads(page@, pair) {
                        let pair = choose|pair: (BlockId, Seq<BlockId>)| page_reads(page@, pair);
                        lemma_read_is_page(page@, next, list@, after_next, source@);
                        lemma_ids_len(list@);
                        lemma_ids_len(pair.1);
                        lemma_same_prefix(page@, next, list@, pair.0, pair.1);
                    }
                }
                return None;
            }
            proof {
                lemma_read_is_page(page@, next, list@, after_next, source@);
                lemma_page_unique(page@, next, list@);
            }
            Some((next, list))
        },
        _ => None,
    }
}

/// What was read from a page stands at the front of the page.
proof fn lemma_read_is_page(
    page: Seq<u8>,
    next: BlockId,
    ids: Seq<BlockId>,
    after_next: Seq<u8>,
    rest: Seq<u8>,
)
    requires
        page == encode_i64(next) + after_next,
        after_next == encode_list(ids) + rest,
    ensures
        page.len() >= head_len(ids),
        page.subrange(0, head_len(ids)) == page_head(next, ids),
{
    lemma_auto_spec_u64_to_from_le_bytes();
    lemma_ids_len(ids);
    assert(spec_u64_to_le_bytes(next as u64).len() == 8);
    assert(page.subrange(0, head_len(ids)) =~= page_head(next, ids));
}

/// Two lists that stand at the front of the same bytes, behind the same
/// field, are the same list.
proof fn lemma_same_prefix(
    page: Seq<u8>,
    next: BlockId,
    ids: Seq<BlockId>,
    other_next: BlockId,
    other_ids: Seq<BlockId>,
)
    requires
        page.len() >= head_len(ids),
        page.len() >= head_len(other_ids),
        ids.len() <= u32::MAX,
        other_ids.len() <= u32::MAX,
        page.subrange(0, head_len(ids)) == page_head(next, ids),
        page.subrange(0, head_len(other_ids)) == page_head(other_next, other_ids),
    ensures
        ids.len() == other_ids.len(),
{
    lemma_auto_spec_u64_to_from_le_bytes();
    lemma_auto_spec_u32_to_from_le_bytes();
    lemma_ids_len(ids);
    lemma_ids_len(other_ids);
    let a = page_head(next, ids);
    let b = page_head(other_next, other_ids);
    let ca = ids.len() as u32;
    let cb = other_ids.len() as u32;
    assert(spec_u64_to_le_bytes(next as u64).len() == 8);
    assert(spec_u64_to_le_bytes(other_next as u64).len() == 8);
    assert(spec_u32_to_le_bytes(ca).len() == 4);
    assert(spec_u32_to_le_bytes(cb).len() == 4);
    assert(page.subrange(8, 12) =~= a.subrange(8, 12));
    assert(page.subrange(8, 12) =~= b.subrange(8, 12));
    assert(a.subrange(8, 12) =~= spec_u32_to_le_bytes(ca));
    assert(b.subrange(8, 12) =~= spec_u32_to_le_bytes(cb));
    assert(ca == cb);
}


/// The contents of the pages of `pages`.
pub open spec fn page_views(pages: Seq<Vec<u8>>) -> Seq<Seq<u8>> {
    pages.map_values(|page: Vec<u8>| page@)
}

/// The identifiers of `count` pages that follow one another in the file,
/// from `first` on.
pub open spec fn page_ids(first: int, count: int) -> Seq<BlockId> {
    Seq::new(count as nat, |i: int| (first + i) as BlockId)
}

/// How many pages a free list of `free` identifiers takes.
pub open spec fn pages_needed(free: int) -> int {
    (free + FREE_PAGE_CAPACITY - 1) / (FREE_PAGE_CAPACITY as int)
}

/// The free list that the chain of the pages `pages` holds, and the
/// identifiers of the pages, if `pages` is the chain that begins at the
/// page `first` and ends with a page that has no next page.
pub open spec fn free_list_of(pages: Seq<Seq<u8>>, first: BlockId) -> Option<
    (Seq<BlockId>, Seq<BlockId>),
>
    decreases pages.len(),
{
    if pages.len() == 0 {
        if first == INVALID_BLOCK {
            Some((Seq::empty(), Seq::empty()))
        } else {
            None
        }
    } else if first == INVALID_BLOCK {
        None
    } else {
        match decode_page(pages.first()) {
            None => None,
            Some((next, ids)) => match free_list_of(pages.skip(1), next) {
                None => None,
                Some((free, rest)) => Some((ids + free, seq![first] + rest)),
            },
        }
    }
}

/// Reads the free list from the pages of its chain, which begins at the
/// page `first`. `None` if the pages are not that chain.
pub fn read_free_list(pages: &Vec<Vec<u8>>, first: BlockId) -> (r: Option<
    (Vec<BlockId>, Vec<BlockId>),
>)
    ensures
        match free_list_of(page_views(pages@), first) {
            Some((free, ids)) => r matches Some((list, chain)) && list@ == free && chain@ == ids,
            None => r is None,
        },
{
    let ghost all = page_views(pages@);
    let mut free: Vec<BlockId> = Vec::new();
    let mut chain: Vec<BlockId> = Vec::new();
    let mut expected = first;
    let mut i: usize = 0;
    proof {
        assert(all.skip(0) =~= all);
        if let Some((f, c)) = free_list_of(all, first) {
            assert(free@ + f =~= f);
            assert(chain@ + c =~= c);
        }
    }
    while i < pages.len()
        invariant
            i <= pages@.len(),
            all == page_views(pages@),
            free_list_of(all, first) == match free_list_of(all.skip(i as int), expected) {
                Some((f, c)) => Some((free@ + f, chain@ + c)),
                None => None,
            },
        decreases pages@.len() - i,
    {
        let ghost rest = all.skip(i as int);
        proof {
            assert(rest.first() == pages@[i as int]@);
            assert(rest.skip(1) =~= all.skip(i + 1));
        }
        if expected == INVALID_BLOCK {
            return None;
        }
        match read_free_page(pages[i].as_slice()) {
            Some((next, mut ids)) => {
                let ghost read = ids@;
                let ghost done = free@;
                let ghost seen = chain@;
                free.append(&mut ids);
                chain.push(expected);
                proof {
                    if let Some((f, c)) = free_list_of(all.skip(i + 1), next) {
                        assert(done + (read + f) =~= free@ + f);
                        assert(seen + (seq![expected] + c) =~= chain@ + c);
                    }
                }
                expected = next;
            },
            None => {
                return None;
            },
        }
        i += 1;
    }
    proof {
        assert(all.skip(i as int).len() == 0);
        assert(free@ + Seq::<BlockId>::empty() =~= free@);
        assert(chain@ + Seq::<BlockId>::empty() =~= chain@);
    }
    if expected == INVALID_BLOCK {
        Some((free, chain))
    } else {
        None
    }
}

/// The pages of the chain that holds the free list `free`, in pages that
/// follow one another in the file from the page `first_page` on. A free list
/// without identifiers takes no page.
pub fn write_free_list(free: &Vec<BlockId>, first_page: BlockId) -> (pages: Vec<Vec<u8>>)
    requires
        0 <= first_page,
        first_page + pages_needed(free@.len() as int) <= i64::MAX,
    ensures
        pages@.len() == pages_needed(free@.len() as int),
        forall|i: int| 0 <= i < pages@.len() ==> (#[trigger] pages@[i])@.len() == BLOCK_SIZE,
        free_list_of(
            page_views(pages@),
            if free@.len() == 0 {
                INVALID_BLOCK
            } else {
                first_page
            },
        ) == Some((free@, page_ids(first_page as int, pages@.len() as int))),
{
    let total: usize = free.len();
    let count: usize = if total == 0 {
        0
    } else {
        (total - 1) / FREE_PAGE_CAPACITY + 1
    };
    assert(count == pages_needed(total as int)) by {
        if total > 0 {
            assert((total as int - 1) / 32766 + 1 == (total as int + 32766 - 1) / 32766)
                by (nonlinear_arith)
                requires
                    total > 0,
            ;
        }
    }
    let mut pages: Vec<Vec<u8>> = Vec::new();
    let mut i: usize = count;
    proof {
        if total > 0 {
            assert(((total as int - 1) / 32766 + 1) * 32766 >= total as int
                && ((total as int - 1) / 32766) * 32766 < total as int) by (nonlinear_arith)
                requires
                    total > 0,
            ;
        }
        assert(free@.skip(chunk_start(count as int, total as int)) =~= Seq::<BlockId>::empty());
        assert(page_ids(first_page + count, 0) =~= Seq::<BlockId>::empty());
        assert(page_views(pages@) =~= Seq::<Seq<u8>>::empty());
    }
    while i > 0
        invariant
            i <= count,
            total == free@.len(),
            count == pages_needed(total as int),
            0 <= first_page,
            first_page + count <= i64::MAX,
            (count - 1) * FREE_PAGE_CAPACITY < total || count == 0,
            count * FREE_PAGE_CAPACITY >= total,
            pages@.len() == count - i,
            forall|k: int| 0 <= k < pages@.len() ==> (#[trigger] pages@[k])@.len() == BLOCK_SIZE,
            free_list_of(
                page_views(pages@),
                if i == count {
                    INVALID_BLOCK
                } else {
                    (first_page + i) as BlockId
                },
            ) == Some(
                (
                    free@.skip(chunk_start(i as int, total as int)),
                    page_ids(first_page + i, count - i),
                ),
            ),
        decreases i,
    {
        let start: usize = (i - 1) * FREE_PAGE_CAPACITY;
        let end: usize = if total - start > FREE_PAGE_CAPACITY {
            start + FREE_PAGE_CAPACITY
        } else {
            total
        };
        let next: BlockId = if i == count {
            INVALID_BLOCK
        } else {
            first_page + i as i64
        };
        let page = write_free_page(next, slice_subrange(free.as_slice(), start, end));
        let ghost older = page_views(pages@);
        let ghost chunk = free@.subrange(start as int, end as int);
        pages.insert(0, page);
        proof {
            let newer = page_views(pages@);
            let this_page: BlockId = (first_page + i - 1) as BlockId;
            assert(newer.first() == page@);
            assert(newer.skip(1) =~= older);
            assert(i < count ==> end == i * FREE_PAGE_CAPACITY);
            assert(chunk + free@.skip(chunk_start(i as int, total as int)) =~= free@.skip(
                start as int,
            ));
            assert(start == chunk_start(i - 1, total as int));
            assert(seq![this_page] + page_ids(first_page + i, count - i)
                =~= page_ids(first_page + i - 1, count - i + 1));
        }
        i -= 1;
    }
    proof {
        assert(free@.skip(0) =~= free@);
        if total == 0 {
            assert(count == 0);
        }
    }
    pages
}

/// Where the identifiers that come after the first `i` pages begin.
pub open spec fn chunk_start(i: int, total: int) -> int {
    if i * FREE_PAGE_CAPACITY < total {
        i * FREE_PAGE_CAPACITY
    } else {
        total
    }
}

} // verus!
