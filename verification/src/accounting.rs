//! Byte accounting for the chunk pool.
//!
//! The lemmas here bound how much the pool-wide byte total
//! [`chunks_bytes_total`] can grow when one chunk list is (re)built: every
//! live chunk is either carried over from the old pool unchanged or is
//! referenced by the new list, so the total is covered by the old total plus
//! the new list's bytes.

use crate::chunk::{
    chunks_bytes_total, lemma_occ_nonneg, lemma_slot_occ_nonneg, lists_refcount, occ, slot_occ,
    BArrayMemory, BChunk, BChunkList,
};
use vstd::arithmetic::mul::{
    lemma_mul_basics, lemma_mul_inequality, lemma_mul_is_distributive_add, lemma_mul_nonnegative,
};
use vstd::prelude::*;

verus! {

/// Byte length of the chunk stored at pool slot `c`; zero for a free slot.
pub(crate) open spec fn chunk_slot_len(chunks: Seq<Option<BChunk>>, c: int) -> int {
    match chunks[c] {
        Some(ch) => ch.data@.len() as int,
        None => 0,
    }
}

/// Bytes of the first `k` pool slots, each weighted by how many times `refs`
/// names that slot.
pub(crate) open spec fn refs_weighted_bytes(
    chunks: Seq<Option<BChunk>>,
    refs: Seq<usize>,
    k: int,
) -> int
    decreases k,
{
    if k <= 0 {
        0
    } else {
        refs_weighted_bytes(chunks, refs, k - 1) + chunk_slot_len(chunks, k - 1) * occ(
            refs,
            (k - 1) as usize,
        )
    }
}

/// A chunk handle absent from `s` is counted zero times.
pub(crate) proof fn lemma_occ_zero_of_absent(s: Seq<usize>, x: usize)
    requires
        forall|i: int| 0 <= i < s.len() ==> s[i] != x,
    ensures
        occ(s, x) == 0,
    decreases s.len(),
{
    if s.len() > 0 {
        lemma_occ_zero_of_absent(s.drop_last(), x);
    }
}

/// Dropping the last handle of `refs` removes exactly that handle's slot
/// bytes from the weighted sum.
proof fn lemma_weighted_drop(chunks: Seq<Option<BChunk>>, refs: Seq<usize>, k: int)
    requires
        refs.len() >= 1,
        0 <= k <= usize::MAX,
    ensures
        refs_weighted_bytes(chunks, refs, k) == refs_weighted_bytes(chunks, refs.drop_last(), k)
            + if (refs.last() as int) < k {
            chunk_slot_len(chunks, refs.last() as int)
        } else {
            0
        },
    decreases k,
{
    if k > 0 {
        lemma_weighted_drop(chunks, refs, k - 1);
        let c = (k - 1) as usize;
        let extra: int = if refs.last() == c {
            1
        } else {
            0
        };
        assert(occ(refs, c) == occ(refs.drop_last(), c) + extra);
        lemma_mul_is_distributive_add(chunk_slot_len(chunks, k - 1), occ(refs.drop_last(), c), extra);
        lemma_mul_basics(chunk_slot_len(chunks, k - 1));
    }
}

/// A weighted sum over an empty handle sequence is zero.
proof fn lemma_weighted_empty(chunks: Seq<Option<BChunk>>, refs: Seq<usize>, k: int)
    requires
        refs.len() == 0,
        0 <= k,
    ensures
        refs_weighted_bytes(chunks, refs, k) == 0,
    decreases k,
{
    if k > 0 {
        lemma_weighted_empty(chunks, refs, k - 1);
        lemma_mul_basics(chunk_slot_len(chunks, k - 1));
    }
}

/// The weighted sum over the whole pool is exactly the bytes the handles
/// spell out, provided every handle is live.
pub(crate) proof fn lemma_weighted_eq_bytes(m: &BArrayMemory, refs: Seq<usize>)
    requires
        forall|i: int| 0 <= i < refs.len() ==> m.chunk_live((#[trigger] refs[i]) as int),
    ensures
        refs_weighted_bytes(m.chunk@, refs, m.chunk@.len() as int) == m.refs_bytes(refs).len(),
    decreases refs.len(),
{
    m.chunk.lemma_view_len_bounded();
    if refs.len() == 0 {
        lemma_weighted_empty(m.chunk@, refs, m.chunk@.len() as int);
    } else {
        lemma_weighted_eq_bytes(m, refs.drop_last());
        lemma_weighted_drop(m.chunk@, refs, m.chunk@.len() as int);
        assert(m.chunk_live(refs[refs.len() - 1] as int));
    }
}

/// The byte total of a pool prefix never exceeds the whole pool's total.
pub(crate) proof fn lemma_bytes_total_take_le(chunks: Seq<Option<BChunk>>, k: int)
    requires
        0 <= k <= chunks.len(),
    ensures
        0 <= chunks_bytes_total(chunks.take(k)) <= chunks_bytes_total(chunks),
    decreases chunks.len(),
{
    if chunks.len() == 0 {
    } else if k == chunks.len() {
        assert(chunks.take(k) =~= chunks);
        lemma_bytes_total_take_le(chunks.drop_last(), k - 1);
        assert(chunks.drop_last().take(k - 1) =~= chunks.drop_last());
    } else {
        lemma_bytes_total_take_le(chunks.drop_last(), k);
        assert(chunks.drop_last().take(k) =~= chunks.take(k));
    }
}

/// Slot by slot, a pool's byte total is covered by the matching slots of an
/// older pool plus the weighted bytes of `refs`, as long as every live slot
/// is either carried over with its length or named by `refs`.
proof fn lemma_bytes_total_split(
    new_chunks: Seq<Option<BChunk>>,
    old_chunks: Seq<Option<BChunk>>,
    refs: Seq<usize>,
    k: int,
)
    requires
        0 <= k <= new_chunks.len(),
        new_chunks.len() <= usize::MAX,
        forall|c: int|
            0 <= c < new_chunks.len() && (#[trigger] new_chunks[c]) is Some ==> (c
                < old_chunks.len() && old_chunks[c] is Some && old_chunks[c]->Some_0.data@.len()
                == new_chunks[c]->Some_0.data@.len()) || occ(refs, c as usize) >= 1,
    ensures
        chunks_bytes_total(new_chunks.take(k)) <= chunks_bytes_total(
            old_chunks.take(
                if k <= old_chunks.len() {
                    k
                } else {
                    old_chunks.len() as int
                },
            ),
        ) + refs_weighted_bytes(new_chunks, refs, k),
    decreases k,
{
    if k > 0 {
        lemma_bytes_total_split(new_chunks, old_chunks, refs, k - 1);
        assert(new_chunks.take(k).drop_last() =~= new_chunks.take(k - 1));
        let kw: int = if k <= old_chunks.len() {
            k
        } else {
            old_chunks.len() as int
        };
        let kw1: int = if k - 1 <= old_chunks.len() {
            k - 1
        } else {
            old_chunks.len() as int
        };
        if kw != kw1 {
            assert(old_chunks.take(kw).drop_last() =~= old_chunks.take(kw1));
        }
        let c = k - 1;
        lemma_occ_nonneg(refs, c as usize);
        lemma_mul_basics(occ(refs, c as usize));
        if new_chunks[c] is Some {
            let len = new_chunks[c]->Some_0.data@.len() as int;
            if c < old_chunks.len() && old_chunks[c] is Some
                && old_chunks[c]->Some_0.data@.len() == new_chunks[c]->Some_0.data@.len() {
                lemma_mul_nonnegative(len, occ(refs, c as usize));
            } else {
                lemma_mul_inequality(1, occ(refs, c as usize), len);
                lemma_mul_basics(len);
                assert(occ(refs, c as usize) * len == len * occ(refs, c as usize));
            }
        }
    }
}

/// When no live list other than `l` counts chunk `c`, the pool-wide count
/// for `c` is list `l`'s own count.
proof fn lemma_lists_refcount_only(lists: Seq<Option<BChunkList>>, l: int, c: usize)
    requires
        0 <= l < lists.len(),
        forall|l2: int|
            0 <= l2 < lists.len() && l2 != l ==> slot_occ(#[trigger] lists[l2], c) == 0,
    ensures
        lists_refcount(lists, c) == slot_occ(lists[l], c),
    decreases lists.len(),
{
    if l == lists.len() - 1 {
        lemma_lists_refcount_zero_all(lists.drop_last(), c);
    } else {
        lemma_lists_refcount_only(lists.drop_last(), l, c);
    }
}

/// A pool-wide count over lists that all count zero is zero.
proof fn lemma_lists_refcount_zero_all(lists: Seq<Option<BChunkList>>, c: usize)
    requires
        forall|l2: int| 0 <= l2 < lists.len() ==> slot_occ(#[trigger] lists[l2], c) == 0,
    ensures
        lists_refcount(lists, c) == 0,
    decreases lists.len(),
{
    if lists.len() > 0 {
        lemma_lists_refcount_zero_all(lists.drop_last(), c);
    }
}

/// A positive pool-wide count names a live list that holds the chunk.
proof fn lemma_lists_refcount_exists(lists: Seq<Option<BChunkList>>, c: usize)
    requires
        lists_refcount(lists, c) >= 1,
    ensures
        exists|l2: int|
            0 <= l2 < lists.len() && lists[l2] is Some && occ(
                (#[trigger] lists[l2])->Some_0.chunk_refs@,
                c,
            ) >= 1,
    decreases lists.len(),
{
    lemma_slot_occ_nonneg(lists.last(), c);
    if slot_occ(lists.last(), c) >= 1 {
        assert(lists[lists.len() - 1] is Some);
    } else {
        lemma_lists_refcount_exists(lists.drop_last(), c);
        let l2 = choose|l2: int|
            0 <= l2 < lists.drop_last().len() && lists.drop_last()[l2] is Some && occ(
                (#[trigger] lists.drop_last()[l2])->Some_0.chunk_refs@,
                c,
            ) >= 1;
        assert(lists[l2] is Some && occ(lists[l2]->Some_0.chunk_refs@, c) >= 1);
    }
}

/// After (re)building list `l`, the pool's byte total is at most the old
/// total plus list `l`'s bytes: every live chunk either kept its old slot
/// and length, or is referenced by `l` and so contributes to its bytes.
pub(crate) proof fn lemma_bytes_total_le(m0: &BArrayMemory, m1: &BArrayMemory, l: int)
    requires
        m0.wf0(),
        m1.wf0(),
        m1.list_live(l),
        // no chunk is orphaned
        forall|c: int| #[trigger] m1.chunk_live(c) ==> m1.chunk_at(c).users >= 1,
        // every other live list was carried over with its record
        forall|l2: int|
            #[trigger] m1.list_live(l2) && l2 != l ==> m0.list_live(l2) && m1.list_at(l2)
                == m0.list_at(l2),
        // the chunks of the old lists were carried over with their bytes
        forall|l2: int, k: int|
            m0.list_live(l2) && 0 <= k < m0.list_refs(l2).len() ==> m1.chunk_live(
                (#[trigger] m0.list_refs(l2)[k]) as int,
            ) && m1.chunk_bytes(m0.list_refs(l2)[k] as int) == m0.chunk_bytes(
                m0.list_refs(l2)[k] as int,
            ),
    ensures
        chunks_bytes_total(m1.chunk@) <= chunks_bytes_total(m0.chunk@) + m1.list_bytes(l).len(),
{
    let refs = m1.list_refs(l);
    m1.chunk.lemma_view_len_bounded();
    m1.chunk_list.lemma_view_len_bounded();
    assert forall|c: int|
        0 <= c < m1.chunk@.len() && (#[trigger] m1.chunk@[c]) is Some implies (c
        < m0.chunk@.len() && m0.chunk@[c] is Some && m0.chunk@[c]->Some_0.data@.len()
        == m1.chunk@[c]->Some_0.data@.len()) || occ(refs, c as usize) >= 1 by {
        let cu = c as usize;
        assert(m1.chunk_live(cu as int));
        assert(m1.chunk_at(cu as int).users == lists_refcount(m1.chunk_list@, cu));
        lemma_occ_nonneg(refs, cu);
        if occ(refs, cu) == 0 {
            // some other list holds the chunk, so it was carried over
            lemma_lists_refcount_exists(m1.chunk_list@, cu);
            let l2 = choose|l2: int|
                0 <= l2 < m1.chunk_list@.len() && m1.chunk_list@[l2] is Some && occ(
                    (#[trigger] m1.chunk_list@[l2])->Some_0.chunk_refs@,
                    c as usize,
                ) >= 1;
            assert(m1.list_live(l2));
            assert(l2 != l);
            assert(m0.list_live(l2) && m0.list_refs(l2) == m1.list_refs(l2));
            let r2 = m0.list_refs(l2);
            assert(exists|i: int| 0 <= i < r2.len() && r2[i] == cu) by {
                if forall|i: int| 0 <= i < r2.len() ==> r2[i] != cu {
                    lemma_occ_zero_of_absent(r2, cu);
                }
            }
            let i = choose|i: int| 0 <= i < r2.len() && r2[i] == cu;
            assert(m0.chunk_live(cu as int));
            assert(m1.chunk_bytes(cu as int) == m0.chunk_bytes(cu as int));
        }
    }
    lemma_bytes_total_split(m1.chunk@, m0.chunk@, refs, m1.chunk@.len() as int);
    assert(m1.chunk@.take(m1.chunk@.len() as int) =~= m1.chunk@);
    if m1.chunk@.len() <= m0.chunk@.len() {
        lemma_bytes_total_take_le(m0.chunk@, m1.chunk@.len() as int);
    } else {
        assert(m0.chunk@.take(m0.chunk@.len() as int) =~= m0.chunk@);
    }
    assert forall|i: int| 0 <= i < refs.len() implies m1.chunk_live(
        (#[trigger] refs[i]) as int,
    ) by {
        assert(m1.list_refs_live(l));
    }
    lemma_weighted_eq_bytes(m1, refs);
}

} // verus!
