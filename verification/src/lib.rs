//! Array storage that minimizes duplication across many revisions of a flat
//! byte array.
//!
//! Arrays are split into chunks; chunks shared between revisions are stored
//! once and reference counted.  Each revision submitted by the caller becomes
//! a [`BArrayState`] handle from which the exact bytes can be read back, and
//! a new revision may name an earlier one as a reference so that shared
//! content is deduplicated.

pub(crate) mod accounting;
pub(crate) mod chunk;
pub(crate) mod hash;
pub mod list_base;
pub mod mempool_elem;
pub(crate) mod merge;

use crate::chunk::{
    bchunk_list_decref, bchunk_list_fill_from_array, bchunk_list_new, bchunk_list_size,
    lists_refcount, lists_total_refs, BArrayInfo, BArrayMemory, BChunkList, MEMPOOL_CHUNK_SIZE,
};
use crate::list_base::ListBase;
use crate::mempool_elem::MemPool;
use vstd::prelude::*;
use vstd::std_specs::cmp::PartialEqSpec;

verus! {

/// Number of accumulation passes plus one; the read-ahead window is the
/// triangle number of the pass count, plus one.
pub const BCHUNK_HASH_TABLE_ACCUMULATE_STEPS: usize = 4;

/// Merge chunks smaller than the regular chunk size divided by this.
pub const BCHUNK_SIZE_MIN_DIV: usize = 8;

/// Disallow chunks bigger than the regular chunk size scaled by this.
pub const BCHUNK_SIZE_MAX_MUL: usize = 2;

/// A handle naming one stored revision.  Handles stay valid until the state
/// is removed or the store is cleared.
#[derive(Clone, Copy, PartialEq, Eq, Structural)]
pub struct BArrayState {
    idx: usize,
}

/// Main storage for any number of revisions of arrays sharing one stride.
pub struct BArrayStore {
    info: BArrayInfo,
    memory: BArrayMemory,
    // `BArrayState` handles in insertion order (logic never depends on the
    // order).
    states: ListBase<usize>,
}

/// Contribution of one state slot to a chunk list's user count.
spec fn state_slot_occ(slot: Option<usize>, l: usize) -> int {
    match slot {
        Some(h) => if h == l {
            1int
        } else {
            0int
        },
        None => 0,
    }
}

/// Number of live states referencing chunk list `l`.
spec fn states_refcount(spool: Seq<Option<usize>>, l: usize) -> int
    decreases spool.len(),
{
    if spool.len() == 0 {
        0
    } else {
        states_refcount(spool.drop_last(), l) + state_slot_occ(spool.last(), l)
    }
}

proof fn lemma_states_refcount_nonneg(spool: Seq<Option<usize>>, l: usize)
    ensures
        0 <= states_refcount(spool, l) <= spool.len(),
    decreases spool.len(),
{
    if spool.len() > 0 {
        lemma_states_refcount_nonneg(spool.drop_last(), l);
    }
}

proof fn lemma_states_refcount_update(
    spool: Seq<Option<usize>>,
    s: int,
    v: Option<usize>,
    l: usize,
)
    requires
        0 <= s < spool.len(),
    ensures
        states_refcount(spool.update(s, v), l) == states_refcount(spool, l) + state_slot_occ(v, l)
            - state_slot_occ(spool[s], l),
    decreases spool.len(),
{
    let t = spool.update(s, v);
    if s == spool.len() - 1 {
        assert(t.drop_last() =~= spool.drop_last());
    } else {
        assert(t.drop_last() =~= spool.drop_last().update(s, v));
        lemma_states_refcount_update(spool.drop_last(), s, v, l);
        assert(t.last() == spool.last());
    }
}

proof fn lemma_states_refcount_push(spool: Seq<Option<usize>>, v: Option<usize>, l: usize)
    ensures
        states_refcount(spool.push(v), l) == states_refcount(spool, l) + state_slot_occ(v, l),
{
    assert(spool.push(v).drop_last() =~= spool);
}

proof fn lemma_states_refcount_at(spool: Seq<Option<usize>>, s: int, l: usize)
    requires
        0 <= s < spool.len(),
    ensures
        states_refcount(spool, l) >= state_slot_occ(spool[s], l),
    decreases spool.len(),
{
    if s == spool.len() - 1 {
        lemma_states_refcount_nonneg(spool.drop_last(), l);
    } else {
        lemma_states_refcount_at(spool.drop_last(), s, l);
    }
}

/// Two distinct live states referencing the same list put its user count at
/// two or more.
proof fn lemma_states_refcount_two(spool: Seq<Option<usize>>, s1: int, s2: int, l: usize)
    requires
        0 <= s1 < spool.len(),
        0 <= s2 < spool.len(),
        s1 != s2,
    ensures
        states_refcount(spool, l) >= state_slot_occ(spool[s1], l) + state_slot_occ(spool[s2], l),
{
    lemma_states_refcount_update(spool, s2, None, l);
    lemma_states_refcount_at(spool.update(s2, None), s1, l);
    lemma_states_refcount_nonneg(spool.update(s2, None), l);
    assert(spool.update(s2, None)[s1] == spool[s1]);
}

/// A handle that no live state references has a user count of zero.
proof fn lemma_states_refcount_zero(spool: Seq<Option<usize>>, l: usize)
    requires
        forall|s: int| 0 <= s < spool.len() ==> state_slot_occ(#[trigger] spool[s], l) == 0,
    ensures
        states_refcount(spool, l) == 0,
    decreases spool.len(),
{
    if spool.len() > 0 {
        lemma_states_refcount_zero(spool.drop_last(), l);
    }
}

impl BArrayStore {
    /// Bytes per logical element; every array length is a multiple of this.
    pub closed spec fn spec_stride(&self) -> usize {
        self.info.chunk_stride
    }

    /// The regular chunk size in bytes.
    pub closed spec fn spec_chunk_byte_size(&self) -> usize {
        self.info.chunk_byte_size
    }

    /// The configured minimum chunk size in bytes.
    pub closed spec fn spec_chunk_byte_size_min(&self) -> usize {
        self.info.chunk_byte_size_min
    }

    /// The configured maximum chunk size in bytes.
    pub closed spec fn spec_chunk_byte_size_max(&self) -> usize {
        self.info.chunk_byte_size_max
    }

    /// How many leading bytes of a chunk feed its content key.
    pub closed spec fn spec_accum_read_ahead_bytes(&self) -> usize {
        self.info.accum_read_ahead_bytes
    }

    /// Whether `state` names a live revision of this store.
    pub closed spec fn state_live(&self, state: BArrayState) -> bool {
        self.memory.state.live(state.idx as int)
    }

    /// The chunk list handle a live state references.
    spec fn state_list(&self, state: BArrayState) -> usize {
        self.memory.state@[state.idx as int]->Some_0
    }

    /// The exact bytes a live state reproduces.
    pub closed spec fn state_bytes(&self, state: BArrayState) -> Seq<u8> {
        self.memory.list_bytes(self.state_list(state) as int)
    }

    /// The byte buffers of the chunks making up a live state, in order.
    pub closed spec fn state_chunks(&self, state: BArrayState) -> Seq<Seq<u8>> {
        let refs = self.memory.list_refs(self.state_list(state) as int);
        Seq::new(refs.len(), |i: int| self.memory.chunk_bytes(refs[i] as int))
    }

    /// A published chunk list: its cached size is exact, it fits the
    /// arithmetic budget, and every chunk but the head meets the minimum
    /// size.
    spec fn list_published(&self, l: int) -> bool {
        &&& self.memory.list_live(l)
        &&& self.memory.list_at(l).total_size == self.memory.list_bytes(l).len()
        &&& self.memory.list_at(l).total_size <= usize::MAX / 4
        &&& self.memory.list_nonhead_min(l, self.info.chunk_byte_size_min as int)
    }

    /// Well-formedness of the whole store: configuration, pools, the state
    /// list, and both layers of reference counts.
    pub closed spec fn inv(&self) -> bool {
        &&& self.info.wf()
        &&& self.memory.wf(self.info.chunk_stride as int)
        // the state list holds exactly the live state handles, each once
        &&& forall|k: int|
            0 <= k < self.states@.len() ==> self.memory.state.live((#[trigger] self.states@[k]) as int)
        &&& forall|k1: int, k2: int|
            #![trigger self.states@[k1], self.states@[k2]]
            0 <= k1 < k2 < self.states@.len() ==> self.states@[k1] != self.states@[k2]
        &&& forall|s: int|
            0 <= s < self.memory.state@.len() && self.memory.state@[s] is Some
                ==> self.states@.contains(s as usize)
        // every live state references a published list
        &&& forall|s: int|
            0 <= s < self.memory.state@.len() && self.memory.state@[s] is Some
                ==> self.list_published((#[trigger] self.memory.state@[s])->Some_0 as int)
        // every live list is referenced by exactly its user count of states
        &&& forall|l: int| #[trigger]
            self.memory.list_live(l) ==> self.memory.list_at(l).users == states_refcount(
                self.memory.state@,
                l as usize,
            ) && self.memory.list_at(l).users >= 1
        // every stored chunk is still referenced by some list
        &&& forall|c: int| #[trigger]
            self.memory.chunk_live(c) ==> self.memory.chunk_at(c).users >= 1
    }

    /// The store's bookkeeping footprint: pool slots and chunk references.
    /// It starts at zero, grows by a bounded amount per added revision, and
    /// never grows when a revision is removed, so callers can budget
    /// [`BArrayStore::can_add`] across any sequence of operations.
    pub closed spec fn spec_usage(&self) -> int {
        self.memory.chunk@.len() + lists_total_refs(self.memory.chunk_list@)
            + self.memory.chunk_list@.len() + self.memory.state@.len() + self.states@.len()
    }

    /// Room left for one more array of `n` bytes: the bookkeeping footprint
    /// stays within machine limits.
    pub open spec fn can_add(&self, n: int) -> bool {
        self.spec_usage() + 3 * n + 8 <= usize::MAX
    }

    /// Each component of the footprint is itself within the budget.
    proof fn lemma_usage_components(&self, n: int)
        requires
            self.can_add(n),
            n >= 0,
        ensures
            self.memory.chunk@.len() + 3 * n + 8 <= usize::MAX,
            lists_total_refs(self.memory.chunk_list@) + 3 * n + 8 <= usize::MAX,
            self.memory.chunk_list@.len() < usize::MAX,
            self.memory.state@.len() < usize::MAX,
            self.states@.len() < usize::MAX,
    {
        crate::chunk::lemma_lists_total_refs_nonneg(self.memory.chunk_list@);
    }

    /// Create a new array store for arrays whose element size is `stride`
    /// bytes, split into chunks of `chunk_count` elements.
    pub fn new(stride: usize, chunk_count: usize) -> (store: BArrayStore)
        requires
            1 <= stride,
            1 <= chunk_count,
            stride <= usize::MAX / 8,
            chunk_count * stride <= usize::MAX / 8,
        ensures
            store.inv(),
            store.spec_stride() == stride,
            store.spec_chunk_byte_size() == chunk_count * stride,
            store.spec_chunk_byte_size_min() == (if chunk_count / BCHUNK_SIZE_MIN_DIV < 1 {
                1int
            } else {
                chunk_count as int / BCHUNK_SIZE_MIN_DIV as int
            }) * stride,
            store.spec_chunk_byte_size_max() == BCHUNK_SIZE_MAX_MUL * (chunk_count * stride),
            store.spec_accum_read_ahead_bytes() == 7 * stride,
            forall|s: BArrayState| !store.state_live(s),
            store.spec_usage() == 0,
            store.spec_size_expanded() == 0,
            store.spec_size_compacted() == 0,
    {
        let accum_steps = BCHUNK_HASH_TABLE_ACCUMULATE_STEPS - 1;
        let accum_read_ahead_len = (accum_steps * (accum_steps + 1)) / 2 + 1;
        proof {
            assert(accum_read_ahead_len == 7);
            assert(7 * stride <= usize::MAX) by (nonlinear_arith)
                requires
                    stride <= usize::MAX / 8,
            ;
        }
        let accum_read_ahead_bytes = accum_read_ahead_len * stride;
        let min_count = {
            let d = chunk_count / BCHUNK_SIZE_MIN_DIV;
            if d < 1 {
                1
            } else {
                d
            }
        };
        proof {
            vstd::arithmetic::div_mod::lemma_fundamental_div_mod(
                chunk_count as int,
                BCHUNK_SIZE_MIN_DIV as int,
            );
            assert(chunk_count as int / BCHUNK_SIZE_MIN_DIV as int <= chunk_count) by (
            nonlinear_arith)
                requires
                    chunk_count >= 1,
                    chunk_count as int == BCHUNK_SIZE_MIN_DIV as int * (chunk_count as int
                        / BCHUNK_SIZE_MIN_DIV as int) + chunk_count as int
                        % BCHUNK_SIZE_MIN_DIV as int,
                    0 <= chunk_count as int % BCHUNK_SIZE_MIN_DIV as int,
                    BCHUNK_SIZE_MIN_DIV == 8,
            ;
            vstd::arithmetic::mul::lemma_mul_inequality(
                min_count as int,
                chunk_count as int,
                stride as int,
            );
            vstd::arithmetic::div_mod::lemma_mod_multiples_basic(min_count as int, stride as int);
            vstd::arithmetic::div_mod::lemma_mod_multiples_basic(chunk_count as int, stride as int);
            vstd::arithmetic::mul::lemma_mul_is_commutative(min_count as int, stride as int);
            vstd::arithmetic::mul::lemma_mul_is_commutative(chunk_count as int, stride as int);
            vstd::arithmetic::mul::lemma_mul_inequality(1, min_count as int, stride as int);
        }
        let chunk_byte_size_min = min_count * stride;
        let chunk_byte_size = chunk_count * stride;
        let store = BArrayStore {
            info: BArrayInfo {
                chunk_stride: stride,
                chunk_byte_size,
                chunk_byte_size_min,
                chunk_byte_size_max: chunk_byte_size * BCHUNK_SIZE_MAX_MUL,
                accum_steps,
                accum_read_ahead_len,
                accum_read_ahead_bytes,
            },
            memory: BArrayMemory {
                state: MemPool::with_chunk_size(MEMPOOL_CHUNK_SIZE),
                chunk_list: MemPool::new(),
                // iteration over chunks keeps compaction statistics simple
                chunk: MemPool::new(),
            },
            states: ListBase::new(),
        };
        proof {
            assert(store.info.wf());
            assert(store.memory.wf(stride as int));
            assert(store.inv());
        }
        store
    }

    /// Clear all contents; the store can be reused.
    pub fn clear(&mut self)
        requires
            old(self).inv(),
        ensures
            final(self).inv(),
            final(self).spec_stride() == old(self).spec_stride(),
            final(self).spec_chunk_byte_size() == old(self).spec_chunk_byte_size(),
            final(self).spec_chunk_byte_size_min() == old(self).spec_chunk_byte_size_min(),
            final(self).spec_chunk_byte_size_max() == old(self).spec_chunk_byte_size_max(),
            forall|s: BArrayState| !final(self).state_live(s),
            final(self).spec_usage() == 0,
            final(self).spec_size_expanded() == 0,
            final(self).spec_size_compacted() == 0,
    {
        self.states.clear();
        self.memory.state.clear();
        self.memory.chunk_list.clear();
        self.memory.chunk.clear();
    }
}

impl BArrayStore {
    /// Store one revision.  When `state_reference` names an earlier state,
    /// chunks shared with it are reused rather than copied; the reference
    /// may be any live state of this store.  Returns the handle from which
    /// exactly `data` can be read back.
    pub fn state_add(&mut self, data: &[u8], state_reference: Option<BArrayState>) -> (state:
        BArrayState)
        requires
            old(self).inv(),
            data@.len() as int % old(self).spec_stride() as int == 0,
            data@.len() <= usize::MAX / 4,
            match state_reference {
                Some(r) => old(self).state_live(r),
                None => true,
            },
            old(self).can_add(data@.len() as int),
        ensures
            final(self).inv(),
            final(self).state_live(state),
            !old(self).state_live(state),
            final(self).state_bytes(state) == data@,
            forall|s: BArrayState|
                old(self).state_live(s) ==> final(self).state_live(s) && final(self).state_bytes(s)
                    == old(self).state_bytes(s),
            final(self).spec_stride() == old(self).spec_stride(),
            final(self).spec_chunk_byte_size() == old(self).spec_chunk_byte_size(),
            final(self).spec_chunk_byte_size_min() == old(self).spec_chunk_byte_size_min(),
            final(self).spec_chunk_byte_size_max() == old(self).spec_chunk_byte_size_max(),
            final(self).spec_usage() <= old(self).spec_usage() + 6 * data@.len() + 19,
            final(self).spec_size_expanded() == old(self).spec_size_expanded() + data@.len(),
            (match state_reference {
                Some(r) => old(self).state_bytes(r) == data@,
                None => false,
            }) ==> final(self).spec_size_compacted() == old(self).spec_size_compacted(),
            state_reference is None ==> final(self).spec_size_compacted() == old(
                self,
            ).spec_size_compacted() + data@.len(),
            final(self).spec_size_compacted() <= old(self).spec_size_compacted() + data@.len(),
    {
        let ghost st0 = *old(self);
        let ghost m0 = old(self).memory;
        let n = data.len();
        proof {
            self.lemma_usage_components(n as int);
        }
        let chunk_list = match state_reference {
            Some(r) => {
                let reference_list = *self.memory.state.get(r.idx);
                proof {
                    assert(m0.state@[r.idx as int] is Some);
                    assert(st0.list_published(reference_list as int));
                }
                let cl = crate::merge::bchunk_list_from_data_merge(
                    &self.info,
                    &mut self.memory,
                    data,
                    reference_list,
                );
                proof {
                    // no chunk is orphaned, and every other list was carried
                    // over with its chunks, so the pool's byte total grew by
                    // at most the new list's bytes
                    let mm = self.memory;
                    assert forall|c: int| #[trigger] mm.chunk_live(c) implies mm.chunk_at(
                        c,
                    ).users >= 1 by {
                        if mm.chunk_at(c).users < 1 {
                            assert(m0.chunk_live(c));
                        }
                    }
                    assert forall|l2: int|
                        #[trigger] mm.list_live(l2) && l2 != cl as int implies m0.list_live(l2)
                        && mm.list_at(l2) == m0.list_at(l2) by {}
                    crate::accounting::lemma_bytes_total_le(&m0, &mm, cl as int);
                    assert(crate::chunk::chunks_bytes_total(mm.chunk@)
                        <= crate::chunk::chunks_bytes_total(m0.chunk@) + data@.len());
                }
                cl
            },
            None => {
                let fresh = bchunk_list_new(&mut self.memory);
                bchunk_list_fill_from_array(&self.info, &mut self.memory, fresh, data);
                proof {
                    assert forall|l2: int| m0.list_live(l2) implies self.memory.list_live(l2)
                        && self.memory.list_at(l2) == m0.list_at(l2) && self.memory.list_bytes(l2)
                        == m0.list_bytes(l2) by {
                        m0.lemma_others_stable_bytes(self.memory, fresh as int, l2);
                    }
                    assert forall|l2: int|
                        self.memory.list_live(l2) && l2 != fresh implies m0.list_live(l2) by {}
                    assert forall|l2: int, k: int|
                        m0.list_live(l2) && 0 <= k < m0.list_refs(l2).len() implies
                        self.memory.chunk_live((#[trigger] m0.list_refs(l2)[k]) as int)
                        && self.memory.chunk_bytes(m0.list_refs(l2)[k] as int) == m0.chunk_bytes(
                        m0.list_refs(l2)[k] as int,
                    ) by {}
                }
                fresh
            },
        };
        let ghost m1 = self.memory;
        let ghost lli = chunk_list as int;
        proof {
            // the new (or reused) list's user count has room to grow
            if m0.list_live(lli) {
                lemma_states_refcount_nonneg(m0.state@, chunk_list);
            } else {
                assert forall|s: int| 0 <= s < m0.state@.len() implies state_slot_occ(
                    #[trigger] m0.state@[s],
                    chunk_list,
                ) == 0 by {
                    if m0.state@[s] is Some {
                        assert(st0.list_published((m0.state@[s])->Some_0 as int));
                    }
                }
                lemma_states_refcount_zero(m0.state@, chunk_list);
                assert(m1.list_at(lli).users == 0);
            }
        }
        crate::chunk::bchunk_list_users_incr(&mut self.memory, chunk_list);
        let ghost m2 = self.memory;
        let sh = self.memory.state.alloc_elem_from(chunk_list);
        let ghost m3 = self.memory;
        self.states.push_back(sh);
        let state = BArrayState { idx: sh };
        proof {
            let mf = self.memory;
            // the chunk pools are untouched by state bookkeeping
            assert(mf.chunk_list@ == m2.chunk_list@ && mf.chunk@ == m2.chunk@);
            assert forall|l2: int| #[trigger] mf.list_live(l2) implies mf.list_refs_live(l2)
                && mf.list_at(l2).chunk_refs_len == mf.list_refs(l2).len() by {
                assert(m2.list_live(l2));
                assert(m2.list_refs_live(l2));
                assert forall|i: int| 0 <= i < mf.list_refs(l2).len() implies mf.chunk_live(
                    (#[trigger] mf.list_refs(l2)[i]) as int,
                ) by {
                    assert(m2.chunk_live((#[trigger] m2.list_refs(l2)[i]) as int));
                }
            }
            assert forall|c: int| #[trigger] mf.chunk_live(c) implies 1 <= mf.chunk_len(c)
                && mf.chunk_len(c) % self.info.chunk_stride as int == 0 by {
                assert(m2.chunk_live(c));
            }
            assert forall|c: usize| #[trigger] mf.chunk_live(c as int) implies mf.chunk_at(
                c as int,
            ).users == lists_refcount(mf.chunk_list@, c) by {
                assert(m2.chunk_live(c as int));
            }
            assert forall|c: int| #[trigger] mf.chunk_live(c) implies m2.chunk_live(c)
                && mf.chunk_at(c).key == m2.chunk_at(c).key && mf.chunk_bytes(c) == m2.chunk_bytes(
                c,
            ) by {
                assert(m2.chunk_live(c));
            }
            crate::chunk::lemma_keys_consistent_stable(&m2, &mf, self.info.chunk_stride as int);
            assert(mf.wf(self.info.chunk_stride as int));
        }
        proof {
            let mf = self.memory;
            assert(mf.state@ == m3.state@);
            assert(mf.chunk@ == m1.chunk@);
            assert(mf.list_refs(lli) == m1.list_refs(lli));
            assert forall|k: int| 0 <= k < m1.list_refs(lli).len() implies mf.chunk_bytes(
                (#[trigger] m1.list_refs(lli)[k]) as int,
            ) == m1.chunk_bytes(m1.list_refs(lli)[k] as int) by {}
            m1.lemma_refs_bytes_congruence(mf, m1.list_refs(lli));
            assert(mf.list_bytes(lli) == data@);
            // the new slot accounts for the one new user of this list;
            // every other list's count is unchanged
            mf.chunk_list.lemma_view_len_bounded();
            assert forall|l2: int| #[trigger] mf.list_live(l2) implies mf.list_at(l2).users
                == states_refcount(mf.state@, l2 as usize) && mf.list_at(l2).users >= 1 by {
                assert(l2 == (l2 as usize) as int);
                if (sh as int) < m0.state@.len() {
                    assert(mf.state@ =~= m1.state@.update(sh as int, Some(chunk_list)));
                    lemma_states_refcount_update(m1.state@, sh as int, Some(chunk_list), l2 as usize);
                } else {
                    assert(mf.state@ =~= m1.state@.push(Some(chunk_list)));
                    lemma_states_refcount_push(m1.state@, Some(chunk_list), l2 as usize);
                }
                if l2 != lli {
                    assert(m1.list_live(l2));
                    assert(m0.list_live(l2));
                    assert(mf.list_at(l2) == m0.list_at(l2));
                    assert(m0.list_at(l2).users == states_refcount(m0.state@, l2 as usize)
                        && m0.list_at(l2).users >= 1);
                }
            }
            // the state list stays a duplicate-free roster of live handles
            assert forall|k: int| 0 <= k < self.states@.len() implies mf.state.live(
                (#[trigger] self.states@[k]) as int,
            ) by {
                if k < st0.states@.len() {
                    assert(self.states@[k] == st0.states@[k]);
                    assert(m0.state.live((st0.states@[k]) as int));
                }
            }
            assert forall|k1: int, k2: int|
                #![trigger self.states@[k1], self.states@[k2]]
                0 <= k1 < k2 < self.states@.len() implies self.states@[k1] != self.states@[k2] by {
                if k2 < st0.states@.len() {
                } else {
                    assert(self.states@[k2] == sh);
                    assert(m0.state.live((st0.states@[k1]) as int));
                }
            }
            assert forall|s: int|
                0 <= s < mf.state@.len() && mf.state@[s] is Some implies self.states@.contains(
                s as usize,
            ) by {
                if s == sh as int {
                    assert(self.states@[self.states@.len() - 1] == sh);
                } else {
                    assert(m0.state@[s] == mf.state@[s]);
                    assert(st0.states@.contains(s as usize));
                    let w = choose|w: int| 0 <= w < st0.states@.len() && st0.states@[w] == s as usize;
                    assert(self.states@[w] == s as usize);
                }
            }
            // every live state still references a published list
            assert forall|s: int|
                0 <= s < mf.state@.len() && mf.state@[s] is Some implies self.list_published(
                (#[trigger] mf.state@[s])->Some_0 as int,
            ) by {
                if s == sh as int {
                    assert(mf.list_bytes(lli) == data@);
                    assert(mf.list_at(lli).total_size == n);
                    assert(mf.list_nonhead_min(lli, self.info.chunk_byte_size_min as int)) by {
                        assert forall|i: int|
                            1 <= i < mf.list_refs(lli).len() implies mf.chunk_len(
                            (#[trigger] mf.list_refs(lli)[i]) as int,
                        ) >= self.info.chunk_byte_size_min by {
                            assert(m1.list_refs_live(lli));
                            assert(m1.chunk_live((m1.list_refs(lli)[i]) as int));
                        }
                    }
                } else {
                    let l2 = (m0.state@[s])->Some_0;
                    assert(st0.list_published(l2 as int));
                    assert(mf.list_at(l2 as int).total_size == m0.list_at(l2 as int).total_size
                        || l2 == chunk_list);
                    assert(mf.list_bytes(l2 as int) == m1.list_bytes(l2 as int)) by {
                        assert forall|k: int|
                            0 <= k < m1.list_refs(l2 as int).len() implies mf.chunk_bytes(
                            (#[trigger] m1.list_refs(l2 as int)[k]) as int,
                        ) == m1.chunk_bytes(m1.list_refs(l2 as int)[k] as int) by {}
                        m1.lemma_refs_bytes_congruence(mf, m1.list_refs(l2 as int));
                    }
                    assert(mf.list_nonhead_min(
                        l2 as int,
                        self.info.chunk_byte_size_min as int,
                    )) by {
                        assert forall|i: int|
                            1 <= i < mf.list_refs(l2 as int).len() implies mf.chunk_len(
                            (#[trigger] mf.list_refs(l2 as int)[i]) as int,
                        ) >= self.info.chunk_byte_size_min by {
                            assert(m0.chunk_live((#[trigger] m0.list_refs(l2 as int)[i]) as int)
                                && m1.chunk_bytes(m0.list_refs(l2 as int)[i] as int)
                                == m0.chunk_bytes(m0.list_refs(l2 as int)[i] as int));
                            assert(m0.chunk_len(m0.list_refs(l2 as int)[i] as int)
                                >= self.info.chunk_byte_size_min);
                        }
                    }
                }
            }
            assert(self.inv());
            // every previously live state reads back unchanged
            assert forall|s: BArrayState| st0.state_live(s) implies self.state_live(s)
                && self.state_bytes(s) == st0.state_bytes(s) by {
                let l2 = (m0.state@[s.idx as int])->Some_0;
                assert(st0.list_published(l2 as int));
                assert(m1.list_bytes(l2 as int) == m0.list_bytes(l2 as int));
                assert(self.state_bytes(s) == m1.list_bytes(l2 as int)) by {
                    assert forall|k: int|
                        0 <= k < m1.list_refs(l2 as int).len() implies self.memory.chunk_bytes(
                        (#[trigger] m1.list_refs(l2 as int)[k]) as int,
                    ) == m1.chunk_bytes(m1.list_refs(l2 as int)[k] as int) by {}
                    m1.lemma_refs_bytes_congruence(self.memory, m1.list_refs(l2 as int));
                }
            }
            // bookkeeping footprint grows by a bounded amount
            assert(m1.chunk@.len() <= m0.chunk@.len() + 3 * n + 8);
            assert(lists_total_refs(m1.chunk_list@) <= lists_total_refs(m0.chunk_list@) + 3 * n
                + 8);
            assert(m1.chunk_list@.len() <= m0.chunk_list@.len() + 1);
            assert(lists_total_refs(mf.chunk_list@) == lists_total_refs(m2.chunk_list@));
            assert(mf.state@.len() <= m0.state@.len() + 1);
            assert(self.spec_usage() <= st0.spec_usage() + 6 * n + 19);
            // the expanded size grows by exactly this array's length
            let roster0 = st0.states@;
            assert(self.states@ == roster0.push(sh));
            assert forall|k: int|
                0 <= k < roster0.len() implies self.memory.state@[(#[trigger] roster0[k]) as int]
                    == st0.memory.state@[roster0[k] as int] && self.memory.list_at(
                    ((self.memory.state@[roster0[k] as int])->Some_0) as int,
                ).total_size == st0.memory.list_at(
                    ((st0.memory.state@[roster0[k] as int])->Some_0) as int,
                ).total_size by {
                assert(m0.state.live((roster0[k]) as int));
                let l2 = (m0.state@[roster0[k] as int])->Some_0;
                assert(st0.list_published(l2 as int));
                if l2 as int != lli {
                    assert(mf.list_at(l2 as int) == m0.list_at(l2 as int));
                }
            }
            assert forall|c2: int| #[trigger] mf.chunk_live(c2) implies mf.chunk_at(c2).users
                >= 1 by {
                assert(m1.chunk_live(c2));
                if m1.chunk_at(c2).users < 1 {
                    assert(m0.chunk_live(c2));
                }
            }
            st0.lemma_expanded_congruence(*self, roster0);
            assert(roster0.push(sh).drop_last() =~= roster0);
            assert(self.expanded_rec(roster0.push(sh)) == self.expanded_rec(roster0)
                + mf.list_at(lli).total_size);
            assert(self.spec_size_expanded() == st0.spec_size_expanded() + n);
            // the chunk pool's byte total grows by at most this array's length
            assert(self.spec_size_compacted() <= st0.spec_size_compacted() + n) by {
                assert(mf.chunk@ == m1.chunk@);
            }
        }
        state
    }

    /// Remove a state, releasing any chunks no other state shares.  States
    /// can be removed in any order.
    pub fn state_remove(&mut self, state: BArrayState)
        requires
            old(self).inv(),
            old(self).state_live(state),
        ensures
            final(self).inv(),
            !final(self).state_live(state),
            forall|s: BArrayState|
                s != state && old(self).state_live(s) ==> final(self).state_live(s) && final(self).state_bytes(s) == old(self).state_bytes(s),
            forall|s: BArrayState| final(self).state_live(s) ==> old(self).state_live(s),
            final(self).spec_stride() == old(self).spec_stride(),
            final(self).spec_chunk_byte_size() == old(self).spec_chunk_byte_size(),
            final(self).spec_chunk_byte_size_min() == old(self).spec_chunk_byte_size_min(),
            final(self).spec_chunk_byte_size_max() == old(self).spec_chunk_byte_size_max(),
            final(self).spec_usage() <= old(self).spec_usage(),
            final(self).spec_size_expanded() == old(self).spec_size_expanded() - old(
                self,
            ).state_bytes(state).len(),
            final(self).spec_size_compacted() <= old(self).spec_size_compacted(),
    {
        let ghost st0 = *old(self);
        let ghost m0 = old(self).memory;
        let lh = *self.memory.state.get(state.idx);
        let ghost lli = lh as int;
        proof {
            assert(m0.state@[state.idx as int] is Some);
            assert(st0.list_published(lli));
            lemma_states_refcount_at(m0.state@, state.idx as int, lh);
            if m0.list_at(lli).users >= 2 {
            } else {
                assert(m0.list_at(lli).users == 1);
            }
        }
        bchunk_list_decref(&mut self.memory, lh);
        let ghost m1 = self.memory;
        let key = state.idx;
        let pos_found = self.states.index_at(&key);
        proof {
            assert(st0.states@.contains(state.idx));
            if pos_found is None {
                let w = choose|w: int|
                    0 <= w < st0.states@.len() && st0.states@[w] == state.idx;
                assert(st0.states@[w].eq_spec(&key));
                assert(false);
            }
        }
        let pos = match pos_found {
            Some(p) => p,
            None => {
                proof {
                    assert(false);
                }
                0
            },
        };
        proof {
            assert(st0.states@[pos as int].eq_spec(&key));
            assert(st0.states@[pos as int] == state.idx);
        }
        self.states.remove(pos);
        let _lh = self.memory.state.free_elem(state.idx);
        proof {
            let mf = self.memory;
            assert(mf.chunk_list@ == m1.chunk_list@ && mf.chunk@ == m1.chunk@);
            assert forall|l2: int| #[trigger] mf.list_live(l2) implies mf.list_refs_live(l2)
                && mf.list_at(l2).chunk_refs_len == mf.list_refs(l2).len() by {
                assert(m1.list_live(l2));
                assert(m1.list_refs_live(l2));
                assert forall|i: int| 0 <= i < mf.list_refs(l2).len() implies mf.chunk_live(
                    (#[trigger] mf.list_refs(l2)[i]) as int,
                ) by {
                    assert(m1.chunk_live((#[trigger] m1.list_refs(l2)[i]) as int));
                }
            }
            assert forall|c: int| #[trigger] mf.chunk_live(c) implies 1 <= mf.chunk_len(c)
                && mf.chunk_len(c) % self.info.chunk_stride as int == 0 by {
                assert(m1.chunk_live(c));
            }
            assert forall|c: usize| #[trigger] mf.chunk_live(c as int) implies mf.chunk_at(
                c as int,
            ).users == lists_refcount(mf.chunk_list@, c) by {
                assert(m1.chunk_live(c as int));
            }
            assert forall|c: int| #[trigger] mf.chunk_live(c) implies m1.chunk_live(c)
                && mf.chunk_at(c).key == m1.chunk_at(c).key && mf.chunk_bytes(c) == m1.chunk_bytes(
                c,
            ) by {
                assert(m1.chunk_live(c));
            }
            crate::chunk::lemma_keys_consistent_stable(&m1, &mf, self.info.chunk_stride as int);
            assert(mf.wf(self.info.chunk_stride as int));
        }
        proof {
            let mf = self.memory;
            mf.state.lemma_view_len_bounded();
            let ghost spool1 = m0.state@.update(state.idx as int, None::<usize>);
            assert(mf.state@ == spool1);
            assert(mf.chunk_list@ == m1.chunk_list@ && mf.chunk@ == m1.chunk@);
            // user counts: the freed slot gave up its one reference
            mf.chunk_list.lemma_view_len_bounded();
            assert forall|l2: int| #[trigger] mf.list_live(l2) implies mf.list_at(l2).users
                == states_refcount(mf.state@, l2 as usize) && mf.list_at(l2).users >= 1 by {
                assert(l2 == (l2 as usize) as int);
                lemma_states_refcount_update(m0.state@, state.idx as int, None::<usize>, l2 as usize);
                assert(m1.list_live(l2));
                assert(m0.list_live(l2));
                assert(m0.list_at(l2).users == states_refcount(m0.state@, l2 as usize));
                if l2 == lli {
                    assert(m0.list_at(lli).users >= 2);
                } else {
                    assert(mf.list_at(l2) == m0.list_at(l2));
                    lemma_states_refcount_nonneg(spool1, l2 as usize);
                }
            }
            // removing position `pos` removes exactly this state's handle
            assert forall|k: int| 0 <= k < self.states@.len() implies mf.state.live(
                (#[trigger] self.states@[k]) as int,
            ) by {
                let k0 = if k < pos as int {
                    k
                } else {
                    k + 1
                };
                assert(self.states@[k] == st0.states@[k0]);
                assert(m0.state.live((st0.states@[k0]) as int));
                assert(st0.states@[k0] != state.idx);
            }
            assert forall|k1: int, k2: int|
                #![trigger self.states@[k1], self.states@[k2]]
                0 <= k1 < k2 < self.states@.len() implies self.states@[k1] != self.states@[k2] by {
                let a1 = if k1 < pos as int {
                    k1
                } else {
                    k1 + 1
                };
                let a2 = if k2 < pos as int {
                    k2
                } else {
                    k2 + 1
                };
                assert(self.states@[k1] == st0.states@[a1]);
                assert(self.states@[k2] == st0.states@[a2]);
            }
            assert forall|s: int|
                0 <= s < mf.state@.len() && mf.state@[s] is Some implies self.states@.contains(
                s as usize,
            ) by {
                assert(m0.state@[s] == mf.state@[s]);
                assert(s == (s as usize) as int);
                assert(st0.states@.contains(s as usize));
                let w = choose|w: int| 0 <= w < st0.states@.len() && st0.states@[w] == s as usize;
                assert(st0.states@[w] != state.idx);
                if w < pos as int {
                    assert(self.states@[w] == st0.states@[w]);
                } else {
                    assert(st0.states@[pos as int] == state.idx);
                    assert(w != pos as int);
                    assert(self.states@[w - 1] == st0.states@[w]);
                }
            }
            // remaining states still reference published lists with their
            // bytes intact
            assert forall|s: int|
                0 <= s < mf.state@.len() && mf.state@[s] is Some implies self.list_published(
                (#[trigger] mf.state@[s])->Some_0 as int,
            ) && mf.list_bytes((mf.state@[s])->Some_0 as int) == m0.list_bytes(
                (mf.state@[s])->Some_0 as int,
            ) by {
                let l2 = (m0.state@[s])->Some_0;
                assert(st0.list_published(l2 as int));
                if l2 == lh {
                    // shared list: this slot and the removed one are
                    // distinct, so the count was at least two
                    lemma_states_refcount_two(m0.state@, s, state.idx as int, lh);
                    assert(m0.list_at(lli).users >= 2);
                    assert(mf.list_live(lli));
                    assert(mf.chunk@ == m0.chunk@);
                    assert(mf.list_refs(l2 as int) == m0.list_refs(l2 as int));
                    assert forall|k: int|
                        0 <= k < m0.list_refs(l2 as int).len() implies mf.chunk_bytes(
                        (#[trigger] m0.list_refs(l2 as int)[k]) as int,
                    ) == m0.chunk_bytes(m0.list_refs(l2 as int)[k] as int) by {}
                    m0.lemma_refs_bytes_congruence(mf, m0.list_refs(l2 as int));
                    assert(mf.list_bytes(l2 as int) == m0.list_bytes(l2 as int));
                    assert(mf.list_nonhead_min(
                        l2 as int,
                        self.info.chunk_byte_size_min as int,
                    )) by {
                        assert forall|i: int|
                            1 <= i < mf.list_refs(l2 as int).len() implies mf.chunk_len(
                            (#[trigger] mf.list_refs(l2 as int)[i]) as int,
                        ) >= self.info.chunk_byte_size_min by {
                            assert(m0.list_refs_live(l2 as int));
                            assert(m0.chunk_live((m0.list_refs(l2 as int)[i]) as int));
                            assert(m0.chunk_len(m0.list_refs(l2 as int)[i] as int)
                                >= self.info.chunk_byte_size_min);
                        }
                    }
                } else {
                    assert(m0.list_live(l2 as int));
                    assert(mf.list_live(l2 as int) && mf.list_at(l2 as int) == m0.list_at(
                        l2 as int,
                    ));
                    m0.lemma_others_stable_bytes(m1, lli, l2 as int);
                    assert forall|k: int|
                        0 <= k < m1.list_refs(l2 as int).len() implies mf.chunk_bytes(
                        (#[trigger] m1.list_refs(l2 as int)[k]) as int,
                    ) == m1.chunk_bytes(m1.list_refs(l2 as int)[k] as int) by {}
                    m1.lemma_refs_bytes_congruence(mf, m1.list_refs(l2 as int));
                    assert(mf.list_bytes(l2 as int) == m0.list_bytes(l2 as int));
                    assert(mf.list_nonhead_min(
                        l2 as int,
                        self.info.chunk_byte_size_min as int,
                    )) by {
                        assert forall|i: int|
                            1 <= i < mf.list_refs(l2 as int).len() implies mf.chunk_len(
                            (#[trigger] mf.list_refs(l2 as int)[i]) as int,
                        ) >= self.info.chunk_byte_size_min by {
                            assert(m0.list_refs_live(l2 as int));
                            assert(m0.chunk_live((#[trigger] m0.list_refs(l2 as int)[i]) as int)
                                && mf.chunk_bytes(m0.list_refs(l2 as int)[i] as int)
                                == m0.chunk_bytes(m0.list_refs(l2 as int)[i] as int));
                            assert(m0.chunk_len(m0.list_refs(l2 as int)[i] as int)
                                >= self.info.chunk_byte_size_min);
                        }
                    }
                }
            }
            assert(self.inv());
            assert forall|s: BArrayState|
                s != state && st0.state_live(s) implies self.state_live(s) && self.state_bytes(s)
                == st0.state_bytes(s) by {
                if s.idx == state.idx {
                    assert(s == state);
                } else {
                    assert(mf.state@[s.idx as int] == m0.state@[s.idx as int]);
                }
            }
            assert forall|c2: int| #[trigger] mf.chunk_live(c2) implies mf.chunk_at(c2).users
                >= 1 by {
                assert(m1.chunk_live(c2));
                if m1.chunk_at(c2).users < 1 {
                    assert(m0.chunk_live(c2));
                }
            }
            // the footprint never grows on removal
            assert(lists_total_refs(mf.chunk_list@) <= lists_total_refs(m0.chunk_list@));
            assert(mf.state@.len() == m0.state@.len());
            assert(self.spec_usage() <= st0.spec_usage());
            // the expanded size shrinks by exactly this state's length
            let roster0 = st0.states@;
            assert(self.states@ == roster0.remove(pos as int));
            st0.lemma_expanded_remove(roster0, pos as int);
            assert forall|k: int|
                0 <= k < self.states@.len() implies self.memory.state@[(
                #[trigger] self.states@[k]) as int] == st0.memory.state@[self.states@[k] as int]
                    && self.memory.list_at(
                    ((self.memory.state@[self.states@[k] as int])->Some_0) as int,
                ).total_size == st0.memory.list_at(
                    ((st0.memory.state@[self.states@[k] as int])->Some_0) as int,
                ).total_size by {
                let k0 = if k < pos as int {
                    k
                } else {
                    k + 1
                };
                assert(self.states@[k] == roster0[k0]);
                assert(m0.state.live((roster0[k0]) as int));
                assert(roster0[k0] != state.idx);
                let l2 = (m0.state@[roster0[k0] as int])->Some_0;
                assert(st0.list_published(l2 as int));
                if l2 != lh {
                    assert(mf.list_at(l2 as int) == m0.list_at(l2 as int));
                } else {
                    assert(m0.list_at(lli).users >= 2) by {
                        lemma_states_refcount_two(
                            m0.state@,
                            roster0[k0] as int,
                            state.idx as int,
                            lh,
                        );
                    }
                }
            }
            st0.lemma_expanded_congruence(*self, self.states@);
            assert(st0.memory.list_at(
                ((st0.memory.state@[roster0[pos as int] as int])->Some_0) as int,
            ).total_size == st0.state_bytes(state).len());
            assert(self.spec_size_expanded() == st0.spec_size_expanded() - st0.state_bytes(
                state,
            ).len());
        }
    }
}

impl BArrayStore {
    /// The expanded size of one state's array, in bytes.
    pub fn state_size_get(&self, state: BArrayState) -> (size: usize)
        requires
            self.inv(),
            self.state_live(state),
        ensures
            size == self.state_bytes(state).len(),
    {
        let lh = *self.memory.state.get(state.idx);
        proof {
            assert(self.memory.state@[state.idx as int] is Some);
            assert(self.list_published(lh as int));
        }
        self.memory.chunk_list.get(lh).total_size
    }

    /// Fill `data`, whose length must equal the state's size, with the
    /// state's exact bytes.
    pub fn state_data_get(&self, state: BArrayState, data: &mut Vec<u8>)
        requires
            self.inv(),
            self.state_live(state),
            old(data)@.len() == self.state_bytes(state).len(),
        ensures
            final(data)@ == self.state_bytes(state),
    {
        let ghost mem = self.memory;
        let lh = *self.memory.state.get(state.idx);
        let ghost lli = lh as int;
        let ghost refs = mem.list_refs(lli);
        let ghost total = self.state_bytes(state);
        proof {
            assert(self.memory.state@[state.idx as int] is Some);
            assert(self.list_published(lli));
            assert(refs.take(0) =~= Seq::<usize>::empty());
            assert(total.subrange(0, 0) =~= Seq::<u8>::empty());
        }
        let cl = self.memory.chunk_list.get(lh);
        let nrefs = cl.chunk_refs.len_calc();
        let dlen = data.len();
        let mut data_step: usize = 0;
        let mut k: usize = 0;
        while k < nrefs
            invariant
                mem == self.memory,
                mem.wf0(),
                mem.list_live(lli),
                refs == mem.list_refs(lli),
                cl.chunk_refs@ == refs,
                nrefs == refs.len(),
                total == mem.list_bytes(lli),
                dlen == data@.len(),
                dlen == total.len(),
                k <= nrefs,
                data_step == mem.refs_bytes(refs.take(k as int)).len(),
                mem.refs_bytes(refs.take(k as int)) == total.subrange(0, data_step as int),
                data@.subrange(0, data_step as int) == total.subrange(0, data_step as int),
            decreases nrefs - k,
        {
            proof {
                assert(mem.chunk_live((refs[k as int]) as int));
                assert(refs.take(k as int + 1).drop_last() =~= refs.take(k as int));
                assert(refs.take(k as int + 1).last() == refs[k as int]);
                // the prefix stays a prefix of the whole
                assert(refs =~= refs.take(k as int + 1) + refs.skip(k as int + 1));
                mem.lemma_refs_bytes_concat(refs.take(k as int + 1), refs.skip(k as int + 1));
                assert(mem.refs_bytes(refs.take(k as int + 1)) =~= total.subrange(
                    0,
                    data_step + mem.chunk_len(refs[k as int] as int),
                ));
            }
            let c = *cl.chunk_refs.at_index(k).unwrap();
            let cvec = &self.memory.chunk.get(c).data;
            let clen = cvec.len();
            let data_step_next = data_step + clen;
            let mut b: usize = 0;
            while b < clen
                invariant
                    b <= clen,
                    clen == cvec@.len(),
                    data_step + clen == data_step_next <= dlen,
                    dlen == data@.len(),
                    dlen == total.len(),
                    cvec@ == total.subrange(data_step as int, data_step_next as int),
                    data@.subrange(0, data_step as int) == total.subrange(0, data_step as int),
                    forall|x: int|
                        data_step <= x < data_step + b ==> data@[x] == total[x],
                decreases clen - b,
            {
                let byte = cvec[b];
                data[data_step + b] = byte;
                proof {
                    assert(data@.subrange(0, data_step as int) =~= total.subrange(
                        0,
                        data_step as int,
                    ));
                    assert(data@[(data_step + b) as int] == total[(data_step + b) as int]);
                }
                b = b + 1;
            }
            proof {
                assert(data@.subrange(0, data_step_next as int) =~= total.subrange(
                    0,
                    data_step_next as int,
                ));
            }
            data_step = data_step_next;
            k = k + 1;
        }
        proof {
            assert(refs.take(nrefs as int) =~= refs);
            assert(data@ =~= total);
        }
    }

    /// Allocate a buffer of the right size and fill it with the state's
    /// bytes.
    pub fn state_data_get_alloc(&self, state: BArrayState) -> (data: Vec<u8>)
        requires
            self.inv(),
            self.state_live(state),
        ensures
            data@ == self.state_bytes(state),
    {
        let size = self.state_size_get(state);
        let mut data: Vec<u8> = Vec::new();
        let mut z: usize = 0;
        while z < size
            invariant
                z <= size,
                data@.len() == z,
            decreases size - z,
        {
            data.push(0u8);
            z = z + 1;
        }
        self.state_data_get(state, &mut data);
        data
    }
}

impl BArrayStore {
    /// Total bytes of the states named by a roster of live handles.
    spec fn expanded_rec(&self, roster: Seq<usize>) -> int
        decreases roster.len(),
    {
        if roster.len() == 0 {
            0
        } else {
            self.expanded_rec(roster.drop_last()) + self.memory.list_at(
                ((self.memory.state@[roster.last() as int])->Some_0) as int,
            ).total_size
        }
    }

    /// The memory needed to expand every live state: the sum of all state
    /// sizes.
    pub closed spec fn spec_size_expanded(&self) -> int {
        self.expanded_rec(self.states@)
    }

    /// `expanded_rec` depends only on the roster entries' slots and the
    /// referenced lists' cached sizes.
    proof fn lemma_expanded_congruence(&self, other: BArrayStore, roster: Seq<usize>)
        requires
            forall|k: int|
                0 <= k < roster.len() ==> other.memory.state@[(#[trigger] roster[k]) as int]
                    == self.memory.state@[roster[k] as int],
            forall|k: int|
                0 <= k < roster.len() ==> other.memory.list_at(
                    ((other.memory.state@[(#[trigger] roster[k]) as int])->Some_0) as int,
                ).total_size == self.memory.list_at(
                    ((self.memory.state@[roster[k] as int])->Some_0) as int,
                ).total_size,
        ensures
            other.expanded_rec(roster) == self.expanded_rec(roster),
        decreases roster.len(),
    {
        if roster.len() > 0 {
            self.lemma_expanded_congruence(other, roster.drop_last());
            assert(roster[roster.len() - 1] == roster.last());
        }
    }

    /// Removing one roster entry removes exactly its list's size.
    proof fn lemma_expanded_remove(&self, roster: Seq<usize>, pos: int)
        requires
            0 <= pos < roster.len(),
        ensures
            self.expanded_rec(roster.remove(pos)) == self.expanded_rec(roster) - self.memory.list_at(
                ((self.memory.state@[roster[pos] as int])->Some_0) as int,
            ).total_size,
        decreases roster.len(),
    {
        let t = roster.remove(pos);
        if pos == roster.len() - 1 {
            assert(t =~= roster.drop_last());
        } else {
            assert(t.drop_last() =~= roster.drop_last().remove(pos));
            self.lemma_expanded_remove(roster.drop_last(), pos);
            assert(t.last() == roster.last());
        }
    }

    proof fn lemma_expanded_prefix(&self, roster: Seq<usize>, k: int)
        requires
            0 <= k <= roster.len(),
        ensures
            0 <= self.expanded_rec(roster.take(k)) <= self.expanded_rec(roster),
        decreases roster.len(),
    {
        if roster.len() == 0 {
            assert(roster.take(k) =~= roster);
        } else if k == roster.len() {
            assert(roster.take(k) =~= roster);
            self.lemma_expanded_prefix(roster.drop_last(), roster.len() - 1);
            assert(roster.drop_last().take(roster.len() - 1) =~= roster.drop_last());
        } else {
            self.lemma_expanded_prefix(roster.drop_last(), k);
            assert(roster.drop_last().take(k) =~= roster.take(k));
            self.lemma_expanded_prefix(roster.drop_last(), roster.len() - 1);
            assert(roster.drop_last().take(roster.len() - 1) =~= roster.drop_last());
        }
    }

    /// Return the total memory that expanding every state would need.
    pub fn calc_size_expanded_get(&self) -> (size: usize)
        requires
            self.inv(),
            self.spec_size_expanded() <= usize::MAX,
        ensures
            size == self.spec_size_expanded(),
    {
        let ghost roster = self.states@;
        let n = self.states.len_calc();
        let mut size_accum: usize = 0;
        let mut k: usize = 0;
        proof {
            assert(roster.take(0) =~= Seq::<usize>::empty());
        }
        while k < n
            invariant
                self.inv(),
                roster == self.states@,
                n == roster.len(),
                k <= n,
                size_accum == self.expanded_rec(roster.take(k as int)),
                self.spec_size_expanded() <= usize::MAX,
            decreases n - k,
        {
            let sh = *self.states.at_index(k).unwrap();
            proof {
                assert(self.memory.state.live((roster[k as int]) as int));
                assert(roster.take(k as int + 1).drop_last() =~= roster.take(k as int));
                assert(roster.take(k as int + 1).last() == roster[k as int]);
                self.lemma_expanded_prefix(roster, k as int + 1);
            }
            let lh = *self.memory.state.get(sh);
            let t = self.memory.chunk_list.get(lh).total_size;
            size_accum = size_accum + t;
            k = k + 1;
        }
        proof {
            assert(roster.take(n as int) =~= roster);
        }
        size_accum
    }

    /// The memory used by all chunk buffers; shared chunks count once.
    pub closed spec fn spec_size_compacted(&self) -> int {
        crate::chunk::chunks_bytes_total(self.memory.chunk@)
    }

    proof fn lemma_compacted_prefix(chunks: Seq<Option<crate::chunk::BChunk>>, k: int)
        requires
            0 <= k <= chunks.len(),
        ensures
            0 <= crate::chunk::chunks_bytes_total(chunks.take(k)) <= crate::chunk::chunks_bytes_total(chunks),
        decreases chunks.len(),
    {
        if chunks.len() == 0 {
            assert(chunks.take(k) =~= chunks);
        } else if k == chunks.len() {
            assert(chunks.take(k) =~= chunks);
            Self::lemma_compacted_prefix(chunks.drop_last(), chunks.len() - 1);
            assert(chunks.drop_last().take(chunks.len() - 1) =~= chunks.drop_last());
        } else {
            Self::lemma_compacted_prefix(chunks.drop_last(), k);
            assert(chunks.drop_last().take(k) =~= chunks.take(k));
            Self::lemma_compacted_prefix(chunks.drop_last(), chunks.len() - 1);
            assert(chunks.drop_last().take(chunks.len() - 1) =~= chunks.drop_last());
        }
    }

    /// Return the memory used by the stored chunks; duplicated content
    /// counts only once.
    pub fn calc_size_compacted_get(&self) -> (size: usize)
        requires
            self.inv(),
            self.spec_size_compacted() <= usize::MAX,
        ensures
            size == self.spec_size_compacted(),
    {
        let ghost chunks = self.memory.chunk@;
        let n = self.memory.chunk.slot_count();
        let mut size_total: usize = 0;
        let mut k: usize = 0;
        proof {
            assert(chunks.take(0) =~= Seq::<Option<crate::chunk::BChunk>>::empty());
        }
        while k < n
            invariant
                self.inv(),
                chunks == self.memory.chunk@,
                n == chunks.len(),
                k <= n,
                size_total == crate::chunk::chunks_bytes_total(chunks.take(k as int)),
                self.spec_size_compacted() <= usize::MAX,
            decreases n - k,
        {
            proof {
                assert(chunks.take(k as int + 1).drop_last() =~= chunks.take(k as int));
                assert(chunks.take(k as int + 1).last() == chunks[k as int]);
                Self::lemma_compacted_prefix(chunks, k as int + 1);
            }
            if self.memory.chunk.is_live(k) {
                let clen = self.memory.chunk.get(k).data.len();
                size_total = size_total + clen;
            }
            k = k + 1;
        }
        proof {
            assert(chunks.take(n as int) =~= chunks);
        }
        size_total
    }
}

impl BArrayStore {
    /// The recomputable consistency of one state's chunk list: exact cached
    /// sizes, and no undersized chunk at all once the list outgrows the
    /// minimum.
    spec fn spec_state_list_valid(&self, sh: usize) -> bool {
        let l = ((self.memory.state@[sh as int])->Some_0) as int;
        &&& self.memory.list_at(l).total_size == self.memory.list_bytes(l).len()
        &&& self.memory.list_at(l).chunk_refs_len == self.memory.list_refs(l).len()
        &&& (self.memory.list_at(l).total_size > self.info.chunk_byte_size_min ==> forall|i: int|
            0 <= i < self.memory.list_refs(l).len() ==> self.memory.chunk_len(
                (#[trigger] self.memory.list_refs(l)[i]) as int,
            ) >= self.info.chunk_byte_size_min)
    }

    /// No stored chunk has been orphaned: each is still referenced.
    pub closed spec fn spec_no_orphan_chunks(&self) -> bool {
        forall|c: int| #[trigger]
            self.memory.chunk_live(c) ==> self.memory.chunk_at(c).users >= 1
    }

    /// What [`BArrayStore::is_valid`] recomputes: cached sizes and chunk
    /// sizing per state, both reference-count layers, and the absence of
    /// orphaned chunks.
    pub closed spec fn spec_valid(&self) -> bool {
        &&& forall|k: int|
            0 <= k < self.states@.len() ==> self.spec_state_list_valid(#[trigger] self.states@[k])
        &&& forall|l: int| #[trigger]
            self.memory.list_live(l) ==> self.memory.list_at(l).users == states_refcount(
                self.memory.state@,
                l as usize,
            ) && self.memory.list_at(l).users >= 1
        &&& forall|c: usize| #[trigger]
            self.memory.chunk_live(c as int) ==> self.memory.chunk_at(c as int).users
                == lists_refcount(self.memory.chunk_list@, c)
        &&& self.spec_no_orphan_chunks()
    }

    /// The per-state part of the self-check: cached sizes exact and no
    /// undersized chunk in any grown list.
    pub closed spec fn spec_state_lists_valid(&self) -> bool {
        forall|k: int|
            0 <= k < self.states@.len() ==> self.spec_state_list_valid(#[trigger] self.states@[k])
    }

    /// Reference-count integrity: in a well-formed store both count layers
    /// are exact and no chunk is orphaned, so the only check that can ever
    /// fail is the chunk-size sweep.
    pub proof fn lemma_store_counts_valid(&self)
        requires
            self.inv(),
        ensures
            self.spec_valid() <==> self.spec_state_lists_valid(),
    {
    }

    /// A state's bytes are exactly its chunk buffers, concatenated in order.
    pub proof fn lemma_state_bytes_are_chunks(&self, state: BArrayState)
        requires
            self.inv(),
            self.state_live(state),
        ensures
            self.state_bytes(state) == self.state_chunks(state).flatten(),
    {
        let l = self.state_list(state) as int;
        self.memory.lemma_refs_bytes_flatten(self.memory.list_refs(l));
        assert(self.state_chunks(state) =~= Seq::new(
            self.memory.list_refs(l).len(),
            |i: int| self.memory.chunk_bytes(self.memory.list_refs(l)[i] as int),
        ));
    }

    /// Chunk-size invariant: in a well-formed store, every chunk of a live
    /// state except the first holds at least the minimum number of bytes.
    pub proof fn lemma_chunk_size_invariant(&self, state: BArrayState)
        requires
            self.inv(),
            self.state_live(state),
        ensures
            forall|i: int|
                1 <= i < self.state_chunks(state).len() ==> (#[trigger] self.state_chunks(
                    state,
                )[i]).len() >= self.spec_chunk_byte_size_min(),
    {
        let l = self.state_list(state) as int;
        assert(self.memory.state@[state.idx as int] is Some);
        assert(self.list_published(l));
        assert forall|i: int| 1 <= i < self.state_chunks(state).len() implies (
        #[trigger] self.state_chunks(state)[i]).len() >= self.spec_chunk_byte_size_min() by {
            assert(self.memory.chunk_len((self.memory.list_refs(l)[i]) as int)
                >= self.info.chunk_byte_size_min as int);
        }
    }

    /// Walk everything reachable and cross-check the cached sizes, the
    /// chunk-size rule and both layers of reference counts.
    pub fn is_valid(&self) -> (r: bool)
        requires
            self.inv(),
        ensures
            r == self.spec_valid(),
    {
        let ghost roster = self.states@;
        // Check lengths and chunk sizes per state
        let n_states = self.states.len_calc();
        let mut k: usize = 0;
        while k < n_states
            invariant
                self.inv(),
                roster == self.states@,
                n_states == roster.len(),
                k <= n_states,
                forall|k2: int|
                    0 <= k2 < k ==> self.spec_state_list_valid(#[trigger] roster[k2]),
            decreases n_states - k,
        {
            let sh = *self.states.at_index(k).unwrap();
            proof {
                assert(self.memory.state.live((roster[k as int]) as int));
                assert(self.list_published(((self.memory.state@[sh as int])->Some_0) as int));
            }
            let lh = *self.memory.state.get(sh);
            let cl = self.memory.chunk_list.get(lh);
            let recomputed = bchunk_list_size(&self.memory, lh);
            if recomputed != cl.total_size {
                proof {
                    assert(false);
                }
                return false;
            }
            if cl.chunk_refs.len_calc() != cl.chunk_refs_len {
                proof {
                    assert(false);
                }
                return false;
            }
            // ensure all chunks that could be merged were merged
            if cl.total_size > self.info.chunk_byte_size_min {
                let ghost refs = self.memory.list_refs(lh as int);
                let nrefs = cl.chunk_refs.len_calc();
                let mut i: usize = 0;
                while i < nrefs
                    invariant
                        self.inv(),
                        self.memory.list_live(lh as int),
                        refs == self.memory.list_refs(lh as int),
                        cl.chunk_refs@ == refs,
                        nrefs == refs.len(),
                        i <= nrefs,
                        roster == self.states@,
                        0 <= k < roster.len(),
                        sh == roster[k as int],
                        self.memory.state@[sh as int] is Some,
                        lh == (self.memory.state@[sh as int])->Some_0,
                        cl == self.memory.list_at(lh as int),
                        cl.total_size > self.info.chunk_byte_size_min,
                        forall|i2: int|
                            0 <= i2 < i ==> self.memory.chunk_len(
                                (#[trigger] refs[i2]) as int,
                            ) >= self.info.chunk_byte_size_min,
                    decreases nrefs - i,
                {
                    let c = *cl.chunk_refs.at_index(i).unwrap();
                    proof {
                        assert(self.memory.chunk_live((refs[i as int]) as int));
                    }
                    if self.memory.chunk.get(c).data.len() < self.info.chunk_byte_size_min {
                        proof {
                            assert(self.memory.chunk_len((refs[i as int]) as int)
                                < self.info.chunk_byte_size_min);
                            assert(!self.spec_state_list_valid(roster[k as int]));
                            assert(!self.spec_valid());
                        }
                        return false;
                    }
                    i = i + 1;
                }
            }
            k = k + 1;
        }
        // Check each list's user count against the states that reference it
        let ghost spool = self.memory.state@;
        let n_lists = self.memory.chunk_list.slot_count();
        let n_slots = self.memory.state.slot_count();
        let mut l: usize = 0;
        while l < n_lists
            invariant
                self.inv(),
                spool == self.memory.state@,
                n_lists == self.memory.chunk_list@.len(),
                n_slots == spool.len(),
                l <= n_lists,
                roster == self.states@,
                n_states == roster.len(),
                forall|k2: int|
                    0 <= k2 < roster.len() ==> self.spec_state_list_valid(#[trigger] roster[k2]),
            decreases n_lists - l,
        {
            if self.memory.chunk_list.is_live(l) {
                let users = self.memory.chunk_list.get(l).users;
                let mut count: usize = 0;
                let mut t: usize = 0;
                proof {
                    assert(spool.take(0) =~= Seq::<Option<usize>>::empty());
                }
                while t < n_slots
                    invariant
                        self.inv(),
                        spool == self.memory.state@,
                        n_slots == spool.len(),
                        t <= n_slots,
                        count == states_refcount(spool.take(t as int), l),
                        count <= t,
                    decreases n_slots - t,
                {
                    proof {
                        assert(spool.take(t as int + 1).drop_last() =~= spool.take(t as int));
                        assert(spool.take(t as int + 1).last() == spool[t as int]);
                        lemma_states_refcount_nonneg(spool.take(t as int), l);
                    }
                    if self.memory.state.is_live(t) {
                        if *self.memory.state.get(t) == l {
                            count = count + 1;
                        }
                    }
                    t = t + 1;
                }
                proof {
                    assert(spool.take(n_slots as int) =~= spool);
                }
                if count != users || users == 0 {
                    proof {
                        assert(self.memory.list_live(l as int));
                        assert(false);
                    }
                    return false;
                }
            }
            l = l + 1;
        }
        // Check each chunk's user count against every list reference
        let n_chunks = self.memory.chunk.slot_count();
        let ghost lpool = self.memory.chunk_list@;
        let mut counts: Vec<usize> = Vec::new();
        let mut z: usize = 0;
        while z < n_chunks
            invariant
                z <= n_chunks,
                counts@.len() == z,
                forall|c: int| 0 <= c < z ==> counts@[c] == 0,
            decreases n_chunks - z,
        {
            counts.push(0);
            z = z + 1;
        }
        let mut li: usize = 0;
        proof {
            assert(lpool.take(0) =~= Seq::<Option<BChunkList>>::empty());
            assert forall|c: usize| 0 <= c < counts@.len() implies counts@[c as int]
                == lists_refcount(lpool.take(0), c) by {}
        }
        while li < n_lists
            invariant
                self.inv(),
                lpool == self.memory.chunk_list@,
                n_lists == lpool.len(),
                n_chunks == self.memory.chunk@.len(),
                li <= n_lists,
                counts@.len() == n_chunks,
                roster == self.states@,
                n_states == roster.len(),
                forall|k2: int|
                    0 <= k2 < roster.len() ==> self.spec_state_list_valid(#[trigger] roster[k2]),
                forall|c: usize|
                    0 <= c < counts@.len() ==> counts@[c as int] == lists_refcount(
                        lpool.take(li as int),
                        c,
                    ),
            decreases n_lists - li,
        {
            proof {
                assert(lpool.take(li as int + 1).drop_last() =~= lpool.take(li as int));
                assert(lpool.take(li as int + 1).last() == lpool[li as int]);
                assert(lpool =~= lpool.take(li as int + 1) + lpool.skip(li as int + 1));
                crate::chunk::lemma_lists_refcount_concat(
                    lpool.take(li as int + 1),
                    lpool.skip(li as int + 1),
                    0,
                );
            }
            if self.memory.chunk_list.is_live(li) {
                let cl = self.memory.chunk_list.get(li);
                let ghost refs = self.memory.list_refs(li as int);
                let nrefs = cl.chunk_refs.len_calc();
                let mut ri: usize = 0;
                proof {
                    assert(refs.take(0) =~= Seq::<usize>::empty());
                    crate::chunk::lemma_occ_none(refs.take(0), 0);
                }
                while ri < nrefs
                    invariant
                        self.inv(),
                        lpool == self.memory.chunk_list@,
                        n_chunks == self.memory.chunk@.len(),
                        self.memory.list_live(li as int),
                        refs == self.memory.list_refs(li as int),
                        cl.chunk_refs@ == refs,
                        nrefs == refs.len(),
                        ri <= nrefs,
                        counts@.len() == n_chunks,
                        forall|c: usize|
                            0 <= c < counts@.len() ==> counts@[c as int] == lists_refcount(
                                lpool.take(li as int),
                                c,
                            ) + crate::chunk::occ(refs.take(ri as int), c),
                    decreases nrefs - ri,
                {
                    let c = *cl.chunk_refs.at_index(ri).unwrap();
                    proof {
                        assert(self.memory.chunk_live((refs[ri as int]) as int));
                        assert(refs.take(ri as int + 1).drop_last() =~= refs.take(ri as int));
                        assert(refs.take(ri as int + 1).last() == refs[ri as int]);
                        // the running count stays below the exact total
                        assert(refs =~= refs.take(ri as int + 1) + refs.skip(ri as int + 1));
                        crate::chunk::lemma_occ_add(
                            refs.take(ri as int + 1),
                            refs.skip(ri as int + 1),
                            c,
                        );
                        crate::chunk::lemma_occ_nonneg(refs.skip(ri as int + 1), c);
                        assert(lpool =~= lpool.take(li as int) + lpool.skip(li as int));
                        crate::chunk::lemma_lists_refcount_concat(
                            lpool.take(li as int),
                            lpool.skip(li as int),
                            c,
                        );
                        assert(lpool.skip(li as int)[0] == lpool[li as int]);
                        crate::chunk::lemma_lists_refcount_at(lpool.skip(li as int), 0, c);
                        crate::chunk::lemma_lists_refcount_nonneg(lpool.skip(li as int), c);
                        assert(lpool.skip(li as int).drop_last() == lpool.skip(
                            li as int,
                        ).drop_last());
                        assert(counts@[c as int] + 1 <= lists_refcount(lpool, c)) by {
                            crate::chunk::lemma_lists_refcount_update(
                                lpool.skip(li as int),
                                0,
                                None::<BChunkList>,
                                c,
                            );
                            crate::chunk::lemma_lists_refcount_nonneg(
                                lpool.skip(li as int).update(0, None::<BChunkList>),
                                c,
                            );
                        }
                        assert(self.memory.chunk_at(c as int).users == lists_refcount(lpool, c));
                    }
                    let cur = counts[c];
                    counts[c] = cur + 1;
                    proof {
                        crate::chunk::lemma_occ_push(refs.take(ri as int), c, c);
                        assert forall|c2: usize|
                            0 <= c2 < counts@.len() implies counts@[c2 as int] == lists_refcount(
                            lpool.take(li as int),
                            c2,
                        ) + crate::chunk::occ(refs.take(ri as int + 1), c2) by {
                            crate::chunk::lemma_occ_push(refs.take(ri as int), c, c2);
                        }
                    }
                    ri = ri + 1;
                }
                proof {
                    assert(refs.take(nrefs as int) =~= refs);
                    assert forall|c2: usize|
                        0 <= c2 < counts@.len() implies counts@[c2 as int] == lists_refcount(
                        lpool.take(li as int + 1),
                        c2,
                    ) by {
                        assert(lpool.take(li as int + 1).drop_last() =~= lpool.take(li as int));
                    }
                }
            } else {
                proof {
                    assert forall|c2: usize|
                        0 <= c2 < counts@.len() implies counts@[c2 as int] == lists_refcount(
                        lpool.take(li as int + 1),
                        c2,
                    ) by {
                        assert(lpool.take(li as int + 1).drop_last() =~= lpool.take(li as int));
                    }
                }
            }
            li = li + 1;
        }
        proof {
            assert(lpool.take(n_lists as int) =~= lpool);
        }
        let mut c: usize = 0;
        while c < n_chunks
            invariant
                self.inv(),
                lpool == self.memory.chunk_list@,
                n_chunks == self.memory.chunk@.len(),
                c <= n_chunks,
                counts@.len() == n_chunks,
                roster == self.states@,
                n_states == roster.len(),
                forall|k2: int|
                    0 <= k2 < roster.len() ==> self.spec_state_list_valid(#[trigger] roster[k2]),
                forall|c2: usize|
                    0 <= c2 < counts@.len() ==> counts@[c2 as int] == lists_refcount(lpool, c2),
                forall|c2: int|
                    0 <= c2 < c && self.memory.chunk_live(c2) ==> self.memory.chunk_at(
                        c2,
                    ).users >= 1,
            decreases n_chunks - c,
        {
            if self.memory.chunk.is_live(c) {
                if self.memory.chunk.get(c).users != counts[c] {
                    proof {
                        assert(self.memory.chunk_live(c as int));
                        assert(false);
                    }
                    return false;
                }
                // a stored chunk that nothing references any more would be
                // a leak
                if self.memory.chunk.get(c).users == 0 {
                    proof {
                        assert(self.memory.chunk_live(c as int));
                        assert(!self.spec_no_orphan_chunks());
                    }
                    return false;
                }
            }
            c = c + 1;
        }
        proof {
            assert(self.spec_valid());
        }
        true
    }
}

} // verus!