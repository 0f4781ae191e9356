//! Chunks, chunk lists and the pooled memory that stores them.
//!
//! A chunk is an immutable byte buffer shared by reference count across chunk
//! lists; a chunk list is an ordered sequence of chunk handles describing one
//! whole array.  This module holds the data model, the reference-count
//! bookkeeping, and the append routines that keep chunks well sized.

use crate::list_base::ListBase;
use crate::mempool_elem::{MemPool, MemPoolElemUtils};
use vstd::prelude::*;

verus! {

/// Pool growth granularity shared by every element type.
pub(crate) const MEMPOOL_CHUNK_SIZE: usize = 512;

/// Key value meaning "no content key cached yet".
pub(crate) const HASH_TABLE_KEY_UNSET: u64 = u64::MAX;

/// Substituted whenever a computed content key collides with the unset marker.
pub(crate) const HASH_TABLE_KEY_FALLBACK: u64 = u64::MAX - 1;

/// Sizes and offsets for one array store, pre-computed at construction.
pub(crate) struct BArrayInfo {
    pub(crate) chunk_stride: usize,
    pub(crate) chunk_byte_size: usize,
    pub(crate) chunk_byte_size_min: usize,
    pub(crate) chunk_byte_size_max: usize,
    pub(crate) accum_steps: usize,
    pub(crate) accum_read_ahead_len: usize,
    pub(crate) accum_read_ahead_bytes: usize,
}

impl BArrayInfo {
    pub(crate) open spec fn wf(&self) -> bool {
        &&& 1 <= self.chunk_stride
        &&& self.chunk_stride <= self.chunk_byte_size
        &&& self.chunk_byte_size % self.chunk_stride == 0
        &&& 1 <= self.chunk_byte_size_min <= self.chunk_byte_size
        &&& self.chunk_byte_size_min % self.chunk_stride == 0
        &&& self.chunk_byte_size_max == self.chunk_byte_size * 2
        &&& self.chunk_byte_size * 4 <= usize::MAX
        &&& self.accum_steps == 3
        &&& self.accum_read_ahead_len == 7
        &&& self.accum_read_ahead_bytes == 7 * self.chunk_stride
        &&& self.accum_read_ahead_bytes <= usize::MAX
    }
}

/// A chunk of an array: an immutable byte buffer, the number of chunk lists
/// referencing it, and a cached content key.
pub(crate) struct BChunk {
    pub(crate) data: Vec<u8>,
    pub(crate) users: usize,
    pub(crate) key: u64,
}

/// One logical array: an ordered sequence of chunk handles with cached
/// length and size, referenced by states.
pub(crate) struct BChunkList {
    pub(crate) chunk_refs: ListBase<usize>,
    pub(crate) chunk_refs_len: usize,
    pub(crate) total_size: usize,
    pub(crate) users: usize,
}

impl MemPoolElemUtils for BChunk {
    fn default_chunk_size() -> usize {
        MEMPOOL_CHUNK_SIZE
    }
}

impl MemPoolElemUtils for BChunkList {
    fn default_chunk_size() -> usize {
        MEMPOOL_CHUNK_SIZE
    }
}

/// Memory pools for everything a store owns.  A state slot holds the handle
/// of the chunk list that state references.
pub(crate) struct BArrayMemory {
    pub(crate) state: MemPool<usize>,
    pub(crate) chunk_list: MemPool<BChunkList>,
    pub(crate) chunk: MemPool<BChunk>,
}

/// Occurrences of `x` in `s`.
pub(crate) open spec fn occ(s: Seq<usize>, x: usize) -> int
    decreases s.len(),
{
    if s.len() == 0 {
        0
    } else {
        occ(s.drop_last(), x) + if s.last() == x {
            1int
        } else {
            0int
        }
    }
}

pub(crate) proof fn lemma_occ_nonneg(s: Seq<usize>, x: usize)
    ensures
        0 <= occ(s, x),
    decreases s.len(),
{
    if s.len() > 0 {
        lemma_occ_nonneg(s.drop_last(), x);
    }
}

pub(crate) proof fn lemma_occ_push(s: Seq<usize>, v: usize, x: usize)
    ensures
        occ(s.push(v), x) == occ(s, x) + if v == x {
            1int
        } else {
            0int
        },
{
    assert(s.push(v).drop_last() =~= s);
}

pub(crate) proof fn lemma_occ_update(s: Seq<usize>, i: int, v: usize, x: usize)
    requires
        0 <= i < s.len(),
    ensures
        occ(s.update(i, v), x) == occ(s, x) + (if v == x {
            1int
        } else {
            0int
        }) - (if s[i] == x {
            1int
        } else {
            0int
        }),
    decreases s.len(),
{
    let t = s.update(i, v);
    if i == s.len() - 1 {
        assert(t.drop_last() =~= s.drop_last());
    } else {
        assert(t.drop_last() =~= s.drop_last().update(i, v));
        lemma_occ_update(s.drop_last(), i, v, x);
        assert(t.last() == s.last());
    }
}

pub(crate) proof fn lemma_occ_positive(s: Seq<usize>, i: int)
    requires
        0 <= i < s.len(),
    ensures
        occ(s, s[i]) >= 1,
    decreases s.len(),
{
    if i == s.len() - 1 {
        lemma_occ_nonneg(s.drop_last(), s[i]);
    } else {
        lemma_occ_positive(s.drop_last(), i);
    }
}

pub(crate) proof fn lemma_occ_zero(s: Seq<usize>, x: usize)
    requires
        occ(s, x) == 0,
    ensures
        forall|i: int| 0 <= i < s.len() ==> s[i] != x,
{
    assert forall|i: int| 0 <= i < s.len() implies s[i] != x by {
        if s[i] == x {
            lemma_occ_positive(s, i);
        }
    }
}

/// Dropping the last element loses exactly its own occurrence.
pub(crate) proof fn lemma_occ_drop_last(s: Seq<usize>, x: usize)
    requires
        s.len() > 0,
    ensures
        occ(s.drop_last(), x) == occ(s, x) - if s.last() == x {
            1int
        } else {
            0int
        },
{
}

pub(crate) proof fn lemma_occ_le_len(s: Seq<usize>, x: usize)
    ensures
        occ(s, x) <= s.len(),
    decreases s.len(),
{
    if s.len() > 0 {
        lemma_occ_le_len(s.drop_last(), x);
    }
}

pub(crate) proof fn lemma_occ_none(s: Seq<usize>, x: usize)
    requires
        forall|i: int| 0 <= i < s.len() ==> s[i] != x,
    ensures
        occ(s, x) == 0,
    decreases s.len(),
{
    if s.len() > 0 {
        lemma_occ_none(s.drop_last(), x);
    }
}

pub(crate) proof fn lemma_occ_add(a: Seq<usize>, b: Seq<usize>, x: usize)
    ensures
        occ(a + b, x) == occ(a, x) + occ(b, x),
    decreases b.len(),
{
    if b.len() == 0 {
        assert(a + b =~= a);
    } else {
        assert((a + b).drop_last() =~= a + b.drop_last());
        assert((a + b).last() == b.last());
        lemma_occ_add(a, b.drop_last(), x);
    }
}

/// Step an occurrence count across the head of a suffix.
pub(crate) proof fn lemma_occ_skip(s: Seq<usize>, i: int, x: usize)
    requires
        0 <= i < s.len(),
    ensures
        occ(s.skip(i), x) == (if s[i] == x {
            1int
        } else {
            0int
        }) + occ(s.skip(i + 1), x),
{
    let single = seq![s[i]];
    assert(s.skip(i) =~= single + s.skip(i + 1));
    lemma_occ_add(single, s.skip(i + 1), x);
    assert(single.drop_last() =~= Seq::<usize>::empty());
    assert(occ(Seq::<usize>::empty(), x) == 0);
    assert(occ(single, x) == if s[i] == x {
        1int
    } else {
        0int
    });
}

/// Contribution of one pool slot to a chunk's reference count.
pub(crate) open spec fn slot_occ(slot: Option<BChunkList>, c: usize) -> int {
    match slot {
        Some(cl) => occ(cl.chunk_refs@, c),
        None => 0,
    }
}

/// Total number of references to chunk `c` from every live chunk list.
pub(crate) open spec fn lists_refcount(lists: Seq<Option<BChunkList>>, c: usize) -> int
    decreases lists.len(),
{
    if lists.len() == 0 {
        0
    } else {
        lists_refcount(lists.drop_last(), c) + slot_occ(lists.last(), c)
    }
}

pub(crate) proof fn lemma_slot_occ_nonneg(slot: Option<BChunkList>, c: usize)
    ensures
        0 <= slot_occ(slot, c),
{
    match slot {
        Some(cl) => lemma_occ_nonneg(cl.chunk_refs@, c),
        None => {},
    }
}

pub(crate) proof fn lemma_lists_refcount_nonneg(lists: Seq<Option<BChunkList>>, c: usize)
    ensures
        0 <= lists_refcount(lists, c),
    decreases lists.len(),
{
    if lists.len() > 0 {
        lemma_lists_refcount_nonneg(lists.drop_last(), c);
        lemma_slot_occ_nonneg(lists.last(), c);
    }
}

pub(crate) proof fn lemma_lists_refcount_update(
    lists: Seq<Option<BChunkList>>,
    l: int,
    v: Option<BChunkList>,
    c: usize,
)
    requires
        0 <= l < lists.len(),
    ensures
        lists_refcount(lists.update(l, v), c) == lists_refcount(lists, c) + slot_occ(v, c)
            - slot_occ(lists[l], c),
    decreases lists.len(),
{
    let t = lists.update(l, v);
    if l == lists.len() - 1 {
        assert(t.drop_last() =~= lists.drop_last());
    } else {
        assert(t.drop_last() =~= lists.drop_last().update(l, v));
        lemma_lists_refcount_update(lists.drop_last(), l, v, c);
        assert(t.last() == lists.last());
    }
}

pub(crate) proof fn lemma_lists_refcount_push(
    lists: Seq<Option<BChunkList>>,
    v: Option<BChunkList>,
    c: usize,
)
    ensures
        lists_refcount(lists.push(v), c) == lists_refcount(lists, c) + slot_occ(v, c),
{
    assert(lists.push(v).drop_last() =~= lists);
}

/// A single live list's references never exceed the total reference count.
pub(crate) proof fn lemma_lists_refcount_at(lists: Seq<Option<BChunkList>>, l: int, c: usize)
    requires
        0 <= l < lists.len(),
    ensures
        lists_refcount(lists, c) >= slot_occ(lists[l], c),
    decreases lists.len(),
{
    if l == lists.len() - 1 {
        lemma_lists_refcount_nonneg(lists.drop_last(), c);
    } else {
        lemma_lists_refcount_at(lists.drop_last(), l, c);
        lemma_slot_occ_nonneg(lists.last(), c);
    }
}

/// If one list accounts for the whole reference count of `c`, no other list
/// mentions `c` at all.
pub(crate) proof fn lemma_refcount_exclusive(
    lists: Seq<Option<BChunkList>>,
    l: int,
    l2: int,
    c: usize,
)
    requires
        0 <= l < lists.len(),
        0 <= l2 < lists.len(),
        l != l2,
        slot_occ(lists[l], c) >= lists_refcount(lists, c),
    ensures
        slot_occ(lists[l2], c) == 0,
{
    lemma_lists_refcount_update(lists, l2, None, c);
    lemma_lists_refcount_at(lists.update(l2, None), l, c);
    lemma_lists_refcount_nonneg(lists.update(l2, None), c);
    lemma_slot_occ_nonneg(lists[l2], c);
    assert(lists.update(l2, None)[l] == lists[l]);
}

/// A handle that no live list mentions has reference count zero.
pub(crate) proof fn lemma_lists_refcount_zero(lists: Seq<Option<BChunkList>>, c: usize)
    requires
        forall|l: int| 0 <= l < lists.len() ==> slot_occ(#[trigger] lists[l], c) == 0,
    ensures
        lists_refcount(lists, c) == 0,
    decreases lists.len(),
{
    if lists.len() > 0 {
        lemma_lists_refcount_zero(lists.drop_last(), c);
    }
}

/// Number of chunk references held by one pool slot.
pub(crate) open spec fn slot_len(slot: Option<BChunkList>) -> int {
    match slot {
        Some(cl) => cl.chunk_refs@.len() as int,
        None => 0,
    }
}

/// Total number of chunk references held by every live chunk list.
pub(crate) open spec fn lists_total_refs(lists: Seq<Option<BChunkList>>) -> int
    decreases lists.len(),
{
    if lists.len() == 0 {
        0
    } else {
        lists_total_refs(lists.drop_last()) + slot_len(lists.last())
    }
}

pub(crate) proof fn lemma_lists_total_refs_nonneg(lists: Seq<Option<BChunkList>>)
    ensures
        0 <= lists_total_refs(lists),
    decreases lists.len(),
{
    if lists.len() > 0 {
        lemma_lists_total_refs_nonneg(lists.drop_last());
    }
}

pub(crate) proof fn lemma_lists_total_refs_update(
    lists: Seq<Option<BChunkList>>,
    l: int,
    v: Option<BChunkList>,
)
    requires
        0 <= l < lists.len(),
    ensures
        lists_total_refs(lists.update(l, v)) == lists_total_refs(lists) + slot_len(v) - slot_len(
            lists[l],
        ),
    decreases lists.len(),
{
    let t = lists.update(l, v);
    if l == lists.len() - 1 {
        assert(t.drop_last() =~= lists.drop_last());
    } else {
        assert(t.drop_last() =~= lists.drop_last().update(l, v));
        lemma_lists_total_refs_update(lists.drop_last(), l, v);
        assert(t.last() == lists.last());
    }
}

pub(crate) proof fn lemma_lists_total_refs_push(
    lists: Seq<Option<BChunkList>>,
    v: Option<BChunkList>,
)
    ensures
        lists_total_refs(lists.push(v)) == lists_total_refs(lists) + slot_len(v),
{
    assert(lists.push(v).drop_last() =~= lists);
}

/// One live list never holds more references than the pool-wide total.
pub(crate) proof fn lemma_lists_total_refs_at(lists: Seq<Option<BChunkList>>, l: int)
    requires
        0 <= l < lists.len(),
    ensures
        lists_total_refs(lists) >= slot_len(lists[l]),
    decreases lists.len(),
{
    if l == lists.len() - 1 {
        lemma_lists_total_refs_nonneg(lists.drop_last());
    } else {
        lemma_lists_total_refs_at(lists.drop_last(), l);
    }
}

/// Total bytes held by the live chunks of a pool.
pub(crate) open spec fn chunks_bytes_total(chunks: Seq<Option<BChunk>>) -> int
    decreases chunks.len(),
{
    if chunks.len() == 0 {
        0
    } else {
        chunks_bytes_total(chunks.drop_last()) + match chunks.last() {
            Some(ch) => ch.data@.len() as int,
            None => 0,
        }
    }
}

pub(crate) proof fn lemma_chunks_bytes_total_push(chunks: Seq<Option<BChunk>>, v: Option<BChunk>)
    ensures
        chunks_bytes_total(chunks.push(v)) == chunks_bytes_total(chunks) + match v {
            Some(ch) => ch.data@.len() as int,
            None => 0,
        },
{
    assert(chunks.push(v).drop_last() =~= chunks);
}

pub(crate) proof fn lemma_chunks_bytes_total_update(
    chunks: Seq<Option<BChunk>>,
    i: int,
    v: Option<BChunk>,
)
    requires
        0 <= i < chunks.len(),
    ensures
        chunks_bytes_total(chunks.update(i, v)) == chunks_bytes_total(chunks) + (match v {
            Some(ch) => ch.data@.len() as int,
            None => 0,
        }) - (match chunks[i] {
            Some(ch) => ch.data@.len() as int,
            None => 0,
        }),
    decreases chunks.len(),
{
    let t = chunks.update(i, v);
    if i == chunks.len() - 1 {
        assert(t.drop_last() =~= chunks.drop_last());
    } else {
        assert(t.drop_last() =~= chunks.drop_last().update(i, v));
        lemma_chunks_bytes_total_update(chunks.drop_last(), i, v);
        assert(t.last() == chunks.last());
    }
}

/// A reference count never exceeds the pool-wide total of references.
pub(crate) proof fn lemma_refcount_le_total(lists: Seq<Option<BChunkList>>, c: usize)
    ensures
        lists_refcount(lists, c) <= lists_total_refs(lists),
    decreases lists.len(),
{
    if lists.len() > 0 {
        lemma_refcount_le_total(lists.drop_last(), c);
        match lists.last() {
            Some(cl) => lemma_occ_le_len(cl.chunk_refs@, c),
            None => {},
        }
    }
}

impl BArrayMemory {
    pub(crate) open spec fn chunk_live(&self, c: int) -> bool {
        self.chunk.live(c)
    }

    pub(crate) open spec fn chunk_at(&self, c: int) -> BChunk {
        self.chunk@[c]->Some_0
    }

    pub(crate) open spec fn chunk_bytes(&self, c: int) -> Seq<u8> {
        self.chunk_at(c).data@
    }

    pub(crate) open spec fn chunk_len(&self, c: int) -> int {
        self.chunk_bytes(c).len() as int
    }

    pub(crate) open spec fn list_live(&self, l: int) -> bool {
        self.chunk_list.live(l)
    }

    pub(crate) open spec fn list_at(&self, l: int) -> BChunkList {
        self.chunk_list@[l]->Some_0
    }

    pub(crate) open spec fn list_refs(&self, l: int) -> Seq<usize> {
        self.list_at(l).chunk_refs@
    }

    /// Bytes of a sequence of chunk handles, in order.
    pub(crate) open spec fn refs_bytes(&self, refs: Seq<usize>) -> Seq<u8>
        decreases refs.len(),
    {
        if refs.len() == 0 {
            Seq::<u8>::empty()
        } else {
            self.refs_bytes(refs.drop_last()) + self.chunk_bytes(refs.last() as int)
        }
    }

    /// The full byte content described by list `l`.
    pub(crate) open spec fn list_bytes(&self, l: int) -> Seq<u8> {
        self.refs_bytes(self.list_refs(l))
    }

    /// All chunk handles named by live list `l` address live chunks.
    pub(crate) open spec fn list_refs_live(&self, l: int) -> bool {
        forall|i: int|
            0 <= i < self.list_refs(l).len() ==> self.chunk_live(
                (#[trigger] self.list_refs(l)[i]) as int,
            )
    }

    /// Pool well-formedness that does not depend on the store configuration:
    /// live lists reference live chunks and cache their length correctly,
    /// chunks are non-empty, and every chunk's user count equals the number
    /// of list references to it.
    pub(crate) open spec fn wf0(&self) -> bool {
        &&& self.state.wf()
        &&& self.chunk_list.wf()
        &&& self.chunk.wf()
        &&& forall|l: int| #[trigger] self.list_live(l) ==> self.list_refs_live(l)
        &&& forall|l: int| #[trigger]
            self.list_live(l) ==> self.list_at(l).chunk_refs_len == self.list_refs(l).len()
        &&& forall|c: int| #[trigger] self.chunk_live(c) ==> 1 <= self.chunk_len(c)
        &&& forall|c: usize| #[trigger]
            self.chunk_live(c as int) ==> self.chunk_at(c as int).users == lists_refcount(
                self.chunk_list@,
                c,
            )
    }

    /// A cached content key, when set, is exactly the key of the chunk's
    /// leading window.
    pub(crate) open spec fn keys_consistent(&self, stride: int) -> bool {
        forall|c: int| #[trigger]
            self.chunk_live(c) ==> self.chunk_at(c).key == HASH_TABLE_KEY_UNSET || (self.chunk_len(
                c,
            ) >= 7 * stride && self.chunk_at(c).key == crate::hash::spec_content_key(
                self.chunk_bytes(c).subrange(0, 7 * stride),
                stride,
            ))
    }

    /// Full well-formedness: every chunk's length is a multiple of the
    /// store's stride, and cached content keys are exact.
    pub(crate) open spec fn wf(&self, stride: int) -> bool {
        &&& self.wf0()
        &&& forall|c: int| #[trigger] self.chunk_live(c) ==> self.chunk_len(c) % stride == 0
        &&& self.keys_consistent(stride)
    }

    /// Everything reachable from lists other than `l` is unchanged between
    /// `self` and `m2`: the list records themselves and the bytes of every
    /// chunk they reference.
    pub(crate) open spec fn others_stable(&self, m2: BArrayMemory, l: int) -> bool {
        &&& forall|l2: int|
            l2 != l && #[trigger] self.list_live(l2) ==> m2.list_live(l2) && m2.list_at(l2)
                == self.list_at(l2)
        &&& forall|l2: int| l2 != l && #[trigger] m2.list_live(l2) ==> self.list_live(l2)
        &&& forall|l2: int, i: int|
            l2 != l && #[trigger] self.list_live(l2) && 0 <= i < self.list_refs(l2).len()
                ==> m2.chunk_live((#[trigger] self.list_refs(l2)[i]) as int) && m2.chunk_bytes(
                self.list_refs(l2)[i] as int,
            ) == self.chunk_bytes(self.list_refs(l2)[i] as int)
    }

    /// `refs_bytes` depends only on the bytes of the chunks it names.
    pub(crate) proof fn lemma_refs_bytes_congruence(&self, m2: BArrayMemory, refs: Seq<usize>)
        requires
            forall|i: int|
                0 <= i < refs.len() ==> m2.chunk_bytes((#[trigger] refs[i]) as int)
                    == self.chunk_bytes(refs[i] as int),
        ensures
            m2.refs_bytes(refs) == self.refs_bytes(refs),
        decreases refs.len(),
    {
        if refs.len() > 0 {
            self.lemma_refs_bytes_congruence(m2, refs.drop_last());
        }
    }

    /// Bytes of other lists are stable whenever `others_stable` holds.
    pub(crate) proof fn lemma_others_stable_bytes(&self, m2: BArrayMemory, l: int, l2: int)
        requires
            self.others_stable(m2, l),
            l2 != l,
            self.list_live(l2),
        ensures
            m2.list_bytes(l2) == self.list_bytes(l2),
            m2.list_refs(l2) == self.list_refs(l2),
    {
        self.lemma_refs_bytes_congruence(m2, self.list_refs(l2));
    }

    pub(crate) proof fn lemma_others_stable_trans(
        &self,
        m1: BArrayMemory,
        m2: BArrayMemory,
        l: int,
    )
        requires
            self.others_stable(m1, l),
            m1.others_stable(m2, l),
        ensures
            self.others_stable(m2, l),
    {
        assert forall|l2: int, i: int|
            l2 != l && #[trigger] self.list_live(l2) && 0 <= i < self.list_refs(l2).len() implies
            m2.chunk_live((#[trigger] self.list_refs(l2)[i]) as int) && m2.chunk_bytes(
            self.list_refs(l2)[i] as int,
        ) == self.chunk_bytes(self.list_refs(l2)[i] as int) by {
            assert(m1.list_live(l2) && m1.list_at(l2) == self.list_at(l2));
            assert(m1.list_refs(l2)[i] == self.list_refs(l2)[i]);
        }
    }

    /// A pushed handle extends the byte view by the chunk's bytes.
    pub(crate) proof fn lemma_refs_bytes_push(&self, refs: Seq<usize>, c: usize)
        ensures
            self.refs_bytes(refs.push(c)) == self.refs_bytes(refs) + self.chunk_bytes(c as int),
    {
        assert(refs.push(c).drop_last() =~= refs);
    }

    /// Total bytes are the sum of the chunk lengths, so any one chunk is no
    /// longer than the whole.
    pub(crate) proof fn lemma_refs_bytes_chunk_bound(&self, refs: Seq<usize>, i: int)
        requires
            0 <= i < refs.len(),
        ensures
            self.chunk_bytes(refs[i] as int).len() <= self.refs_bytes(refs).len(),
        decreases refs.len(),
    {
        if i == refs.len() - 1 {
        } else {
            self.lemma_refs_bytes_chunk_bound(refs.drop_last(), i);
        }
    }

    /// With every chunk at least one byte long, a list has no more chunks
    /// than bytes.
    pub(crate) proof fn lemma_refs_len_le_bytes(&self, refs: Seq<usize>)
        requires
            forall|i: int| 0 <= i < refs.len() ==> self.chunk_len((#[trigger] refs[i]) as int) >= 1,
        ensures
            refs.len() <= self.refs_bytes(refs).len(),
        decreases refs.len(),
    {
        if refs.len() > 0 {
            self.lemma_refs_len_le_bytes(refs.drop_last());
        }
    }
}

/// Copy `data[from..to]` into a fresh buffer.
pub(crate) fn bytes_copy_range(data: &[u8], from: usize, to: usize) -> (v: Vec<u8>)
    requires
        from <= to <= data@.len(),
    ensures
        v@ == data@.subrange(from as int, to as int),
{
    let mut v: Vec<u8> = Vec::new();
    proof {
        assert(v@ =~= data@.subrange(from as int, from as int));
    }
    let mut i: usize = from;
    while i < to
        invariant
            from <= i <= to <= data@.len(),
            v@ == data@.subrange(from as int, i as int),
        decreases to - i,
    {
        v.push(data[i]);
        proof {
            assert(v@ =~= data@.subrange(from as int, (i + 1) as int));
        }
        i = i + 1;
    }
    v
}

/// Append `data[from..to]` onto `dst`.
pub(crate) fn bytes_append_range(dst: &mut Vec<u8>, data: &[u8], from: usize, to: usize)
    requires
        from <= to <= data@.len(),
        old(dst)@.len() + (to - from) <= usize::MAX,
    ensures
        final(dst)@ == old(dst)@ + data@.subrange(from as int, to as int),
{
    let mut i: usize = from;
    proof {
        assert(dst@ =~= old(dst)@ + data@.subrange(from as int, from as int));
    }
    while i < to
        invariant
            from <= i <= to <= data@.len(),
            dst@ == old(dst)@ + data@.subrange(from as int, i as int),
            old(dst)@.len() + (to - from) <= usize::MAX,
        decreases to - i,
    {
        dst.push(data[i]);
        proof {
            assert(dst@ =~= old(dst)@ + data@.subrange(from as int, (i + 1) as int));
        }
        i = i + 1;
    }
}

/// Compare the bytes of a live chunk against `data[offset ..]`, bounded by
/// `data_len`; true exactly when the chunk fits and matches.
pub(crate) fn bchunk_data_compare(
    bs_mem: &BArrayMemory,
    chunk: usize,
    data: &[u8],
    data_len: usize,
    offset: usize,
) -> (r: bool)
    requires
        bs_mem.chunk_live(chunk as int),
        data_len <= data@.len(),
    ensures
        r == (offset + bs_mem.chunk_len(chunk as int) <= data_len && bs_mem.chunk_bytes(
            chunk as int,
        ) == data@.subrange(offset as int, offset + bs_mem.chunk_len(chunk as int))),
{
    let cdata = &bs_mem.chunk.get(chunk).data;
    proof {
        assert(bs_mem.chunk_bytes(chunk as int) == cdata@);
    }
    let clen = cdata.len();
    if clen <= data_len && offset <= data_len - clen {
        let mut i: usize = 0;
        while i < clen
            invariant
                i <= clen,
                clen == cdata@.len(),
                bs_mem.chunk_live(chunk as int),
                bs_mem.chunk_bytes(chunk as int) == cdata@,
                offset + clen <= data_len <= data@.len(),
                forall|j: int| 0 <= j < i ==> cdata@[j] == data@[offset + j],
            decreases clen - i,
        {
            if cdata[i] != data[offset + i] {
                proof {
                    assert(cdata@[i as int] != data@.subrange(
                        offset as int,
                        offset + clen as int,
                    )[i as int]);
                }
                return false;
            }
            i = i + 1;
        }
        proof {
            assert(cdata@ =~= data@.subrange(offset as int, offset + clen as int));
        }
        true
    } else {
        false
    }
}

/// Store a fresh chunk holding `data`; it starts with no users and no cached
/// key.
pub(crate) fn bchunk_new(info: &BArrayInfo, bs_mem: &mut BArrayMemory, data: Vec<u8>) -> (chunk:
    usize)
    requires
        info.wf(),
        old(bs_mem).wf(info.chunk_stride as int),
        1 <= data@.len(),
        data@.len() as int % info.chunk_stride as int == 0,
        old(bs_mem).chunk@.len() < usize::MAX,
    ensures
        final(bs_mem).wf(info.chunk_stride as int),
        final(bs_mem).chunk_live(chunk as int),
        !old(bs_mem).chunk_live(chunk as int),
        final(bs_mem).chunk_bytes(chunk as int) == data@,
        final(bs_mem).chunk_at(chunk as int).users == 0,
        final(bs_mem).chunk_at(chunk as int).key == HASH_TABLE_KEY_UNSET,
        forall|c2: int|
            old(bs_mem).chunk_live(c2) ==> final(bs_mem).chunk_live(c2) && final(bs_mem).chunk_at(
                c2,
            ) == old(bs_mem).chunk_at(c2),
        forall|c2: int|
            final(bs_mem).chunk_live(c2) && c2 != chunk ==> old(bs_mem).chunk_live(c2) && final(bs_mem).chunk_at(c2) == old(bs_mem).chunk_at(c2),
        final(bs_mem).chunk_list == old(bs_mem).chunk_list,
        final(bs_mem).state == old(bs_mem).state,
        final(bs_mem).chunk@.len() <= old(bs_mem).chunk@.len() + 1,
        chunks_bytes_total(final(bs_mem).chunk@) == chunks_bytes_total(old(bs_mem).chunk@)
            + data@.len(),
    {
    let ghost m0 = *old(bs_mem);
    let chunk = bs_mem.chunk.alloc_elem_from(
        BChunk { data, users: 0, key: HASH_TABLE_KEY_UNSET },
    );
    proof {
        assert forall|l: int| 0 <= l < bs_mem.chunk_list@.len() implies slot_occ(
            #[trigger] bs_mem.chunk_list@[l],
            chunk,
        ) == 0 by {
            match bs_mem.chunk_list@[l] {
                Some(cl) => {
                    assert(m0.list_live(l));
                    assert forall|i: int| 0 <= i < cl.chunk_refs@.len() implies cl.chunk_refs@[i]
                        != chunk by {
                        assert(m0.chunk_live((#[trigger] m0.list_refs(l)[i]) as int));
                    }
                    lemma_occ_none(cl.chunk_refs@, chunk);
                },
                None => {},
            }
        }
        lemma_lists_refcount_zero(bs_mem.chunk_list@, chunk);
        if (chunk as int) < m0.chunk@.len() {
            assert(bs_mem.chunk@ =~= m0.chunk@.update(
                chunk as int,
                Some((BChunk { data: bs_mem.chunk_at(chunk as int).data, users: 0, key: HASH_TABLE_KEY_UNSET })),
            ));
            lemma_chunks_bytes_total_update(
                m0.chunk@,
                chunk as int,
                bs_mem.chunk@[chunk as int],
            );
        } else {
            assert(bs_mem.chunk@ =~= m0.chunk@.push(bs_mem.chunk@[chunk as int]));
            lemma_chunks_bytes_total_push(m0.chunk@, bs_mem.chunk@[chunk as int]);
        }
        assert forall|c2: int| #[trigger]
            bs_mem.chunk_live(c2) && c2 != chunk implies m0.chunk_live(c2) && bs_mem.chunk_at(c2)
            == m0.chunk_at(c2) by {
            if c2 < m0.chunk@.len() {
                assert(bs_mem.chunk@[c2] == m0.chunk@[c2]);
            } else {
                assert(chunk as int == m0.chunk@.len());
                assert(bs_mem.chunk@.len() == m0.chunk@.len() + 1);
            }
        }
        assert forall|l: int| #[trigger] bs_mem.list_live(l) implies bs_mem.list_refs_live(l)
            && bs_mem.list_at(l).chunk_refs_len == bs_mem.list_refs(l).len() by {
            assert(m0.list_live(l));
            assert(m0.list_refs_live(l));
            assert forall|i: int| 0 <= i < bs_mem.list_refs(l).len() implies bs_mem.chunk_live(
                (#[trigger] bs_mem.list_refs(l)[i]) as int,
            ) by {
                assert(m0.chunk_live((#[trigger] m0.list_refs(l)[i]) as int));
            }
        }
        assert(bs_mem.wf(info.chunk_stride as int));
    }
    chunk
}

/// Store a fresh chunk holding a copy of `data[from..to]`.
pub(crate) fn bchunk_new_copydata(
    info: &BArrayInfo,
    bs_mem: &mut BArrayMemory,
    data: &[u8],
    from: usize,
    to: usize,
) -> (chunk: usize)
    requires
        info.wf(),
        old(bs_mem).wf(info.chunk_stride as int),
        from <= to <= data@.len(),
        to - from >= 1,
        (to - from) as int % info.chunk_stride as int == 0,
        old(bs_mem).chunk@.len() < usize::MAX,
    ensures
        final(bs_mem).wf(info.chunk_stride as int),
        final(bs_mem).chunk_live(chunk as int),
        !old(bs_mem).chunk_live(chunk as int),
        final(bs_mem).chunk_bytes(chunk as int) == data@.subrange(from as int, to as int),
        final(bs_mem).chunk_at(chunk as int).users == 0,
        forall|c2: int|
            old(bs_mem).chunk_live(c2) ==> final(bs_mem).chunk_live(c2) && final(bs_mem).chunk_at(
                c2,
            ) == old(bs_mem).chunk_at(c2),
        forall|c2: int|
            final(bs_mem).chunk_live(c2) && c2 != chunk ==> old(bs_mem).chunk_live(c2) && final(bs_mem).chunk_at(c2) == old(bs_mem).chunk_at(c2),
        final(bs_mem).chunk_list == old(bs_mem).chunk_list,
        final(bs_mem).state == old(bs_mem).state,
        final(bs_mem).chunk@.len() <= old(bs_mem).chunk@.len() + 1,
        chunks_bytes_total(final(bs_mem).chunk@) == chunks_bytes_total(old(bs_mem).chunk@) + (to
            - from),
{
    let data_copy = bytes_copy_range(data, from, to);
    bchunk_new(info, bs_mem, data_copy)
}

/// Drop one user of a chunk, releasing it when the last user is gone.
pub(crate) fn bchunk_decref(bs_mem: &mut BArrayMemory, chunk: usize)
    requires
        old(bs_mem).chunk.wf(),
        old(bs_mem).chunk_live(chunk as int),
        old(bs_mem).chunk_at(chunk as int).users >= 1,
    ensures
        final(bs_mem).chunk.wf(),
        final(bs_mem).chunk_list == old(bs_mem).chunk_list,
        final(bs_mem).state == old(bs_mem).state,
        final(bs_mem).chunk@.len() == old(bs_mem).chunk@.len(),
        old(bs_mem).chunk_at(chunk as int).users == 1 ==> final(bs_mem).chunk@ == old(
            bs_mem,
        ).chunk@.update(chunk as int, None::<BChunk>),
        old(bs_mem).chunk_at(chunk as int).users > 1 ==> final(bs_mem).chunk@ == old(
            bs_mem,
        ).chunk@.update(
            chunk as int,
            Some(
                (BChunk {
                    data: old(bs_mem).chunk_at(chunk as int).data,
                    users: (old(bs_mem).chunk_at(chunk as int).users - 1) as usize,
                    key: old(bs_mem).chunk_at(chunk as int).key,
                }),
            ),
        ),
        chunks_bytes_total(final(bs_mem).chunk@) <= chunks_bytes_total(old(bs_mem).chunk@),
{
    let ghost m0 = *old(bs_mem);
    proof {
        if m0.chunk_at(chunk as int).users == 1 {
            lemma_chunks_bytes_total_update(m0.chunk@, chunk as int, None::<BChunk>);
        } else {
            lemma_chunks_bytes_total_update(
                m0.chunk@,
                chunk as int,
                Some(
                    (BChunk {
                        data: m0.chunk_at(chunk as int).data,
                        users: (m0.chunk_at(chunk as int).users - 1) as usize,
                        key: m0.chunk_at(chunk as int).key,
                    }),
                ),
            );
        }
    }
    let users = bs_mem.chunk.get(chunk).users;
    if users == 1 {
        let _released = bs_mem.chunk.free_elem(chunk);
    } else {
        let taken = bs_mem.chunk.replace_elem(
            chunk,
            BChunk { data: Vec::new(), users: 0, key: HASH_TABLE_KEY_UNSET },
        );
        let BChunk { data, users, key } = taken;
        let _prev = bs_mem.chunk.replace_elem(chunk, BChunk { data, users: users - 1, key });
        proof {
            assert(final(bs_mem).chunk@ =~= old(bs_mem).chunk@.update(
                chunk as int,
                Some(
                    (BChunk {
                        data: old(bs_mem).chunk_at(chunk as int).data,
                        users: (old(bs_mem).chunk_at(chunk as int).users - 1) as usize,
                        key: old(bs_mem).chunk_at(chunk as int).key,
                    }),
                ),
            ));
        }
    }
}

/// Store a fresh, empty chunk list; its cached sizes start at zero and are
/// updated by every append.
pub(crate) fn bchunk_list_new(bs_mem: &mut BArrayMemory) -> (chunk_list: usize)
    requires
        old(bs_mem).wf0(),
        old(bs_mem).chunk_list@.len() < usize::MAX,
    ensures
        final(bs_mem).wf0(),
        chunk_users_ok(old(bs_mem), final(bs_mem)),
        forall|s: int| old(bs_mem).wf(s) ==> final(bs_mem).wf(s),
        final(bs_mem).list_live(chunk_list as int),
        !old(bs_mem).list_live(chunk_list as int),
        final(bs_mem).list_refs(chunk_list as int) == Seq::<usize>::empty(),
        final(bs_mem).list_at(chunk_list as int).total_size == 0,
        final(bs_mem).list_at(chunk_list as int).users == 0,
        old(bs_mem).others_stable(*final(bs_mem), chunk_list as int),
        forall|l2: int|
            old(bs_mem).list_live(l2) ==> final(bs_mem).list_live(l2) && final(bs_mem).list_at(l2)
                == old(bs_mem).list_at(l2),
        final(bs_mem).chunk == old(bs_mem).chunk,
        final(bs_mem).state == old(bs_mem).state,
        final(bs_mem).chunk_list@.len() <= old(bs_mem).chunk_list@.len() + 1,
        lists_total_refs(final(bs_mem).chunk_list@) == lists_total_refs(old(bs_mem).chunk_list@),
        forall|c: usize|
            lists_refcount(final(bs_mem).chunk_list@, c) == lists_refcount(
                old(bs_mem).chunk_list@,
                c,
            ),
{
    let ghost m0 = *old(bs_mem);
    let fresh = BChunkList {
        chunk_refs: ListBase::new(),
        chunk_refs_len: 0,
        total_size: 0,
        users: 0,
    };
    let ghost fresh_slot = Some(fresh);
    let chunk_list = bs_mem.chunk_list.alloc_elem_from(fresh);
    proof {
        assert forall|c: usize|
            lists_refcount(bs_mem.chunk_list@, c) == lists_refcount(m0.chunk_list@, c) by {
            assert(occ(Seq::<usize>::empty(), c) == 0);
            assert(slot_occ(fresh_slot, c) == 0);
            if (chunk_list as int) < m0.chunk_list@.len() {
                assert(bs_mem.chunk_list@ =~= m0.chunk_list@.update(
                    chunk_list as int,
                    fresh_slot,
                ));
                lemma_lists_refcount_update(m0.chunk_list@, chunk_list as int, fresh_slot, c);
            } else {
                assert(bs_mem.chunk_list@ =~= m0.chunk_list@.push(fresh_slot));
                lemma_lists_refcount_push(m0.chunk_list@, fresh_slot, c);
            }
        }
        assert(slot_len(fresh_slot) == 0);
        if (chunk_list as int) < m0.chunk_list@.len() {
            assert(bs_mem.chunk_list@ =~= m0.chunk_list@.update(chunk_list as int, fresh_slot));
            lemma_lists_total_refs_update(m0.chunk_list@, chunk_list as int, fresh_slot);
        } else {
            assert(bs_mem.chunk_list@ =~= m0.chunk_list@.push(fresh_slot));
            lemma_lists_total_refs_push(m0.chunk_list@, fresh_slot);
        }
        assert forall|l2: int| #[trigger] bs_mem.list_live(l2) && l2 != chunk_list implies
            m0.list_live(l2) && bs_mem.list_at(l2) == m0.list_at(l2) by {
            if l2 < m0.chunk_list@.len() {
                assert(bs_mem.chunk_list@[l2] == m0.chunk_list@[l2]);
            } else {
                assert(chunk_list as int == m0.chunk_list@.len());
            }
        }
        assert forall|l2: int| #[trigger] bs_mem.list_live(l2) implies bs_mem.list_refs_live(l2)
            && bs_mem.list_at(l2).chunk_refs_len == bs_mem.list_refs(l2).len() by {
            if l2 != chunk_list as int {
                assert(m0.list_refs_live(l2));
                assert forall|i: int| 0 <= i < bs_mem.list_refs(l2).len() implies bs_mem.chunk_live(
                    (#[trigger] bs_mem.list_refs(l2)[i]) as int,
                ) by {
                    assert(m0.chunk_live((#[trigger] m0.list_refs(l2)[i]) as int));
                }
            }
        }
        assert forall|c: usize| #[trigger] bs_mem.chunk_live(c as int) implies bs_mem.chunk_at(
            c as int,
        ).users == lists_refcount(bs_mem.chunk_list@, c) by {
            assert(m0.chunk_live(c as int));
        }
        assert forall|c2: int| #[trigger] bs_mem.chunk_live(c2) implies 1 <= bs_mem.chunk_len(
            c2,
        ) by {
            assert(m0.chunk_live(c2));
        }
        assert(bs_mem.wf0());
        assert forall|s: int| m0.wf(s) implies bs_mem.wf(s) by {
            assert forall|c2: int| #[trigger] bs_mem.chunk_live(c2) implies m0.chunk_live(c2)
                && bs_mem.chunk_at(c2).key == m0.chunk_at(c2).key && bs_mem.chunk_bytes(c2)
                == m0.chunk_bytes(c2) by {
                assert(m0.chunk_live(c2));
            }
            lemma_keys_consistent_stable(&m0, bs_mem, s);
            assert forall|c2: int| #[trigger] bs_mem.chunk_live(c2) implies bs_mem.chunk_len(c2)
                % s == 0 by {
                assert(m0.chunk_live(c2));
            }
        }
    }
    chunk_list
}

/// Append a reference to `chunk` onto the tail of `chunk_list`, making the
/// list one more user of the chunk.  Never merges; cached sizes are updated.
pub(crate) fn bchunk_list_append_only(bs_mem: &mut BArrayMemory, chunk_list: usize, chunk: usize)
    requires
        old(bs_mem).wf0(),
        old(bs_mem).list_live(chunk_list as int),
        old(bs_mem).chunk_live(chunk as int),
        lists_total_refs(old(bs_mem).chunk_list@) < usize::MAX,
        old(bs_mem).list_at(chunk_list as int).total_size + old(bs_mem).chunk_len(chunk as int)
            <= usize::MAX,
    ensures
        final(bs_mem).wf0(),
        chunk_users_ok(old(bs_mem), final(bs_mem)),
        forall|s: int| old(bs_mem).wf(s) ==> final(bs_mem).wf(s),
        old(bs_mem).others_stable(*final(bs_mem), chunk_list as int),
        final(bs_mem).state == old(bs_mem).state,
        final(bs_mem).chunk_list@.len() == old(bs_mem).chunk_list@.len(),
        final(bs_mem).chunk@.len() == old(bs_mem).chunk@.len(),
        final(bs_mem).list_live(chunk_list as int),
        final(bs_mem).list_refs(chunk_list as int) == old(bs_mem).list_refs(
            chunk_list as int,
        ).push(chunk),
        final(bs_mem).list_at(chunk_list as int).total_size == old(bs_mem).list_at(
            chunk_list as int,
        ).total_size + old(bs_mem).chunk_len(chunk as int),
        final(bs_mem).list_at(chunk_list as int).users == old(bs_mem).list_at(
            chunk_list as int,
        ).users,
        final(bs_mem).list_bytes(chunk_list as int) == old(bs_mem).list_bytes(chunk_list as int)
            + old(bs_mem).chunk_bytes(chunk as int),
        forall|c2: int|
            old(bs_mem).chunk_live(c2) ==> final(bs_mem).chunk_live(c2)
                && final(bs_mem).chunk_bytes(c2) == old(bs_mem).chunk_bytes(c2)
                && final(bs_mem).chunk_at(c2).key == old(bs_mem).chunk_at(c2).key,
        forall|c2: int|
            old(bs_mem).chunk_live(c2) && c2 != chunk ==> final(bs_mem).chunk_at(c2) == old(
                bs_mem,
            ).chunk_at(c2),
        forall|c2: int| final(bs_mem).chunk_live(c2) ==> old(bs_mem).chunk_live(c2),
        chunks_bytes_total(final(bs_mem).chunk@) == chunks_bytes_total(old(bs_mem).chunk@),
        final(bs_mem).chunk_at(chunk as int).users == old(bs_mem).chunk_at(chunk as int).users + 1,
        forall|l2: int|
            old(bs_mem).list_live(l2) && l2 != chunk_list ==> final(bs_mem).list_live(l2)
                && final(bs_mem).list_at(l2) == old(bs_mem).list_at(l2),
        lists_total_refs(final(bs_mem).chunk_list@) == lists_total_refs(old(bs_mem).chunk_list@)
            + 1,
{
    let ghost m0 = *old(bs_mem);
    proof {
        lemma_lists_total_refs_at(m0.chunk_list@, chunk_list as int);
        lemma_refcount_le_total(m0.chunk_list@, chunk);
        lemma_lists_refcount_at(m0.chunk_list@, chunk_list as int, chunk);
        lemma_occ_nonneg(m0.list_refs(chunk_list as int), chunk);
    }
    let dummy = BChunkList {
        chunk_refs: ListBase::new(),
        chunk_refs_len: 0,
        total_size: 0,
        users: 0,
    };
    let appended_len = bs_mem.chunk.get(chunk).data.len();
    let mut cl = bs_mem.chunk_list.replace_elem(chunk_list, dummy);
    cl.chunk_refs.push_back(chunk);
    cl.chunk_refs_len = cl.chunk_refs_len + 1;
    cl.total_size = cl.total_size + appended_len;
    let ghost new_slot = Some(cl);
    let _dummy = bs_mem.chunk_list.replace_elem(chunk_list, cl);
    proof {
        assert(bs_mem.chunk_list@ =~= m0.chunk_list@.update(chunk_list as int, new_slot));
    }
    let taken = bs_mem.chunk.replace_elem(
        chunk,
        BChunk { data: Vec::new(), users: 0, key: HASH_TABLE_KEY_UNSET },
    );
    let BChunk { data, users, key } = taken;
    let _taken = bs_mem.chunk.replace_elem(chunk, BChunk { data, users: users + 1, key });
    proof {
        let l = chunk_list as int;
        let refs0 = m0.list_refs(l);
        assert(bs_mem.chunk@ =~= m0.chunk@.update(
            chunk as int,
            Some(
                (BChunk {
                    data: m0.chunk_at(chunk as int).data,
                    users: (m0.chunk_at(chunk as int).users + 1) as usize,
                    key: m0.chunk_at(chunk as int).key,
                }),
            ),
        ));
        assert(bs_mem.list_refs(l) == refs0.push(chunk));
        lemma_chunks_bytes_total_update(m0.chunk@, chunk as int, bs_mem.chunk@[chunk as int]);
        lemma_lists_total_refs_update(m0.chunk_list@, l, new_slot);
        assert forall|c2: int| #[trigger] bs_mem.chunk_live(c2) implies m0.chunk_live(c2) by {}
        assert forall|c2: usize|
            lists_refcount(bs_mem.chunk_list@, c2) == lists_refcount(m0.chunk_list@, c2) + (if c2
                == chunk {
                1int
            } else {
                0int
            }) by {
            lemma_lists_refcount_update(m0.chunk_list@, l, new_slot, c2);
            lemma_occ_push(refs0, chunk, c2);
        }
        assert forall|l2: int| #[trigger] bs_mem.list_live(l2) implies bs_mem.list_refs_live(l2)
            && bs_mem.list_at(l2).chunk_refs_len == bs_mem.list_refs(l2).len() by {
            assert(m0.list_live(l2));
            assert(m0.list_refs_live(l2));
            if l2 == l {
                assert forall|i: int| 0 <= i < bs_mem.list_refs(l2).len() implies bs_mem.chunk_live(
                    (#[trigger] bs_mem.list_refs(l2)[i]) as int,
                ) by {
                    if i < refs0.len() {
                        assert(m0.chunk_live((#[trigger] m0.list_refs(l2)[i]) as int));
                    }
                }
            } else {
                assert forall|i: int| 0 <= i < bs_mem.list_refs(l2).len() implies bs_mem.chunk_live(
                    (#[trigger] bs_mem.list_refs(l2)[i]) as int,
                ) by {
                    assert(m0.chunk_live((#[trigger] m0.list_refs(l2)[i]) as int));
                }
            }
        }
        assert(bs_mem.wf0());
        m0.lemma_refs_bytes_congruence(*bs_mem, refs0);
        bs_mem.lemma_refs_bytes_push(refs0, chunk);
        assert forall|s: int| m0.wf(s) implies bs_mem.wf(s) by {
            assert forall|c2: int| #[trigger] bs_mem.chunk_live(c2) implies m0.chunk_live(c2)
                && bs_mem.chunk_at(c2).key == m0.chunk_at(c2).key && bs_mem.chunk_bytes(c2)
                == m0.chunk_bytes(c2) by {
                assert(m0.chunk_live(c2));
            }
            lemma_keys_consistent_stable(&m0, bs_mem, s);
        }
    }
}

/// Drop one user of a chunk list.  When the last user is gone, every chunk
/// reference is released (freeing chunks whose own count reaches zero) and
/// the list itself is returned to its pool.
pub(crate) fn bchunk_list_decref(bs_mem: &mut BArrayMemory, chunk_list: usize)
    requires
        old(bs_mem).wf0(),
        old(bs_mem).list_live(chunk_list as int),
        old(bs_mem).list_at(chunk_list as int).users >= 1,
    ensures
        final(bs_mem).wf0(),
        chunk_users_ok(old(bs_mem), final(bs_mem)),
        forall|s: int| old(bs_mem).wf(s) ==> final(bs_mem).wf(s),
        old(bs_mem).others_stable(*final(bs_mem), chunk_list as int),
        final(bs_mem).state == old(bs_mem).state,
        final(bs_mem).chunk@.len() == old(bs_mem).chunk@.len(),
        final(bs_mem).chunk_list@.len() == old(bs_mem).chunk_list@.len(),
        lists_total_refs(final(bs_mem).chunk_list@) <= lists_total_refs(old(bs_mem).chunk_list@),
        old(bs_mem).list_at(chunk_list as int).users > 1 ==> final(bs_mem).list_live(
            chunk_list as int,
        ) && final(bs_mem).list_at(chunk_list as int) == (BChunkList {
            chunk_refs: old(bs_mem).list_at(chunk_list as int).chunk_refs,
            chunk_refs_len: old(bs_mem).list_at(chunk_list as int).chunk_refs_len,
            total_size: old(bs_mem).list_at(chunk_list as int).total_size,
            users: (old(bs_mem).list_at(chunk_list as int).users - 1) as usize,
        }) && final(bs_mem).chunk == old(bs_mem).chunk,
        old(bs_mem).list_at(chunk_list as int).users == 1 ==> !final(bs_mem).list_live(
            chunk_list as int,
        ) && final(bs_mem).chunk_list@ == old(bs_mem).chunk_list@.update(
            chunk_list as int,
            None::<BChunkList>,
        ),
        forall|c2: int|
            old(bs_mem).chunk_live(c2) && occ(old(bs_mem).list_refs(chunk_list as int), c2 as usize)
                == 0 ==> final(bs_mem).chunk_live(c2) && final(bs_mem).chunk_at(c2) == old(
                bs_mem,
            ).chunk_at(c2),
        chunks_bytes_total(final(bs_mem).chunk@) <= chunks_bytes_total(old(bs_mem).chunk@),
{
    let ghost m0 = *old(bs_mem);
    let ghost l = chunk_list as int;
    let users = bs_mem.chunk_list.get(chunk_list).users;
    if users > 1 {
        let dummy = BChunkList {
            chunk_refs: ListBase::new(),
            chunk_refs_len: 0,
            total_size: 0,
            users: 0,
        };
        let taken = bs_mem.chunk_list.replace_elem(chunk_list, dummy);
        let BChunkList { chunk_refs, chunk_refs_len, total_size, users } = taken;
        let _d = bs_mem.chunk_list.replace_elem(
            chunk_list,
            BChunkList { chunk_refs, chunk_refs_len, total_size, users: users - 1 },
        );
        proof {
            let ghost new_slot = Some(
                (BChunkList {
                    chunk_refs: m0.list_at(l).chunk_refs,
                    chunk_refs_len: m0.list_at(l).chunk_refs_len,
                    total_size: m0.list_at(l).total_size,
                    users: (m0.list_at(l).users - 1) as usize,
                }),
            );
            assert(bs_mem.chunk_list@ =~= m0.chunk_list@.update(l, new_slot));
            lemma_lists_total_refs_update(m0.chunk_list@, l, new_slot);
            assert forall|c2: usize|
                lists_refcount(bs_mem.chunk_list@, c2) == lists_refcount(m0.chunk_list@, c2) by {
                lemma_lists_refcount_update(m0.chunk_list@, l, new_slot, c2);
            }
            assert forall|l2: int| #[trigger] bs_mem.list_live(l2) implies bs_mem.list_refs_live(
                l2,
            ) && bs_mem.list_at(l2).chunk_refs_len == bs_mem.list_refs(l2).len() by {
                assert(m0.list_live(l2));
                assert(m0.list_refs_live(l2));
                assert(bs_mem.list_refs(l2) == m0.list_refs(l2));
                assert forall|i: int| 0 <= i < bs_mem.list_refs(l2).len() implies bs_mem.chunk_live(
                    (#[trigger] bs_mem.list_refs(l2)[i]) as int,
                ) by {
                    assert(m0.chunk_live((#[trigger] m0.list_refs(l2)[i]) as int));
                }
            }
            assert forall|c: usize| #[trigger] bs_mem.chunk_live(c as int) implies
                bs_mem.chunk_at(c as int).users == lists_refcount(bs_mem.chunk_list@, c) by {
                assert(m0.chunk_live(c as int));
            }
            assert forall|c2: int| #[trigger] bs_mem.chunk_live(c2) implies 1 <= bs_mem.chunk_len(
                c2,
            ) by {
                assert(m0.chunk_live(c2));
            }
            assert(bs_mem.wf0());
            assert forall|s: int| m0.wf(s) implies bs_mem.wf(s) by {
            assert forall|c2: int| #[trigger] bs_mem.chunk_live(c2) implies m0.chunk_live(c2)
                && bs_mem.chunk_at(c2).key == m0.chunk_at(c2).key && bs_mem.chunk_bytes(c2)
                == m0.chunk_bytes(c2) by {
                assert(m0.chunk_live(c2));
            }
            lemma_keys_consistent_stable(&m0, bs_mem, s);
                assert forall|c2: int| #[trigger] bs_mem.chunk_live(c2) implies bs_mem.chunk_len(
                    c2,
                ) % s == 0 by {
                    assert(m0.chunk_live(c2));
                }
            }
        }
    } else {
        let cl = bs_mem.chunk_list.free_elem(chunk_list);
        let BChunkList { chunk_refs, chunk_refs_len: _, total_size: _, users: _ } = cl;
        let ghost refs = m0.list_refs(l);
        let ghost lists1 = m0.chunk_list@.update(l, None::<BChunkList>);
        proof {
            assert forall|c2: usize|
                lists_refcount(lists1, c2) == lists_refcount(m0.chunk_list@, c2) - occ(refs, c2) by {
                lemma_lists_refcount_update(m0.chunk_list@, l, None::<BChunkList>, c2);
            }
            lemma_lists_total_refs_update(m0.chunk_list@, l, None::<BChunkList>);
            lemma_occ_nonneg(refs, 0);
            assert(refs.skip(0) =~= refs);
            assert forall|c2: usize| #[trigger] bs_mem.chunk_live(c2 as int) implies m0.chunk_live(
                c2 as int,
            ) && bs_mem.chunk_bytes(c2 as int) == m0.chunk_bytes(c2 as int) && bs_mem.chunk_at(
                c2 as int,
            ).key == m0.chunk_at(c2 as int).key && bs_mem.chunk_at(c2 as int).users
                == lists_refcount(bs_mem.chunk_list@, c2) + occ(refs.skip(0), c2) by {
                assert(m0.chunk_live(c2 as int));
            }
        }
        let n = chunk_refs.len_calc();
        let mut i: usize = 0;
        while i < n
            invariant
                n == refs.len(),
                i <= n,
                chunk_refs@ == refs,
                bs_mem.chunk_list@ == lists1,
                bs_mem.state == m0.state,
                bs_mem.state.wf(),
                bs_mem.chunk_list.wf(),
                bs_mem.chunk.wf(),
                bs_mem.chunk@.len() == m0.chunk@.len(),
                forall|j: int| i <= j < n ==> bs_mem.chunk_live((#[trigger] refs[j]) as int),
                forall|c2: usize| #[trigger]
                    bs_mem.chunk_live(c2 as int) ==> m0.chunk_live(c2 as int) && bs_mem.chunk_bytes(
                        c2 as int,
                    ) == m0.chunk_bytes(c2 as int) && bs_mem.chunk_at(c2 as int).key == m0.chunk_at(
                        c2 as int,
                    ).key && bs_mem.chunk_at(c2 as int).users == lists_refcount(lists1, c2) + occ(
                        refs.skip(i as int),
                        c2,
                    ),
                forall|c2: usize|
                    m0.chunk_live(c2 as int) && occ(refs, c2) == 0 ==> bs_mem.chunk_live(c2 as int)
                        && bs_mem.chunk_at(c2 as int) == m0.chunk_at(c2 as int),
                forall|c2: usize|
                    m0.chunk_live(c2 as int) && lists_refcount(lists1, c2) >= 1
                        ==> bs_mem.chunk_live(c2 as int),
                chunk_users_ok(&m0, bs_mem),
                chunks_bytes_total(bs_mem.chunk@) <= chunks_bytes_total(m0.chunk@),
            decreases n - i,
        {
            let c = *chunk_refs.at_index(i).unwrap();
            proof {
                lemma_occ_skip(refs, i as int, c);
                lemma_occ_nonneg(refs.skip(i as int + 1), c);
                lemma_lists_refcount_nonneg(lists1, c);
                if bs_mem.chunk_at(c as int).users == 1 {
                    lemma_occ_zero(refs.skip(i as int + 1), c);
                    assert forall|j: int| i + 1 <= j < n implies refs[j] != c by {
                        assert(refs.skip(i as int + 1)[j - i - 1] == refs[j]);
                    }
                }
            }
            let ghost pre = *bs_mem;
            bchunk_decref(bs_mem, c);
            proof {
                assert forall|c2: usize| #[trigger] bs_mem.chunk_live(c2 as int) implies
                    m0.chunk_live(c2 as int) && bs_mem.chunk_bytes(c2 as int) == m0.chunk_bytes(
                    c2 as int,
                ) && bs_mem.chunk_at(c2 as int).key == m0.chunk_at(c2 as int).key && bs_mem.chunk_at(
                    c2 as int,
                ).users == lists_refcount(lists1, c2) + occ(refs.skip(i as int + 1), c2) by {
                    if c2 == c {
                        assert(pre.chunk_at(c as int).users != 1);
                        assert(bs_mem.chunk_at(c2 as int).users == pre.chunk_at(c2 as int).users
                            - 1);
                    } else {
                        assert(bs_mem.chunk@[c2 as int] == pre.chunk@[c2 as int]);
                        lemma_occ_skip(refs, i as int, c2);
                    }
                    assert(pre.chunk_live(c2 as int));
                }
                assert forall|c2: usize|
                    m0.chunk_live(c2 as int) && occ(refs, c2) == 0 implies bs_mem.chunk_live(
                    c2 as int,
                ) && bs_mem.chunk_at(c2 as int) == m0.chunk_at(c2 as int) by {
                    lemma_occ_zero(refs, c2);
                    assert(refs[i as int] != c2);
                    assert(bs_mem.chunk@[c2 as int] == pre.chunk@[c2 as int]);
                }
                assert forall|c2: usize|
                    m0.chunk_live(c2 as int) && lists_refcount(lists1, c2) >= 1 implies
                    bs_mem.chunk_live(c2 as int) by {
                    assert(pre.chunk_live(c2 as int));
                    if c2 == c {
                        lemma_occ_skip(refs, i as int, c2);
                        lemma_occ_nonneg(refs.skip(i as int + 1), c2);
                        assert(pre.chunk_at(c2 as int).users >= 2);
                    } else {
                        assert(bs_mem.chunk@[c2 as int] == pre.chunk@[c2 as int]);
                    }
                }
                assert forall|j: int| i + 1 <= j < n implies bs_mem.chunk_live(
                    (#[trigger] refs[j]) as int,
                ) by {
                    if pre.chunk_at(c as int).users == 1 {
                        assert(refs[j] != c);
                    } else {
                        if refs[j] != c {
                            assert(bs_mem.chunk@[refs[j] as int] == pre.chunk@[refs[j] as int]);
                        }
                    }
                }
                assert forall|c2: int| #[trigger] bs_mem.chunk_live(c2) implies bs_mem.chunk_at(
                    c2,
                ).users >= 1 || (m0.chunk_live(c2) && bs_mem.chunk_at(c2).users == m0.chunk_at(
                    c2,
                ).users) by {
                    assert(pre.chunk_live(c2));
                    if c2 != c as int {
                        assert(bs_mem.chunk@[c2] == pre.chunk@[c2]);
                    } else {
                        assert(pre.chunk_at(c2).users >= 2);
                    }
                }
            }
            i = i + 1;
        }
        proof {
            assert(refs.skip(n as int) =~= Seq::<usize>::empty());
            assert forall|c2: usize| #[trigger] bs_mem.chunk_live(c2 as int) implies
                bs_mem.chunk_at(c2 as int).users == lists_refcount(bs_mem.chunk_list@, c2) by {
                assert(occ(refs.skip(n as int), c2) == 0);
            }
            assert forall|l2: int| #[trigger] bs_mem.list_live(l2) implies bs_mem.list_refs_live(
                l2,
            ) && bs_mem.list_at(l2).chunk_refs_len == bs_mem.list_refs(l2).len() by {
                assert(lists1[l2] == m0.chunk_list@[l2]);
                assert(m0.list_live(l2));
                assert(m0.list_refs_live(l2));
                assert(bs_mem.list_refs(l2) == m0.list_refs(l2));
                assert forall|i2: int|
                    0 <= i2 < bs_mem.list_refs(l2).len() implies bs_mem.chunk_live(
                    (#[trigger] bs_mem.list_refs(l2)[i2]) as int,
                ) by {
                    let cc = m0.list_refs(l2)[i2];
                    assert(m0.chunk_live(cc as int));
                    lemma_occ_positive(m0.list_refs(l2), i2);
                    lemma_lists_refcount_at(lists1, l2, cc);
                    assert(slot_occ(lists1[l2], cc) >= 1);
                }
            }
            bs_mem.chunk.lemma_view_len_bounded();
            assert forall|c2: int| #[trigger] bs_mem.chunk_live(c2) implies 1 <= bs_mem.chunk_len(
                c2,
            ) && m0.chunk_live(c2) by {
                assert(bs_mem.chunk_live((c2 as usize) as int));
            }
            assert(bs_mem.wf0());
            assert forall|s: int| m0.wf(s) implies bs_mem.wf(s) by {
            assert forall|c2: int| #[trigger] bs_mem.chunk_live(c2) implies m0.chunk_live(c2)
                && bs_mem.chunk_at(c2).key == m0.chunk_at(c2).key && bs_mem.chunk_bytes(c2)
                == m0.chunk_bytes(c2) by {
                assert(m0.chunk_live(c2));
            }
            lemma_keys_consistent_stable(&m0, bs_mem, s);
        }
            assert forall|l2: int, i2: int|
                l2 != l && #[trigger] m0.list_live(l2) && 0 <= i2 < m0.list_refs(l2).len() implies
                bs_mem.chunk_live((#[trigger] m0.list_refs(l2)[i2]) as int) && bs_mem.chunk_bytes(
                m0.list_refs(l2)[i2] as int,
            ) == m0.chunk_bytes(m0.list_refs(l2)[i2] as int) by {
                let cc = m0.list_refs(l2)[i2];
                assert(m0.chunk_live(cc as int));
                lemma_occ_positive(m0.list_refs(l2), i2);
                lemma_lists_refcount_at(lists1, l2, cc);
                assert(slot_occ(lists1[l2], cc) >= 1);
                assert(bs_mem.chunk_live((cc as int)));
            }
        }
    }
}

/// A nonnegative multiple of `c` is also a multiple of any divisor of `c`.
pub(crate) proof fn lemma_mod_of_multiple(x: int, c: int, s: int)
    requires
        c >= 1,
        s >= 1,
        x >= 0,
        x % c == 0,
        c % s == 0,
    ensures
        x % s == 0,
{
    vstd::arithmetic::div_mod::lemma_fundamental_div_mod(x, c);
    vstd::arithmetic::div_mod::lemma_fundamental_div_mod(c, s);
    let k = (x / c) * (c / s);
    assert(x == k * s) by (nonlinear_arith)
        requires
            x == c * (x / c) + x % c,
            c == s * (c / s) + c % s,
            x % c == 0,
            c % s == 0,
            k == (x / c) * (c / s),
    ;
    vstd::arithmetic::div_mod::lemma_mod_multiples_basic(k, s);
}

/// A positive multiple of `c` is at least `c`.
pub(crate) proof fn lemma_pos_multiple_ge(x: int, c: int)
    requires
        c >= 1,
        x > 0,
        x % c == 0,
    ensures
        x >= c,
{
    if x < c {
        vstd::arithmetic::div_mod::lemma_small_mod(x as nat, c as nat);
    }
}

/// Multiples of `s` are closed under addition.
pub(crate) proof fn lemma_mod_sum_zero(a: int, b: int, s: int)
    requires
        s >= 1,
        a >= 0,
        b >= 0,
        a % s == 0,
        b % s == 0,
    ensures
        (a + b) % s == 0,
{
    vstd::arithmetic::div_mod::lemma_add_mod_noop(a, b, s);
    vstd::arithmetic::div_mod::lemma_small_mod(0, s as nat);
}

/// Multiples of `s` are closed under subtraction.
pub(crate) proof fn lemma_mod_diff_zero(a: int, b: int, s: int)
    requires
        s >= 1,
        0 <= b <= a,
        a % s == 0,
        b % s == 0,
    ensures
        (a - b) % s == 0,
{
    vstd::arithmetic::div_mod::lemma_sub_mod_noop(a, b, s);
    vstd::arithmetic::div_mod::lemma_small_mod(0, s as nat);
}

/// Every chunk live after a step either has a user or was carried over
/// untouched; chained from a state where every chunk has a user, no orphan
/// can appear.
pub(crate) open spec fn chunk_users_ok(m0: &BArrayMemory, m1: &BArrayMemory) -> bool {
    forall|c: int| #[trigger]
        m1.chunk_live(c) ==> m1.chunk_at(c).users >= 1 || (m0.chunk_live(c) && m1.chunk_at(
            c,
        ).users == m0.chunk_at(c).users)
}

pub(crate) proof fn lemma_chunk_users_ok_trans(m0: &BArrayMemory, m1: &BArrayMemory, m2: &BArrayMemory)
    requires
        chunk_users_ok(m0, m1),
        chunk_users_ok(m1, m2),
    ensures
        chunk_users_ok(m0, m2),
{
    assert forall|c: int| #[trigger] m2.chunk_live(c) implies m2.chunk_at(c).users >= 1 || (
    m0.chunk_live(c) && m2.chunk_at(c).users == m0.chunk_at(c).users) by {
        if m2.chunk_at(c).users < 1 {
            assert(m1.chunk_live(c));
        }
    }
}

/// A memory whose live chunks all keep their key and bytes keeps its cached
/// keys exact.
pub(crate) proof fn lemma_keys_consistent_stable(m0: &BArrayMemory, m1: &BArrayMemory, stride: int)
    requires
        m0.keys_consistent(stride),
        forall|c: int| #[trigger]
            m1.chunk_live(c) ==> m0.chunk_live(c) && m1.chunk_at(c).key == m0.chunk_at(c).key
                && m1.chunk_bytes(c) == m0.chunk_bytes(c),
    ensures
        m1.keys_consistent(stride),
{
    assert forall|c: int| #[trigger] m1.chunk_live(c) implies m1.chunk_at(c).key
        == HASH_TABLE_KEY_UNSET || (m1.chunk_len(c) >= 7 * stride && m1.chunk_at(c).key
        == crate::hash::spec_content_key(m1.chunk_bytes(c).subrange(0, 7 * stride), stride)) by {
        assert(m0.chunk_live(c));
    }
}

impl BArrayMemory {
    /// Nothing at all changed: trivially, everything outside `l` is stable.
    pub(crate) proof fn lemma_others_stable_refl(&self, l: int)
        requires
            self.wf0(),
        ensures
            self.others_stable(*self, l),
    {
        assert forall|l2: int, i: int|
            l2 != l && #[trigger] self.list_live(l2) && 0 <= i < self.list_refs(l2).len() implies
            self.chunk_live((#[trigger] self.list_refs(l2)[i]) as int) && self.chunk_bytes(
            self.list_refs(l2)[i] as int,
        ) == self.chunk_bytes(self.list_refs(l2)[i] as int) by {
            assert(self.list_refs_live(l2));
        }
    }

    /// Every chunk of list `l` except the head is at least `min` bytes.
    pub(crate) open spec fn list_nonhead_min(&self, l: int, min: int) -> bool {
        forall|i: int|
            1 <= i < self.list_refs(l).len() ==> self.chunk_len(
                (#[trigger] self.list_refs(l)[i]) as int,
            ) >= min
    }

    /// `refs_bytes` distributes over concatenation.
    pub(crate) proof fn lemma_refs_bytes_concat(&self, a: Seq<usize>, b: Seq<usize>)
        ensures
            self.refs_bytes(a + b) == self.refs_bytes(a) + self.refs_bytes(b),
        decreases b.len(),
    {
        if b.len() == 0 {
            assert(a + b =~= a);
            assert(self.refs_bytes(a) + self.refs_bytes(b) =~= self.refs_bytes(a));
        } else {
            assert((a + b).drop_last() =~= a + b.drop_last());
            assert((a + b).last() == b.last());
            self.lemma_refs_bytes_concat(a, b.drop_last());
            assert(self.refs_bytes(a) + self.refs_bytes(b) =~= self.refs_bytes(a) + (
            self.refs_bytes(b.drop_last()) + self.chunk_bytes(b.last() as int)));
        }
    }

    /// Step the byte view across the head of a suffix of handles.
    pub(crate) proof fn lemma_refs_bytes_skip(&self, refs: Seq<usize>, i: int)
        requires
            0 <= i < refs.len(),
        ensures
            self.refs_bytes(refs.skip(i)) == self.chunk_bytes(refs[i] as int) + self.refs_bytes(
                refs.skip(i + 1),
            ),
    {
        let single = seq![refs[i]];
        assert(refs.skip(i) =~= single + refs.skip(i + 1));
        self.lemma_refs_bytes_concat(single, refs.skip(i + 1));
        assert(single.drop_last() =~= Seq::<usize>::empty());
        assert(self.refs_bytes(Seq::<usize>::empty()) == Seq::<u8>::empty());
        assert(self.refs_bytes(single) == self.refs_bytes(Seq::<usize>::empty())
            + self.chunk_bytes(single.last() as int));
        assert(self.refs_bytes(single) =~= self.chunk_bytes(refs[i] as int));
    }

    /// The byte count of a handle sequence is a multiple of the stride when
    /// each chunk's length is.
    pub(crate) proof fn lemma_refs_bytes_stride(&self, refs: Seq<usize>, stride: int)
        requires
            stride >= 1,
            forall|i: int|
                0 <= i < refs.len() ==> self.chunk_len((#[trigger] refs[i]) as int) % stride == 0,
        ensures
            self.refs_bytes(refs).len() as int % stride == 0,
        decreases refs.len(),
    {
        if refs.len() == 0 {
            vstd::arithmetic::div_mod::lemma_small_mod(0, stride as nat);
        } else {
            self.lemma_refs_bytes_stride(refs.drop_last(), stride);
            lemma_mod_sum_zero(
                self.refs_bytes(refs.drop_last()).len() as int,
                self.chunk_len(refs.last() as int),
                stride,
            );
        }
    }

    /// A single handle's bytes are just that chunk's bytes.
    pub(crate) proof fn lemma_refs_bytes_single(&self, c: usize)
        ensures
            self.refs_bytes(seq![c]) == self.chunk_bytes(c as int),
    {
        assert(seq![c].drop_last() =~= Seq::<usize>::empty());
        assert(self.refs_bytes(Seq::<usize>::empty()) == Seq::<u8>::empty());
        assert(self.refs_bytes(seq![c]) == self.refs_bytes(Seq::<usize>::empty())
            + self.chunk_bytes(seq![c].last() as int));
        assert(self.refs_bytes(seq![c]) =~= self.chunk_bytes(c as int));
    }

    /// The byte view of a handle sequence is the concatenation of the named
    /// chunks' buffers.
    pub(crate) proof fn lemma_refs_bytes_flatten(&self, refs: Seq<usize>)
        ensures
            self.refs_bytes(refs) == Seq::new(
                refs.len(),
                |i: int| self.chunk_bytes(refs[i] as int),
            ).flatten(),
        decreases refs.len(),
    {
        let bufs = Seq::new(refs.len(), |i: int| self.chunk_bytes(refs[i] as int));
        if refs.len() == 0 {
            assert(bufs =~= Seq::<Seq<u8>>::empty());
            assert(bufs.flatten() =~= Seq::<u8>::empty());
        } else {
            let head_bufs = Seq::new(
                refs.drop_last().len(),
                |i: int| self.chunk_bytes(refs.drop_last()[i] as int),
            );
            self.lemma_refs_bytes_flatten(refs.drop_last());
            head_bufs.lemma_flatten_push(self.chunk_bytes(refs.last() as int));
            assert(bufs =~= head_bufs.push(self.chunk_bytes(refs.last() as int)));
        }
    }

    /// Bytes of a prefix never exceed the bytes of the whole list.
    pub(crate) proof fn lemma_refs_bytes_prefix_bound(&self, refs: Seq<usize>, k: int)
        requires
            0 <= k <= refs.len(),
        ensures
            self.refs_bytes(refs.take(k)).len() <= self.refs_bytes(refs).len(),
        decreases refs.len() - k,
    {
        if k == refs.len() {
            assert(refs.take(k) =~= refs);
        } else {
            assert(refs.take(k + 1).drop_last() =~= refs.take(k));
            self.lemma_refs_bytes_prefix_bound(refs, k + 1);
        }
    }

    /// The last two entries split off the byte view.
    pub(crate) proof fn lemma_refs_bytes_last_two(&self, refs: Seq<usize>)
        requires
            refs.len() >= 2,
        ensures
            self.refs_bytes(refs) == self.refs_bytes(refs.take(refs.len() - 2)) + self.chunk_bytes(
                refs[refs.len() - 2] as int,
            ) + self.chunk_bytes(refs[refs.len() - 1] as int),
    {
        assert(refs.drop_last().drop_last() =~= refs.take(refs.len() - 2));
        assert(refs.drop_last().last() == refs[refs.len() - 2]);
        assert(self.refs_bytes(refs) == self.refs_bytes(refs.drop_last()) + self.chunk_bytes(
            refs.last() as int,
        ));
        assert(self.refs_bytes(refs.drop_last()) == self.refs_bytes(refs.drop_last().drop_last())
            + self.chunk_bytes(refs.drop_last().last() as int));
        assert(self.refs_bytes(refs.take(refs.len() - 2)) + self.chunk_bytes(
            refs[refs.len() - 2] as int,
        ) + self.chunk_bytes(refs[refs.len() - 1] as int) =~= self.refs_bytes(refs.drop_last())
            + self.chunk_bytes(refs.last() as int));
    }
}

/// Make one more list a user of `chunk`.
pub(crate) fn bchunk_users_incr(bs_mem: &mut BArrayMemory, chunk: usize)
    requires
        old(bs_mem).chunk.wf(),
        old(bs_mem).chunk_live(chunk as int),
        old(bs_mem).chunk_at(chunk as int).users < usize::MAX,
    ensures
        final(bs_mem).chunk.wf(),
        final(bs_mem).chunk_list == old(bs_mem).chunk_list,
        final(bs_mem).state == old(bs_mem).state,
        final(bs_mem).chunk@ == old(bs_mem).chunk@.update(
            chunk as int,
            Some(
                (BChunk {
                    data: old(bs_mem).chunk_at(chunk as int).data,
                    users: (old(bs_mem).chunk_at(chunk as int).users + 1) as usize,
                    key: old(bs_mem).chunk_at(chunk as int).key,
                }),
            ),
        ),
        final(bs_mem).chunk@.len() == old(bs_mem).chunk@.len(),
{
    let taken = bs_mem.chunk.replace_elem(
        chunk,
        BChunk { data: Vec::new(), users: 0, key: HASH_TABLE_KEY_UNSET },
    );
    let BChunk { data, users, key } = taken;
    let _taken = bs_mem.chunk.replace_elem(chunk, BChunk { data, users: users + 1, key });
    proof {
        assert(final(bs_mem).chunk@ =~= old(bs_mem).chunk@.update(
            chunk as int,
            Some(
                (BChunk {
                    data: old(bs_mem).chunk_at(chunk as int).data,
                    users: (old(bs_mem).chunk_at(chunk as int).users + 1) as usize,
                    key: old(bs_mem).chunk_at(chunk as int).key,
                }),
            ),
        ));
    }
}

/// The split of a length into a regularly-chunked part and a remainder, as
/// [`bchunk_list_calc_trim_len`] computes it.
pub(crate) open spec fn spec_trim(info: BArrayInfo, data_len: int) -> (int, int) {
    if data_len > info.chunk_byte_size {
        let rem = data_len % info.chunk_byte_size as int;
        if rem == 0 {
            (data_len, 0int)
        } else if rem < info.chunk_byte_size_min {
            (data_len - rem - info.chunk_byte_size, rem + info.chunk_byte_size)
        } else {
            (data_len - rem, rem)
        }
    } else {
        (0int, data_len)
    }
}

/// Split a length into a part that divides evenly into regular chunks and a
/// final remainder, keeping the remainder from falling below the minimum
/// chunk size.
pub(crate) fn bchunk_list_calc_trim_len(info: &BArrayInfo, data_len: usize) -> (r: (usize, usize))
    requires
        info.wf(),
    ensures
        r.0 == spec_trim(*info, data_len as int).0,
        r.1 == spec_trim(*info, data_len as int).1,
        r.0 + r.1 == data_len,
        r.0 as int % info.chunk_byte_size as int == 0,
        r.0 as int % info.chunk_stride as int == 0,
        r.0 == 0 || r.0 >= info.chunk_byte_size,
        r.1 <= info.chunk_byte_size + info.chunk_byte_size_min,
        data_len > info.chunk_byte_size ==> r.1 == 0 || r.1 >= info.chunk_byte_size_min,
        data_len <= info.chunk_byte_size ==> r.0 == 0 && r.1 == data_len,
        data_len > 0 ==> r.1 > 0 || r.0 > 0,
{
    let cbs = info.chunk_byte_size;
    if data_len > cbs {
        let mut data_last_chunk_len: usize = data_len % cbs;
        let mut data_trim_len: usize = data_len - data_last_chunk_len;
        proof {
            vstd::arithmetic::div_mod::lemma_fundamental_div_mod(data_len as int, cbs as int);
            vstd::arithmetic::div_mod::lemma_mod_multiples_basic(
                data_len as int / cbs as int,
                cbs as int,
            );
            assert(data_trim_len as int == (data_len as int / cbs as int) * cbs as int);
            assert(data_trim_len as int % cbs as int == 0);
            lemma_pos_multiple_ge(data_trim_len as int, cbs as int);
        }
        if data_last_chunk_len != 0 && data_last_chunk_len < info.chunk_byte_size_min {
            data_trim_len = data_trim_len - cbs;
            data_last_chunk_len = data_last_chunk_len + cbs;
            proof {
                vstd::arithmetic::div_mod::lemma_mod_sub_multiples_vanish(
                    data_trim_len as int + cbs as int,
                    cbs as int,
                );
                assert((data_trim_len + cbs) as int % cbs as int == 0);
                if data_trim_len > 0 {
                    lemma_pos_multiple_ge(data_trim_len as int, cbs as int);
                }
            }
        }
        proof {
            lemma_mod_of_multiple(data_trim_len as int, cbs as int, info.chunk_stride as int);
        }
        (data_trim_len, data_last_chunk_len)
    } else {
        proof {
            vstd::arithmetic::div_mod::lemma_small_mod(0, info.chunk_byte_size as nat);
            vstd::arithmetic::div_mod::lemma_small_mod(0, info.chunk_stride as nat);
        }
        (0, data_len)
    }
}

/// Recompute the byte size of a list by walking its chunks.
pub(crate) fn bchunk_list_size(bs_mem: &BArrayMemory, chunk_list: usize) -> (total: usize)
    requires
        bs_mem.wf0(),
        bs_mem.list_live(chunk_list as int),
        bs_mem.list_bytes(chunk_list as int).len() <= usize::MAX,
    ensures
        total == bs_mem.list_bytes(chunk_list as int).len(),
{
    let ghost refs = bs_mem.list_refs(chunk_list as int);
    let cl = bs_mem.chunk_list.get(chunk_list);
    let n = cl.chunk_refs.len_calc();
    let mut total: usize = 0;
    let mut i: usize = 0;
    proof {
        assert(refs.take(0) =~= Seq::<usize>::empty());
    }
    while i < n
        invariant
            bs_mem.wf0(),
            bs_mem.list_live(chunk_list as int),
            refs == bs_mem.list_refs(chunk_list as int),
            cl.chunk_refs@ == refs,
            n == refs.len(),
            i <= n,
            total == bs_mem.refs_bytes(refs.take(i as int)).len(),
            bs_mem.list_bytes(chunk_list as int).len() <= usize::MAX,
        decreases n - i,
    {
        let c = *cl.chunk_refs.at_index(i).unwrap();
        proof {
            assert(bs_mem.chunk_live((#[trigger] refs[i as int]) as int));
            assert(refs.take(i as int + 1).drop_last() =~= refs.take(i as int));
            assert(refs.take(i as int + 1).last() == refs[i as int]);
            bs_mem.lemma_refs_bytes_prefix_bound(refs, i as int + 1);
        }
        let clen = bs_mem.chunk.get(c).data.len();
        total = total + clen;
        i = i + 1;
    }
    proof {
        assert(refs.take(n as int) =~= refs);
    }
    total
}

/// Append `data[from..to]` onto the list as one chunk, folding it into an
/// undersized tail chunk when there is one (in place when the tail is singly
/// owned, else through a freshly merged chunk).
/// What appending `dlen` bytes does to a list that held no chunk yet: the
/// bytes become the list's single chunk and the pool's byte total grows by
/// exactly that amount.  Opaque so that callers appending to a non-empty
/// list do not carry it.
#[verifier::opaque]
pub(crate) open spec fn append_data_empty_layout(
    m0: BArrayMemory,
    m1: BArrayMemory,
    l: int,
    dlen: int,
) -> bool {
    m0.list_refs(l).len() == 0 ==> chunks_bytes_total(m1.chunk@) == chunks_bytes_total(m0.chunk@)
        + dlen && m1.list_refs(l).len() == 1 && m1.chunk_len(m1.list_refs(l)[0] as int) == dlen
}

pub(crate) fn bchunk_list_append_data(
    info: &BArrayInfo,
    bs_mem: &mut BArrayMemory,
    chunk_list: usize,
    data: &[u8],
    from: usize,
    to: usize,
)
    requires
        info.wf(),
        old(bs_mem).wf(info.chunk_stride as int),
        old(bs_mem).list_live(chunk_list as int),
        from < to <= data@.len(),
        (to - from) as int % info.chunk_stride as int == 0,
        old(bs_mem).list_bytes(chunk_list as int).len() + (to - from) <= usize::MAX,
        old(bs_mem).list_at(chunk_list as int).total_size + (to - from) <= usize::MAX,
        old(bs_mem).chunk@.len() < usize::MAX,
        lists_total_refs(old(bs_mem).chunk_list@) < usize::MAX,
    ensures
        final(bs_mem).wf(info.chunk_stride as int),
        chunk_users_ok(old(bs_mem), final(bs_mem)),
        old(bs_mem).others_stable(*final(bs_mem), chunk_list as int),
        final(bs_mem).state == old(bs_mem).state,
        final(bs_mem).list_live(chunk_list as int),
        final(bs_mem).list_bytes(chunk_list as int) == old(bs_mem).list_bytes(chunk_list as int)
            + data@.subrange(from as int, to as int),
        final(bs_mem).list_at(chunk_list as int).total_size == old(bs_mem).list_at(
            chunk_list as int,
        ).total_size + (to - from),
        final(bs_mem).list_at(chunk_list as int).users == old(bs_mem).list_at(
            chunk_list as int,
        ).users,
        final(bs_mem).chunk@.len() <= old(bs_mem).chunk@.len() + 1,
        final(bs_mem).chunk_list@.len() == old(bs_mem).chunk_list@.len(),
        lists_total_refs(final(bs_mem).chunk_list@) <= lists_total_refs(old(bs_mem).chunk_list@)
            + 1,
        old(bs_mem).list_nonhead_min(chunk_list as int, info.chunk_byte_size_min as int)
            ==> final(bs_mem).list_nonhead_min(chunk_list as int, info.chunk_byte_size_min as int),
        final(bs_mem).list_refs(chunk_list as int).len() >= 1,
        append_data_empty_layout(*old(bs_mem), *final(bs_mem), chunk_list as int, (to
            - from) as int),
{
    proof {
        reveal(append_data_empty_layout);
    }
    let ghost m0 = *old(bs_mem);
    let ghost l = chunk_list as int;
    let ghost refs = m0.list_refs(l);
    let ghost st = info.chunk_stride as int;
    let ghost min = info.chunk_byte_size_min as int;
    let ghost sub = data@.subrange(from as int, to as int);
    let dlen = to - from;
    let mut tail_found: Option<usize> = None;
    let n_refs = {
        let cl = bs_mem.chunk_list.get(chunk_list);
        let n = cl.chunk_refs.len_calc();
        if n > 0 {
            tail_found = Some(*cl.chunk_refs.at_index(n - 1).unwrap());
        }
        n
    };
    if let Some(tail) = tail_found {
        proof {
            assert(tail == refs[n_refs - 1]);
            assert(m0.chunk_live(tail as int));
            m0.lemma_refs_bytes_chunk_bound(refs, n_refs - 1);
            lemma_occ_positive(refs, n_refs - 1);
            lemma_lists_refcount_at(m0.chunk_list@, l, tail);
        }
        let tail_len = bs_mem.chunk.get(tail).data.len();
        let tail_users = bs_mem.chunk.get(tail).users;
        let small = if tail_len < dlen {
            tail_len
        } else {
            dlen
        };
        if small < info.chunk_byte_size_min {
            if tail_users == 1 {
                // The building list is the only owner: extend the buffer in
                // place.  The cached key, when set, covers leading bytes
                // that do not move.
                proof {
                    assert(occ(refs, tail) == 1);
                    lemma_occ_drop_last(refs, tail);
                    lemma_occ_zero(refs.drop_last(), tail);
                    assert forall|l2: int|
                        0 <= l2 < m0.chunk_list@.len() && l2 != l implies slot_occ(
                        m0.chunk_list@[l2],
                        tail,
                    ) == 0 by {
                        lemma_refcount_exclusive(m0.chunk_list@, l, l2, tail);
                    }
                }
                let dummy_list = BChunkList {
                    chunk_refs: ListBase::new(),
                    chunk_refs_len: 0,
                    total_size: 0,
                    users: 0,
                };
                let mut cl_rec = bs_mem.chunk_list.replace_elem(chunk_list, dummy_list);
                cl_rec.total_size = cl_rec.total_size + dlen;
                let ghost grown_slot = Some(cl_rec);
                let _d = bs_mem.chunk_list.replace_elem(chunk_list, cl_rec);
                proof {
                    assert(bs_mem.chunk_list@ =~= m0.chunk_list@.update(l, grown_slot));
                    lemma_lists_total_refs_update(m0.chunk_list@, l, grown_slot);
                    assert forall|c2: usize|
                        lists_refcount(bs_mem.chunk_list@, c2) == lists_refcount(
                        m0.chunk_list@,
                        c2,
                    ) by {
                        lemma_lists_refcount_update(m0.chunk_list@, l, grown_slot, c2);
                    }
                }
                let taken = bs_mem.chunk.replace_elem(
                    tail,
                    BChunk { data: Vec::new(), users: 0, key: HASH_TABLE_KEY_UNSET },
                );
                let BChunk { data: tail_data, users, key } = taken;
                let mut tail_data = tail_data;
                bytes_append_range(&mut tail_data, data, from, to);
                let _t = bs_mem.chunk.replace_elem(tail, BChunk { data: tail_data, users, key });
                proof {
                    let tb = m0.chunk_bytes(tail as int);
                    assert(bs_mem.chunk@ =~= m0.chunk@.update(
                        tail as int,
                        Some(
                            (BChunk {
                                data: bs_mem.chunk_at(tail as int).data,
                                users: m0.chunk_at(tail as int).users,
                                key: m0.chunk_at(tail as int).key,
                            }),
                        ),
                    ));
                    assert(bs_mem.chunk_bytes(tail as int) == tb + sub);
                    assert forall|c2: usize| #[trigger] bs_mem.chunk_live(c2 as int) implies
                        bs_mem.chunk_at(c2 as int).users == lists_refcount(
                        bs_mem.chunk_list@,
                        c2,
                    ) by {
                        assert(m0.chunk_live(c2 as int));
                    }
                    assert forall|c2: int| #[trigger] bs_mem.chunk_live(c2) implies 1
                        <= bs_mem.chunk_len(c2) && bs_mem.chunk_len(c2) % st == 0 by {
                        assert(m0.chunk_live(c2));
                        if c2 == tail as int {
                            vstd::arithmetic::div_mod::lemma_add_mod_noop(
                                m0.chunk_len(c2),
                                (to - from) as int,
                                st,
                            );
                            vstd::arithmetic::div_mod::lemma_small_mod(0, st as nat);
                        }
                    }
                    assert forall|l2: int| #[trigger] bs_mem.list_live(l2) implies
                        bs_mem.list_refs_live(l2) && bs_mem.list_at(l2).chunk_refs_len
                        == bs_mem.list_refs(l2).len() by {
                        assert(m0.list_live(l2));
                        assert(m0.list_refs_live(l2));
                        assert forall|i: int|
                            0 <= i < bs_mem.list_refs(l2).len() implies bs_mem.chunk_live(
                            (#[trigger] bs_mem.list_refs(l2)[i]) as int,
                        ) by {
                            assert(m0.chunk_live((#[trigger] m0.list_refs(l2)[i]) as int));
                        }
                    }
                    assert(bs_mem.keys_consistent(st)) by {
                        assert forall|c2: int| #[trigger] bs_mem.chunk_live(c2) implies
                            bs_mem.chunk_at(c2).key == HASH_TABLE_KEY_UNSET || (bs_mem.chunk_len(
                            c2,
                        ) >= 7 * st && bs_mem.chunk_at(c2).key == crate::hash::spec_content_key(
                            bs_mem.chunk_bytes(c2).subrange(0, 7 * st),
                            st,
                        )) by {
                            assert(m0.chunk_live(c2));
                            if c2 == tail as int {
                                if m0.chunk_at(c2).key != HASH_TABLE_KEY_UNSET {
                                    assert(m0.chunk_len(c2) >= 7 * st);
                                    assert(bs_mem.chunk_bytes(c2).subrange(0, 7 * st)
                                        =~= m0.chunk_bytes(c2).subrange(0, 7 * st));
                                }
                            }
                        }
                    }
                    assert(bs_mem.wf(st));
                    // bytes of the list: all chunks before the tail are
                    // untouched, and the tail position is the only
                    // occurrence of this handle.
                    m0.lemma_refs_bytes_congruence(*bs_mem, refs.drop_last());
                    assert(bs_mem.refs_bytes(refs) == bs_mem.refs_bytes(refs.drop_last())
                        + bs_mem.chunk_bytes(tail as int));
                    assert(bs_mem.list_bytes(l) =~= m0.list_bytes(l) + sub);
                    assert forall|l2: int, i: int|
                        l2 != l && #[trigger] m0.list_live(l2) && 0 <= i < m0.list_refs(
                            l2,
                        ).len() implies bs_mem.chunk_live(
                        (#[trigger] m0.list_refs(l2)[i]) as int,
                    ) && bs_mem.chunk_bytes(m0.list_refs(l2)[i] as int) == m0.chunk_bytes(
                        m0.list_refs(l2)[i] as int,
                    ) by {
                        assert(m0.chunk_live((m0.list_refs(l2)[i]) as int));
                        lemma_occ_positive(m0.list_refs(l2), i);
                        assert(m0.list_refs(l2)[i] != tail);
                    }
                }
            } else {
                // Shared tail: build a merged chunk and swap it in.
                let mut merged_data = {
                    let tail_vec = &bs_mem.chunk.get(tail).data;
                    bytes_copy_range(tail_vec.as_slice(), 0, tail_vec.len())
                };
                bytes_append_range(&mut merged_data, data, from, to);
                proof {
                    assert(m0.chunk_len(tail as int) % st == 0);
                    vstd::arithmetic::div_mod::lemma_add_mod_noop(
                        m0.chunk_len(tail as int),
                        (to - from) as int,
                        st,
                    );
                    vstd::arithmetic::div_mod::lemma_small_mod(0, st as nat);
                }
                let cnew = bchunk_new(info, bs_mem, merged_data);
                let ghost m1 = *bs_mem;
                let dummy = BChunkList {
                    chunk_refs: ListBase::new(),
                    chunk_refs_len: 0,
                    total_size: 0,
                    users: 0,
                };
                let mut cl = bs_mem.chunk_list.replace_elem(chunk_list, dummy);
                let _tail = cl.chunk_refs.replace(n_refs - 1, cnew);
                cl.total_size = cl.total_size + dlen;
                let ghost new_slot = Some(cl);
                let _d = bs_mem.chunk_list.replace_elem(chunk_list, cl);
                proof {
                    assert(bs_mem.chunk_list@ =~= m1.chunk_list@.update(l, new_slot));
                }
                bchunk_users_incr(bs_mem, cnew);
                proof {
                    assert(bs_mem.chunk_at(tail as int).users >= 2);
                }
                bchunk_decref(bs_mem, tail);
                proof {
                    let refs1 = refs.update(n_refs - 1, cnew);
                    assert(bs_mem.list_refs(l) == refs1);
                    assert(bs_mem.chunk_bytes(cnew as int) == m0.chunk_bytes(tail as int) + sub);
                    assert forall|c2: usize| #[trigger] bs_mem.chunk_live(c2 as int) implies
                        bs_mem.chunk_at(c2 as int).users == lists_refcount(
                        bs_mem.chunk_list@,
                        c2,
                    ) by {
                        lemma_lists_refcount_update(m1.chunk_list@, l, new_slot, c2);
                        lemma_occ_update(refs, n_refs - 1, cnew, c2);
                        if c2 != cnew && c2 as int != tail as int {
                            assert(m1.chunk_live(c2 as int));
                            assert(m0.chunk_live(c2 as int));
                            assert(bs_mem.chunk_at(c2 as int) == m0.chunk_at(c2 as int));
                        }
                    }
                    assert forall|c2: int| #[trigger] bs_mem.chunk_live(c2) implies 1
                        <= bs_mem.chunk_len(c2) && bs_mem.chunk_len(c2) % st == 0 by {
                        assert(m1.chunk_live(c2));
                    }
                    assert forall|l2: int| #[trigger] bs_mem.list_live(l2) implies
                        bs_mem.list_refs_live(l2) && bs_mem.list_at(l2).chunk_refs_len
                        == bs_mem.list_refs(l2).len() by {
                        assert(m0.list_live(l2));
                        assert(m0.list_refs_live(l2));
                        assert forall|i: int|
                            0 <= i < bs_mem.list_refs(l2).len() implies bs_mem.chunk_live(
                            (#[trigger] bs_mem.list_refs(l2)[i]) as int,
                        ) by {
                            if l2 == l && i == n_refs - 1 {
                                assert(bs_mem.list_refs(l2)[i] == cnew);
                            } else {
                                let cc = m0.list_refs(l2)[i];
                                assert(m0.chunk_live(cc as int));
                                if cc == tail {
                                    assert(bs_mem.chunk_at(tail as int).users >= 1);
                                } else {
                                    assert(bs_mem.chunk@[cc as int] == m1.chunk@[cc as int]);
                                }
                            }
                        }
                    }
                    assert(bs_mem.keys_consistent(st)) by {
                        assert forall|c2: int| #[trigger] bs_mem.chunk_live(c2) implies
                            bs_mem.chunk_at(c2).key == HASH_TABLE_KEY_UNSET || (bs_mem.chunk_len(
                            c2,
                        ) >= 7 * st && bs_mem.chunk_at(c2).key == crate::hash::spec_content_key(
                            bs_mem.chunk_bytes(c2).subrange(0, 7 * st),
                            st,
                        )) by {
                            if c2 == cnew as int {
                                assert(bs_mem.chunk_at(c2).key == HASH_TABLE_KEY_UNSET);
                            } else {
                                assert(m1.chunk_live(c2));
                                assert(m0.chunk_live(c2));
                                assert(bs_mem.chunk_at(c2).key == m0.chunk_at(c2).key
                                    && bs_mem.chunk_bytes(c2) == m0.chunk_bytes(c2));
                            }
                        }
                    }
                    assert(bs_mem.wf(st));
                    assert(refs1.drop_last() =~= refs.drop_last());
                    m0.lemma_refs_bytes_congruence(*bs_mem, refs.drop_last());
                    assert(bs_mem.refs_bytes(refs1) == bs_mem.refs_bytes(refs1.drop_last())
                        + bs_mem.chunk_bytes(cnew as int));
                    assert(bs_mem.list_bytes(l) =~= m0.list_bytes(l) + sub);
                    lemma_lists_total_refs_update(m1.chunk_list@, l, new_slot);
                    assert forall|l2: int, i: int|
                        l2 != l && #[trigger] m0.list_live(l2) && 0 <= i < m0.list_refs(
                            l2,
                        ).len() implies bs_mem.chunk_live(
                        (#[trigger] m0.list_refs(l2)[i]) as int,
                    ) && bs_mem.chunk_bytes(m0.list_refs(l2)[i] as int) == m0.chunk_bytes(
                        m0.list_refs(l2)[i] as int,
                    ) by {
                        let cc = m0.list_refs(l2)[i];
                        assert(m0.chunk_live(cc as int));
                        if cc == tail {
                            assert(bs_mem.chunk_at(tail as int).users >= 1);
                        } else {
                            assert(bs_mem.chunk@[cc as int] == m1.chunk@[cc as int]);
                        }
                    }
                    assert forall|i: int| 1 <= i < refs1.len() && m0.list_nonhead_min(l, min)
                        implies bs_mem.chunk_len((#[trigger] refs1[i]) as int) >= min by {
                        if i == n_refs - 1 {
                            assert(bs_mem.chunk_len(cnew as int) >= m0.chunk_len(tail as int));
                        } else {
                            assert(m0.chunk_len(refs[i] as int) >= min);
                        }
                    }
                }
            }
            return ;
        }
    }
    let cnew = bchunk_new_copydata(info, bs_mem, data, from, to);
    let ghost m1 = *bs_mem;
    bchunk_list_append_only(bs_mem, chunk_list, cnew);
    proof {
        assert(m1.list_bytes(l) == m0.list_bytes(l)) by {
            m0.lemma_refs_bytes_congruence(m1, refs);
        }
        m0.lemma_others_stable_trans(m1, *bs_mem, l);
        assert(bs_mem.list_bytes(l) == m0.list_bytes(l) + sub);
        assert forall|i: int| 1 <= i < bs_mem.list_refs(l).len() && m0.list_nonhead_min(l, min)
            implies bs_mem.chunk_len((#[trigger] bs_mem.list_refs(l)[i]) as int) >= min by {
            if i == refs.len() {
                assert(bs_mem.list_refs(l)[i] == cnew);
                if refs.len() > 0 {
                    assert(to - from >= info.chunk_byte_size_min);
                }
            } else {
                assert(m0.chunk_live((refs[i]) as int));
                assert(m0.chunk_len(refs[i] as int) >= min);
                assert(bs_mem.chunk_bytes(refs[i] as int) == m0.chunk_bytes(refs[i] as int));
            }
        }
        assert(m1.wf(st));
        assert(bs_mem.wf(st));
    }
}

/// Two distinct live lists bound the reference count from below together.
pub(crate) proof fn lemma_refcount_two_lists(
    lists: Seq<Option<BChunkList>>,
    l1: int,
    l2: int,
    c: usize,
)
    requires
        0 <= l1 < lists.len(),
        0 <= l2 < lists.len(),
        l1 != l2,
    ensures
        lists_refcount(lists, c) >= slot_occ(lists[l1], c) + slot_occ(lists[l2], c),
{
    lemma_lists_refcount_update(lists, l2, None, c);
    lemma_lists_refcount_at(lists.update(l2, None), l1, c);
    assert(lists.update(l2, None)[l1] == lists[l1]);
}

/// Occurrences of `x` in a list split around its last two entries.
pub(crate) proof fn lemma_occ_last_two(s: Seq<usize>, x: usize)
    requires
        s.len() >= 2,
    ensures
        occ(s, x) == occ(s.take(s.len() - 2), x) + (if s[s.len() - 2] == x {
            1int
        } else {
            0int
        }) + (if s[s.len() - 1] == x {
            1int
        } else {
            0int
        }),
{
    assert(s.drop_last().drop_last() =~= s.take(s.len() - 2));
    assert(occ(s, x) == occ(s.drop_last(), x) + if s.last() == x {
        1int
    } else {
        0int
    });
    assert(occ(s.drop_last(), x) == occ(s.drop_last().drop_last(), x) + if s.drop_last().last()
        == x {
        1int
    } else {
        0int
    });
}

/// Headroom needed for a chunk to survive dropping one reference to `a` and
/// one to `b`.
pub(crate) open spec fn spare_of(cc: usize, a: usize, b: usize) -> int {
    1 + (if cc == a {
        1int
    } else {
        0int
    }) + (if cc == b {
        1int
    } else {
        0int
    })
}

/// When either of the last two chunks is undersized, replace the pair: by
/// one merged chunk when the result stays within the maximum, else by a
/// regular-size chunk and a remainder chunk.
#[verifier::rlimit(100)]
#[verifier::spinoff_prover]
pub(crate) fn bchunk_list_ensure_min_size_last(
    info: &BArrayInfo,
    bs_mem: &mut BArrayMemory,
    chunk_list: usize,
)
    requires
        info.wf(),
        old(bs_mem).wf(info.chunk_stride as int),
        old(bs_mem).list_live(chunk_list as int),
        old(bs_mem).list_bytes(chunk_list as int).len() <= usize::MAX,
        old(bs_mem).chunk@.len() + 2 <= usize::MAX,
        lists_total_refs(old(bs_mem).chunk_list@) < usize::MAX,
    ensures
        final(bs_mem).wf(info.chunk_stride as int),
        chunk_users_ok(old(bs_mem), final(bs_mem)),
        old(bs_mem).others_stable(*final(bs_mem), chunk_list as int),
        final(bs_mem).state == old(bs_mem).state,
        final(bs_mem).list_live(chunk_list as int),
        final(bs_mem).list_bytes(chunk_list as int) == old(bs_mem).list_bytes(chunk_list as int),
        final(bs_mem).list_at(chunk_list as int).total_size == old(bs_mem).list_at(
            chunk_list as int,
        ).total_size,
        final(bs_mem).list_at(chunk_list as int).users == old(bs_mem).list_at(
            chunk_list as int,
        ).users,
        final(bs_mem).chunk@.len() <= old(bs_mem).chunk@.len() + 2,
        final(bs_mem).chunk_list@.len() == old(bs_mem).chunk_list@.len(),
        lists_total_refs(final(bs_mem).chunk_list@) <= lists_total_refs(old(bs_mem).chunk_list@),
        (forall|i: int|
            1 <= i < old(bs_mem).list_refs(chunk_list as int).len() - 1 ==> old(bs_mem).chunk_len(
                (#[trigger] old(bs_mem).list_refs(chunk_list as int)[i]) as int,
            ) >= info.chunk_byte_size_min) ==> final(bs_mem).list_nonhead_min(
            chunk_list as int,
            info.chunk_byte_size_min as int,
        ),
        old(bs_mem).list_refs(chunk_list as int).len() >= 1 ==> final(bs_mem).list_refs(
            chunk_list as int,
        ).len() >= 1,
        final(bs_mem).list_refs(chunk_list as int).len() <= old(bs_mem).list_refs(
            chunk_list as int,
        ).len() + 1,
        ({
            // either nothing needed doing, or the tail pair was replaced by
            // one merged chunk, or by a regular-size chunk and the rest
            let refs0 = old(bs_mem).list_refs(chunk_list as int);
            let n0 = refs0.len() as int;
            let la = old(bs_mem).chunk_len(refs0[n0 - 2] as int);
            let lb = old(bs_mem).chunk_len(refs0[n0 - 1] as int);
            let fr = final(bs_mem).list_refs(chunk_list as int);
            if n0 < 2 || (la >= info.chunk_byte_size_min && lb >= info.chunk_byte_size_min) {
                *final(bs_mem) == *old(bs_mem)
            } else if la + lb <= info.chunk_byte_size_max {
                &&& fr.len() == n0 - 1
                &&& (forall|i: int| 0 <= i < n0 - 2 ==> (#[trigger] fr[i]) == refs0[i])
                &&& final(bs_mem).chunk_len(fr.last() as int) == la + lb
            } else {
                &&& fr.len() == n0
                &&& (forall|i: int| 0 <= i < n0 - 2 ==> (#[trigger] fr[i]) == refs0[i])
                &&& final(bs_mem).chunk_len(fr[n0 - 2] as int) == info.chunk_byte_size
                &&& final(bs_mem).chunk_len(fr.last() as int) == la + lb
                    - info.chunk_byte_size
            }
        }),
{
    let ghost m0 = *old(bs_mem);
    let ghost l = chunk_list as int;
    let ghost refs = m0.list_refs(l);
    let ghost st = info.chunk_stride as int;
    let ghost min = info.chunk_byte_size_min as int;
    let mut pair: Option<(usize, usize)> = None;
    let n_refs = {
        let cl = bs_mem.chunk_list.get(chunk_list);
        let n = cl.chunk_refs.len_calc();
        if n >= 2 {
            pair = Some(
                (*cl.chunk_refs.at_index(n - 2).unwrap(), *cl.chunk_refs.at_index(n - 1).unwrap()),
            );
        }
        n
    };
    let (a, b) = match pair {
        Some(p) => p,
        None => {
            proof {
                m0.lemma_others_stable_refl(l);
                assert forall|c2: int| #[trigger] bs_mem.chunk_live(c2) implies bs_mem.chunk_at(
                    c2,
                ).users >= 1 || (m0.chunk_live(c2) && bs_mem.chunk_at(c2).users == m0.chunk_at(
                    c2,
                ).users) by {}
            }
            return ;
        },
    };
    proof {
        assert(a == refs[n_refs - 2] && b == refs[n_refs - 1]);
        assert(m0.chunk_live(a as int) && m0.chunk_live(b as int));
        lemma_occ_positive(refs, n_refs - 2);
        lemma_occ_positive(refs, n_refs - 1);
        lemma_lists_refcount_at(m0.chunk_list@, l, a);
        lemma_lists_refcount_at(m0.chunk_list@, l, b);
        m0.lemma_refs_bytes_last_two(refs);
    }
    let alen = bs_mem.chunk.get(a).data.len();
    let blen = bs_mem.chunk.get(b).data.len();
    let small = if alen < blen {
        alen
    } else {
        blen
    };
    if small >= info.chunk_byte_size_min {
        proof {
            m0.lemma_others_stable_refl(l);
            assert forall|c2: int| #[trigger] bs_mem.chunk_live(c2) implies bs_mem.chunk_at(
                c2,
            ).users >= 1 || (m0.chunk_live(c2) && bs_mem.chunk_at(c2).users == m0.chunk_at(
                c2,
            ).users) by {}
        }
        return ;
    }
    let ghost take2 = refs.take(n_refs as int - 2);
    let data_merge_len = alen + blen;
    let mut merged_data = {
        let avec = &bs_mem.chunk.get(a).data;
        bytes_copy_range(avec.as_slice(), 0, avec.len())
    };
    {
        let bvec = &bs_mem.chunk.get(b).data;
        bytes_append_range(&mut merged_data, bvec.as_slice(), 0, bvec.len());
    }
    proof {
        lemma_mod_sum_zero(alen as int, blen as int, st);
        assert(merged_data@ == m0.chunk_bytes(a as int) + m0.chunk_bytes(b as int));
        lemma_occ_last_two(refs, a);
        lemma_occ_last_two(refs, b);
        lemma_occ_nonneg(take2, a);
        lemma_occ_nonneg(take2, b);
    }
    let do_split = data_merge_len > info.chunk_byte_size_max;
    let mut new_first: usize = 0;
    let mut new_second: usize = 0;
    if do_split {
        let split = info.chunk_byte_size;
        let data_prev = bytes_copy_range(merged_data.as_slice(), 0, split);
        let data_curr = bytes_copy_range(merged_data.as_slice(), split, data_merge_len);
        proof {
            lemma_mod_diff_zero(data_merge_len as int, split as int, st);
            assert(data_prev@ + data_curr@ =~= merged_data@);
        }
        new_first = bchunk_new(info, bs_mem, data_prev);
        new_second = bchunk_new(info, bs_mem, data_curr);
    } else {
        new_first = bchunk_new(info, bs_mem, merged_data);
    }
    let ghost m1 = *bs_mem;
    let dummy = BChunkList {
        chunk_refs: ListBase::new(),
        chunk_refs_len: 0,
        total_size: 0,
        users: 0,
    };
    let mut cl = bs_mem.chunk_list.replace_elem(chunk_list, dummy);
    let _b = cl.chunk_refs.pop_back().unwrap();
    let _a = cl.chunk_refs.pop_back().unwrap();
    cl.chunk_refs.push_back(new_first);
    if do_split {
        cl.chunk_refs.push_back(new_second);
    } else {
        cl.chunk_refs_len = cl.chunk_refs_len - 1;
    }
    let ghost new_refs = if do_split {
        take2.push(new_first).push(new_second)
    } else {
        take2.push(new_first)
    };
    proof {
        assert(refs.drop_last().drop_last() =~= take2);
        assert(cl.chunk_refs@ == new_refs);
    }
    let ghost new_slot = Some(cl);
    let _d = bs_mem.chunk_list.replace_elem(chunk_list, cl);
    proof {
        assert(bs_mem.chunk_list@ =~= m1.chunk_list@.update(l, new_slot));
        lemma_lists_total_refs_update(m1.chunk_list@, l, new_slot);
    }
    bchunk_users_incr(bs_mem, new_first);
    if do_split {
        bchunk_users_incr(bs_mem, new_second);
    }
    let ghost m3 = *bs_mem;
    proof {
        assert(m3.chunk_at(a as int).users == m0.chunk_at(a as int).users >= 1);
    }
    bchunk_decref(bs_mem, a);
    let ghost m4 = *bs_mem;
    proof {
        if a == b {
            assert(m0.chunk_at(b as int).users >= 2);
        }
        assert(bs_mem.chunk_live(b as int));
        assert(bs_mem.chunk_at(b as int).users >= 1);
    }
    bchunk_decref(bs_mem, b);
    proof {
        assert(bs_mem.list_refs(l) == new_refs);
        // Any chunk whose user count leaves room for the two dropped
        // references survives with its bytes.
        assert forall|cc: usize|
            #[trigger] m0.chunk_live(cc as int) && m0.chunk_at(cc as int).users >= spare_of(cc, a, b)
                implies bs_mem.chunk_live(cc as int) && bs_mem.chunk_bytes(cc as int)
                == m0.chunk_bytes(cc as int) by {
            assert(cc != new_first && (do_split ==> cc != new_second));
            assert(m1.chunk_live(cc as int) && m1.chunk_at(cc as int) == m0.chunk_at(cc as int));
            assert(m3.chunk_at(cc as int) == m0.chunk_at(cc as int));
            if cc == a {
                assert(m4.chunk@[cc as int] is Some);
            } else {
                assert(m4.chunk@[cc as int] == m3.chunk@[cc as int]);
            }
            if cc == b {
                assert(m4.chunk_at(b as int).users >= 2);
            } else {
                assert(bs_mem.chunk@[cc as int] == m4.chunk@[cc as int]);
            }
        }
        // Every handle still named by the kept prefix of `l` has the
        // headroom above.
        assert forall|i: int| 0 <= i < take2.len() implies m0.chunk_live(
            (#[trigger] take2[i]) as int,
        ) && m0.chunk_at(take2[i] as int).users >= spare_of(take2[i], a, b) by {
            assert(take2[i] == refs[i]);
            assert(m0.chunk_live((refs[i]) as int));
            lemma_occ_last_two(refs, take2[i]);
            lemma_occ_positive(take2, i);
            lemma_lists_refcount_at(m0.chunk_list@, l, take2[i]);
        }
        // So does every handle named by any other live list.
        assert forall|l2: int, i: int|
            l2 != l && #[trigger] m0.list_live(l2) && 0 <= i < m0.list_refs(l2).len() implies
            m0.chunk_live((#[trigger] m0.list_refs(l2)[i]) as int) && m0.chunk_at(
            m0.list_refs(l2)[i] as int,
        ).users >= spare_of(m0.list_refs(l2)[i], a, b) by {
            let cc = m0.list_refs(l2)[i];
            lemma_occ_last_two(refs, cc);
            assert(m0.list_refs_live(l2));
            assert(m0.chunk_live((m0.list_refs(l2)[i]) as int));
            lemma_occ_positive(m0.list_refs(l2), i);
            lemma_refcount_two_lists(m0.chunk_list@, l, l2, cc);
            lemma_occ_nonneg(take2, cc);
        }
        // Reference counts match the new layout.
        assert forall|cx: usize| #[trigger] bs_mem.chunk_live(cx as int) implies bs_mem.chunk_at(
            cx as int,
        ).users == lists_refcount(bs_mem.chunk_list@, cx) by {
            lemma_lists_refcount_update(m1.chunk_list@, l, new_slot, cx);
            lemma_occ_last_two(refs, cx);
            lemma_occ_push(take2, new_first, cx);
            if do_split {
                lemma_occ_push(take2.push(new_first), new_second, cx);
            }
            if cx != new_first && (!do_split || cx != new_second) && cx != a && cx != b {
                assert(m1.chunk_live(cx as int));
                assert(m0.chunk_live(cx as int));
                assert(m3.chunk_at(cx as int) == m0.chunk_at(cx as int));
                assert(m4.chunk@[cx as int] == m3.chunk@[cx as int]);
                assert(bs_mem.chunk_at(cx as int) == m0.chunk_at(cx as int));
            }
        }
        assert forall|cx: int| #[trigger] bs_mem.chunk_live(cx) implies 1 <= bs_mem.chunk_len(cx)
            && bs_mem.chunk_len(cx) % st == 0 by {
            assert(m1.chunk_live(cx));
        }
        assert forall|l2: int| #[trigger] bs_mem.list_live(l2) implies bs_mem.list_refs_live(l2)
            && bs_mem.list_at(l2).chunk_refs_len == bs_mem.list_refs(l2).len() by {
            assert(m0.list_live(l2));
            assert(m0.list_refs_live(l2));
            assert forall|i: int| 0 <= i < bs_mem.list_refs(l2).len() implies bs_mem.chunk_live(
                (#[trigger] bs_mem.list_refs(l2)[i]) as int,
            ) by {
                let cc = bs_mem.list_refs(l2)[i];
                if l2 == l && i == new_refs.len() - 1 {
                    assert(cc == new_first || cc == new_second);
                } else if l2 == l && do_split && i == new_refs.len() - 2 {
                    assert(cc == new_first);
                } else if l2 == l {
                    assert(cc == take2[i]);
                    assert(m0.chunk_at(cc as int).users >= spare_of(cc, a, b));
                } else {
                    assert(m0.list_live(l2) && m0.list_refs(l2)[i] == cc);
                    assert(m0.chunk_at(cc as int).users >= spare_of(cc, a, b));
                }
            }
        }
        assert(bs_mem.keys_consistent(st)) by {
            assert forall|c2: int| #[trigger] bs_mem.chunk_live(c2) implies bs_mem.chunk_at(
                c2,
            ).key == HASH_TABLE_KEY_UNSET || (bs_mem.chunk_len(c2) >= 7 * st && bs_mem.chunk_at(
                c2,
            ).key == crate::hash::spec_content_key(
                bs_mem.chunk_bytes(c2).subrange(0, 7 * st),
                st,
            )) by {
                if c2 == new_first as int || (do_split && c2 == new_second as int) {
                    assert(bs_mem.chunk_at(c2).key == HASH_TABLE_KEY_UNSET);
                } else {
                    assert(m1.chunk_live(c2) && m1.chunk_at(c2) == m0.chunk_at(c2));
                    assert(m3.chunk_at(c2) == m0.chunk_at(c2));
                    if c2 == a as int {
                        assert(m4.chunk@[c2] is Some);
                    } else {
                        assert(m4.chunk@[c2] == m3.chunk@[c2]);
                    }
                    if c2 != b as int {
                        assert(bs_mem.chunk@[c2] == m4.chunk@[c2]);
                    }
                    assert(bs_mem.chunk_at(c2).key == m0.chunk_at(c2).key && bs_mem.chunk_bytes(
                        c2,
                    ) == m0.chunk_bytes(c2));
                    assert(m0.chunk_live(c2));
                }
            }
        }
        assert(bs_mem.wf(st));
        assert forall|i: int| 0 <= i < take2.len() implies bs_mem.chunk_bytes(
            (#[trigger] take2[i]) as int,
        ) == m0.chunk_bytes(take2[i] as int) by {
            assert(bs_mem.list_refs(l)[i] == take2[i]);
            assert(m0.chunk_at(take2[i] as int).users >= spare_of(take2[i], a, b));
        }
        m0.lemma_refs_bytes_congruence(*bs_mem, take2);
        bs_mem.lemma_refs_bytes_push(take2, new_first);
        if do_split {
            bs_mem.lemma_refs_bytes_push(take2.push(new_first), new_second);
            assert(bs_mem.list_bytes(l) =~= m0.list_bytes(l));
        } else {
            assert(bs_mem.list_bytes(l) =~= m0.list_bytes(l));
        }
        assert forall|l2: int, i: int|
            l2 != l && #[trigger] m0.list_live(l2) && 0 <= i < m0.list_refs(l2).len() implies
            bs_mem.chunk_live((#[trigger] m0.list_refs(l2)[i]) as int) && bs_mem.chunk_bytes(
            m0.list_refs(l2)[i] as int,
        ) == m0.chunk_bytes(m0.list_refs(l2)[i] as int) by {
            let cc = m0.list_refs(l2)[i];
            assert(m0.chunk_at(cc as int).users >= spare_of(cc, a, b));
        }
        assert(chunk_users_ok(&m0, bs_mem)) by {
            assert forall|c2: int| #[trigger] bs_mem.chunk_live(c2) implies bs_mem.chunk_at(
                c2,
            ).users >= 1 || (m0.chunk_live(c2) && bs_mem.chunk_at(c2).users == m0.chunk_at(
                c2,
            ).users) by {
                if c2 == new_first as int || (do_split && c2 == new_second as int) {
                    assert(bs_mem.chunk_at(c2).users >= 1);
                } else {
                    assert(m1.chunk_live(c2) && m1.chunk_at(c2) == m0.chunk_at(c2));
                    assert(m3.chunk_at(c2) == m0.chunk_at(c2));
                    if c2 == a as int {
                        assert(m4.chunk@[c2] is Some);
                        assert(m4.chunk_at(c2).users >= 1);
                    } else {
                        assert(m4.chunk@[c2] == m3.chunk@[c2]);
                    }
                    if c2 == b as int {
                        assert(bs_mem.chunk_at(c2).users >= 1);
                    } else {
                        assert(bs_mem.chunk@[c2] == m4.chunk@[c2]);
                    }
                }
            }
        }
        assert forall|i: int|
            1 <= i < new_refs.len() && (forall|j: int|
                1 <= j < refs.len() - 1 ==> m0.chunk_len((#[trigger] refs[j]) as int)
                    >= min) implies bs_mem.chunk_len((#[trigger] new_refs[i]) as int) >= min by {
            if do_split && i == new_refs.len() - 1 {
                assert(new_refs[i] == new_second);
                assert(bs_mem.chunk_len(new_second as int) == data_merge_len
                    - info.chunk_byte_size >= min);
            } else if do_split && i == new_refs.len() - 2 {
                assert(new_refs[i] == new_first);
                assert(bs_mem.chunk_len(new_first as int) == info.chunk_byte_size >= min);
            } else if !do_split && i == new_refs.len() - 1 {
                assert(new_refs[i] == new_first);
                assert(m0.chunk_len(refs[n_refs - 2] as int) >= min);
                assert(bs_mem.chunk_len(new_first as int) == alen + blen);
            } else {
                assert(new_refs[i] == take2[i] == refs[i]);
                assert(m0.chunk_len(refs[i] as int) >= min);
                assert(m0.chunk_at(take2[i] as int).users >= spare_of(take2[i], a, b));
            }
        }
    }
}

/// Append a shared chunk, then re-establish the minimum-size rule for the
/// tail pair.
pub(crate) fn bchunk_list_append(
    info: &BArrayInfo,
    bs_mem: &mut BArrayMemory,
    chunk_list: usize,
    chunk: usize,
)
    requires
        info.wf(),
        old(bs_mem).wf(info.chunk_stride as int),
        old(bs_mem).list_live(chunk_list as int),
        old(bs_mem).chunk_live(chunk as int),
        old(bs_mem).list_bytes(chunk_list as int).len() + old(bs_mem).chunk_len(chunk as int)
            <= usize::MAX,
        old(bs_mem).list_at(chunk_list as int).total_size + old(bs_mem).chunk_len(chunk as int)
            <= usize::MAX,
        old(bs_mem).chunk@.len() + 2 <= usize::MAX,
        lists_total_refs(old(bs_mem).chunk_list@) + 2 <= usize::MAX,
    ensures
        final(bs_mem).wf(info.chunk_stride as int),
        chunk_users_ok(old(bs_mem), final(bs_mem)),
        old(bs_mem).others_stable(*final(bs_mem), chunk_list as int),
        final(bs_mem).state == old(bs_mem).state,
        final(bs_mem).list_live(chunk_list as int),
        final(bs_mem).list_bytes(chunk_list as int) == old(bs_mem).list_bytes(chunk_list as int)
            + old(bs_mem).chunk_bytes(chunk as int),
        final(bs_mem).list_at(chunk_list as int).total_size == old(bs_mem).list_at(
            chunk_list as int,
        ).total_size + old(bs_mem).chunk_len(chunk as int),
        final(bs_mem).list_at(chunk_list as int).users == old(bs_mem).list_at(
            chunk_list as int,
        ).users,
        final(bs_mem).chunk@.len() <= old(bs_mem).chunk@.len() + 2,
        final(bs_mem).chunk_list@.len() == old(bs_mem).chunk_list@.len(),
        lists_total_refs(final(bs_mem).chunk_list@) <= lists_total_refs(old(bs_mem).chunk_list@)
            + 1,
        old(bs_mem).list_nonhead_min(chunk_list as int, info.chunk_byte_size_min as int)
            ==> final(bs_mem).list_nonhead_min(chunk_list as int, info.chunk_byte_size_min as int),
        final(bs_mem).list_refs(chunk_list as int).len() >= 1,
        final(bs_mem).list_refs(chunk_list as int).len() <= old(bs_mem).list_refs(
            chunk_list as int,
        ).len() + 2,
{
    let ghost m0 = *old(bs_mem);
    let ghost l = chunk_list as int;
    let ghost st = info.chunk_stride as int;
    let ghost min = info.chunk_byte_size_min as int;
    bchunk_list_append_only(bs_mem, chunk_list, chunk);
    let ghost m1 = *bs_mem;
    proof {
        assert(m1.wf(st));
        assert(m1.list_bytes(l).len() <= usize::MAX);
    }
    bchunk_list_ensure_min_size_last(info, bs_mem, chunk_list);
    proof {
        m0.lemma_others_stable_trans(m1, *bs_mem, l);
        assert(m1.list_refs(l) == m0.list_refs(l).push(chunk));
        if m0.list_nonhead_min(l, min) {
            assert forall|i: int| 1 <= i < m1.list_refs(l).len() - 1 implies m1.chunk_len(
                (#[trigger] m1.list_refs(l)[i]) as int,
            ) >= min by {
                assert(m1.list_refs(l)[i] == m0.list_refs(l)[i]);
                assert(m0.chunk_live((m0.list_refs(l)[i]) as int));
                assert(m0.chunk_len(m0.list_refs(l)[i] as int) >= min);
            }
        }
    }
}

/// Append an arbitrary span as a series of regular-size chunks: the first
/// piece may merge with the existing tail, the remainder is sized by
/// [`bchunk_list_calc_trim_len`].
/// Chunk layout guaranteed by [`bchunk_list_append_data_n`] for appending
/// `dlen` bytes to list `l`: counted from the tail, a remainder chunk of the
/// trim split's leftover size preceded by chunks of exactly the regular
/// chunk byte size; on a list that was empty, this fixes the whole layout.
/// Opaque so that callers who do not read the layout do not carry it.
#[verifier::opaque]
pub(crate) open spec fn append_data_n_layout(
    info: BArrayInfo,
    m0: BArrayMemory,
    m1: BArrayMemory,
    l: int,
    dlen: int,
) -> bool {
    let trim = spec_trim(info, dlen).0;
    let lastp = spec_trim(info, dlen).1;
    let fr = m1.list_refs(l);
    &&& (trim != 0 && lastp != 0 ==> m1.chunk_len(fr.last() as int) == lastp && forall|k: int|
        0 <= k < trim / info.chunk_byte_size as int - 1 ==> m1.chunk_len(
            (#[trigger] fr[fr.len() - 2 - k]) as int,
        ) == info.chunk_byte_size)
    &&& (trim != 0 && lastp == 0 ==> forall|k: int|
        0 <= k < trim / info.chunk_byte_size as int - 1 ==> m1.chunk_len(
            (#[trigger] fr[fr.len() - 1 - k]) as int,
        ) == info.chunk_byte_size)
    &&& (m0.list_refs(l).len() == 0 ==> chunks_bytes_total(m1.chunk@) == chunks_bytes_total(
        m0.chunk@,
    ) + dlen)
    &&& (m0.list_refs(l).len() == 0 ==> fr.len() == trim / info.chunk_byte_size as int + (
    if lastp > 0 {
        1int
    } else {
        0int
    }) && (forall|i: int|
        0 <= i < trim / info.chunk_byte_size as int ==> m1.chunk_len((#[trigger] fr[i]) as int)
            == info.chunk_byte_size) && (lastp > 0 ==> m1.chunk_len(fr.last() as int) == lastp))
}

pub(crate) fn bchunk_list_append_data_n(
    info: &BArrayInfo,
    bs_mem: &mut BArrayMemory,
    chunk_list: usize,
    data: &[u8],
    from: usize,
    to: usize,
)
    requires
        info.wf(),
        old(bs_mem).wf(info.chunk_stride as int),
        old(bs_mem).list_live(chunk_list as int),
        from < to <= data@.len(),
        (to - from) as int % info.chunk_stride as int == 0,
        old(bs_mem).list_bytes(chunk_list as int).len() + (to - from) <= usize::MAX,
        old(bs_mem).list_at(chunk_list as int).total_size + (to - from) <= usize::MAX,
        old(bs_mem).chunk@.len() + (to - from) + 2 <= usize::MAX,
        lists_total_refs(old(bs_mem).chunk_list@) + (to - from) + 2 <= usize::MAX,
    ensures
        final(bs_mem).wf(info.chunk_stride as int),
        chunk_users_ok(old(bs_mem), final(bs_mem)),
        old(bs_mem).others_stable(*final(bs_mem), chunk_list as int),
        final(bs_mem).state == old(bs_mem).state,
        final(bs_mem).list_live(chunk_list as int),
        final(bs_mem).list_bytes(chunk_list as int) == old(bs_mem).list_bytes(chunk_list as int)
            + data@.subrange(from as int, to as int),
        final(bs_mem).list_at(chunk_list as int).total_size == old(bs_mem).list_at(
            chunk_list as int,
        ).total_size + (to - from),
        final(bs_mem).list_at(chunk_list as int).users == old(bs_mem).list_at(
            chunk_list as int,
        ).users,
        final(bs_mem).chunk@.len() <= old(bs_mem).chunk@.len() + (to - from) + 2,
        final(bs_mem).chunk_list@.len() == old(bs_mem).chunk_list@.len(),
        lists_total_refs(final(bs_mem).chunk_list@) <= lists_total_refs(old(bs_mem).chunk_list@)
            + (to - from) + 2,
        old(bs_mem).list_nonhead_min(chunk_list as int, info.chunk_byte_size_min as int)
            ==> final(bs_mem).list_nonhead_min(chunk_list as int, info.chunk_byte_size_min as int),
        final(bs_mem).list_refs(chunk_list as int).len() >= 1,
        append_data_n_layout(*info, *old(bs_mem), *final(bs_mem), chunk_list as int, (to
            - from) as int),
{
    proof {
        reveal(append_data_n_layout);
        reveal(append_data_empty_layout);
    }
    let ghost m0 = *old(bs_mem);
    let ghost l = chunk_list as int;
    let ghost st = info.chunk_stride as int;
    let ghost min = info.chunk_byte_size_min as int;
    let dlen = to - from;
    let (data_trim_len, data_last_chunk_len) = bchunk_list_calc_trim_len(info, dlen);
    if data_trim_len != 0 {
        let cbs = info.chunk_byte_size;
        proof {
            lemma_mod_diff_zero(dlen as int, data_trim_len as int, st);
            lemma_mod_of_multiple(cbs as int, cbs as int, st);
            vstd::arithmetic::div_mod::lemma_mod_multiples_basic(1, cbs as int);
            assert(cbs as int % cbs as int == 0);
        }
        bchunk_list_append_data(info, bs_mem, chunk_list, data, from, from + cbs);
        let ghost refs1 = bs_mem.list_refs(l);
        proof {
            vstd::arithmetic::div_mod::lemma_fundamental_div_mod(cbs as int, cbs as int);
            vstd::arithmetic::div_mod::lemma_mod_multiples_basic(1, cbs as int);
            assert(cbs as int / cbs as int == 1) by (nonlinear_arith)
                requires
                    cbs >= 1,
                    cbs as int % cbs as int == 0,
                    cbs as int == cbs as int * (cbs as int / cbs as int) + cbs as int % cbs as int,
            ;
        }
        let mut i_prev: usize = from + cbs;
        while i_prev < from + data_trim_len
            invariant
                info.wf(),
                bs_mem.wf(st),
                st == info.chunk_stride as int,
                min == info.chunk_byte_size_min as int,
                bs_mem.list_live(l),
                l == chunk_list as int,
                from + cbs <= i_prev <= from + data_trim_len,
                cbs == info.chunk_byte_size,
                (i_prev - from) as int % cbs as int == 0,
                from + data_trim_len + data_last_chunk_len == to,
                to <= data@.len(),
                data_trim_len as int % cbs as int == 0,
                data_last_chunk_len == 0 || data_last_chunk_len >= min,
                data_last_chunk_len as int % st as int == 0,
                m0.others_stable(*bs_mem, l),
                bs_mem.state == m0.state,
                bs_mem.list_bytes(l) == m0.list_bytes(l) + data@.subrange(
                    from as int,
                    i_prev as int,
                ),
                bs_mem.list_bytes(l).len() + (to - i_prev) <= usize::MAX,
                bs_mem.list_at(l).total_size == m0.list_at(l).total_size + (i_prev - from),
                m0.list_at(l).total_size + (to - from) <= usize::MAX,
                bs_mem.list_at(l).users == m0.list_at(l).users,
                bs_mem.chunk@.len() <= m0.chunk@.len() + (i_prev - from) + 2,
                bs_mem.chunk_list@.len() == m0.chunk_list@.len(),
                lists_total_refs(bs_mem.chunk_list@) <= lists_total_refs(m0.chunk_list@) + (i_prev
                    - from) + 2,
                m0.list_nonhead_min(l, min) ==> bs_mem.list_nonhead_min(l, min),
                bs_mem.list_refs(l).len() >= 1,
                m0.chunk@.len() + (to - from) + 2 <= usize::MAX,
                lists_total_refs(m0.chunk_list@) + (to - from) + 2 <= usize::MAX,
                chunk_users_ok(&m0, bs_mem),
                m0.list_refs(l).len() == 0 ==> chunks_bytes_total(bs_mem.chunk@)
                    == chunks_bytes_total(m0.chunk@) + (i_prev - from),
                refs1.len() >= 1,
                bs_mem.list_refs(l).len() == refs1.len() + (i_prev - from) as int / cbs as int - 1,
                forall|k: int|
                    0 <= k < refs1.len() ==> (#[trigger] bs_mem.list_refs(l)[k]) == refs1[k],
                forall|k: int|
                    refs1.len() <= k < bs_mem.list_refs(l).len() ==> bs_mem.chunk_len(
                        (#[trigger] bs_mem.list_refs(l)[k]) as int,
                    ) == cbs,
                m0.list_refs(l).len() == 0 ==> refs1.len() == 1 && bs_mem.chunk_len(
                    bs_mem.list_refs(l)[0] as int,
                ) == cbs,
            decreases from + data_trim_len - i_prev,
        {
            let ghost mi = *bs_mem;
            proof {
                lemma_mod_diff_zero(data_trim_len as int, (i_prev - from) as int, cbs as int);
                lemma_pos_multiple_ge((from + data_trim_len - i_prev) as int, cbs as int);
                lemma_mod_of_multiple(cbs as int, cbs as int, st);
            }
            let i = i_prev + cbs;
            let c = bchunk_new_copydata(info, bs_mem, data, i_prev, i);
            let ghost mc = *bs_mem;
            bchunk_list_append_only(bs_mem, chunk_list, c);
            proof {
                assert(mc.list_bytes(l) == mi.list_bytes(l)) by {
                    mi.lemma_refs_bytes_congruence(mc, mi.list_refs(l));
                }
                mi.lemma_others_stable_trans(mc, *bs_mem, l);
                m0.lemma_others_stable_trans(mi, *bs_mem, l);
                assert(data@.subrange(from as int, i_prev as int) + data@.subrange(
                    i_prev as int,
                    i as int,
                ) =~= data@.subrange(from as int, i as int));
                assert(mc.wf(st));
                assert forall|j: int|
                    1 <= j < bs_mem.list_refs(l).len() && mi.list_nonhead_min(l, min) implies
                    bs_mem.chunk_len((#[trigger] bs_mem.list_refs(l)[j]) as int) >= min by {
                    if j == mi.list_refs(l).len() {
                        assert(bs_mem.list_refs(l)[j] == c);
                    } else {
                        assert(bs_mem.list_refs(l)[j] == mi.list_refs(l)[j]);
                        assert(mi.chunk_live((mi.list_refs(l)[j]) as int));
                        assert(bs_mem.chunk_bytes(mi.list_refs(l)[j] as int) == mi.chunk_bytes(
                            mi.list_refs(l)[j] as int,
                        ));
                    }
                }
                vstd::arithmetic::div_mod::lemma_mod_multiples_basic(1, cbs as int);
                lemma_mod_sum_zero((i_prev - from) as int, cbs as int, cbs as int);
                assert forall|c2: int| #[trigger] bs_mem.chunk_live(c2) implies bs_mem.chunk_at(
                    c2,
                ).users >= 1 || (m0.chunk_live(c2) && bs_mem.chunk_at(c2).users == m0.chunk_at(
                    c2,
                ).users) by {
                    if c2 == c as int {
                        assert(bs_mem.chunk_at(c2).users >= 1);
                    } else {
                        assert(mc.chunk_live(c2));
                        assert(mi.chunk_live(c2));
                        assert(bs_mem.chunk_at(c2) == mc.chunk_at(c2));
                        assert(mc.chunk_at(c2) == mi.chunk_at(c2));
                    }
                }
                // the new entry extends the run of regular-size chunks
                crate::hash::lemma_stride_index_step((i_prev - from) as int, cbs as int);
                assert(bs_mem.chunk_len(c as int) == cbs);
                vstd::arithmetic::div_mod::lemma_fundamental_div_mod(cbs as int, cbs as int);
                assert(cbs as int / cbs as int == 1) by (nonlinear_arith)
                    requires
                        cbs >= 1,
                        cbs as int % cbs as int == 0,
                        cbs as int == cbs as int * (cbs as int / cbs as int) + cbs as int
                            % cbs as int,
                ;
                vstd::arithmetic::div_mod::lemma_div_is_ordered(
                    cbs as int,
                    (i_prev - from) as int,
                    cbs as int,
                );
                assert(mi.list_refs(l).len() >= refs1.len());
                assert forall|k: int| 0 <= k < refs1.len() implies (#[trigger] bs_mem.list_refs(
                    l,
                )[k]) == refs1[k] by {
                    assert(bs_mem.list_refs(l)[k] == mi.list_refs(l)[k]);
                }
                assert forall|k: int|
                    refs1.len() <= k < bs_mem.list_refs(l).len() implies bs_mem.chunk_len(
                    (#[trigger] bs_mem.list_refs(l)[k]) as int,
                ) == cbs by {
                    if k < mi.list_refs(l).len() {
                        assert(bs_mem.list_refs(l)[k] == mi.list_refs(l)[k]);
                        assert(mi.chunk_live((mi.list_refs(l)[k]) as int));
                        assert(bs_mem.chunk_bytes(mi.list_refs(l)[k] as int) == mi.chunk_bytes(
                            mi.list_refs(l)[k] as int,
                        ));
                    } else {
                        assert(bs_mem.list_refs(l)[k] == c);
                    }
                }
            }
            i_prev = i;
        }
        if data_last_chunk_len != 0 {
            let ghost mi = *bs_mem;
            let c = bchunk_new_copydata(info, bs_mem, data, i_prev, i_prev + data_last_chunk_len);
            let ghost mc = *bs_mem;
            bchunk_list_append_only(bs_mem, chunk_list, c);
            proof {
                assert(mc.list_bytes(l) == mi.list_bytes(l)) by {
                    mi.lemma_refs_bytes_congruence(mc, mi.list_refs(l));
                }
                mi.lemma_others_stable_trans(mc, *bs_mem, l);
                m0.lemma_others_stable_trans(mi, *bs_mem, l);
                assert(data@.subrange(from as int, i_prev as int) + data@.subrange(
                    i_prev as int,
                    to as int,
                ) =~= data@.subrange(from as int, to as int));
                assert(mc.wf(st));
                assert forall|j: int|
                    1 <= j < bs_mem.list_refs(l).len() && mi.list_nonhead_min(l, min) implies
                    bs_mem.chunk_len((#[trigger] bs_mem.list_refs(l)[j]) as int) >= min by {
                    if j == mi.list_refs(l).len() {
                        assert(bs_mem.list_refs(l)[j] == c);
                    } else {
                        assert(bs_mem.list_refs(l)[j] == mi.list_refs(l)[j]);
                        assert(mi.chunk_live((mi.list_refs(l)[j]) as int));
                        assert(bs_mem.chunk_bytes(mi.list_refs(l)[j] as int) == mi.chunk_bytes(
                            mi.list_refs(l)[j] as int,
                        ));
                    }
                }
                assert forall|c2: int| #[trigger] bs_mem.chunk_live(c2) implies bs_mem.chunk_at(
                    c2,
                ).users >= 1 || (m0.chunk_live(c2) && bs_mem.chunk_at(c2).users == m0.chunk_at(
                    c2,
                ).users) by {
                    if c2 == c as int {
                        assert(bs_mem.chunk_at(c2).users >= 1);
                    } else {
                        assert(mc.chunk_live(c2));
                        assert(mi.chunk_live(c2));
                        assert(bs_mem.chunk_at(c2) == mc.chunk_at(c2));
                        assert(mc.chunk_at(c2) == mi.chunk_at(c2));
                    }
                }
            }
        }
    } else {
        bchunk_list_append_data(info, bs_mem, chunk_list, data, from, to);
    }
}

/// Build up an empty list from a whole array, emitting regular-size chunks
/// and one sized remainder.
pub(crate) fn bchunk_list_fill_from_array(
    info: &BArrayInfo,
    bs_mem: &mut BArrayMemory,
    chunk_list: usize,
    data: &[u8],
)
    requires
        info.wf(),
        old(bs_mem).wf(info.chunk_stride as int),
        old(bs_mem).list_live(chunk_list as int),
        old(bs_mem).list_refs(chunk_list as int).len() == 0,
        old(bs_mem).list_at(chunk_list as int).total_size == 0,
        data@.len() as int % info.chunk_stride as int == 0,
        old(bs_mem).chunk@.len() + data@.len() + 2 <= usize::MAX,
        lists_total_refs(old(bs_mem).chunk_list@) + data@.len() + 2 <= usize::MAX,
    ensures
        final(bs_mem).wf(info.chunk_stride as int),
        chunk_users_ok(old(bs_mem), final(bs_mem)),
        old(bs_mem).others_stable(*final(bs_mem), chunk_list as int),
        final(bs_mem).state == old(bs_mem).state,
        final(bs_mem).list_live(chunk_list as int),
        final(bs_mem).list_bytes(chunk_list as int) == data@,
        final(bs_mem).list_at(chunk_list as int).total_size == data@.len(),
        final(bs_mem).list_at(chunk_list as int).users == old(bs_mem).list_at(
            chunk_list as int,
        ).users,
        final(bs_mem).chunk@.len() <= old(bs_mem).chunk@.len() + data@.len() + 2,
        final(bs_mem).chunk_list@.len() == old(bs_mem).chunk_list@.len(),
        lists_total_refs(final(bs_mem).chunk_list@) <= lists_total_refs(old(bs_mem).chunk_list@)
            + data@.len() + 2,
        final(bs_mem).list_nonhead_min(chunk_list as int, info.chunk_byte_size_min as int),
        chunks_bytes_total(final(bs_mem).chunk@) == chunks_bytes_total(old(bs_mem).chunk@)
            + data@.len(),
        ({
            // regular chunks of the full chunk byte size, then one sized
            // remainder
            let trim = spec_trim(*info, data@.len() as int).0;
            let lastp = spec_trim(*info, data@.len() as int).1;
            let fr = final(bs_mem).list_refs(chunk_list as int);
            &&& fr.len() == trim / info.chunk_byte_size as int + (if lastp > 0 {
                1int
            } else {
                0int
            })
            &&& forall|i: int|
                0 <= i < trim / info.chunk_byte_size as int ==> final(bs_mem).chunk_len(
                    (#[trigger] fr[i]) as int,
                ) == info.chunk_byte_size
            &&& (lastp > 0 ==> final(bs_mem).chunk_len(fr.last() as int) == lastp)
        }),
{
    let ghost m0 = *old(bs_mem);
    let ghost l = chunk_list as int;
    let ghost st = info.chunk_stride as int;
    let ghost min = info.chunk_byte_size_min as int;
    proof {
        assert(m0.list_bytes(l) =~= Seq::<u8>::empty());
        m0.lemma_others_stable_refl(l);
    }
    if data.len() == 0 {
        proof {
            assert(final(bs_mem).list_bytes(l) =~= data@);
        }
        return ;
    }
    bchunk_list_append_data_n(info, bs_mem, chunk_list, data, 0, data.len());
    proof {
        reveal(append_data_n_layout);
        assert(data@.subrange(0, data@.len() as int) =~= data@);
        assert(Seq::<u8>::empty() + data@ =~= data@);
        assert(m0.list_nonhead_min(l, min));
    }
}

/// Make one more state a user of chunk list `l`.
pub(crate) fn bchunk_list_users_incr(bs_mem: &mut BArrayMemory, chunk_list: usize)
    requires
        old(bs_mem).wf0(),
        old(bs_mem).list_live(chunk_list as int),
        old(bs_mem).list_at(chunk_list as int).users < usize::MAX,
    ensures
        final(bs_mem).wf0(),
        chunk_users_ok(old(bs_mem), final(bs_mem)),
        forall|s: int| old(bs_mem).wf(s) ==> final(bs_mem).wf(s),
        final(bs_mem).chunk == old(bs_mem).chunk,
        final(bs_mem).state == old(bs_mem).state,
        final(bs_mem).chunk_list@ == old(bs_mem).chunk_list@.update(
            chunk_list as int,
            Some(
                (BChunkList {
                    chunk_refs: old(bs_mem).list_at(chunk_list as int).chunk_refs,
                    chunk_refs_len: old(bs_mem).list_at(chunk_list as int).chunk_refs_len,
                    total_size: old(bs_mem).list_at(chunk_list as int).total_size,
                    users: (old(bs_mem).list_at(chunk_list as int).users + 1) as usize,
                }),
            ),
        ),
        lists_total_refs(final(bs_mem).chunk_list@) == lists_total_refs(old(bs_mem).chunk_list@),
{
    let ghost m0 = *old(bs_mem);
    let ghost l = chunk_list as int;
    let dummy = BChunkList {
        chunk_refs: ListBase::new(),
        chunk_refs_len: 0,
        total_size: 0,
        users: 0,
    };
    let taken = bs_mem.chunk_list.replace_elem(chunk_list, dummy);
    let BChunkList { chunk_refs, chunk_refs_len, total_size, users } = taken;
    let _d = bs_mem.chunk_list.replace_elem(
        chunk_list,
        BChunkList { chunk_refs, chunk_refs_len, total_size, users: users + 1 },
    );
    proof {
        let ghost new_slot = Some(
            (BChunkList {
                chunk_refs: m0.list_at(l).chunk_refs,
                chunk_refs_len: m0.list_at(l).chunk_refs_len,
                total_size: m0.list_at(l).total_size,
                users: (m0.list_at(l).users + 1) as usize,
            }),
        );
        assert(bs_mem.chunk_list@ =~= m0.chunk_list@.update(l, new_slot));
        lemma_lists_total_refs_update(m0.chunk_list@, l, new_slot);
        assert forall|c2: usize| #[trigger] bs_mem.chunk_live(c2 as int) implies bs_mem.chunk_at(
            c2 as int,
        ).users == lists_refcount(bs_mem.chunk_list@, c2) by {
            assert(m0.chunk_live(c2 as int));
            lemma_lists_refcount_update(m0.chunk_list@, l, new_slot, c2);
        }
        assert forall|c2: int| #[trigger] bs_mem.chunk_live(c2) implies 1 <= bs_mem.chunk_len(
            c2,
        ) by {
            assert(m0.chunk_live(c2));
        }
        assert forall|l2: int| #[trigger] bs_mem.list_live(l2) implies bs_mem.list_refs_live(l2)
            && bs_mem.list_at(l2).chunk_refs_len == bs_mem.list_refs(l2).len() by {
            assert(m0.list_live(l2));
            assert(m0.list_refs_live(l2));
            assert(bs_mem.list_refs(l2) == m0.list_refs(l2));
            assert forall|i: int| 0 <= i < bs_mem.list_refs(l2).len() implies bs_mem.chunk_live(
                (#[trigger] bs_mem.list_refs(l2)[i]) as int,
            ) by {
                assert(m0.chunk_live((#[trigger] m0.list_refs(l2)[i]) as int));
            }
        }
        assert(bs_mem.wf0());
        assert forall|s: int| m0.wf(s) implies bs_mem.wf(s) by {
            assert forall|c2: int| #[trigger] bs_mem.chunk_live(c2) implies m0.chunk_live(c2)
                && bs_mem.chunk_at(c2).key == m0.chunk_at(c2).key && bs_mem.chunk_bytes(c2)
                == m0.chunk_bytes(c2) by {
                assert(m0.chunk_live(c2));
            }
            lemma_keys_consistent_stable(&m0, bs_mem, s);
            assert forall|c2: int| #[trigger] bs_mem.chunk_live(c2) implies bs_mem.chunk_len(c2)
                % s == 0 by {
                assert(m0.chunk_live(c2));
            }
        }
    }
}

/// `lists_refcount` distributes over concatenation of pool segments.
pub(crate) proof fn lemma_lists_refcount_concat(
    a: Seq<Option<BChunkList>>,
    b: Seq<Option<BChunkList>>,
    c: usize,
)
    ensures
        lists_refcount(a + b, c) == lists_refcount(a, c) + lists_refcount(b, c),
    decreases b.len(),
{
    if b.len() == 0 {
        assert(a + b =~= a);
    } else {
        assert((a + b).drop_last() =~= a + b.drop_last());
        assert((a + b).last() == b.last());
        lemma_lists_refcount_concat(a, b.drop_last(), c);
    }
}

/// Debugging probe: whether the list reproduces the leading bytes of `data`
/// exactly, chunk by chunk.
#[allow(dead_code)]
pub(crate) fn bchunk_list_data_check(bs_mem: &BArrayMemory, chunk_list: usize, data: &[u8]) -> (r:
    bool)
    requires
        bs_mem.wf0(),
        bs_mem.list_live(chunk_list as int),
        bs_mem.list_bytes(chunk_list as int).len() <= data@.len(),
    ensures
        r == (bs_mem.list_bytes(chunk_list as int) == data@.subrange(
            0,
            bs_mem.list_bytes(chunk_list as int).len() as int,
        )),
{
    let ghost l = chunk_list as int;
    let ghost refs = bs_mem.list_refs(l);
    let ghost total = bs_mem.list_bytes(l);
    let cl = bs_mem.chunk_list.get(chunk_list);
    let nrefs = cl.chunk_refs.len_calc();
    let mut offset: usize = 0;
    let mut k: usize = 0;
    proof {
        assert(refs.take(0) =~= Seq::<usize>::empty());
        assert(data@.subrange(0, 0) =~= Seq::<u8>::empty());
    }
    while k < nrefs
        invariant
            bs_mem.wf0(),
            l == chunk_list as int,
            bs_mem.list_live(l),
            refs == bs_mem.list_refs(l),
            cl.chunk_refs@ == refs,
            nrefs == refs.len(),
            total == bs_mem.list_bytes(l),
            total.len() <= data@.len(),
            k <= nrefs,
            offset == bs_mem.refs_bytes(refs.take(k as int)).len(),
            bs_mem.refs_bytes(refs.take(k as int)) == data@.subrange(0, offset as int),
        decreases nrefs - k,
    {
        proof {
            assert(bs_mem.chunk_live((refs[k as int]) as int));
            assert(refs =~= refs.take(k as int + 1) + refs.skip(k as int + 1));
            bs_mem.lemma_refs_bytes_concat(refs.take(k as int + 1), refs.skip(k as int + 1));
            assert(refs.take(k as int + 1).drop_last() =~= refs.take(k as int));
            assert(refs.take(k as int + 1).last() == refs[k as int]);
        }
        let c = *cl.chunk_refs.at_index(k).unwrap();
        let clen = bs_mem.chunk.get(c).data.len();
        if !bchunk_data_compare(bs_mem, c, data, data.len(), offset) {
            proof {
                // were the list equal to the data prefix, this chunk would
                // have to equal its slice of it
                if total == data@.subrange(0, total.len() as int) {
                    let chunk = bs_mem.chunk_bytes(c as int);
                    let rest = bs_mem.refs_bytes(refs.skip(k as int + 1));
                    assert(bs_mem.refs_bytes(refs.take(k as int)) + (chunk + rest) =~= total);
                    assert(chunk + rest =~= total.skip(offset as int));
                    assert(chunk =~= (chunk + rest).take(clen as int));
                    assert(chunk =~= data@.subrange(offset as int, (offset + clen) as int));
                    assert(false);
                }
                assert(bs_mem.list_bytes(chunk_list as int) != data@.subrange(
                    0,
                    bs_mem.list_bytes(chunk_list as int).len() as int,
                ));
            }
            return false;
        }
        proof {
            assert(bs_mem.refs_bytes(refs.take(k as int + 1)) =~= data@.subrange(
                0,
                (offset + clen) as int,
            ));
        }
        offset = offset + clen;
        k = k + 1;
    }
    proof {
        assert(refs.take(nrefs as int) =~= refs);
        assert(total =~= data@.subrange(0, total.len() as int));
    }
    true
}

} // verus!