//! Typed element pools with O(1) allocation and release.
//!
//! A pool hands out stable integer handles.  Releasing a handle pushes the
//! slot onto an internal free list so a later allocation can reuse it; slots
//! are never handed back to the system until the pool is cleared.

use vstd::prelude::*;

verus! {

/// Per-type pool configuration: how many elements to reserve space for at a
/// time when the pool grows.
pub trait MemPoolElemUtils {
    fn default_chunk_size() -> usize;
}

/// Marker alias for types that can live in a [`MemPool`].
pub trait MemElem: MemPoolElemUtils {
}

impl<TElem: MemPoolElemUtils> MemElem for TElem {
}

/// Number of live (allocated) slots in a pool view.
pub open spec fn num_live<T>(s: Seq<Option<T>>) -> int
    decreases s.len(),
{
    if s.len() == 0 {
        0
    } else {
        num_live(s.drop_last()) + if s.last() is Some {
            1int
        } else {
            0int
        }
    }
}

proof fn lemma_num_live_bounds<T>(s: Seq<Option<T>>)
    ensures
        0 <= num_live(s) <= s.len(),
    decreases s.len(),
{
    if s.len() > 0 {
        lemma_num_live_bounds(s.drop_last());
    }
}

proof fn lemma_num_live_push<T>(s: Seq<Option<T>>, v: Option<T>)
    ensures
        num_live(s.push(v)) == num_live(s) + if v is Some {
            1int
        } else {
            0int
        },
{
    assert(s.push(v).drop_last() =~= s);
    assert(s.push(v).last() == v);
}

proof fn lemma_num_live_some<T>(s: Seq<Option<T>>, i: int)
    requires
        0 <= i < s.len(),
        s[i] is Some,
    ensures
        num_live(s) >= 1,
    decreases s.len(),
{
    if i == s.len() - 1 {
        lemma_num_live_bounds(s.drop_last());
    } else {
        lemma_num_live_some(s.drop_last(), i);
    }
}

proof fn lemma_num_live_update<T>(s: Seq<Option<T>>, i: int, v: Option<T>)
    requires
        0 <= i < s.len(),
    ensures
        num_live(s.update(i, v)) == num_live(s) + (if v is Some {
            1int
        } else {
            0int
        }) - (if s[i] is Some {
            1int
        } else {
            0int
        }),
    decreases s.len(),
{
    let t = s.update(i, v);
    if i == s.len() - 1 {
        assert(t.drop_last() =~= s.drop_last());
    } else {
        assert(t.drop_last() =~= s.drop_last().update(i, v));
        lemma_num_live_update(s.drop_last(), i, v);
        assert(t.last() == s.last());
    }
}

/// A pool of elements of one type.  Live elements are addressed by the
/// `usize` handle returned from [`MemPool::alloc_elem_from`]; the view is the
/// sequence of slots, a live slot holding `Some` element.
pub struct MemPool<TElem> {
    slots: Vec<Option<TElem>>,
    free: Vec<usize>,
    chunk_size: usize,
    elem_count: usize,
}

impl<TElem> View for MemPool<TElem> {
    type V = Seq<Option<TElem>>;

    closed spec fn view(&self) -> Seq<Option<TElem>> {
        self.slots@
    }
}

impl<TElem> MemPool<TElem> {
    /// Free-list consistency: the free list holds exactly the empty slots,
    /// each once, and the cached element count matches.
    pub closed spec fn wf(&self) -> bool {
        &&& forall|i: int|
            0 <= i < self.free@.len() ==> self.free@[i] < self.slots@.len() && self.slots@[(
            #[trigger] self.free@[i]) as int] is None
        &&& forall|i: int, j: int|
            #![trigger self.free@[i], self.free@[j]]
            0 <= i < j < self.free@.len() ==> self.free@[i] != self.free@[j]
        &&& forall|k: int|
            0 <= k < self.slots@.len() && self.slots@[k] is None ==> self.free@.contains(
                k as usize,
            )
        &&& self.elem_count == num_live(self.slots@)
        &&& self.elem_count + self.free@.len() == self.slots@.len()
    }

    /// Number of live elements.
    pub closed spec fn spec_len(&self) -> usize {
        self.elem_count
    }

    /// Whether handle `h` addresses a live element.
    pub open spec fn live(&self, h: int) -> bool {
        0 <= h < self@.len() && self@[h] is Some
    }

    /// The slot count always fits in a machine word.
    pub proof fn lemma_view_len_bounded(&self)
        ensures
            self@.len() <= usize::MAX,
    {
        vstd::std_specs::vec::axiom_spec_len(&self.slots);
    }

    pub fn with_chunk_size(chunk_size: usize) -> (pool: MemPool<TElem>)
        ensures
            pool.wf(),
            pool@ == Seq::<Option<TElem>>::empty(),
            pool.spec_len() == 0,
    {
        MemPool { slots: Vec::new(), free: Vec::new(), chunk_size, elem_count: 0 }
    }

    pub fn new() -> (pool: MemPool<TElem>) where TElem: MemElem
        ensures
            pool.wf(),
            pool@ == Seq::<Option<TElem>>::empty(),
            pool.spec_len() == 0,
    {
        MemPool::with_chunk_size(TElem::default_chunk_size())
    }

    pub fn len(&self) -> (n: usize)
        ensures
            n == self.spec_len(),
    {
        self.elem_count
    }

    pub fn is_empty(&self) -> (r: bool)
        ensures
            r == (self.spec_len() == 0),
    {
        self.elem_count == 0
    }

    pub fn clear(&mut self)
        ensures
            final(self).wf(),
            final(self)@ == Seq::<Option<TElem>>::empty(),
            final(self).spec_len() == 0,
    {
        self.slots.clear();
        self.free.clear();
        self.elem_count = 0;
    }

    /// Number of slots (live or free); handles are always below this bound.
    pub fn slot_count(&self) -> (n: usize)
        ensures
            n == self@.len(),
    {
        self.slots.len()
    }

    /// Whether `h` addresses a live element.
    pub fn is_live(&self, h: usize) -> (r: bool)
        ensures
            r == self.live(h as int),
    {
        h < self.slots.len() && self.slots[h].is_some()
    }

    /// Borrow the element at a live handle.
    pub fn get(&self, h: usize) -> (elem: &TElem)
        requires
            self.live(h as int),
        ensures
            self@[h as int] == Some(*elem),
    {
        self.slots[h].as_ref().unwrap()
    }

    /// Store an element, returning its handle.  A previously freed slot is
    /// reused when one is available.
    pub fn alloc_elem_from(&mut self, from: TElem) -> (h: usize)
        requires
            old(self).wf(),
            old(self)@.len() < usize::MAX,
        ensures
            final(self).wf(),
            final(self).spec_len() == old(self).spec_len() + 1,
            final(self).live(h as int),
            final(self)@[h as int] == Some(from),
            forall|i: int|
                0 <= i < old(self)@.len() && i != h ==> final(self)@[i] == old(self)@[i],
            h < old(self)@.len() ==> old(self)@[h as int] is None && final(self)@.len() == old(
                self,
            )@.len(),
            h >= old(self)@.len() ==> h == old(self)@.len() && final(self)@.len() == old(
                self,
            )@.len() + 1,
            forall|i: int|
                old(self).live(i) ==> final(self).live(i) && final(self)@[i] == old(self)@[i],
    {
        proof {
            lemma_num_live_bounds(self.slots@);
        }
        if self.free.is_empty() {
            // grow by the configured granularity
            self.slots.reserve(self.chunk_size);
        }
        self.elem_count = self.elem_count + 1;
        match self.free.pop() {
            Some(h) => {
                proof {
                    let n = old(self).free@.len() as int;
                    assert(self.free@ == old(self).free@.drop_last());
                    assert(h == old(self).free@[n - 1]);
                    assert(h < self.slots@.len() && self.slots@[h as int] is None);
                }
                self.slots[h] = Some(from);
                proof {
                    lemma_num_live_update(old(self).slots@, h as int, Some(from));
                    let n = old(self).free@.len() as int;
                    assert forall|k: int|
                        0 <= k < self.slots@.len() && self.slots@[k] is None implies self.free@.contains(
                        k as usize,
                    ) by {
                        assert(old(self).slots@[k] is None);
                        assert(old(self).free@.contains(k as usize));
                        let w = choose|w: int|
                            0 <= w < old(self).free@.len() && old(self).free@[w] == k as usize;
                        assert(old(self).free@[w] != old(self).free@[n - 1]);
                        assert(self.free@[w] == k as usize);
                    }
                }
                h
            },
            None => {
                let h = self.slots.len();
                self.slots.push(Some(from));
                proof {
                    lemma_num_live_push(old(self).slots@, Some(from));
                    assert forall|k: int|
                        0 <= k < self.slots@.len() && self.slots@[k] is None implies self.free@.contains(
                        k as usize,
                    ) by {
                        assert(old(self).slots@[k] is None);
                    }
                }
                h
            },
        }
    }

    /// Release the element at a live handle, returning it.
    pub fn free_elem(&mut self, h: usize) -> (elem: TElem)
        requires
            old(self).wf(),
            old(self).live(h as int),
        ensures
            final(self).wf(),
            final(self).spec_len() == old(self).spec_len() - 1,
            final(self)@ == old(self)@.update(h as int, None::<TElem>),
            Some(elem) == old(self)@[h as int],
    {
        proof {
            lemma_num_live_update(self.slots@, h as int, None::<TElem>);
            lemma_num_live_some(self.slots@, h as int);
        }
        let mut taken: Option<TElem> = None;
        core::mem::swap(&mut self.slots[h], &mut taken);
        self.free.push(h);
        proof {
            assert forall|i: int|
                0 <= i < self.free@.len() implies self.free@[i] < self.slots@.len()
                && self.slots@[(self.free@[i]) as int] is None by {
                if i < self.free@.len() - 1 {
                    assert(self.free@[i] == old(self).free@[i]);
                    assert(old(self).slots@[(old(self).free@[i]) as int] is None);
                }
            }
            assert forall|i: int, j: int|
                #![trigger self.free@[i], self.free@[j]]
                0 <= i < j < self.free@.len() implies self.free@[i] != self.free@[j] by {
                if j == self.free@.len() - 1 {
                    assert(old(self).slots@[(old(self).free@[i]) as int] is None);
                }
            }
            assert forall|k: int|
                0 <= k < self.slots@.len() && self.slots@[k] is None implies self.free@.contains(
                k as usize,
            ) by {
                if k == h as int {
                    assert(self.free@[self.free@.len() - 1] == h);
                } else {
                    assert(old(self).slots@[k] is None);
                    assert(old(self).free@.contains(k as usize));
                    let w = choose|w: int|
                        0 <= w < old(self).free@.len() && old(self).free@[w] == k as usize;
                    assert(self.free@[w] == k as usize);
                }
            }
        }
        self.elem_count = self.elem_count - 1;
        taken.unwrap()
    }

    /// Replace the element at a live handle, returning the old element.
    pub fn replace_elem(&mut self, h: usize, from: TElem) -> (elem: TElem)
        requires
            old(self).wf(),
            old(self).live(h as int),
        ensures
            final(self).wf(),
            final(self).spec_len() == old(self).spec_len(),
            final(self)@ == old(self)@.update(h as int, Some(from)),
            Some(elem) == old(self)@[h as int],
    {
        proof {
            lemma_num_live_update(self.slots@, h as int, Some(from));
        }
        let mut taken: Option<TElem> = Some(from);
        core::mem::swap(&mut self.slots[h], &mut taken);
        taken.unwrap()
    }
}

/// Forward cursor over the live handles of a pool.
pub struct MemPoolIterConst {
    pos: usize,
}

/// Forward cursor over the live handles of a pool, for callers about to
/// modify elements in place.
pub struct MemPoolIterMut {
    pos: usize,
}

impl<TElem> MemPool<TElem> {
    pub fn iter(&self) -> (it: MemPoolIterConst)
        ensures
            it.spec_pos() == 0,
    {
        MemPoolIterConst { pos: 0 }
    }

    pub fn iter_mut(&mut self) -> (it: MemPoolIterMut)
        ensures
            it.spec_pos() == 0,
            final(self)@ == old(self)@,
    {
        MemPoolIterMut { pos: 0 }
    }
}

impl MemPoolIterConst {
    /// Position of the next slot to examine.
    pub closed spec fn spec_pos(&self) -> usize {
        self.pos
    }

    /// Yield the next live handle at or after the cursor, if any.
    pub fn next<TElem>(&mut self, pool: &MemPool<TElem>) -> (h: Option<usize>)
        ensures
            match h {
                Some(h) => pool.live(h as int) && old(self).spec_pos() <= h && final(self).spec_pos() == h + 1 && forall|h2: int|
                    old(self).spec_pos() <= h2 < h ==> !pool.live(h2),
                None => forall|h2: int|
                    old(self).spec_pos() <= h2 < pool@.len() ==> !pool.live(h2),
            },
    {
        let n = pool.slot_count();
        let mut p = self.pos;
        while p < n
            invariant
                n == pool@.len(),
                old(self).spec_pos() <= p,
                forall|h2: int| old(self).spec_pos() <= h2 < p ==> !pool.live(h2),
            decreases n - p,
        {
            if pool.is_live(p) {
                self.pos = p + 1;
                return Some(p);
            }
            p = p + 1;
        }
        None
    }
}

impl MemPoolIterMut {
    /// Position of the next slot to examine.
    pub closed spec fn spec_pos(&self) -> usize {
        self.pos
    }

    /// Yield the next live handle at or after the cursor, if any.
    pub fn next<TElem>(&mut self, pool: &MemPool<TElem>) -> (h: Option<usize>)
        ensures
            match h {
                Some(h) => pool.live(h as int) && old(self).spec_pos() <= h && final(self).spec_pos() == h + 1 && forall|h2: int|
                    old(self).spec_pos() <= h2 < h ==> !pool.live(h2),
                None => forall|h2: int| old(self).spec_pos() <= h2 < pool@.len() ==> !pool.live(h2),
            },
    {
        let n = pool.slot_count();
        let mut p = self.pos;
        while p < n
            invariant
                n == pool@.len(),
                old(self).spec_pos() <= p,
                forall|h2: int| old(self).spec_pos() <= h2 < p ==> !pool.live(h2),
            decreases n - p,
        {
            if pool.is_live(p) {
                self.pos = p + 1;
                return Some(p);
            }
            p = p + 1;
        }
        None
    }
}

} // verus!
