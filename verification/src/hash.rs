//! Rolling content keys for chunk lookup.
//!
//! Chunks are compared in two tiers: a cheap 64-bit key summarising the first
//! `accum_read_ahead_bytes` of a chunk, and a full byte comparison.  The key
//! computations carry exact value contracts; still, a key collision costs
//! only a wasted byte comparison, since every shared chunk is accepted by
//! [`crate::chunk::bchunk_data_compare`] alone.

use crate::chunk::{
    lemma_mod_sum_zero, lemma_pos_multiple_ge, BArrayInfo, BArrayMemory, BChunk,
    HASH_TABLE_KEY_FALLBACK, HASH_TABLE_KEY_UNSET,
};
use vstd::prelude::*;

verus! {

pub(crate) const HASH_INIT: u32 = 5381;

/// One djb2 step: shift-add the running hash and add the sign-extended byte.
pub(crate) open spec fn spec_hash_step(h: u32, p: u8) -> u32 {
    h.wrapping_shl(5).wrapping_add(h).wrapping_add((p as i8) as u32)
}

/// The djb2 hash of a byte string.
pub(crate) open spec fn spec_hash_bytes(bytes: Seq<u8>) -> u32
    decreases bytes.len(),
{
    if bytes.len() == 0 {
        HASH_INIT
    } else {
        spec_hash_step(spec_hash_bytes(bytes.drop_last()), bytes.last())
    }
}

/// One hash per stride-sized group of bytes.
pub(crate) open spec fn spec_stride_hashes(bytes: Seq<u8>, stride: int) -> Seq<u64> {
    Seq::new(
        (bytes.len() as int / stride) as nat,
        |i: int| spec_hash_bytes(bytes.subrange(i * stride, (i + 1) * stride)) as u64,
    )
}

/// Fold a neighbouring hash into the current one.
pub(crate) open spec fn spec_accum_combine(cur: u64, neigh: u64) -> u64 {
    cur.wrapping_add(neigh.wrapping_mul((cur & 0xff).wrapping_add(1)))
}

/// One accumulation pass: each of the first `m` entries absorbs the entry
/// `t` positions ahead (of the values before the pass).
pub(crate) open spec fn spec_accum_pass(h: Seq<u64>, t: int, m: int) -> Seq<u64> {
    Seq::new(
        h.len(),
        |i: int| if 0 <= i < m {
            spec_accum_combine(h[i], h[i + t])
        } else {
            h[i]
        },
    )
}

/// The narrowing accumulation used for a single leading key: pass `steps`
/// runs over the first `len - sub` entries, then the window shrinks by the
/// next (smaller) step.
pub(crate) open spec fn spec_accum_single(h: Seq<u64>, steps: int, sub: int) -> Seq<u64>
    decreases steps,
{
    if steps <= 0 {
        h
    } else {
        let clamped = if sub > h.len() {
            h.len() as int
        } else {
            sub
        };
        let h2 = spec_accum_pass(h, steps, h.len() - clamped);
        let sub2 = if clamped + (steps - 1) > h.len() {
            h.len() as int
        } else {
            clamped + (steps - 1)
        };
        spec_accum_single(h2, steps - 1, sub2)
    }
}

/// Fixed-window accumulation: passes with offset `t` down to 1, each over
/// the same first `m` entries.
pub(crate) open spec fn spec_accum_passes(h: Seq<u64>, t: int, m: int) -> Seq<u64>
    decreases t,
{
    if t <= 0 {
        h
    } else {
        spec_accum_passes(spec_accum_pass(h, t, m), t - 1, m)
    }
}

/// Whole-array accumulation: `iter_steps` passes (clamped to the array
/// length), all over the fixed window that leaves the last entries as pure
/// inputs.
pub(crate) open spec fn spec_accum_full(h: Seq<u64>, iter_steps: int) -> Seq<u64> {
    let s = if iter_steps > h.len() {
        h.len() as int
    } else {
        iter_steps
    };
    spec_accum_passes(h, s, h.len() - s)
}

/// The content key of a leading window of `7 * stride` bytes: the first
/// entry after three accumulation passes over the per-stride hashes, with
/// the reserved unset value mapped to its fallback.
#[verifier::opaque]
pub(crate) open spec fn spec_content_key(window: Seq<u8>, stride: int) -> u64 {
    let k = spec_accum_single(spec_stride_hashes(window, stride), 3, 3)[0];
    if k == HASH_TABLE_KEY_UNSET {
        HASH_TABLE_KEY_FALLBACK
    } else {
        k
    }
}

/// Dividing a smaller multiple of `stride` gives a smaller quotient.
pub(crate) proof fn lemma_stride_index_lt(a: int, b: int, stride: int)
    requires
        stride >= 1,
        0 <= a < b,
        a % stride == 0,
        b % stride == 0,
    ensures
        a / stride < b / stride,
        a / stride >= 0,
{
    vstd::arithmetic::div_mod::lemma_fundamental_div_mod(a, stride);
    vstd::arithmetic::div_mod::lemma_fundamental_div_mod(b, stride);
    assert(a / stride < b / stride) by (nonlinear_arith)
        requires
            stride >= 1,
            0 <= a < b,
            a == stride * (a / stride),
            b == stride * (b / stride),
    ;
    assert(a / stride >= 0) by (nonlinear_arith)
        requires
            stride >= 1,
            0 <= a,
            a == stride * (a / stride),
    ;
}

/// Stepping a multiple of `stride` by `stride` advances its quotient by one.
pub(crate) proof fn lemma_stride_index_step(a: int, stride: int)
    requires
        stride >= 1,
        0 <= a,
        a % stride == 0,
    ensures
        (a + stride) / stride == a / stride + 1,
        (a + stride) % stride == 0,
{
    vstd::arithmetic::div_mod::lemma_mod_multiples_basic(1, stride);
    lemma_mod_sum_zero(a, stride, stride);
    vstd::arithmetic::div_mod::lemma_fundamental_div_mod(a, stride);
    vstd::arithmetic::div_mod::lemma_fundamental_div_mod(a + stride, stride);
    assert((a + stride) / stride == a / stride + 1) by (nonlinear_arith)
        requires
            stride >= 1,
            a == stride * (a / stride),
            a + stride == stride * ((a + stride) / stride),
    ;
}

/// A multiple of `stride` is `stride` times its own quotient.
proof fn lemma_div_exact(a: int, stride: int)
    requires
        stride >= 1,
        0 <= a,
        a % stride == 0,
    ensures
        stride * (a / stride) == a,
        a / stride >= 0,
{
    vstd::arithmetic::div_mod::lemma_fundamental_div_mod(a, stride);
    assert(a / stride >= 0) by (nonlinear_arith)
        requires
            stride >= 1,
            0 <= a,
            a == stride * (a / stride),
    ;
}

/// A product that reaches `stride` has a positive left factor.
proof fn lemma_factor_pos(k: int, stride: int)
    requires
        stride >= 1,
        k * stride >= stride,
    ensures
        k >= 1,
{
    assert(k >= 1) by (nonlinear_arith)
        requires
            stride >= 1,
            k * stride >= stride,
    ;
}

/// One step of the classic djb2 byte hash, from the initial seed.
pub(crate) fn hash_data_single(p: u8) -> (r: u32)
    ensures
        r == spec_hash_bytes(seq![p]),
{
    let base = HASH_INIT.wrapping_shl(5).wrapping_add(HASH_INIT);
    let signed = p as i8;
    proof {
        assert(seq![p].drop_last() =~= Seq::<u8>::empty());
        assert(spec_hash_bytes(Seq::<u8>::empty()) == HASH_INIT);
        assert(seq![p].last() == p);
    }
    base.wrapping_add(signed as u32)
}

/// djb2 over `key[from..to]`, with sign-extended bytes as in the classic
/// scheme.
pub(crate) fn hash_data(key: &[u8], from: usize, to: usize) -> (r: u32)
    requires
        from <= to <= key@.len(),
    ensures
        r == spec_hash_bytes(key@.subrange(from as int, to as int)),
{
    let mut h: u32 = HASH_INIT;
    let mut i: usize = from;
    proof {
        assert(key@.subrange(from as int, from as int) =~= Seq::<u8>::empty());
    }
    while i < to
        invariant
            from <= i <= to <= key@.len(),
            h == spec_hash_bytes(key@.subrange(from as int, i as int)),
        decreases to - i,
    {
        let signed = key[i] as i8;
        proof {
            assert(key@.subrange(from as int, i as int + 1).drop_last() =~= key@.subrange(
                from as int,
                i as int,
            ));
            assert(key@.subrange(from as int, i as int + 1).last() == key@[i as int]);
        }
        h = h.wrapping_shl(5).wrapping_add(h).wrapping_add(signed as u32);
        i = i + 1;
    }
    h
}

/// Fill `hash_array[out_from ..]` with the per-stride hashes of
/// `data[d_from..d_to]`: one entry per stride-sized group of bytes.  Entries
/// outside that range are untouched.
pub(crate) fn hash_array_from_data(
    info: &BArrayInfo,
    data: &[u8],
    d_from: usize,
    d_to: usize,
    hash_array: &mut Vec<u64>,
    out_from: usize,
)
    requires
        info.wf(),
        d_from <= d_to <= data@.len(),
        (d_to - d_from) as int % info.chunk_stride as int == 0,
        out_from + (d_to - d_from) as int / info.chunk_stride as int <= old(hash_array)@.len(),
    ensures
        final(hash_array)@.len() == old(hash_array)@.len(),
        forall|k: int|
            0 <= k < (d_to - d_from) as int / info.chunk_stride as int ==> final(hash_array)@[out_from + k] == spec_stride_hashes(
                data@.subrange(d_from as int, d_to as int),
                info.chunk_stride as int,
            )[k],
        forall|i: int|
            0 <= i < old(hash_array)@.len() && !(out_from <= i < out_from + (d_to - d_from) as int
                / info.chunk_stride as int) ==> final(hash_array)@[i] == old(hash_array)@[i],
{
    let stride = info.chunk_stride;
    let ghost window = data@.subrange(d_from as int, d_to as int);
    let ghost out_count = (d_to - d_from) as int / stride as int;
    let ha_len = hash_array.len();
    proof {
        assert(0int % stride as int == 0 && 0int / stride as int == 0) by (nonlinear_arith)
            requires
                stride >= 1,
        ;
        lemma_div_exact((d_to - d_from) as int, stride as int);
    }
    if stride != 1 {
        let mut i_step = d_from;
        let mut i = out_from;
        while i_step < d_to
            invariant
                info.wf(),
                stride == info.chunk_stride,
                d_from <= i_step <= d_to <= data@.len(),
                i == out_from + (i_step - d_from) as int / stride as int,
                out_from + out_count <= ha_len,
                ha_len == hash_array@.len(),
                out_count == (d_to - d_from) as int / stride as int,
                window == data@.subrange(d_from as int, d_to as int),
                (d_to - d_from) as int % stride as int == 0,
                (i_step - d_from) as int % stride as int == 0,
                hash_array@.len() == old(hash_array)@.len(),
                forall|k: int|
                    0 <= k < (i_step - d_from) as int / stride as int ==> hash_array@[out_from + k]
                        == spec_stride_hashes(window, stride as int)[k],
                forall|i2: int|
                    0 <= i2 < hash_array@.len() && !(out_from <= i2 < out_from + out_count)
                        ==> hash_array@[i2] == old(hash_array)@[i2],
            decreases d_to - i_step,
        {
            let ghost k = (i_step - d_from) as int / stride as int;
            proof {
                lemma_stride_index_lt(
                    (i_step - d_from) as int,
                    (d_to - d_from) as int,
                    stride as int,
                );
                crate::chunk::lemma_mod_diff_zero(
                    (d_to - d_from) as int,
                    (i_step - d_from) as int,
                    stride as int,
                );
                lemma_pos_multiple_ge((d_to - i_step) as int, stride as int);
                lemma_stride_index_step((i_step - d_from) as int, stride as int);
                lemma_div_exact((i_step - d_from) as int, stride as int);
            }
            let i_next = i_step + stride;
            let h = hash_data(data, i_step, i_next);
            proof {
                vstd::arithmetic::mul::lemma_mul_is_commutative(stride as int, k);
                vstd::arithmetic::mul::lemma_mul_is_distributive_add_other_way(
                    stride as int,
                    k,
                    1,
                );
                assert(k * stride as int == i_step - d_from);
                assert(window.subrange(k * stride as int, (k + 1) * stride as int)
                    =~= data@.subrange(i_step as int, i_next as int));
            }
            hash_array[i] = h as u64;
            i_step = i_next;
            i = i + 1;
        }
    } else {
        // fast path for single-byte strides
        let count = d_to - d_from;
        proof {
            lemma_div_exact((d_to - d_from) as int, 1);
            assert(1int * ((d_to - d_from) as int / 1int) == (d_to - d_from) as int);
            assert(out_count == count as int);
        }
        let mut i: usize = 0;
        while i < count
            invariant
                count == d_to - d_from,
                d_from <= d_to <= data@.len(),
                i <= count,
                out_from + count <= ha_len,
                ha_len == hash_array@.len(),
                window == data@.subrange(d_from as int, d_to as int),
                out_count == count,
                hash_array@.len() == old(hash_array)@.len(),
                forall|k: int|
                    0 <= k < i ==> hash_array@[out_from + k] == spec_stride_hashes(window, 1)[k],
                forall|i2: int|
                    0 <= i2 < hash_array@.len() && !(out_from <= i2 < out_from + out_count)
                        ==> hash_array@[i2] == old(hash_array)@[i2],
            decreases count - i,
        {
            let h = hash_data_single(data[d_from + i]);
            proof {
                assert(window.subrange(i as int, i as int + 1) =~= seq![data@[d_from + i]]);
            }
            hash_array[out_from + i] = h as u64;
            i = i + 1;
        }
    }
}

/// Accumulate neighbouring hashes over the whole array: pass `t` folds each
/// entry with the entry `t` positions ahead, for `t` from `iter_steps` down
/// to 1, over a fixed window.
pub(crate) fn hash_accum(hash_array: &mut Vec<u64>, iter_steps: usize)
    ensures
        final(hash_array)@.len() == old(hash_array)@.len(),
        final(hash_array)@ == spec_accum_full(old(hash_array)@, iter_steps as int),
{
    let mut steps = iter_steps;
    // very unlikely, but possible with tiny chunk sizes
    if steps > hash_array.len() {
        steps = hash_array.len();
    }
    let ha_len = hash_array.len();
    let hash_array_search_len = ha_len - steps;
    let first_steps = steps;
    while steps != 0
        invariant
            steps <= first_steps,
            hash_array_search_len + first_steps == ha_len,
            ha_len == hash_array@.len(),
            hash_array@.len() == old(hash_array)@.len(),
            spec_accum_passes(hash_array@, steps as int, hash_array_search_len as int)
                == spec_accum_passes(
                old(hash_array)@,
                first_steps as int,
                hash_array_search_len as int,
            ),
        decreases steps,
    {
        let ghost h_start = hash_array@;
        let hash_offset = steps;
        let mut i: usize = 0;
        while i < hash_array_search_len
            invariant
                i <= hash_array_search_len,
                1 <= hash_offset <= first_steps,
                hash_array_search_len + first_steps == ha_len,
                ha_len == hash_array@.len(),
                hash_array@.len() == old(hash_array)@.len(),
                h_start.len() == ha_len,
                forall|k: int| i <= k < ha_len ==> hash_array@[k] == h_start[k],
                forall|k: int|
                    0 <= k < i ==> hash_array@[k] == spec_accum_combine(
                        h_start[k],
                        h_start[k + hash_offset],
                    ),
            decreases hash_array_search_len - i,
        {
            let neigh = hash_array[i + hash_offset];
            let cur = hash_array[i];
            hash_array[i] = cur.wrapping_add(neigh.wrapping_mul((cur & 0xff).wrapping_add(1)));
            i = i + 1;
        }
        proof {
            assert(hash_array@ =~= spec_accum_pass(
                h_start,
                hash_offset as int,
                hash_array_search_len as int,
            ));
        }
        steps = steps - 1;
    }
    proof {
        assert(spec_accum_passes(hash_array@, 0, hash_array_search_len as int) == hash_array@);
    }
}

/// Accumulation specialised to a single leading key: each pass shrinks the
/// window a little further, giving the same leading value as [`hash_accum`].
pub(crate) fn hash_accum_single(hash_array: &mut Vec<u64>, iter_steps: usize)
    requires
        iter_steps <= old(hash_array)@.len(),
    ensures
        final(hash_array)@.len() == old(hash_array)@.len(),
        final(hash_array)@ == spec_accum_single(
            old(hash_array)@,
            iter_steps as int,
            iter_steps as int,
        ),
{
    let mut steps = iter_steps;
    let mut iter_steps_sub = iter_steps;
    let ha_len = hash_array.len();
    while steps != 0
        invariant
            iter_steps_sub <= ha_len,
            steps <= iter_steps_sub,
            ha_len == hash_array@.len(),
            hash_array@.len() == old(hash_array)@.len(),
            spec_accum_single(hash_array@, steps as int, iter_steps_sub as int)
                == spec_accum_single(old(hash_array)@, iter_steps as int, iter_steps as int),
        decreases steps,
    {
        let ghost h_start = hash_array@;
        let hash_array_search_len = ha_len - iter_steps_sub;
        let hash_offset = steps;
        let mut i: usize = 0;
        while i < hash_array_search_len
            invariant
                i <= hash_array_search_len,
                hash_array_search_len + iter_steps_sub == ha_len,
                ha_len == hash_array@.len(),
                1 <= hash_offset <= iter_steps_sub,
                hash_array@.len() == old(hash_array)@.len(),
                h_start.len() == ha_len,
                forall|k: int| i <= k < ha_len ==> hash_array@[k] == h_start[k],
                forall|k: int|
                    0 <= k < i ==> hash_array@[k] == spec_accum_combine(
                        h_start[k],
                        h_start[k + hash_offset],
                    ),
            decreases hash_array_search_len - i,
        {
            let neigh = hash_array[i + hash_offset];
            let cur = hash_array[i];
            hash_array[i] = cur.wrapping_add(neigh.wrapping_mul((cur & 0xff).wrapping_add(1)));
            i = i + 1;
        }
        proof {
            assert(hash_array@ =~= spec_accum_pass(
                h_start,
                hash_offset as int,
                hash_array_search_len as int,
            ));
        }
        steps = steps - 1;
        if steps <= ha_len - iter_steps_sub {
            iter_steps_sub = iter_steps_sub + steps;
        } else {
            iter_steps_sub = ha_len;
        }
    }
    proof {
        assert(spec_accum_single(hash_array@, 0, iter_steps_sub as int) == hash_array@);
    }
}

/// Per-stride hashes of the first `data_len` bytes reachable from position
/// `pos` of the reference list, crossing into following chunks as needed.
pub(crate) fn hash_array_from_cref(
    info: &BArrayInfo,
    bs_mem: &BArrayMemory,
    chunk_list: usize,
    pos: usize,
    data_len: usize,
    hash_array: &mut Vec<u64>,
)
    requires
        info.wf(),
        bs_mem.wf(info.chunk_stride as int),
        bs_mem.list_live(chunk_list as int),
        pos <= bs_mem.list_refs(chunk_list as int).len(),
        data_len as int % info.chunk_stride as int == 0,
        bs_mem.refs_bytes(bs_mem.list_refs(chunk_list as int).skip(pos as int)).len() >= data_len,
        data_len as int / info.chunk_stride as int <= old(hash_array)@.len(),
    ensures
        final(hash_array)@.len() == old(hash_array)@.len(),
        forall|k: int|
            0 <= k < data_len as int / info.chunk_stride as int ==> final(hash_array)@[k]
                == spec_stride_hashes(
                bs_mem.refs_bytes(bs_mem.list_refs(chunk_list as int).skip(pos as int)).subrange(
                    0,
                    data_len as int,
                ),
                info.chunk_stride as int,
            )[k],
{
    let ghost refs = bs_mem.list_refs(chunk_list as int);
    let ghost stride = info.chunk_stride as int;
    let ghost bigskip = bs_mem.refs_bytes(refs.skip(pos as int));
    let ghost window = bigskip.subrange(0, data_len as int);
    let hash_array_len = data_len / info.chunk_stride;
    let ha_len = hash_array.len();
    proof {
        lemma_div_exact(data_len as int, stride);
        vstd::arithmetic::mul::lemma_mul_is_commutative(stride, hash_array_len as int);
        assert(refs.subrange(pos as int, pos as int) =~= Seq::<usize>::empty());
        assert(bs_mem.refs_bytes(Seq::<usize>::empty()) == Seq::<u8>::empty());
    }
    let mut i: usize = 0;
    let mut p = pos;
    let cl = bs_mem.chunk_list.get(chunk_list);
    while i < hash_array_len
        invariant
            info.wf(),
            bs_mem.wf(stride),
            stride == info.chunk_stride as int,
            bs_mem.list_live(chunk_list as int),
            refs == bs_mem.list_refs(chunk_list as int),
            cl.chunk_refs@ == refs,
            i <= hash_array_len,
            pos <= p <= refs.len(),
            hash_array_len as int * stride == data_len,
            hash_array_len as int == data_len as int / stride,
            bs_mem.refs_bytes(refs.skip(p as int)).len() >= (hash_array_len - i) as int * stride,
            hash_array_len <= ha_len,
            ha_len == hash_array@.len(),
            hash_array@.len() == old(hash_array)@.len(),
            bigskip == bs_mem.refs_bytes(refs.skip(pos as int)),
            window == bigskip.subrange(0, data_len as int),
            data_len <= bigskip.len(),
            bs_mem.refs_bytes(refs.subrange(pos as int, p as int)) == bigskip.subrange(
                0,
                bs_mem.refs_bytes(refs.subrange(pos as int, p as int)).len() as int,
            ),
            i < hash_array_len ==> bs_mem.refs_bytes(refs.subrange(pos as int, p as int)).len()
                == i as int * stride,
            forall|k: int| 0 <= k < i ==> hash_array@[k] == spec_stride_hashes(window, stride)[k],
        decreases hash_array_len - i,
    {
        proof {
            vstd::arithmetic::mul::lemma_mul_inequality(
                1,
                (hash_array_len - i) as int,
                stride,
            );
            vstd::arithmetic::mul::lemma_mul_inequality(
                (hash_array_len - i) as int,
                hash_array_len as int,
                stride,
            );
            if p >= refs.len() {
                assert(refs.skip(p as int) =~= Seq::<usize>::empty());
                assert(false);
            }
            assert(bs_mem.chunk_live((refs[p as int]) as int));
            bs_mem.lemma_refs_bytes_skip(refs, p as int);
            // what was consumed so far plus the rest is the whole suffix
            assert(refs.skip(pos as int) =~= refs.subrange(pos as int, p as int) + refs.skip(
                p as int,
            ));
            bs_mem.lemma_refs_bytes_concat(
                refs.subrange(pos as int, p as int),
                refs.skip(p as int),
            );
            vstd::arithmetic::mul::lemma_mul_inequality(i as int, hash_array_len as int, stride);
            assert(bs_mem.chunk_bytes(refs[p as int] as int) =~= bigskip.subrange(
                i as int * stride,
                i as int * stride + bs_mem.chunk_len(refs[p as int] as int),
            ));
        }
        let c = *cl.chunk_refs.at_index(p).unwrap();
        let cvec = &bs_mem.chunk.get(c).data;
        let clen = cvec.len();
        let needed = (hash_array_len - i) * info.chunk_stride;
        let (trim, i_next) = if needed > clen {
            proof {
                lemma_div_exact(clen as int, stride);
                lemma_pos_multiple_ge(clen as int, stride);
                vstd::arithmetic::mul::lemma_mul_is_commutative(stride, clen as int / stride);
                lemma_factor_pos(clen as int / stride, stride);
            }
            (clen, clen / info.chunk_stride)
        } else {
            (needed, hash_array_len - i)
        };
        proof {
            assert(i_next as int * stride == trim) by {
                if needed > clen {
                    lemma_div_exact(clen as int, stride);
                    vstd::arithmetic::mul::lemma_mul_is_commutative(
                        stride,
                        clen as int / stride,
                    );
                } else {
                }
            }
            assert(trim as int % stride == 0) by {
                vstd::arithmetic::div_mod::lemma_mod_multiples_basic(i_next as int, stride);
            }
            assert(i_next >= 1) by {
                lemma_factor_pos(i_next as int, stride);
            }
            lemma_div_exact(trim as int, stride);
            assert(trim as int / stride == i_next) by (nonlinear_arith)
                requires
                    stride >= 1,
                    i_next as int * stride == trim,
                    stride * (trim as int / stride) == trim,
            ;
            if i_next > hash_array_len - i {
                vstd::arithmetic::mul::lemma_mul_inequality(
                    (hash_array_len - i + 1) as int,
                    i_next as int,
                    stride,
                );
                vstd::arithmetic::mul::lemma_mul_is_distributive_add_other_way(
                    stride,
                    (hash_array_len - i) as int,
                    1,
                );
                assert(false);
            }
        }
        hash_array_from_data(info, cvec.as_slice(), 0, trim, hash_array, i);
        proof {
            vstd::arithmetic::mul::lemma_mul_is_distributive_sub_other_way(
                stride,
                (hash_array_len - i) as int,
                i_next as int,
            );
            // each new entry hashes the matching window slice
            assert forall|k: int| i <= k < i + i_next implies hash_array@[k]
                == spec_stride_hashes(window, stride)[k] by {
                let k0 = k - i;
                let sub_trim = cvec@.subrange(0, trim as int);
                vstd::arithmetic::mul::lemma_mul_is_distributive_add_other_way(stride, i as int, k0);
                vstd::arithmetic::mul::lemma_mul_is_distributive_add_other_way(
                    stride,
                    i as int + k0,
                    1,
                );
                vstd::arithmetic::mul::lemma_mul_is_commutative(stride, k0);
                vstd::arithmetic::mul::lemma_mul_is_commutative(stride, k0 + 1);
                vstd::arithmetic::mul::lemma_mul_is_commutative(stride, k);
                vstd::arithmetic::mul::lemma_mul_is_commutative(stride, k + 1);
                vstd::arithmetic::mul::lemma_mul_inequality(k + 1, hash_array_len as int, stride);
                vstd::arithmetic::mul::lemma_mul_inequality(k0 + 1, i_next as int, stride);
                vstd::arithmetic::mul::lemma_mul_nonnegative(k0, stride);
                vstd::arithmetic::mul::lemma_mul_nonnegative(k, stride);
                vstd::arithmetic::mul::lemma_mul_is_distributive_add_other_way(stride, k0, 1);
                vstd::arithmetic::mul::lemma_mul_is_distributive_add_other_way(stride, k, 1);
                lemma_div_exact(trim as int, stride);
                assert(cvec@ == bs_mem.chunk_bytes(refs[p as int] as int));
                assert((k0 + 1) * stride <= trim);
                assert((k + 1) * stride <= data_len);
                assert(hash_array@[k] == spec_stride_hashes(sub_trim, stride)[k0]);
                assert(sub_trim.subrange(k0 * stride, (k0 + 1) * stride) =~= cvec@.subrange(
                    k0 * stride,
                    (k0 + 1) * stride,
                ));
                assert(cvec@.subrange(k0 * stride, (k0 + 1) * stride) =~= window.subrange(
                    k * stride,
                    (k + 1) * stride,
                ));
                assert(spec_stride_hashes(sub_trim, stride)[k0] == spec_hash_bytes(
                    sub_trim.subrange(k0 * stride, (k0 + 1) * stride),
                ) as u64);
                assert(window.len() == data_len);
                assert(spec_stride_hashes(window, stride)[k] == spec_hash_bytes(
                    window.subrange(k * stride, (k + 1) * stride),
                ) as u64);
            }
            // consumed prefix extends by this chunk's contribution
            assert(refs.subrange(pos as int, p as int + 1) =~= refs.subrange(
                pos as int,
                p as int,
            ).push(refs[p as int]));
            bs_mem.lemma_refs_bytes_push(refs.subrange(pos as int, p as int), refs[p as int]);
            vstd::arithmetic::mul::lemma_mul_is_distributive_add_other_way(
                stride,
                i as int,
                i_next as int,
            );
            assert(bs_mem.refs_bytes(refs.subrange(pos as int, p as int + 1)) =~= bigskip.subrange(
                0,
                i as int * stride + clen,
            ));
            if i + i_next < hash_array_len {
                assert(clen == trim);
            }
        }
        i = i + i_next;
        p = p + 1;
    }
}

/// Content key of the chunk at position `pos` of the reference list: the
/// accumulated hash of its leading bytes, cached on the chunk when the chunk
/// is long enough to key.
pub(crate) fn key_from_chunk_ref(
    info: &BArrayInfo,
    bs_mem: &mut BArrayMemory,
    chunk_list: usize,
    pos: usize,
    hash_store: &mut Vec<u64>,
) -> (key: u64)
    requires
        info.wf(),
        old(bs_mem).wf(info.chunk_stride as int),
        old(bs_mem).list_live(chunk_list as int),
        pos < old(bs_mem).list_refs(chunk_list as int).len(),
        old(bs_mem).refs_bytes(old(bs_mem).list_refs(chunk_list as int).skip(pos as int)).len()
            >= info.accum_read_ahead_bytes,
        old(hash_store)@.len() == info.accum_read_ahead_len,
    ensures
        final(bs_mem).wf(info.chunk_stride as int),
        final(bs_mem).chunk_list == old(bs_mem).chunk_list,
        final(bs_mem).state == old(bs_mem).state,
        final(bs_mem).chunk@.len() == old(bs_mem).chunk@.len(),
        forall|c2: int| old(bs_mem).chunk_live(c2) <==> final(bs_mem).chunk_live(c2),
        forall|c2: int|
            old(bs_mem).chunk_live(c2) ==> final(bs_mem).chunk_bytes(c2) == old(
                bs_mem,
            ).chunk_bytes(c2) && final(bs_mem).chunk_at(c2).users == old(bs_mem).chunk_at(
                c2,
            ).users,
        final(hash_store)@.len() == old(hash_store)@.len(),
        crate::chunk::chunk_users_ok(old(bs_mem), final(bs_mem)),
        key == spec_content_key(
            old(bs_mem).refs_bytes(
                old(bs_mem).list_refs(chunk_list as int).skip(pos as int),
            ).subrange(0, info.accum_read_ahead_bytes as int),
            info.chunk_stride as int,
        ),
        key != HASH_TABLE_KEY_UNSET,
        old(bs_mem).chunk_len(
            old(bs_mem).list_refs(chunk_list as int)[pos as int] as int,
        ) >= info.accum_read_ahead_bytes ==> final(bs_mem).chunk_at(
            old(bs_mem).list_refs(chunk_list as int)[pos as int] as int,
        ).key == key,
        forall|c2: int|
            old(bs_mem).chunk_live(c2) && c2 != old(bs_mem).list_refs(
                chunk_list as int,
            )[pos as int] ==> final(bs_mem).chunk_at(c2).key == old(bs_mem).chunk_at(c2).key,
{
    let ghost m0 = *old(bs_mem);
    let ghost st = info.chunk_stride as int;
    let ghost refs = m0.list_refs(chunk_list as int);
    let ghost window = m0.refs_bytes(refs.skip(pos as int)).subrange(
        0,
        info.accum_read_ahead_bytes as int,
    );
    let c = {
        let cl = bs_mem.chunk_list.get(chunk_list);
        *cl.chunk_refs.at_index(pos).unwrap()
    };
    proof {
        assert(bs_mem.chunk_live((refs[pos as int]) as int));
        vstd::arithmetic::div_mod::lemma_mod_multiples_basic(7, st);
        assert(info.accum_read_ahead_bytes as int % st == 0) by {
            vstd::arithmetic::mul::lemma_mul_is_commutative(7, st);
        }
        lemma_div_exact(info.accum_read_ahead_bytes as int, st);
        assert(info.accum_read_ahead_bytes as int / st == 7) by (nonlinear_arith)
            requires
                st >= 1,
                info.accum_read_ahead_bytes == 7 * st,
                st * (info.accum_read_ahead_bytes as int / st) == info.accum_read_ahead_bytes,
        ;
        // the window starts inside this chunk; when the chunk covers it,
        // the window is the chunk's own leading bytes
        m0.lemma_refs_bytes_skip(refs, pos as int);
        if m0.chunk_len(refs[pos as int] as int) >= info.accum_read_ahead_bytes {
            assert(window =~= m0.chunk_bytes(refs[pos as int] as int).subrange(
                0,
                info.accum_read_ahead_bytes as int,
            ));
        }
    }
    let clen = bs_mem.chunk.get(c).data.len();
    if info.accum_read_ahead_bytes <= clen {
        let cached = bs_mem.chunk.get(c).key;
        if cached != HASH_TABLE_KEY_UNSET {
            // using the cached key avoids recomputing it every lookup; the
            // cache is exact by well-formedness
            proof {
                assert(7 * st == info.accum_read_ahead_bytes);
                assert(cached == spec_content_key(
                    m0.chunk_bytes(c as int).subrange(0, 7 * st),
                    st,
                ));
                assert(cached != HASH_TABLE_KEY_FALLBACK ==> cached != HASH_TABLE_KEY_UNSET);
            }
            return cached;
        }
        hash_array_from_cref(info, bs_mem, chunk_list, pos, info.accum_read_ahead_bytes, hash_store);
        proof {
            assert(hash_store@ =~= spec_stride_hashes(window, st));
        }
        hash_accum_single(hash_store, info.accum_steps);
        let mut key = hash_store[0];
        if key == HASH_TABLE_KEY_UNSET {
            key = HASH_TABLE_KEY_FALLBACK;
        }
        proof {
            reveal(spec_content_key);
            assert(key == spec_content_key(window, st));
        }
        // cache the key on the chunk for reuse
        let taken = bs_mem.chunk.replace_elem(
            c,
            BChunk { data: Vec::new(), users: 0, key: HASH_TABLE_KEY_UNSET },
        );
        let BChunk { data, users, key: _stale } = taken;
        let _t = bs_mem.chunk.replace_elem(c, BChunk { data, users, key });
        proof {
            assert(bs_mem.chunk@ =~= m0.chunk@.update(
                c as int,
                Some(
                    (BChunk {
                        data: m0.chunk_at(c as int).data,
                        users: m0.chunk_at(c as int).users,
                        key,
                    }),
                ),
            ));
            assert forall|c2: usize| #[trigger] bs_mem.chunk_live(c2 as int) implies
                bs_mem.chunk_at(c2 as int).users == crate::chunk::lists_refcount(
                bs_mem.chunk_list@,
                c2,
            ) by {
                assert(m0.chunk_live(c2 as int));
            }
            assert forall|c2: int| #[trigger] bs_mem.chunk_live(c2) implies 1 <= bs_mem.chunk_len(
                c2,
            ) && bs_mem.chunk_len(c2) % st == 0 by {
                assert(m0.chunk_live(c2));
            }
            assert forall|l2: int| #[trigger] bs_mem.list_live(l2) implies bs_mem.list_refs_live(
                l2,
            ) && bs_mem.list_at(l2).chunk_refs_len == bs_mem.list_refs(l2).len() by {
                assert(m0.list_live(l2));
                assert(m0.list_refs_live(l2));
                assert forall|i: int| 0 <= i < bs_mem.list_refs(l2).len() implies bs_mem.chunk_live(
                    (#[trigger] bs_mem.list_refs(l2)[i]) as int,
                ) by {
                    assert(m0.chunk_live((#[trigger] m0.list_refs(l2)[i]) as int));
                }
            }
            assert(bs_mem.keys_consistent(st)) by {
                assert forall|c2: int| #[trigger] bs_mem.chunk_live(c2) implies bs_mem.chunk_at(
                    c2,
                ).key == crate::chunk::HASH_TABLE_KEY_UNSET || (bs_mem.chunk_len(c2) >= 7 * st
                    && bs_mem.chunk_at(c2).key == spec_content_key(
                    bs_mem.chunk_bytes(c2).subrange(0, 7 * st),
                    st,
                )) by {
                    assert(m0.chunk_live(c2));
                    if c2 == c as int {
                        assert(bs_mem.chunk_bytes(c2) == m0.chunk_bytes(c2));
                        assert(bs_mem.chunk_at(c2).key == spec_content_key(
                            bs_mem.chunk_bytes(c2).subrange(0, 7 * st),
                            st,
                        ));
                    }
                }
            }
            assert(bs_mem.wf(st));
        }
        key
    } else {
        // corner case: the chunk is too short to key; compute without
        // caching
        hash_array_from_cref(info, bs_mem, chunk_list, pos, info.accum_read_ahead_bytes, hash_store);
        proof {
            assert(hash_store@ =~= spec_stride_hashes(window, st));
        }
        hash_accum_single(hash_store, info.accum_steps);
        let mut key = hash_store[0];
        if key == HASH_TABLE_KEY_UNSET {
            key = HASH_TABLE_KEY_FALLBACK;
        }
        proof {
            reveal(spec_content_key);
            assert(key == spec_content_key(window, st));
        }
        key
    }
}

/// Probe the candidate table at the key of `data[offset..]`.  A candidate is
/// returned only when its bytes provably match the data at `offset`; a miss
/// means no entry of the probed bucket both carries the probe key and
/// matches.
pub(crate) fn table_lookup(
    info: &BArrayInfo,
    bs_mem: &BArrayMemory,
    chunk_list: usize,
    table: &Vec<Vec<usize>>,
    i_table_start: usize,
    data: &[u8],
    data_len: usize,
    offset: usize,
    table_hash_array: &Vec<u64>,
) -> (found: Option<usize>)
    requires
        info.wf(),
        bs_mem.wf(info.chunk_stride as int),
        bs_mem.list_live(chunk_list as int),
        table@.len() >= 1,
        forall|bkt: int, e: int|
            0 <= bkt < table@.len() && 0 <= e < table@[bkt].len() ==> (#[trigger] table@[bkt][e])
                < bs_mem.list_refs(chunk_list as int).len(),
        i_table_start <= offset < data_len <= data@.len(),
        ((offset - i_table_start) as int / info.chunk_stride as int) < table_hash_array@.len(),
    ensures
        match found {
            Some(p) => {
                let c = bs_mem.list_refs(chunk_list as int)[p as int];
                &&& (p as int) < bs_mem.list_refs(chunk_list as int).len()
                &&& offset + bs_mem.chunk_len(c as int) <= data_len
                &&& bs_mem.chunk_bytes(c as int) == data@.subrange(
                    offset as int,
                    offset + bs_mem.chunk_len(c as int),
                )
            },
            None => {
                let probe = table_hash_array@[(offset - i_table_start) as int
                    / info.chunk_stride as int];
                let bucket = table@[(probe % (table@.len() as u64)) as int];
                forall|e: int|
                    0 <= e < bucket.len() ==> !{
                        let c = bs_mem.list_refs(chunk_list as int)[(#[trigger] bucket[e]) as int];
                        &&& bs_mem.chunk_at(c as int).key == probe
                        &&& offset + bs_mem.chunk_len(c as int) <= data_len
                        &&& bs_mem.chunk_bytes(c as int) == data@.subrange(
                            offset as int,
                            offset + bs_mem.chunk_len(c as int),
                        )
                    }
            },
        },
{
    let ghost refs = bs_mem.list_refs(chunk_list as int);
    proof {
        vstd::arithmetic::div_mod::lemma_div_is_ordered(
            0,
            (offset - i_table_start) as int,
            info.chunk_stride as int,
        );
    }
    let key = table_hash_array[(offset - i_table_start) / info.chunk_stride];
    let key_index = (key % (table.len() as u64)) as usize;
    let bucket = &table[key_index];
    let cl = bs_mem.chunk_list.get(chunk_list);
    let mut e: usize = 0;
    let blen = bucket.len();
    while e < blen
        invariant
            info.wf(),
            bs_mem.wf(info.chunk_stride as int),
            bs_mem.list_live(chunk_list as int),
            refs == bs_mem.list_refs(chunk_list as int),
            cl.chunk_refs@ == refs,
            e <= blen,
            blen == bucket@.len(),
            bucket@ == table@[key_index as int]@,
            key == table_hash_array@[(offset - i_table_start) as int
                / info.chunk_stride as int],
            key_index as int == (key % (table@.len() as u64)) as int,
            forall|e2: int| 0 <= e2 < bucket@.len() ==> (#[trigger] bucket@[e2]) < refs.len(),
            offset < data_len <= data@.len(),
            forall|e2: int|
                0 <= e2 < e ==> !{
                    let c = refs[(#[trigger] bucket@[e2]) as int];
                    &&& bs_mem.chunk_at(c as int).key == key
                    &&& offset + bs_mem.chunk_len(c as int) <= data_len
                    &&& bs_mem.chunk_bytes(c as int) == data@.subrange(
                        offset as int,
                        offset + bs_mem.chunk_len(c as int),
                    )
                },
        decreases blen - e,
    {
        let p = bucket[e];
        let c = *cl.chunk_refs.at_index(p).unwrap();
        proof {
            assert(bs_mem.chunk_live((refs[p as int]) as int));
        }
        if bs_mem.chunk.get(c).key == key {
            if crate::chunk::bchunk_data_compare(bs_mem, c, data, data_len, offset) {
                return Some(p);
            }
        }
        e = e + 1;
    }
    None
}

} // verus!
