//! The merge engine: given new content and a reference chunk list, build a
//! list that reproduces the content byte for byte while sharing as many of
//! the reference's chunks as possible.
//!
//! Matching proceeds in phases: a prefix fast path, a suffix fast path, an
//! aligned walk or a keyed table lookup over the remaining span, and a final
//! flush of unmatched bytes.  Both fast paths always run; the tightest
//! compaction figures (an unchanged array sharing its whole list, say)
//! depend on them.  Every shared chunk is accepted only after a full byte
//! comparison, so the byte-level contract does not depend on the hashing at
//! all.

use crate::chunk::{
    bchunk_data_compare, bchunk_list_append, bchunk_list_append_data, bchunk_list_append_data_n,
    bchunk_list_append_only, bchunk_list_new, lists_total_refs, BArrayInfo, BArrayMemory,
};
use crate::hash::{hash_accum, hash_array_from_data, key_from_chunk_ref, table_lookup};
use vstd::prelude::*;

verus! {

/// How much larger the candidate table is than the number of chunks fed to
/// it.
pub(crate) const BCHUNK_HASH_TABLE_MUL: usize = 3;

/// Walk the reference list from its head while its chunks reproduce `data`
/// exactly; returns how many chunks and how many bytes matched.
fn merge_prefix_scan(bs_mem: &BArrayMemory, chunk_list_reference: usize, data: &[u8]) -> (r: (
    usize,
    usize,
))
    requires
        bs_mem.wf0(),
        bs_mem.list_live(chunk_list_reference as int),
    ensures
        r.0 <= bs_mem.list_refs(chunk_list_reference as int).len(),
        r.1 <= data@.len(),
        bs_mem.refs_bytes(bs_mem.list_refs(chunk_list_reference as int).take(r.0 as int))
            == data@.subrange(0, r.1 as int),
        r.1 == bs_mem.refs_bytes(
            bs_mem.list_refs(chunk_list_reference as int).take(r.0 as int),
        ).len(),
        r.1 < data@.len() ==> r.0 == bs_mem.list_refs(chunk_list_reference as int).len() || !{
            let c = bs_mem.list_refs(chunk_list_reference as int)[r.0 as int];
            &&& r.1 + bs_mem.chunk_len(c as int) <= data@.len()
            &&& bs_mem.chunk_bytes(c as int) == data@.subrange(
                r.1 as int,
                r.1 + bs_mem.chunk_len(c as int),
            )
        },
{
    let ghost refs = bs_mem.list_refs(chunk_list_reference as int);
    let cl = bs_mem.chunk_list.get(chunk_list_reference);
    let nrefs = cl.chunk_refs.len_calc();
    let n = data.len();
    let mut p: usize = 0;
    let mut i_prev: usize = 0;
    let mut matched = true;
    proof {
        assert(refs.take(0) =~= Seq::<usize>::empty());
        assert(data@.subrange(0, 0) =~= Seq::<u8>::empty());
    }
    while matched && i_prev < n
        invariant
            bs_mem.wf0(),
            bs_mem.list_live(chunk_list_reference as int),
            refs == bs_mem.list_refs(chunk_list_reference as int),
            cl.chunk_refs@ == refs,
            nrefs == refs.len(),
            n == data@.len(),
            p <= nrefs,
            i_prev <= n,
            bs_mem.refs_bytes(refs.take(p as int)) == data@.subrange(0, i_prev as int),
            i_prev == bs_mem.refs_bytes(refs.take(p as int)).len(),
            !matched ==> p == nrefs || !{
                let c = refs[p as int];
                &&& i_prev + bs_mem.chunk_len(c as int) <= n
                &&& bs_mem.chunk_bytes(c as int) == data@.subrange(
                    i_prev as int,
                    i_prev + bs_mem.chunk_len(c as int),
                )
            },
        decreases (n - i_prev) as int + if matched {
            1int
        } else {
            0int
        },
    {
        if p < nrefs {
            let c = *cl.chunk_refs.at_index(p).unwrap();
            proof {
                assert(bs_mem.chunk_live((refs[p as int]) as int));
            }
            if bchunk_data_compare(bs_mem, c, data, n, i_prev) {
                let clen = bs_mem.chunk.get(c).data.len();
                proof {
                    assert(refs.take(p as int + 1).drop_last() =~= refs.take(p as int));
                    assert(refs.take(p as int + 1).last() == refs[p as int]);
                    assert(data@.subrange(0, i_prev as int) + data@.subrange(
                        i_prev as int,
                        (i_prev + clen) as int,
                    ) =~= data@.subrange(0, (i_prev + clen) as int));
                }
                i_prev = i_prev + clen;
                p = p + 1;
            } else {
                matched = false;
            }
        } else {
            matched = false;
        }
    }
    (p, i_prev)
}

/// Walk the reference list backwards from its tail while its chunks
/// reproduce the tail of `data`, never touching the head or the matched
/// prefix; returns the reduced logical length and the first position of the
/// matched suffix run.
fn merge_suffix_scan(
    bs_mem: &BArrayMemory,
    chunk_list_reference: usize,
    data: &[u8],
    i_prev: usize,
    p: usize,
) -> (r: (usize, usize))
    requires
        bs_mem.wf0(),
        bs_mem.list_live(chunk_list_reference as int),
        i_prev <= data@.len(),
        p <= bs_mem.list_refs(chunk_list_reference as int).len(),
    ensures
        i_prev <= r.0 <= data@.len(),
        p <= r.1 <= bs_mem.list_refs(chunk_list_reference as int).len(),
        (r.1 as int) < bs_mem.list_refs(chunk_list_reference as int).len() ==> r.1 >= 1,
        bs_mem.refs_bytes(bs_mem.list_refs(chunk_list_reference as int).skip(r.1 as int))
            == data@.subrange(r.0 as int, data@.len() as int),
        r.0 + bs_mem.refs_bytes(
            bs_mem.list_refs(chunk_list_reference as int).skip(r.1 as int),
        ).len() == data@.len(),
        r.1 > (if p > 1 {
            p as int
        } else {
            1int
        }) ==> !{
            let c = bs_mem.list_refs(chunk_list_reference as int)[r.1 - 1];
            &&& bs_mem.chunk_len(c as int) <= r.0 - i_prev
            &&& bs_mem.chunk_bytes(c as int) == data@.subrange(
                r.0 - bs_mem.chunk_len(c as int),
                r.0 as int,
            )
        },
{
    let ghost refs = bs_mem.list_refs(chunk_list_reference as int);
    let cl = bs_mem.chunk_list.get(chunk_list_reference);
    let nrefs = cl.chunk_refs.len_calc();
    let n = data.len();
    let mut data_len = n;
    let mut slast = nrefs;
    let lower = if p > 1 {
        p
    } else {
        1
    };
    let mut matched = true;
    proof {
        assert(refs.skip(nrefs as int) =~= Seq::<usize>::empty());
        assert(data@.subrange(n as int, n as int) =~= Seq::<u8>::empty());
    }
    while matched && slast > lower
        invariant
            bs_mem.wf0(),
            bs_mem.list_live(chunk_list_reference as int),
            refs == bs_mem.list_refs(chunk_list_reference as int),
            cl.chunk_refs@ == refs,
            nrefs == refs.len(),
            n == data@.len(),
            lower >= 1,
            lower >= p,
            slast == nrefs || slast >= lower,
            slast <= nrefs,
            i_prev <= data_len <= n,
            bs_mem.refs_bytes(refs.skip(slast as int)) == data@.subrange(
                data_len as int,
                n as int,
            ),
            data_len + bs_mem.refs_bytes(refs.skip(slast as int)).len() == n,
            !matched ==> slast > lower ==> !{
                let c = refs[slast as int - 1];
                &&& bs_mem.chunk_len(c as int) <= data_len - i_prev
                &&& bs_mem.chunk_bytes(c as int) == data@.subrange(
                    data_len - bs_mem.chunk_len(c as int),
                    data_len as int,
                )
            },
        decreases slast as int + if matched {
            1int
        } else {
            0int
        },
    {
        let cand = slast - 1;
        let c = *cl.chunk_refs.at_index(cand).unwrap();
        proof {
            assert(bs_mem.chunk_live((refs[cand as int]) as int));
        }
        let clen = bs_mem.chunk.get(c).data.len();
        if clen <= data_len - i_prev {
            let offset = data_len - clen;
            if bchunk_data_compare(bs_mem, c, data, data_len, offset) {
                proof {
                    bs_mem.lemma_refs_bytes_skip(refs, cand as int);
                    assert(data@.subrange(offset as int, data_len as int) + data@.subrange(
                        data_len as int,
                        n as int,
                    ) =~= data@.subrange(offset as int, n as int));
                }
                data_len = offset;
                slast = cand;
            } else {
                matched = false;
            }
        } else {
            matched = false;
        }
    }
    (data_len, slast)
}

/// Whether the chunk at position `pos` of the reference list reproduces
/// `data[offset..]` exactly (within the first `data_len` bytes).
fn ref_chunk_matches(
    bs_mem: &BArrayMemory,
    chunk_list_reference: usize,
    pos: usize,
    data: &[u8],
    data_len: usize,
    offset: usize,
) -> (r: bool)
    requires
        bs_mem.wf0(),
        bs_mem.list_live(chunk_list_reference as int),
        pos < bs_mem.list_refs(chunk_list_reference as int).len(),
        data_len <= data@.len(),
    ensures
        ({
            let c = bs_mem.list_refs(chunk_list_reference as int)[pos as int];
            r == (offset + bs_mem.chunk_len(c as int) <= data_len && bs_mem.chunk_bytes(c as int)
                == data@.subrange(offset as int, offset + bs_mem.chunk_len(c as int)))
        }),
{
    let cl = bs_mem.chunk_list.get(chunk_list_reference);
    let c = *cl.chunk_refs.at_index(pos).unwrap();
    proof {
        assert(bs_mem.chunk_live(
            (bs_mem.list_refs(chunk_list_reference as int)[pos as int]) as int,
        ));
    }
    bchunk_data_compare(bs_mem, c, data, data_len, offset)
}

/// Build a chunk list describing `data`, reusing chunks of
/// `chunk_list_reference` wherever their bytes match.  Returns the reference
/// list itself when the content is identical; the caller accounts for the
/// returned list's new user either way.
#[verifier::rlimit(100)]
#[verifier::spinoff_prover]
pub(crate) fn bchunk_list_from_data_merge(
    info: &BArrayInfo,
    bs_mem: &mut BArrayMemory,
    data: &[u8],
    chunk_list_reference: usize,
) -> (chunk_list: usize)
    requires
        info.wf(),
        old(bs_mem).wf(info.chunk_stride as int),
        old(bs_mem).list_live(chunk_list_reference as int),
        data@.len() as int % info.chunk_stride as int == 0,
        data@.len() <= usize::MAX / 4,
        old(bs_mem).list_bytes(chunk_list_reference as int).len() == old(bs_mem).list_at(
            chunk_list_reference as int,
        ).total_size,
        old(bs_mem).list_at(chunk_list_reference as int).total_size <= usize::MAX / 4,
        old(bs_mem).list_nonhead_min(
            chunk_list_reference as int,
            info.chunk_byte_size_min as int,
        ),
        old(bs_mem).chunk@.len() + 3 * data@.len() + 8 <= usize::MAX,
        lists_total_refs(old(bs_mem).chunk_list@) + 3 * data@.len() + 8 <= usize::MAX,
        old(bs_mem).chunk_list@.len() < usize::MAX,
    ensures
        final(bs_mem).wf(info.chunk_stride as int),
        crate::chunk::chunk_users_ok(old(bs_mem), final(bs_mem)),
        final(bs_mem).list_live(chunk_list as int),
        final(bs_mem).list_bytes(chunk_list as int) == data@,
        final(bs_mem).list_at(chunk_list as int).total_size == data@.len(),
        final(bs_mem).list_nonhead_min(chunk_list as int, info.chunk_byte_size_min as int),
        forall|l2: int|
            old(bs_mem).list_live(l2) ==> final(bs_mem).list_live(l2) && final(bs_mem).list_at(l2)
                == old(bs_mem).list_at(l2) && final(bs_mem).list_bytes(l2) == old(
                bs_mem,
            ).list_bytes(l2),
        forall|l2: int, k: int|
            old(bs_mem).list_live(l2) && 0 <= k < old(bs_mem).list_refs(l2).len() ==> final(bs_mem).chunk_live((#[trigger] old(bs_mem).list_refs(l2)[k]) as int) && final(bs_mem).chunk_bytes(old(bs_mem).list_refs(l2)[k] as int) == old(bs_mem).chunk_bytes(
                old(bs_mem).list_refs(l2)[k] as int,
            ),
        forall|l2: int|
            final(bs_mem).list_live(l2) ==> old(bs_mem).list_live(l2) || l2 == chunk_list as int,
        chunk_list == chunk_list_reference || !old(bs_mem).list_live(chunk_list as int),
        old(bs_mem).list_bytes(chunk_list_reference as int) == data@ ==> *final(bs_mem) == *old(
            bs_mem,
        ) && chunk_list == chunk_list_reference,
        chunk_list != chunk_list_reference ==> final(bs_mem).list_at(chunk_list as int).users == 0,
        final(bs_mem).state == old(bs_mem).state,
        final(bs_mem).chunk_list@.len() <= old(bs_mem).chunk_list@.len() + 1,
        final(bs_mem).chunk@.len() <= old(bs_mem).chunk@.len() + 3 * data@.len() + 8,
        lists_total_refs(final(bs_mem).chunk_list@) <= lists_total_refs(old(bs_mem).chunk_list@)
            + 3 * data@.len() + 8,
{
    let ghost m0 = *old(bs_mem);
    let ghost rl = chunk_list_reference as int;
    let ghost rrefs = m0.list_refs(rl);
    let ghost st = info.chunk_stride as int;
    let ghost min = info.chunk_byte_size_min as int;
    let n = data.len();

    // ------------------------------------------------------------------
    // Prefix fast path: when the whole reference matches the whole array,
    // share the reference list itself.
    let (p0, i_prev_prefix) = merge_prefix_scan(bs_mem, chunk_list_reference, data);
    let ref_total = bs_mem.chunk_list.get(chunk_list_reference).total_size;
    proof {
        m0.lemma_refs_bytes_stride(rrefs.take(p0 as int), st);
        assert forall|k: int| 0 <= k < rrefs.len() implies bs_mem.chunk_live(
            (#[trigger] rrefs[k]) as int,
        ) && 1 <= bs_mem.chunk_len(rrefs[k] as int) by {
            assert(m0.list_refs_live(rl));
            assert(m0.chunk_live((rrefs[k]) as int));
        }
    }
    if i_prev_prefix == n && ref_total == n {
        proof {
            assert(rrefs =~= rrefs.take(p0 as int) + rrefs.skip(p0 as int));
            m0.lemma_refs_bytes_concat(rrefs.take(p0 as int), rrefs.skip(p0 as int));
            assert(m0.list_bytes(rl).len() == n);
            assert(m0.refs_bytes(rrefs.skip(p0 as int)).len() == 0);
            assert(m0.list_bytes(rl) =~= data@.subrange(0, n as int));
            assert(data@.subrange(0, n as int) =~= data@);
            assert forall|l2: int| m0.list_live(l2) implies bs_mem.list_bytes(l2)
                == m0.list_bytes(l2) by {}
            assert forall|l2: int, k: int|
                m0.list_live(l2) && 0 <= k < m0.list_refs(l2).len() implies bs_mem.chunk_live(
                (#[trigger] m0.list_refs(l2)[k]) as int,
            ) && bs_mem.chunk_bytes(m0.list_refs(l2)[k] as int) == m0.chunk_bytes(
                m0.list_refs(l2)[k] as int,
            ) by {
                assert(m0.list_refs_live(l2));
                assert(m0.chunk_live((m0.list_refs(l2)[k]) as int));
            }
        }
        return chunk_list_reference;
    }
    proof {
        // content identical to the reference always takes the shared path
        if m0.list_bytes(rl) == data@ {
            assert(m0.list_bytes(rl).len() == n);
            assert(ref_total == n);
            if i_prev_prefix < n {
                if p0 == rrefs.len() {
                    assert(rrefs.take(p0 as int) =~= rrefs);
                    assert(false);
                } else {
                    // the next chunk is exactly the next slice of the data,
                    // contradicting the scan's maximality
                    assert(rrefs =~= rrefs.take(p0 as int) + rrefs.skip(p0 as int));
                    m0.lemma_refs_bytes_concat(rrefs.take(p0 as int), rrefs.skip(p0 as int));
                    m0.lemma_refs_bytes_skip(rrefs, p0 as int);
                    let c = rrefs[p0 as int];
                    assert(m0.chunk_bytes(c as int) =~= data@.subrange(
                        i_prev_prefix as int,
                        i_prev_prefix + m0.chunk_len(c as int),
                    ));
                    assert(false);
                }
            }
            assert(false);
        }
    }

    // A fresh list, filled as matching and new content is appended.
    let chunk_list = bchunk_list_new(bs_mem);
    let ghost l = chunk_list as int;
    proof {
        assert(rl != l);
        assert(bs_mem.list_refs(l).len() == 0);
        assert(bs_mem.list_bytes(l) =~= Seq::<u8>::empty());
        assert(bs_mem.list_bytes(l) =~= data@.subrange(0, 0));
        assert(m0.refs_bytes(rrefs.take(0)) =~= Seq::<u8>::empty()) by {
            assert(rrefs.take(0) =~= Seq::<usize>::empty());
        }
    }

    // Re-walk the matched prefix, sharing its chunks.
    let mut i_prev: usize = 0;
    let mut j: usize = 0;
    while j < p0
        invariant
            info.wf(),
            bs_mem.wf(st),
            st == info.chunk_stride as int,
            min == info.chunk_byte_size_min as int,
            n == data@.len(),
            n <= usize::MAX / 4,
            bs_mem.list_live(l),
            l == chunk_list as int,
            rl == chunk_list_reference as int,
            rl != l,
            !m0.list_live(l),
            m0.list_live(rl),
            m0.others_stable(*bs_mem, l),
            crate::chunk::chunk_users_ok(&m0, bs_mem),
            bs_mem.state == m0.state,
            bs_mem.chunk_list@.len() <= m0.chunk_list@.len() + 1,
            bs_mem.list_at(l).total_size == i_prev,
            bs_mem.list_at(l).users == 0,
            bs_mem.list_nonhead_min(l, min),
            rrefs == m0.list_refs(rl),
            m0.wf(st),
            m0.list_nonhead_min(rl, min),
            j <= p0 <= rrefs.len(),
            i_prev <= i_prev_prefix <= n,
            m0.refs_bytes(rrefs.take(j as int)) == data@.subrange(0, i_prev as int),
            i_prev == m0.refs_bytes(rrefs.take(j as int)).len(),
            m0.refs_bytes(rrefs.take(p0 as int)) == data@.subrange(0, i_prev_prefix as int),
            i_prev_prefix == m0.refs_bytes(rrefs.take(p0 as int)).len(),
            bs_mem.list_bytes(l) == data@.subrange(0, i_prev as int),
            bs_mem.list_refs(l).len() == j,
            bs_mem.chunk@.len() <= m0.chunk@.len() + 4 + 3 * i_prev,
            lists_total_refs(bs_mem.chunk_list@) <= lists_total_refs(m0.chunk_list@) + 4 + 3
                * i_prev,
            m0.chunk@.len() + 3 * n + 8 <= usize::MAX,
            lists_total_refs(m0.chunk_list@) + 3 * n + 8 <= usize::MAX,
        decreases p0 - j,
    {
        let ghost mi = *bs_mem;
        proof {
            assert(mi.list_live(rl) && mi.list_at(rl) == m0.list_at(rl));
            assert(mi.chunk_live((#[trigger] rrefs[j as int]) as int) && mi.chunk_bytes(
                rrefs[j as int] as int,
            ) == m0.chunk_bytes(rrefs[j as int] as int));
            // the chunk's bytes are the next slice of the prefix
            assert(rrefs.take(p0 as int) =~= rrefs.take(j as int + 1) + rrefs.subrange(
                j as int + 1,
                p0 as int,
            ));
            m0.lemma_refs_bytes_concat(
                rrefs.take(j as int + 1),
                rrefs.subrange(j as int + 1, p0 as int),
            );
            assert(rrefs.take(j as int + 1).drop_last() =~= rrefs.take(j as int));
            assert(rrefs.take(j as int + 1).last() == rrefs[j as int]);
            assert(m0.refs_bytes(rrefs.take(j as int + 1)) =~= data@.subrange(
                0,
                i_prev + m0.chunk_len(rrefs[j as int] as int),
            ));
        }
        let c = {
            let cl = bs_mem.chunk_list.get(chunk_list_reference);
            *cl.chunk_refs.at_index(j).unwrap()
        };
        let clen = bs_mem.chunk.get(c).data.len();
        bchunk_list_append_only(bs_mem, chunk_list, c);
        proof {
            assert(mi.list_bytes(l) == bs_mem.list_bytes(l).subrange(
                0,
                mi.list_bytes(l).len() as int,
            )) by {
                assert(bs_mem.list_bytes(l) == mi.list_bytes(l) + mi.chunk_bytes(c as int));
            }
            assert(bs_mem.list_bytes(l) =~= data@.subrange(0, (i_prev + clen) as int));
            mi.lemma_others_stable_trans(mi, *bs_mem, l);
            m0.lemma_others_stable_trans(mi, *bs_mem, l);
            crate::chunk::lemma_chunk_users_ok_trans(&m0, &mi, bs_mem);
            assert forall|k: int| 1 <= k < bs_mem.list_refs(l).len() implies bs_mem.chunk_len(
                (#[trigger] bs_mem.list_refs(l)[k]) as int,
            ) >= min by {
                if k == j as int {
                    assert(bs_mem.list_refs(l)[k] == c);
                    assert(m0.chunk_len(rrefs[j as int] as int) >= min);
                } else {
                    assert(bs_mem.list_refs(l)[k] == mi.list_refs(l)[k]);
                    assert(mi.chunk_live((mi.list_refs(l)[k]) as int));
                    assert(bs_mem.chunk_bytes(mi.list_refs(l)[k] as int) == mi.chunk_bytes(
                        mi.list_refs(l)[k] as int,
                    ));
                }
            }
            assert forall|s2: int| mi.wf(s2) implies bs_mem.wf(s2) by {
                assert forall|c2: int| #[trigger] bs_mem.chunk_live(c2) implies mi.chunk_live(c2)
                    && bs_mem.chunk_at(c2).key == mi.chunk_at(c2).key && bs_mem.chunk_bytes(c2)
                    == mi.chunk_bytes(c2) by {
                    assert(mi.chunk_live(c2));
                }
                crate::chunk::lemma_keys_consistent_stable(&mi, bs_mem, s2);
            }
        }
        i_prev = i_prev + clen;
        j = j + 1;
    }
    if i_prev == n {
        // bytes were removed from the end of the array: the prefix alone is
        // the whole content
        proof {
            assert(bs_mem.list_bytes(l) =~= data@);
            assert forall|l2: int| m0.list_live(l2) implies bs_mem.list_live(l2)
                && bs_mem.list_at(l2) == m0.list_at(l2) && bs_mem.list_bytes(l2)
                == m0.list_bytes(l2) by {
                m0.lemma_others_stable_bytes(*bs_mem, l, l2);
            }
            assert forall|l2: int, k: int|
                m0.list_live(l2) && 0 <= k < m0.list_refs(l2).len() implies bs_mem.chunk_live(
                (#[trigger] m0.list_refs(l2)[k]) as int,
            ) && bs_mem.chunk_bytes(m0.list_refs(l2)[k] as int) == m0.chunk_bytes(
                m0.list_refs(l2)[k] as int,
            ) by {}
        }
        return chunk_list;
    }

    // ------------------------------------------------------------------
    // Suffix fast path: find trailing reference chunks equal to the tail of
    // the array; they are appended after the body has been matched.
    let (data_len, slast) = merge_suffix_scan(bs_mem, chunk_list_reference, data, i_prev, p0);
    let ghost ms = *bs_mem;
    proof {
        // restate the suffix facts over the initial memory
        assert forall|k: int| 0 <= k < rrefs.len() implies ms.chunk_bytes(
            (#[trigger] rrefs[k]) as int,
        ) == m0.chunk_bytes(rrefs[k] as int) && ms.chunk_live(rrefs[k] as int) by {
            assert(m0.list_refs_live(rl));
            assert(m0.chunk_live((rrefs[k]) as int));
        }
        assert forall|k: int| 0 <= k < rrefs.skip(slast as int).len() implies ms.chunk_bytes(
            (#[trigger] rrefs.skip(slast as int)[k]) as int,
        ) == m0.chunk_bytes(rrefs.skip(slast as int)[k] as int) by {
            assert(rrefs.skip(slast as int)[k] == rrefs[k + slast]);
        }
        m0.lemma_refs_bytes_congruence(ms, rrefs.skip(slast as int));
        assert(m0.refs_bytes(rrefs.skip(slast as int)) == data@.subrange(
            data_len as int,
            n as int,
        ));
        m0.lemma_refs_bytes_stride(rrefs.skip(slast as int), st);
        crate::chunk::lemma_mod_diff_zero(n as int, (n - data_len) as int, st);
        m0.lemma_refs_bytes_stride(rrefs.take(j as int), st);
    }

    // ------------------------------------------------------------------
    // Body matching.  Common invariant bundle: the new list reproduces
    // `data[0..i_prev]`, everything reachable from other lists is stable,
    // and pool growth stays within the declared budget.
    let nrefs = {
        let cl = bs_mem.chunk_list.get(chunk_list_reference);
        cl.chunk_refs.len_calc()
    };
    merge_middle_pass(
        info,
        bs_mem,
        chunk_list,
        chunk_list_reference,
        j,
        slast,
        i_prev,
        data_len,
        data,
        Ghost(m0),
    );

    // Append the deferred suffix run; its chunks are already well sized.
    proof {
        assert(rrefs.subrange(slast as int, nrefs as int) =~= rrefs.skip(slast as int));
    }
    merge_append_reference_tail(
        info,
        bs_mem,
        chunk_list,
        chunk_list_reference,
        slast,
        nrefs,
        data_len,
        data,
        Ghost(m0),
    );
    chunk_list
}

/// Write the reduced middle span `data[i_prev0 .. data_len]` to the list
/// under construction, sharing reference chunks where they reproduce the
/// bytes: chunk-aligned stepping when the two sides line up, a keyed
/// candidate table otherwise, and fresh chunks for whatever is left.
#[verifier::rlimit(100)]
#[verifier::spinoff_prover]
fn merge_middle_pass(
    info: &BArrayInfo,
    bs_mem: &mut BArrayMemory,
    chunk_list: usize,
    chunk_list_reference: usize,
    jp: usize,
    slast: usize,
    i_prev0: usize,
    data_len: usize,
    data: &[u8],
    Ghost(m0): Ghost<BArrayMemory>,
)
    requires
        info.wf(),
        old(bs_mem).wf(info.chunk_stride as int),
        old(bs_mem).list_live(chunk_list as int),
        chunk_list != chunk_list_reference,
        !m0.list_live(chunk_list as int),
        m0.list_live(chunk_list_reference as int),
        m0.wf(info.chunk_stride as int),
        m0.others_stable(*old(bs_mem), chunk_list as int),
        crate::chunk::chunk_users_ok(&m0, old(bs_mem)),
        old(bs_mem).state == m0.state,
        old(bs_mem).chunk_list@.len() <= m0.chunk_list@.len() + 1,
        old(bs_mem).list_at(chunk_list as int).total_size == i_prev0,
        old(bs_mem).list_at(chunk_list as int).users == 0,
        old(bs_mem).list_nonhead_min(chunk_list as int, info.chunk_byte_size_min as int),
        m0.list_nonhead_min(chunk_list_reference as int, info.chunk_byte_size_min as int),
        m0.list_bytes(chunk_list_reference as int).len() == m0.list_at(
            chunk_list_reference as int,
        ).total_size,
        m0.list_at(chunk_list_reference as int).total_size <= usize::MAX / 4,
        jp <= slast <= m0.list_refs(chunk_list_reference as int).len(),
        i_prev0 <= data_len <= data@.len(),
        data@.len() <= usize::MAX / 4,
        i_prev0 as int % info.chunk_stride as int == 0,
        data@.len() as int % info.chunk_stride as int == 0,
        data_len as int % info.chunk_stride as int == 0,
        m0.refs_bytes(m0.list_refs(chunk_list_reference as int).take(jp as int))
            == data@.subrange(0, i_prev0 as int),
        m0.refs_bytes(
            m0.list_refs(chunk_list_reference as int).skip(slast as int),
        ) == data@.subrange(data_len as int, data@.len() as int),
        old(bs_mem).list_bytes(chunk_list as int) == data@.subrange(0, i_prev0 as int),
        old(bs_mem).chunk@.len() <= m0.chunk@.len() + 4 + 3 * i_prev0,
        lists_total_refs(old(bs_mem).chunk_list@) <= lists_total_refs(m0.chunk_list@) + 4 + 3
            * i_prev0,
        m0.chunk@.len() + 3 * data@.len() + 8 <= usize::MAX,
        lists_total_refs(m0.chunk_list@) + 3 * data@.len() + 8 <= usize::MAX,
    ensures
        final(bs_mem).wf(info.chunk_stride as int),
        crate::chunk::chunk_users_ok(&m0, final(bs_mem)),
        m0.others_stable(*final(bs_mem), chunk_list as int),
        final(bs_mem).state == m0.state,
        final(bs_mem).list_live(chunk_list as int),
        final(bs_mem).list_bytes(chunk_list as int) == data@.subrange(0, data_len as int),
        final(bs_mem).list_at(chunk_list as int).total_size == data_len,
        final(bs_mem).list_at(chunk_list as int).users == 0,
        final(bs_mem).list_nonhead_min(chunk_list as int, info.chunk_byte_size_min as int),
        final(bs_mem).chunk_list@.len() <= m0.chunk_list@.len() + 1,
        final(bs_mem).chunk@.len() <= m0.chunk@.len() + 6 + 3 * data_len,
        lists_total_refs(final(bs_mem).chunk_list@) <= lists_total_refs(m0.chunk_list@) + 6 + 3
            * data_len,
{
    let ghost l = chunk_list as int;
    let ghost rl = chunk_list_reference as int;
    let ghost rrefs = m0.list_refs(rl);
    let ghost st = info.chunk_stride as int;
    let ghost min = info.chunk_byte_size_min as int;
    let n = data.len();
    let j = jp;
    let mut i_prev = i_prev0;
    let ref_total = bs_mem.chunk_list.get(chunk_list_reference).total_size;
    let nrefs = {
        let cl = bs_mem.chunk_list.get(chunk_list_reference);
        cl.chunk_refs.len_calc()
    };
    proof {
        assert(ref_total == m0.list_at(rl).total_size);
        assert(nrefs == rrefs.len());
        assert(m0.refs_bytes(rrefs.take(jp as int)).len() == i_prev0 as int);
        assert(m0.refs_bytes(rrefs.skip(slast as int)).len() == data@.len() - data_len as int);
    }
    let use_aligned = n == ref_total && data_len - i_prev <= ref_total / 4;
    if use_aligned {
        // Mostly-aligned arrays: step both sides chunk by chunk, sharing on
        // a match and copying the same span otherwise.
        let mut q = j;
        proof {
            assert(rrefs =~= rrefs.take(j as int) + rrefs.subrange(j as int, slast as int)
                + rrefs.skip(slast as int));
            m0.lemma_refs_bytes_concat(
                rrefs.take(j as int) + rrefs.subrange(j as int, slast as int),
                rrefs.skip(slast as int),
            );
            m0.lemma_refs_bytes_concat(
                rrefs.take(j as int),
                rrefs.subrange(j as int, slast as int),
            );
            assert(m0.list_bytes(rl).len() == n);
            assert(m0.refs_bytes(rrefs.subrange(j as int, slast as int)).len() == data_len
                - i_prev);
        }
        while i_prev < data_len
            invariant
                info.wf(),
                bs_mem.wf(st),
                st == info.chunk_stride as int,
                min == info.chunk_byte_size_min as int,
                n == data@.len(),
                n <= usize::MAX / 4,
                bs_mem.list_live(l),
                l == chunk_list as int,
                rl == chunk_list_reference as int,
                rl != l,
                !m0.list_live(l),
                m0.list_live(rl),
                m0.others_stable(*bs_mem, l),
                crate::chunk::chunk_users_ok(&m0, bs_mem),
                bs_mem.state == m0.state,
                bs_mem.chunk_list@.len() <= m0.chunk_list@.len() + 1,
                bs_mem.list_at(l).total_size == i_prev,
                bs_mem.list_at(l).users == 0,
                bs_mem.list_nonhead_min(l, min),
                rrefs == m0.list_refs(rl),
                m0.wf(st),
                m0.list_nonhead_min(rl, min),
                j <= q <= slast <= rrefs.len(),
                i_prev <= data_len <= n,
                i_prev as int % st == 0,
                m0.refs_bytes(rrefs.subrange(q as int, slast as int)).len() == data_len - i_prev,
                bs_mem.list_bytes(l) == data@.subrange(0, i_prev as int),
                bs_mem.chunk@.len() <= m0.chunk@.len() + 4 + 3 * i_prev,
                lists_total_refs(bs_mem.chunk_list@) <= lists_total_refs(m0.chunk_list@) + 4 + 3
                    * i_prev,
                m0.chunk@.len() + 3 * n + 8 <= usize::MAX,
                lists_total_refs(m0.chunk_list@) + 3 * n + 8 <= usize::MAX,
            decreases data_len - i_prev,
        {
            let ghost middle = rrefs.subrange(q as int, slast as int);
            proof {
                if q >= slast {
                    assert(middle =~= Seq::<usize>::empty());
                    assert(false);
                }
                assert(middle =~= seq![rrefs[q as int]] + rrefs.subrange(
                    q as int + 1,
                    slast as int,
                ));
                m0.lemma_refs_bytes_concat(
                    seq![rrefs[q as int]],
                    rrefs.subrange(q as int + 1, slast as int),
                );
                m0.lemma_refs_bytes_single(rrefs[q as int]);
                assert(m0.list_refs_live(rl));
                assert(m0.chunk_live((rrefs[q as int]) as int));
                assert(bs_mem.list_live(rl) && bs_mem.list_at(rl) == m0.list_at(rl));
                assert(bs_mem.chunk_live((#[trigger] m0.list_refs(rl)[q as int]) as int)
                    && bs_mem.chunk_bytes(m0.list_refs(rl)[q as int] as int) == m0.chunk_bytes(
                    m0.list_refs(rl)[q as int] as int,
                ));
            }
            let c = {
                let cl = bs_mem.chunk_list.get(chunk_list_reference);
                *cl.chunk_refs.at_index(q).unwrap()
            };
            let clen = bs_mem.chunk.get(c).data.len();
            let is_match = ref_chunk_matches(
                bs_mem,
                chunk_list_reference,
                q,
                data,
                data_len,
                i_prev,
            );
            let ghost mi = *bs_mem;
            if is_match {
                bchunk_list_append(info, bs_mem, chunk_list, c);
            } else {
                bchunk_list_append_data(info, bs_mem, chunk_list, data, i_prev, i_prev + clen);
            }
            proof {
                m0.lemma_others_stable_trans(mi, *bs_mem, l);
                crate::chunk::lemma_chunk_users_ok_trans(&m0, &mi, bs_mem);
                assert(data@.subrange(0, i_prev as int) + data@.subrange(
                    i_prev as int,
                    (i_prev + clen) as int,
                ) =~= data@.subrange(0, (i_prev + clen) as int));
                assert(bs_mem.list_bytes(l) == data@.subrange(0, (i_prev + clen) as int));
                crate::chunk::lemma_mod_sum_zero(i_prev as int, clen as int, st);
                assert(rrefs.subrange(q as int + 1, slast as int) =~= rrefs.subrange(
                    q as int,
                    slast as int,
                ).skip(1));
            }
            i_prev = i_prev + clen;
            q = q + 1;
        }
    } else {
        let skip_len = j + (nrefs - slast);
        if data_len - i_prev >= info.chunk_byte_size && nrefs >= skip_len && nrefs > 0 {
            // ----------------------------------------------------------
            // Non-aligned deduplication through a keyed candidate table.
            let i_table_start = i_prev;
            let tha_len = (data_len - i_prev) / info.chunk_stride;
            proof {
                crate::chunk::lemma_mod_diff_zero(data_len as int, i_prev as int, st);
            }
            let mut table_hash_array: Vec<u64> = Vec::new();
            let mut z: usize = 0;
            while z < tha_len
                invariant
                    z <= tha_len,
                    table_hash_array@.len() == z,
                decreases tha_len - z,
            {
                table_hash_array.push(0u64);
                z = z + 1;
            }
            hash_array_from_data(info, data, i_prev, data_len, &mut table_hash_array, 0);
            hash_accum(&mut table_hash_array, info.accum_steps);
            proof {
                m0.lemma_refs_len_le_bytes(rrefs);
                assert(rrefs.len() <= ref_total);
            }
            let remaining_len = nrefs - skip_len + 1;
            let table_len = remaining_len * BCHUNK_HASH_TABLE_MUL;
            let mut table: Vec<Vec<usize>> = Vec::new();
            let mut z2: usize = 0;
            while z2 < table_len
                invariant
                    z2 <= table_len,
                    table@.len() == z2,
                    forall|b: int| 0 <= b < table@.len() ==> (#[trigger] table@[b])@.len() == 0,
                decreases table_len - z2,
            {
                table.push(Vec::new());
                z2 = z2 + 1;
            }
            let mut hash_store: Vec<u64> = Vec::new();
            let mut z3: usize = 0;
            while z3 < info.accum_read_ahead_len
                invariant
                    z3 <= info.accum_read_ahead_len,
                    hash_store@.len() == z3,
                decreases info.accum_read_ahead_len - z3,
            {
                hash_store.push(0u64);
                z3 = z3 + 1;
            }
            // include the last matching prefix chunk, to allow repeated
            // content to be found again
            let pos0 = if j >= 1 {
                j - 1
            } else {
                0
            };
            let suffix_bytes = n - data_len;
            proof {
                assert(rrefs =~= rrefs.take(pos0 as int) + rrefs.subrange(
                    pos0 as int,
                    slast as int,
                ) + rrefs.skip(slast as int));
                m0.lemma_refs_bytes_concat(
                    rrefs.take(pos0 as int) + rrefs.subrange(pos0 as int, slast as int),
                    rrefs.skip(slast as int),
                );
                m0.lemma_refs_bytes_concat(
                    rrefs.take(pos0 as int),
                    rrefs.subrange(pos0 as int, slast as int),
                );
                if j >= 1 {
                    assert(rrefs.take(j as int).drop_last() =~= rrefs.take(pos0 as int));
                    assert(rrefs.take(j as int).last() == rrefs[pos0 as int]);
                    m0.lemma_refs_bytes_chunk_bound(
                        rrefs.subrange(pos0 as int, slast as int),
                        0,
                    );
                    assert(rrefs.subrange(pos0 as int, slast as int)[0] == rrefs[pos0 as int]);
                } else {
                    assert(rrefs.take(0int) =~= Seq::<usize>::empty());
                }
                assert(m0.list_bytes(rl).len() == ref_total);
            }
            let mut bytes_remaining = ref_total - i_prev - suffix_bytes;
            if j >= 1 {
                let back = {
                    let cl = bs_mem.chunk_list.get(chunk_list_reference);
                    let cback = *cl.chunk_refs.at_index(j - 1).unwrap();
                    proof {
                        assert(m0.list_refs_live(rl));
                        assert(m0.chunk_live((rrefs[pos0 as int]) as int));
                        assert(bs_mem.chunk_live((#[trigger] m0.list_refs(rl)[pos0 as int]) as int)
                            && bs_mem.chunk_bytes(m0.list_refs(rl)[pos0 as int] as int)
                            == m0.chunk_bytes(m0.list_refs(rl)[pos0 as int] as int));
                    }
                    bs_mem.chunk.get(cback).data.len()
                };
                bytes_remaining = bytes_remaining + back;
            }
            proof {
                assert(bytes_remaining == m0.refs_bytes(
                    rrefs.subrange(pos0 as int, slast as int),
                ).len());
            }
            // build the table over the unmatched span of the reference
            let mut pos = pos0;
            let mut remaining = bytes_remaining;
            while pos < slast && remaining >= info.accum_read_ahead_bytes
                invariant
                    info.wf(),
                    bs_mem.wf(st),
                    st == info.chunk_stride as int,
                    min == info.chunk_byte_size_min as int,
                    n == data@.len(),
                    n <= usize::MAX / 4,
                    bs_mem.list_live(l),
                    l == chunk_list as int,
                    rl == chunk_list_reference as int,
                    rl != l,
                    !m0.list_live(l),
                    m0.list_live(rl),
                    m0.others_stable(*bs_mem, l),
                    crate::chunk::chunk_users_ok(&m0, bs_mem),
                    bs_mem.state == m0.state,
                    bs_mem.chunk_list@.len() <= m0.chunk_list@.len() + 1,
                    bs_mem.list_at(l).total_size == i_prev,
                    bs_mem.list_at(l).users == 0,
                    bs_mem.list_nonhead_min(l, min),
                    rrefs == m0.list_refs(rl),
                    m0.wf(st),
                    m0.list_nonhead_min(rl, min),
                    pos0 <= pos <= slast <= rrefs.len(),
                    rrefs.len() == nrefs,
                    remaining == m0.refs_bytes(rrefs.subrange(pos as int, slast as int)).len(),
                    m0.refs_bytes(rrefs.skip(slast as int)) == data@.subrange(
                        data_len as int,
                        n as int,
                    ),
                    bs_mem.list_bytes(l) == data@.subrange(0, i_prev as int),
                    hash_store@.len() == info.accum_read_ahead_len,
                    table@.len() == table_len,
                    table_len >= 1,
                    forall|b: int, e: int|
                        0 <= b < table@.len() && 0 <= e < table@[b].len() ==> (
                        #[trigger] table@[b][e]) < rrefs.len(),
                    bs_mem.chunk@.len() <= m0.chunk@.len() + 4 + 3 * i_prev,
                    lists_total_refs(bs_mem.chunk_list@) <= lists_total_refs(m0.chunk_list@) + 4
                        + 3 * i_prev,
                    m0.chunk@.len() + 3 * n + 8 <= usize::MAX,
                    lists_total_refs(m0.chunk_list@) + 3 * n + 8 <= usize::MAX,
                decreases slast - pos,
            {
                let ghost mk = *bs_mem;
                proof {
                    assert(rrefs.subrange(pos as int, slast as int) =~= seq![rrefs[pos as int]]
                        + rrefs.subrange(pos as int + 1, slast as int));
                    m0.lemma_refs_bytes_concat(
                        seq![rrefs[pos as int]],
                        rrefs.subrange(pos as int + 1, slast as int),
                    );
                    m0.lemma_refs_bytes_single(rrefs[pos as int]);
                    assert(m0.list_refs_live(rl));
                    assert(m0.chunk_live((rrefs[pos as int]) as int));
                    // enough bytes remain from here to key this position
                    assert(rrefs.skip(pos as int) =~= rrefs.subrange(pos as int, slast as int)
                        + rrefs.skip(slast as int));
                    m0.lemma_refs_bytes_concat(
                        rrefs.subrange(pos as int, slast as int),
                        rrefs.skip(slast as int),
                    );
                    assert forall|k: int| 0 <= k < rrefs.skip(pos as int).len() implies
                        bs_mem.chunk_bytes((#[trigger] rrefs.skip(pos as int)[k]) as int)
                        == m0.chunk_bytes(rrefs.skip(pos as int)[k] as int) && bs_mem.chunk_live(
                        rrefs.skip(pos as int)[k] as int,
                    ) by {
                        assert(rrefs.skip(pos as int)[k] == rrefs[k + pos]);
                        assert(m0.chunk_live((rrefs[k + pos]) as int));
                        assert(bs_mem.chunk_live((#[trigger] m0.list_refs(rl)[k + pos]) as int)
                            && bs_mem.chunk_bytes(m0.list_refs(rl)[k + pos] as int)
                            == m0.chunk_bytes(m0.list_refs(rl)[k + pos] as int));
                    }
                    m0.lemma_refs_bytes_congruence(*bs_mem, rrefs.skip(pos as int));
                }
                let key = key_from_chunk_ref(
                    info,
                    bs_mem,
                    chunk_list_reference,
                    pos,
                    &mut hash_store,
                );
                proof {
                    // caching a key changes no byte reachable from any list
                    assert forall|l2: int|
                        l2 != l && #[trigger] mk.list_live(l2) implies bs_mem.list_live(l2)
                        && bs_mem.list_at(l2) == mk.list_at(l2) by {}
                    assert forall|l2: int, k: int|
                        l2 != l && #[trigger] mk.list_live(l2) && 0 <= k < mk.list_refs(
                            l2,
                        ).len() implies bs_mem.chunk_live(
                        (#[trigger] mk.list_refs(l2)[k]) as int,
                    ) && bs_mem.chunk_bytes(mk.list_refs(l2)[k] as int) == mk.chunk_bytes(
                        mk.list_refs(l2)[k] as int,
                    ) by {
                        assert(mk.list_refs_live(l2));
                        assert(mk.chunk_live((mk.list_refs(l2)[k]) as int));
                    }
                    m0.lemma_others_stable_trans(mk, *bs_mem, l);
                    crate::chunk::lemma_chunk_users_ok_trans(&m0, &mk, bs_mem);
                    assert forall|k: int| 0 <= k < bs_mem.list_refs(l).len() implies
                        bs_mem.chunk_bytes((#[trigger] bs_mem.list_refs(l)[k]) as int)
                        == mk.chunk_bytes(bs_mem.list_refs(l)[k] as int) by {
                        assert(mk.list_refs_live(l));
                        assert(mk.chunk_live((mk.list_refs(l)[k]) as int));
                    }
                    mk.lemma_refs_bytes_congruence(*bs_mem, mk.list_refs(l));
                    assert(bs_mem.list_bytes(l) == mk.list_bytes(l));
                }
                let ki = (key % (table.len() as u64)) as usize;
                let bucket = &mut table[ki];
                bucket.push(pos);
                let clen2 = {
                    let cl = bs_mem.chunk_list.get(chunk_list_reference);
                    let cc = *cl.chunk_refs.at_index(pos).unwrap();
                    proof {
                        assert(bs_mem.chunk_live((#[trigger] m0.list_refs(rl)[pos as int]) as int)
                            && bs_mem.chunk_bytes(m0.list_refs(rl)[pos as int] as int)
                            == m0.chunk_bytes(m0.list_refs(rl)[pos as int] as int));
                    }
                    bs_mem.chunk.get(cc).data.len()
                };
                remaining = remaining - clen2;
                pos = pos + 1;
            }
            // stride through the unmatched span, looking candidates up
            let mut i = i_prev;
            while i < data_len
                invariant
                    info.wf(),
                    bs_mem.wf(st),
                    st == info.chunk_stride as int,
                    min == info.chunk_byte_size_min as int,
                    n == data@.len(),
                    n <= usize::MAX / 4,
                    bs_mem.list_live(l),
                    l == chunk_list as int,
                    rl == chunk_list_reference as int,
                    rl != l,
                    !m0.list_live(l),
                    m0.list_live(rl),
                    m0.others_stable(*bs_mem, l),
                    crate::chunk::chunk_users_ok(&m0, bs_mem),
                    bs_mem.state == m0.state,
                    bs_mem.chunk_list@.len() <= m0.chunk_list@.len() + 1,
                    bs_mem.list_at(l).total_size == i_prev,
                    bs_mem.list_at(l).users == 0,
                    bs_mem.list_nonhead_min(l, min),
                    rrefs == m0.list_refs(rl),
                    m0.wf(st),
                    m0.list_nonhead_min(rl, min),
                    rrefs.len() == nrefs,
                    slast <= nrefs,
                    m0.refs_bytes(rrefs.skip(slast as int)) == data@.subrange(
                        data_len as int,
                        n as int,
                    ),
                    i_table_start <= i_prev,
                    i_table_start as int % st == 0,
                    i_prev <= i,
                    i_prev <= data_len <= n,
                    i <= data_len + info.chunk_stride,
                    i_prev as int % st == 0,
                    (i - i_table_start) as int % st == 0,
                    (data_len - i_table_start) as int % st == 0,
                    data_len as int % st == 0,
                    tha_len as int == (data_len - i_table_start) as int / st,
                    table_hash_array@.len() == tha_len,
                    table@.len() == table_len,
                    table_len >= 1,
                    forall|b: int, e: int|
                        0 <= b < table@.len() && 0 <= e < table@[b].len() ==> (
                        #[trigger] table@[b][e]) < rrefs.len(),
                    bs_mem.list_bytes(l) == data@.subrange(0, i_prev as int),
                    bs_mem.chunk@.len() <= m0.chunk@.len() + 4 + 3 * i_prev,
                    lists_total_refs(bs_mem.chunk_list@) <= lists_total_refs(m0.chunk_list@) + 4
                        + 3 * i_prev,
                    m0.chunk@.len() + 3 * n + 8 <= usize::MAX,
                    lists_total_refs(m0.chunk_list@) + 3 * n + 8 <= usize::MAX,
                decreases data_len + info.chunk_stride - i,
            {
                let ghost m_top = *bs_mem;
                proof {
                    crate::hash::lemma_stride_index_lt(
                        (i - i_table_start) as int,
                        (data_len - i_table_start) as int,
                        st,
                    );
                }
                let found = table_lookup(
                    info,
                    bs_mem,
                    chunk_list_reference,
                    &table,
                    i_table_start,
                    data,
                    data_len,
                    i,
                    &table_hash_array,
                );
                match found {
                    Some(pos_f) => {
                        if i > i_prev {
                            let ghost mi = *bs_mem;
                            proof {
                                crate::chunk::lemma_mod_diff_zero(
                                    i_prev as int,
                                    i_table_start as int,
                                    st,
                                );
                                crate::chunk::lemma_mod_diff_zero(
                                    (i - i_table_start) as int,
                                    (i_prev - i_table_start) as int,
                                    st,
                                );

                            }
                            bchunk_list_append_data_n(
                                info,
                                bs_mem,
                                chunk_list,
                                data,
                                i_prev,
                                i,
                            );
                            proof {
                                m0.lemma_others_stable_trans(mi, *bs_mem, l);
                            crate::chunk::lemma_chunk_users_ok_trans(&m0, &mi, bs_mem);
                                assert(data@.subrange(0, i_prev as int) + data@.subrange(
                                    i_prev as int,
                                    i as int,
                                ) =~= data@.subrange(0, i as int));
                            }
                            i_prev = i;
                        }
                        proof {
                            crate::chunk::lemma_mod_sum_zero(
                                (i - i_table_start) as int,
                                i_table_start as int,
                                st,
                            );
                            assert(i as int % st == 0);
                        }
                        let c = {
                            let cl = bs_mem.chunk_list.get(chunk_list_reference);
                            *cl.chunk_refs.at_index(pos_f).unwrap()
                        };
                        let clen = bs_mem.chunk.get(c).data.len();
                        proof {
                            // the candidate's bytes are unchanged since the
                            // lookup, so the match carries over
                            assert(bs_mem.list_refs(rl) == rrefs);
                            assert(m_top.list_refs(rl) == rrefs);
                            assert(c == rrefs[pos_f as int]);
                            assert(m0.list_refs_live(rl));
                            assert(m0.chunk_live((rrefs[pos_f as int]) as int));
                            assert(m_top.chunk_live((#[trigger] m0.list_refs(
                                rl,
                            )[pos_f as int]) as int) && m_top.chunk_bytes(
                                m0.list_refs(rl)[pos_f as int] as int,
                            ) == m0.chunk_bytes(m0.list_refs(rl)[pos_f as int] as int));
                            assert(bs_mem.chunk_live((#[trigger] m0.list_refs(
                                rl,
                            )[pos_f as int]) as int) && bs_mem.chunk_bytes(
                                m0.list_refs(rl)[pos_f as int] as int,
                            ) == m0.chunk_bytes(m0.list_refs(rl)[pos_f as int] as int));
                            assert(bs_mem.chunk_bytes(c as int) == m_top.chunk_bytes(c as int));
                            assert(clen == m_top.chunk_len(c as int));
                            assert(i + clen <= data_len);
                            assert(bs_mem.chunk_bytes(c as int) == data@.subrange(
                                i as int,
                                (i + clen) as int,
                            ));
                            assert(1 <= bs_mem.chunk_len(c as int));
                        }
                        let ghost mi = *bs_mem;
                        bchunk_list_append(info, bs_mem, chunk_list, c);
                        proof {
                            m0.lemma_others_stable_trans(mi, *bs_mem, l);
                            crate::chunk::lemma_chunk_users_ok_trans(&m0, &mi, bs_mem);
                            assert(data@.subrange(0, i as int) + data@.subrange(
                                i as int,
                                (i + clen) as int,
                            ) =~= data@.subrange(0, (i + clen) as int));
                            crate::chunk::lemma_mod_sum_zero(
                                (i - i_table_start) as int,
                                clen as int,
                                st,
                            );
                            crate::chunk::lemma_mod_sum_zero(i_prev as int, clen as int, st);
                        }
                        i = i + clen;
                        i_prev = i;
                        // runs of sequentially identical chunks are likely:
                        // consume them without further lookups
                        let ghost i_enter = i;
                        let mut pf = pos_f;
                        while pf + 1 < nrefs && pf + 1 != slast && ref_chunk_matches(
                            bs_mem,
                            chunk_list_reference,
                            pf + 1,
                            data,
                            data_len,
                            i_prev,
                        )
                            invariant
                                info.wf(),
                                bs_mem.wf(st),
                                st == info.chunk_stride as int,
                                min == info.chunk_byte_size_min as int,
                                n == data@.len(),
                                n <= usize::MAX / 4,
                                bs_mem.list_live(l),
                                l == chunk_list as int,
                                rl == chunk_list_reference as int,
                                rl != l,
                                !m0.list_live(l),
                                m0.list_live(rl),
                                m0.others_stable(*bs_mem, l),
                                crate::chunk::chunk_users_ok(&m0, bs_mem),
                                bs_mem.state == m0.state,
                                bs_mem.chunk_list@.len() <= m0.chunk_list@.len() + 1,
                                bs_mem.list_at(l).total_size == i_prev,
                                bs_mem.list_at(l).users == 0,
                                bs_mem.list_nonhead_min(l, min),
                                rrefs == m0.list_refs(rl),
                                m0.wf(st),
                                m0.list_nonhead_min(rl, min),
                                rrefs.len() == nrefs,
                                pf < nrefs,
                                i == i_prev,
                                i_enter <= i,
                                i_table_start <= i_prev <= data_len <= n,
                                i_prev as int % st == 0,
                                (i - i_table_start) as int % st == 0,
                                bs_mem.list_bytes(l) == data@.subrange(0, i_prev as int),
                                bs_mem.chunk@.len() <= m0.chunk@.len() + 4 + 3 * i_prev,
                                lists_total_refs(bs_mem.chunk_list@) <= lists_total_refs(
                                    m0.chunk_list@,
                                ) + 4 + 3 * i_prev,
                                m0.chunk@.len() + 3 * n + 8 <= usize::MAX,
                                lists_total_refs(m0.chunk_list@) + 3 * n + 8 <= usize::MAX,
                            decreases data_len - i_prev,
                        {
                            let c2 = {
                                let cl = bs_mem.chunk_list.get(chunk_list_reference);
                                *cl.chunk_refs.at_index(pf + 1).unwrap()
                            };
                            let clen2 = bs_mem.chunk.get(c2).data.len();
                            let ghost mi2 = *bs_mem;
                            bchunk_list_append(info, bs_mem, chunk_list, c2);
                            proof {
                                m0.lemma_others_stable_trans(mi2, *bs_mem, l);
                                crate::chunk::lemma_chunk_users_ok_trans(&m0, &mi2, bs_mem);
                                assert(data@.subrange(0, i_prev as int) + data@.subrange(
                                    i_prev as int,
                                    (i_prev + clen2) as int,
                                ) =~= data@.subrange(0, (i_prev + clen2) as int));
                                crate::chunk::lemma_mod_sum_zero(
                                    (i - i_table_start) as int,
                                    clen2 as int,
                                    st,
                                );
                                crate::chunk::lemma_mod_sum_zero(
                                    i_prev as int,
                                    clen2 as int,
                                    st,
                                );
                            }
                            i = i + clen2;
                            i_prev = i;
                            pf = pf + 1;
                        }
                    },
                    None => {
                        i = i + info.chunk_stride;
                        proof {
                            vstd::arithmetic::div_mod::lemma_mod_multiples_basic(1, st);
                            crate::chunk::lemma_mod_sum_zero(
                                (i - info.chunk_stride - i_table_start) as int,
                                st,
                                st,
                            );
                        }
                    },
                }
            }
        }
    }

    // ------------------------------------------------------------------
    // Write whatever is left of the reduced span as fresh chunks.
    if i_prev < data_len {
        let ghost mi = *bs_mem;
        proof {
            crate::chunk::lemma_mod_diff_zero(data_len as int, i_prev as int, st);
        }
        bchunk_list_append_data_n(info, bs_mem, chunk_list, data, i_prev, data_len);
        proof {
            m0.lemma_others_stable_trans(mi, *bs_mem, l);
            crate::chunk::lemma_chunk_users_ok_trans(&m0, &mi, bs_mem);
            assert(data@.subrange(0, i_prev as int) + data@.subrange(
                i_prev as int,
                data_len as int,
            ) =~= data@.subrange(0, data_len as int));
        }
        i_prev = data_len;
    }
}

/// Append the deferred suffix run of the reference list to the list under
/// construction; its chunks are already well sized.  The list then spells
/// out `data` exactly, and everything reachable from other lists stays
/// untouched.
#[verifier::spinoff_prover]
fn merge_append_reference_tail(
    info: &BArrayInfo,
    bs_mem: &mut BArrayMemory,
    chunk_list: usize,
    chunk_list_reference: usize,
    slast: usize,
    nrefs: usize,
    off0: usize,
    data: &[u8],
    Ghost(m0): Ghost<BArrayMemory>,
)
    requires
        info.wf(),
        old(bs_mem).wf(info.chunk_stride as int),
        old(bs_mem).list_live(chunk_list as int),
        chunk_list != chunk_list_reference,
        !m0.list_live(chunk_list as int),
        m0.list_live(chunk_list_reference as int),
        m0.wf(info.chunk_stride as int),
        m0.others_stable(*old(bs_mem), chunk_list as int),
        crate::chunk::chunk_users_ok(&m0, old(bs_mem)),
        old(bs_mem).state == m0.state,
        old(bs_mem).chunk_list@.len() <= m0.chunk_list@.len() + 1,
        old(bs_mem).list_at(chunk_list as int).total_size == off0,
        old(bs_mem).list_at(chunk_list as int).users == 0,
        old(bs_mem).list_nonhead_min(chunk_list as int, info.chunk_byte_size_min as int),
        m0.list_nonhead_min(chunk_list_reference as int, info.chunk_byte_size_min as int),
        nrefs == m0.list_refs(chunk_list_reference as int).len(),
        slast <= nrefs,
        slast < nrefs ==> slast >= 1,
        off0 <= data@.len(),
        data@.len() <= usize::MAX / 4,
        m0.refs_bytes(
            m0.list_refs(chunk_list_reference as int).subrange(slast as int, nrefs as int),
        ) == data@.subrange(off0 as int, data@.len() as int),
        old(bs_mem).list_bytes(chunk_list as int) == data@.subrange(0, off0 as int),
        old(bs_mem).chunk@.len() <= m0.chunk@.len() + 6 + 3 * off0,
        lists_total_refs(old(bs_mem).chunk_list@) <= lists_total_refs(m0.chunk_list@) + 6 + 3
            * off0,
        m0.chunk@.len() + 3 * data@.len() + 8 <= usize::MAX,
        lists_total_refs(m0.chunk_list@) + 3 * data@.len() + 8 <= usize::MAX,
    ensures
        final(bs_mem).wf(info.chunk_stride as int),
        crate::chunk::chunk_users_ok(&m0, final(bs_mem)),
        m0.others_stable(*final(bs_mem), chunk_list as int),
        final(bs_mem).state == m0.state,
        final(bs_mem).list_live(chunk_list as int),
        final(bs_mem).list_bytes(chunk_list as int) == data@,
        final(bs_mem).list_at(chunk_list as int).total_size == data@.len(),
        final(bs_mem).list_at(chunk_list as int).users == 0,
        final(bs_mem).list_nonhead_min(chunk_list as int, info.chunk_byte_size_min as int),
        final(bs_mem).chunk_list@.len() <= m0.chunk_list@.len() + 1,
        final(bs_mem).chunk@.len() <= m0.chunk@.len() + 3 * data@.len() + 8,
        lists_total_refs(final(bs_mem).chunk_list@) <= lists_total_refs(m0.chunk_list@) + 3
            * data@.len() + 8,
        forall|l2: int|
            m0.list_live(l2) ==> final(bs_mem).list_live(l2) && final(bs_mem).list_at(l2)
                == m0.list_at(l2) && final(bs_mem).list_bytes(l2) == m0.list_bytes(l2),
        forall|l2: int, k: int|
            m0.list_live(l2) && 0 <= k < m0.list_refs(l2).len() ==> final(bs_mem).chunk_live(
                (#[trigger] m0.list_refs(l2)[k]) as int,
            ) && final(bs_mem).chunk_bytes(m0.list_refs(l2)[k] as int) == m0.chunk_bytes(
                m0.list_refs(l2)[k] as int,
            ),
{
    let ghost l = chunk_list as int;
    let ghost rl = chunk_list_reference as int;
    let ghost rrefs = m0.list_refs(rl);
    let ghost st = info.chunk_stride as int;
    let ghost min = info.chunk_byte_size_min as int;
    let n = data.len();
    let data_len = off0;
    let mut off = off0;
    let mut sj = slast;
    proof {
        assert(rrefs.subrange(slast as int, nrefs as int) =~= rrefs.skip(slast as int));
    }
    while sj < nrefs
        invariant
            info.wf(),
            bs_mem.wf(st),
            st == info.chunk_stride as int,
            min == info.chunk_byte_size_min as int,
            n == data@.len(),
            n <= usize::MAX / 4,
            bs_mem.list_live(l),
            l == chunk_list as int,
            rl == chunk_list_reference as int,
            rl != l,
            !m0.list_live(l),
            m0.list_live(rl),
            m0.others_stable(*bs_mem, l),
            crate::chunk::chunk_users_ok(&m0, bs_mem),
            bs_mem.state == m0.state,
            bs_mem.chunk_list@.len() <= m0.chunk_list@.len() + 1,
            bs_mem.list_at(l).total_size == off,
            bs_mem.list_at(l).users == 0,
            bs_mem.list_nonhead_min(l, min),
            rrefs == m0.list_refs(rl),
            m0.wf(st),
            m0.list_nonhead_min(rl, min),
            rrefs.len() == nrefs,
            slast <= sj <= nrefs,
            slast < nrefs ==> slast >= 1,
            data_len <= off <= n,
            m0.refs_bytes(rrefs.subrange(sj as int, nrefs as int)) == data@.subrange(
                off as int,
                n as int,
            ),
            bs_mem.list_bytes(l) == data@.subrange(0, off as int),
            bs_mem.chunk@.len() <= m0.chunk@.len() + 6 + 3 * data_len,
            lists_total_refs(bs_mem.chunk_list@) <= lists_total_refs(m0.chunk_list@) + 6 + 3
                * data_len + (off - data_len),
            m0.chunk@.len() + 3 * n + 8 <= usize::MAX,
            lists_total_refs(m0.chunk_list@) + 3 * n + 8 <= usize::MAX,
        decreases nrefs - sj,
    {
        proof {
            assert(rrefs.subrange(sj as int, nrefs as int) =~= seq![rrefs[sj as int]]
                + rrefs.subrange(sj as int + 1, nrefs as int));
            m0.lemma_refs_bytes_concat(
                seq![rrefs[sj as int]],
                rrefs.subrange(sj as int + 1, nrefs as int),
            );
            m0.lemma_refs_bytes_single(rrefs[sj as int]);
            assert(m0.list_refs_live(rl));
            assert(m0.chunk_live((rrefs[sj as int]) as int));
            assert(bs_mem.list_live(rl) && bs_mem.list_at(rl) == m0.list_at(rl));
            assert(bs_mem.chunk_live((#[trigger] m0.list_refs(rl)[sj as int]) as int)
                && bs_mem.chunk_bytes(m0.list_refs(rl)[sj as int] as int) == m0.chunk_bytes(
                m0.list_refs(rl)[sj as int] as int,
            ));
            assert(m0.chunk_len(rrefs[sj as int] as int) >= min);
        }
        let c = {
            let cl = bs_mem.chunk_list.get(chunk_list_reference);
            *cl.chunk_refs.at_index(sj).unwrap()
        };
        let clen = bs_mem.chunk.get(c).data.len();
        proof {
            assert(clen == m0.chunk_len(rrefs[sj as int] as int));
            assert(m0.refs_bytes(rrefs.subrange(sj as int, nrefs as int)).len() == n - off);
            assert(off + clen <= n);
            assert(m0.chunk_bytes(rrefs[sj as int] as int) =~= data@.subrange(
                off as int,
                (off + clen) as int,
            ));
            let rest = m0.refs_bytes(rrefs.subrange(sj as int + 1, nrefs as int));
            assert(m0.chunk_bytes(rrefs[sj as int] as int) + rest == data@.subrange(
                off as int,
                n as int,
            ));
            assert(rest =~= (m0.chunk_bytes(rrefs[sj as int] as int) + rest).skip(clen as int));
            assert(data@.subrange(off as int, n as int).skip(clen as int) =~= data@.subrange(
                (off + clen) as int,
                n as int,
            ));
            assert(rest == data@.subrange((off + clen) as int, n as int));
        }
        let ghost mi = *bs_mem;
        bchunk_list_append_only(bs_mem, chunk_list, c);
        proof {
            m0.lemma_others_stable_trans(mi, *bs_mem, l);
            crate::chunk::lemma_chunk_users_ok_trans(&m0, &mi, bs_mem);
            assert(data@.subrange(0, off as int) + data@.subrange(
                off as int,
                (off + clen) as int,
            ) =~= data@.subrange(0, (off + clen) as int));
            assert forall|k: int| 1 <= k < bs_mem.list_refs(l).len() implies bs_mem.chunk_len(
                (#[trigger] bs_mem.list_refs(l)[k]) as int,
            ) >= min by {
                if k == mi.list_refs(l).len() {
                    assert(bs_mem.list_refs(l)[k] == c);
                } else {
                    assert(bs_mem.list_refs(l)[k] == mi.list_refs(l)[k]);
                    assert(mi.chunk_live((mi.list_refs(l)[k]) as int));
                    assert(bs_mem.chunk_bytes(mi.list_refs(l)[k] as int) == mi.chunk_bytes(
                        mi.list_refs(l)[k] as int,
                    ));
                }
            }
            assert forall|s2: int| mi.wf(s2) implies bs_mem.wf(s2) by {
                assert forall|c2: int| #[trigger] bs_mem.chunk_live(c2) implies mi.chunk_live(c2)
                    && bs_mem.chunk_at(c2).key == mi.chunk_at(c2).key && bs_mem.chunk_bytes(c2)
                    == mi.chunk_bytes(c2) by {
                    assert(mi.chunk_live(c2));
                }
                crate::chunk::lemma_keys_consistent_stable(&mi, bs_mem, s2);
            }
        }
        off = off + clen;
        sj = sj + 1;
    }
    proof {
        assert(rrefs.subrange(nrefs as int, nrefs as int) =~= Seq::<usize>::empty());
        assert(data@.subrange(off as int, n as int).len() == 0);
        assert(off == n);
        assert(bs_mem.list_bytes(l) =~= data@);
        assert forall|l2: int| m0.list_live(l2) implies bs_mem.list_live(l2) && bs_mem.list_at(l2)
            == m0.list_at(l2) && bs_mem.list_bytes(l2) == m0.list_bytes(l2) by {
            m0.lemma_others_stable_bytes(*bs_mem, l, l2);
        }
        assert forall|l2: int, k: int|
            m0.list_live(l2) && 0 <= k < m0.list_refs(l2).len() implies bs_mem.chunk_live(
            (#[trigger] m0.list_refs(l2)[k]) as int,
        ) && bs_mem.chunk_bytes(m0.list_refs(l2)[k] as int) == m0.chunk_bytes(
            m0.list_refs(l2)[k] as int,
        ) by {}
    }
}

} // verus!