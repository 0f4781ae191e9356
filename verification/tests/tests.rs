// Behavioural tests for the array store: round trips, compaction counts,
// store self-checks, and the pooled allocator.

use block_array_cow::list_base::ListBase;
use block_array_cow::mempool_elem::MemPool;
use block_array_cow::{BArrayState, BArrayStore};

// --------------------------------------------------------------------
// A small deterministic generator (a classic linear congruential step).

const MULTIPLIER: u64 = 0x5DEECE66D_u64;
const MASK: u64 = 0x0000FFFFFFFFFFFF_u64;
const ADDEND: u64 = 0xB;
const LOWSEED: u64 = 0x330E;

struct Rng {
    x: u64,
}

impl Rng {
    fn seed_value(seed: u32) -> u64 {
        (seed as u64).wrapping_shl(16) | LOWSEED
    }

    fn new(seed: u32) -> Self {
        Rng { x: Rng::seed_value(seed) }
    }

    fn seed(&mut self, seed: u32) {
        self.x = Rng::seed_value(seed);
    }

    fn step(&mut self) {
        self.x = MULTIPLIER.wrapping_mul(self.x).wrapping_add(ADDEND) & MASK;
    }

    fn next_u8(&mut self) -> u8 {
        self.step();
        (self.x % 256_u64) as u8
    }

    fn next_u32(&mut self) -> u32 {
        self.step();
        self.x.wrapping_shr(17) as u32
    }

    fn next_usize(&mut self) -> usize {
        let mut v: u64 = 0;
        for b in 0..8 {
            v |= (self.next_u8() as u64) << (8 * b);
        }
        v as usize
    }

    fn fill(&mut self, slice: &mut [u8]) {
        for v in slice.iter_mut() {
            *v = self.next_u8();
        }
    }

    fn shuffle<T>(&mut self, slice: &mut [T]) {
        let len = slice.len();
        for i in 0..len {
            let j = (self.x as usize) % len;
            if i != j {
                slice.swap(i, j);
            }
        }
    }
}

// --------------------------------------------------------------------
// Test chunks (building data from a list of chunks)

struct TestChunk {
    data: Vec<u8>,
}

fn testchunk_as_data_array(tc_array: &Vec<TestChunk>) -> Vec<u8> {
    let mut data: Vec<u8> = Vec::new();
    for c in tc_array {
        data.extend_from_slice(&c.data[..]);
    }
    data
}

// --------------------------------------------------------------------
// Test buffers: local copies of the data to compare with the store

struct TestBuffer {
    data: Vec<u8>,
    state: Option<BArrayState>,
}

fn testbuffer_list_add(cl: &mut Vec<TestBuffer>, data: Vec<u8>) {
    cl.push(TestBuffer { data, state: None });
}

fn testbuffer_list_state_from_data(cl: &mut Vec<TestBuffer>, data: &[u8]) {
    testbuffer_list_add(cl, data.to_vec());
}

/// Expand each byte `stride` times, so the same text exercises wider
/// strides.
fn testbuffer_list_state_from_data_ex_stride_expand(
    cl: &mut Vec<TestBuffer>,
    data: &[u8],
    stride: usize,
) {
    if stride == 1 {
        testbuffer_list_state_from_data(cl, data);
    } else {
        let mut data_stride: Vec<u8> = Vec::new();
        for c in data {
            for _ in 0..stride {
                data_stride.push(*c);
            }
        }
        testbuffer_list_add(cl, data_stride);
    }
}

fn testbuffer_strings_create(cl: &mut Vec<TestBuffer>, strings: Vec<&[u8]>) {
    cl.clear();
    for data in strings {
        testbuffer_list_state_from_data(cl, data);
    }
}

fn testbuffer_item_validate(bs: &BArrayStore, tb: &TestBuffer) -> bool {
    let data_state = bs.state_data_get_alloc(tb.state.unwrap());
    tb.data.len() == data_state.len() && &data_state[..] == &tb.data[..]
}

fn testbuffer_list_validate(bs: &BArrayStore, cl: &Vec<TestBuffer>) -> bool {
    for tb in cl {
        if !testbuffer_item_validate(bs, tb) {
            return false;
        }
    }
    true
}

fn testbuffer_list_data_randomize(cl: &mut Vec<TestBuffer>, mut random_seed: u32) {
    let mut rng = Rng::new(0);
    for tb in cl.iter_mut() {
        rng.seed(random_seed);
        rng.shuffle(&mut tb.data[..]);
        random_seed += 1;
    }
}

fn testbuffer_list_store_populate(bs: &mut BArrayStore, cl: &mut Vec<TestBuffer>) {
    let mut state_prev: Option<BArrayState> = None;
    for tb in cl.iter_mut() {
        let state = bs.state_add(&tb.data[..], state_prev);
        tb.state = Some(state);
        state_prev = Some(state);
    }
}

fn testbuffer_list_store_clear(bs: &mut BArrayStore, cl: &mut Vec<TestBuffer>) {
    for tb in cl.iter_mut() {
        bs.state_remove(tb.state.unwrap());
        tb.state = None;
    }
}

fn testbuffer_run_tests_single(bs: &mut BArrayStore, cl: &mut Vec<TestBuffer>) {
    testbuffer_list_store_populate(bs, cl);
    assert!(testbuffer_list_validate(bs, cl));
    assert!(bs.is_valid());
}

/// Run forwards, then reversed, clearing in between.
fn testbuffer_run_tests(bs: &mut BArrayStore, cl: &mut Vec<TestBuffer>) {
    testbuffer_run_tests_single(bs, cl);
    testbuffer_list_store_clear(bs, cl);

    cl.reverse();

    testbuffer_run_tests_single(bs, cl);
    testbuffer_list_store_clear(bs, cl);
}

fn testbuffer_run_tests_simple(cl: &mut Vec<TestBuffer>, stride: usize, chunk_count: usize) {
    let mut bs = BArrayStore::new(stride, chunk_count);
    testbuffer_run_tests(&mut bs, cl);
    bs.clear();
}

fn testbuffer_strings(stride: usize, chunk_count: usize, strings: Vec<&[u8]>) {
    let mut cl: Vec<TestBuffer> = Vec::new();
    testbuffer_strings_create(&mut cl, strings);
    testbuffer_run_tests_simple(&mut cl, stride, chunk_count);
}

// --------------------------------------------------------------------
// Basic tests

#[test]
fn nop() {
    let mut bs = BArrayStore::new(1, 32);
    bs.clear();
}

#[test]
fn nop_state() {
    let mut bs = BArrayStore::new(1, 32);
    let data = b"test";
    let state = bs.state_add(data, None);
    assert_eq!(4, bs.state_size_get(state));
    bs.state_remove(state);
    bs.clear();
}

#[test]
fn single() {
    let mut bs = BArrayStore::new(1, 32);
    let data_src = b"test";
    let state = bs.state_add(data_src, None);
    let data_dst = bs.state_data_get_alloc(state);
    assert_eq!(data_src.len(), data_dst.len());
    assert_eq!(data_src, &data_dst[..]);
}

#[test]
fn double_nop() {
    let mut bs = BArrayStore::new(1, 32);
    let data_src = b"test";

    let state_a = bs.state_add(data_src, None);
    let state_b = bs.state_add(data_src, Some(state_a));

    assert_eq!(bs.calc_size_compacted_get(), data_src.len());
    assert_eq!(bs.calc_size_expanded_get(), data_src.len() * 2);

    let mut data_dst;
    data_dst = bs.state_data_get_alloc(state_a);
    assert_eq!(data_src, &data_dst[..]);

    data_dst = bs.state_data_get_alloc(state_b);
    assert_eq!(data_src, &data_dst[..]);
}

#[test]
fn double_diff() {
    let mut bs = BArrayStore::new(1, 32);
    let data_src_a = b"test";
    let data_src_b = b"####";

    let state_a = bs.state_add(data_src_a, None);
    let state_b = bs.state_add(data_src_b, Some(state_a));

    assert_eq!(bs.calc_size_compacted_get(), data_src_a.len() * 2);
    assert_eq!(bs.calc_size_expanded_get(), data_src_a.len() * 2);

    let mut data_dst;
    data_dst = bs.state_data_get_alloc(state_a);
    assert_eq!(data_src_a, &data_dst[..]);

    data_dst = bs.state_data_get_alloc(state_b);
    assert_eq!(data_src_b, &data_dst[..]);
}

#[test]
fn text_mixed() {
    testbuffer_strings(1, 4, vec![b""]);
    testbuffer_strings(1, 4, vec![b"test"]);
    testbuffer_strings(1, 4, vec![b"", b"test"]);
    testbuffer_strings(1, 4, vec![b"test", b""]);
    testbuffer_strings(1, 4, vec![b"test", b"", b"test"]);
    testbuffer_strings(1, 4, vec![b"", b"test", b""]);
}

#[test]
fn text_dupe_increase_decrease() {
    let mut cl: Vec<TestBuffer> = Vec::new();

    let d = "#1#2#3#4";
    let d2 = "#1#2#3#4#1#2#3#4";
    let d3 = "#1#2#3#4#1#2#3#4#1#2#3#4";
    let d4 = "#1#2#3#4#1#2#3#4#1#2#3#4#1#2#3#4";
    let chunk_size = 8;
    testbuffer_strings_create(
        &mut cl,
        vec![d.as_bytes(), d2.as_bytes(), d3.as_bytes(), d4.as_bytes()],
    );

    let mut bs = BArrayStore::new(1, chunk_size);

    // forward: each appended state reuses all previous content
    testbuffer_list_store_populate(&mut bs, &mut cl);
    assert!(testbuffer_list_validate(&bs, &cl));
    assert!(bs.is_valid());
    assert_eq!(bs.calc_size_compacted_get(), chunk_size);

    testbuffer_list_store_clear(&mut bs, &mut cl);
    cl.reverse();

    // backwards: the first (largest) state seeds the store
    testbuffer_list_store_populate(&mut bs, &mut cl);
    assert!(testbuffer_list_validate(&bs, &cl));
    assert!(bs.is_valid());
    assert_eq!(bs.calc_size_compacted_get(), chunk_size * 4);
}

// --------------------------------------------------------------------
// Plain text tests

// A fixed corpus of plain sentences; the different delimiters below slice it
// into states in different ways.
const WORDS: &str = "a store keeps many near copies of one array. each copy \
points back at the blocks it shares. quick edits leave most of the bytes in \
place. the engine scans both ends before it hashes anything. a match at the \
head is the cheap and common case. a match at the tail saves the table from \
growing. blocks in between are found again by their keys. a key is only a \
hint and bytes decide in the end. big arrays split into blocks of a fixed \
grain. small leftovers merge into their left neighbour. grown blocks split \
once they pass twice the grain. no block below the floor survives in a grown \
list. every revision reads back byte for byte. removing a revision frees \
what nothing else shares. the counts of users are kept exact at all times. \
pools hand out slots and take them back for reuse. a cleared store starts \
over with empty pools. the order of revisions never matters to the engine. \
a reference may be any live revision of the store. strides group bytes so \
elements never tear. a quiet byte quits quickly under queue pressure. nine \
nights navigate narrow numeric nets. gray gulls glide over green gardens. \
brave bears bring back bright berries. all answers arrive after ample \
analysis. the final sentence just pads the corpus a little more.";

/// Build states by splitting the corpus on a delimiter, expand to the
/// stride, optionally shuffle each state's bytes, then run the round-trip
/// suite in both directions.
fn plain_text_helper(words: &[u8], word_delim: u8, stride: usize, chunk_count: usize, random_seed: u32) {
    let mut cl: Vec<TestBuffer> = Vec::new();

    let mut i_prev = 0;
    for i in 0..words.len() {
        if words[i] == word_delim {
            if i != i_prev {
                testbuffer_list_state_from_data_ex_stride_expand(&mut cl, &words[i_prev..i], stride);
            }
            i_prev = i;
        }
    }
    if i_prev + 1 != words.len() {
        testbuffer_list_state_from_data_ex_stride_expand(&mut cl, &words[i_prev..], stride);
    }

    if random_seed != 0 {
        testbuffer_list_data_randomize(&mut cl, random_seed);
    }

    testbuffer_run_tests_simple(&mut cl, stride, chunk_count);
}

// split by '.' (multiple words)
#[test]
fn text_sentences_chunk_1() {
    plain_text_helper(WORDS.as_bytes(), b'.', 1, 1, 0);
}
#[test]
fn text_sentences_chunk_2() {
    plain_text_helper(WORDS.as_bytes(), b'.', 1, 2, 0);
}
#[test]
fn text_sentences_chunk_8() {
    plain_text_helper(WORDS.as_bytes(), b'.', 1, 8, 0);
}
#[test]
fn text_sentences_chunk_32() {
    plain_text_helper(WORDS.as_bytes(), b'.', 1, 32, 0);
}
#[test]
fn text_sentences_chunk_128() {
    plain_text_helper(WORDS.as_bytes(), b'.', 1, 128, 0);
}
#[test]
fn text_sentences_chunk_1024() {
    plain_text_helper(WORDS.as_bytes(), b'.', 1, 1024, 0);
}
// odd numbers
#[test]
fn text_sentences_chunk_3() {
    plain_text_helper(WORDS.as_bytes(), b'.', 1, 3, 0);
}
#[test]
fn text_sentences_chunk_13() {
    plain_text_helper(WORDS.as_bytes(), b'.', 1, 13, 0);
}
#[test]
fn text_sentences_chunk_131() {
    plain_text_helper(WORDS.as_bytes(), b'.', 1, 131, 0);
}

// split by ' ', individual words
#[test]
fn text_words_chunk_1() {
    plain_text_helper(WORDS.as_bytes(), b' ', 1, 1, 0);
}
#[test]
fn text_words_chunk_2() {
    plain_text_helper(WORDS.as_bytes(), b' ', 1, 2, 0);
}
#[test]
fn text_words_chunk_8() {
    plain_text_helper(WORDS.as_bytes(), b' ', 1, 8, 0);
}
#[test]
fn text_words_chunk_32() {
    plain_text_helper(WORDS.as_bytes(), b' ', 1, 32, 0);
}
#[test]
fn text_words_chunk_128() {
    plain_text_helper(WORDS.as_bytes(), b' ', 1, 128, 0);
}
#[test]
fn text_words_chunk_1024() {
    plain_text_helper(WORDS.as_bytes(), b' ', 1, 1024, 0);
}
// odd numbers
#[test]
fn text_words_chunk_3() {
    plain_text_helper(WORDS.as_bytes(), b' ', 1, 3, 0);
}
#[test]
fn text_words_chunk_13() {
    plain_text_helper(WORDS.as_bytes(), b' ', 1, 13, 0);
}
#[test]
fn text_words_chunk_131() {
    plain_text_helper(WORDS.as_bytes(), b' ', 1, 131, 0);
}

// various tests with different strides and randomizing
#[test]
fn text_sentences_random_stride3_chunk3() {
    plain_text_helper(WORDS.as_bytes(), b'q', 3, 3, 7337);
}
#[test]
fn text_sentences_random_stride8_chunk8() {
    plain_text_helper(WORDS.as_bytes(), b'n', 8, 8, 5667);
}
#[test]
fn text_sentences_random_stride32_chunk1() {
    plain_text_helper(WORDS.as_bytes(), b'a', 1, 32, 1212);
}
#[test]
fn text_sentences_random_stride12_chunk512() {
    plain_text_helper(WORDS.as_bytes(), b'g', 12, 512, 9999);
}
#[test]
fn text_sentences_random_stride128_chunk6() {
    plain_text_helper(WORDS.as_bytes(), b'b', 20, 6, 1000);
}

// --------------------------------------------------------------------
// Random data tests

fn rand_range_i(rng: &mut Rng, min_i: usize, max_i: usize, step: usize) -> usize {
    if min_i == max_i {
        return min_i;
    }
    let range: usize = max_i - min_i;
    min_i + (((rng.next_usize() % range) / step) * step)
}

/// Rotate the array of `arr_len` elements of `arr_stride` bytes one step.
fn array_wrap(arr: &mut [u8], arr_len: usize, arr_stride: usize, reverse: bool) {
    if !reverse {
        arr[0..arr_len * arr_stride].rotate_left(arr_stride);
    } else {
        arr[0..arr_len * arr_stride].rotate_right(arr_stride);
    }
}

fn testbuffer_list_state_random_data(
    cl: &mut Vec<TestBuffer>,
    stride: usize,
    data_min_len: usize,
    data_max_len: usize,
    mutate: usize,
    rng: &mut Rng,
) {
    let mut data_len: usize = rand_range_i(rng, data_min_len, data_max_len + stride, stride);
    let mut data: Vec<u8> = vec![0u8; data_len];
    if cl.is_empty() {
        rng.fill(&mut data[..]);
    } else {
        let tb_last_len = cl.last().unwrap().data.len();
        if tb_last_len >= data_len {
            data.clone_from_slice(&cl.last().unwrap().data[0..data_len]);
        } else {
            data[0..tb_last_len].clone_from_slice(&cl.last().unwrap().data[..]);
            rng.fill(&mut data[tb_last_len..]);
        }
        // perform multiple small mutations on the array
        for _ in 0..mutate {
            match rng.next_u32() % 5 {
                0 => {
                    // keep the copy as it is
                }
                1 => {
                    // insert one element
                    let offset: usize = rand_range_i(rng, 0, data_len, stride);
                    if data_len < data_max_len {
                        data_len += stride;
                        for _ in 0..stride {
                            data.insert(offset, 0);
                        }
                        rng.fill(&mut data[offset..(offset + stride)]);
                    }
                }
                2 => {
                    // remove one element
                    let offset: usize = rand_range_i(rng, 0, data_len, stride);
                    if data_len > data_min_len && offset + stride <= data_len {
                        for _ in 0..stride {
                            data.remove(offset);
                        }
                        data_len -= stride;
                    }
                }
                3 => {
                    // rotate
                    let items: usize = data_len / stride;
                    if items > 1 {
                        array_wrap(&mut data[..], items, stride, (rng.next_u32() % 2) != 0);
                    }
                }
                4 => {
                    // randomize one element
                    if data_len > 0 {
                        let offset: usize = rand_range_i(rng, 0, data_len - stride, stride);
                        rng.fill(&mut data[offset..(offset + stride)]);
                    }
                }
                _ => {}
            }
        }
    }
    testbuffer_list_add(cl, data);
}

fn random_data_mutate_helper(
    items_size_min: usize,
    items_size_max: usize,
    items_total: usize,
    stride: usize,
    chunk_count: usize,
    random_seed: u32,
    mutate: usize,
) {
    let mut cl: Vec<TestBuffer> = Vec::new();

    let data_min_len = items_size_min * stride;
    let data_max_len = items_size_max * stride;

    {
        let mut rng = Rng::new(random_seed);
        for _ in 0..items_total {
            testbuffer_list_state_random_data(
                &mut cl,
                stride,
                data_min_len,
                data_max_len,
                mutate,
                &mut rng,
            );
        }
    }

    testbuffer_run_tests_simple(&mut cl, stride, chunk_count);
}

#[test]
fn rand_data_stride1_chunk32_mutate2() {
    random_data_mutate_helper(0, 100, 400, 1, 32, 9779, 2);
}
#[test]
fn rand_data_stride8_chunk512_mutate2() {
    random_data_mutate_helper(0, 128, 400, 8, 512, 1001, 2);
}
#[test]
fn rand_data_stride12_chunk48_mutate2() {
    random_data_mutate_helper(200, 256, 400, 12, 48, 1331, 2);
}
#[test]
fn rand_data_stride32_chunk64_mutate1() {
    random_data_mutate_helper(0, 256, 200, 32, 64, 3112, 1);
}
#[test]
fn rand_data_stride32_chunk64_mutate8() {
    random_data_mutate_helper(0, 256, 200, 32, 64, 7117, 8);
}

// --------------------------------------------------------------------
// Randomized chunks: re-ordered content must deduplicate completely

fn random_chunk_generate(
    cl: &mut Vec<TestChunk>,
    chunks_per_buffer: usize,
    stride: usize,
    chunk_count: usize,
    random_seed: u32,
) {
    let mut rng = Rng::new(random_seed);
    let chunk_size_bytes: usize = stride * chunk_count;
    for _ in 0..chunks_per_buffer {
        let mut data_chunk: Vec<u8> = vec![0u8; chunk_size_bytes];
        rng.fill(&mut data_chunk[..]);
        cl.push(TestChunk { data: data_chunk });
    }
}

/// Add random chunks, then re-order them each state, to check that chunk
/// deduplication finds every block again.
fn random_chunk_mutate_helper(
    chunks_per_buffer: usize,
    items_total: usize,
    stride: usize,
    chunk_count: usize,
    random_seed: u32,
) {
    let mut chunks_array: Vec<TestChunk> = Vec::new();
    random_chunk_generate(&mut chunks_array, chunks_per_buffer, stride, chunk_count, random_seed);

    let mut cl: Vec<TestBuffer> = Vec::new();
    {
        let mut rng = Rng::new(random_seed);
        for _ in 0..items_total {
            rng.shuffle(&mut chunks_array[..]);
            let data = testchunk_as_data_array(&chunks_array);
            assert_eq!(data.len(), chunks_per_buffer * chunk_count * stride);
            testbuffer_list_add(&mut cl, data);
        }
    }

    let mut bs = BArrayStore::new(stride, chunk_count);

    testbuffer_run_tests_single(&mut bs, &mut cl);

    let expected_size: usize = chunks_per_buffer * chunk_count * stride;
    assert_eq!(bs.calc_size_compacted_get(), expected_size);
}

#[test]
fn rand_chunk_8_stride1_chunk64() {
    random_chunk_mutate_helper(8, 100, 1, 64, 9779);
}
#[test]
fn rand_chunk_32_stride1_chunk64() {
    random_chunk_mutate_helper(32, 100, 1, 64, 1331);
}
#[test]
fn rand_chunk_64_stride8_chunk32() {
    random_chunk_mutate_helper(64, 100, 8, 32, 2772);
}
#[test]
fn rand_chunk_31_stride11_chunk21() {
    random_chunk_mutate_helper(31, 100, 11, 21, 7117);
}

// --------------------------------------------------------------------
// The pooled allocator on its own

#[test]
fn test_mempool() {
    let total = 128;
    let chunk_size = 2;
    let mut p: MemPool<usize> = MemPool::with_chunk_size(chunk_size);

    for _ in 0..2 {
        // allocate a chain of elements, remembering each handle
        let mut handles: Vec<usize> = Vec::new();
        for i in 0..total {
            let h = p.alloc_elem_from(i);
            handles.push(h);
        }
        assert_eq!(p.len(), total);
        assert!(!p.is_empty());

        // free in reverse, checking each element on the way out
        for i in (0..total).rev() {
            let h = handles[i];
            assert!(p.is_live(h));
            assert_eq!(*p.get(h), i);
            let value = p.free_elem(h);
            assert_eq!(value, i);
        }
        assert!(p.is_empty());
    }
}

// --------------------------------------------------------------------
// The ordered list primitive on its own

#[test]
fn test_list_base() {
    let mut list: ListBase<usize> = ListBase::new();
    assert!(list.is_empty());
    list.push_back(2);
    list.push_front(1);
    list.push_back(3);
    assert_eq!(list.len_calc(), 3);
    assert!(list.is_single() == false);
    assert_eq!(*list.at_index(0).unwrap(), 1);
    assert_eq!(*list.at_index(2).unwrap(), 3);
    assert_eq!(list.index_at(&3), Some(2));
    assert!(list.contains(&2));
    assert!(!list.contains(&7));

    list.push_after(0, 9);
    assert_eq!(*list.at_index(1).unwrap(), 9);
    list.push_before(1, 8);
    assert_eq!(*list.at_index(1).unwrap(), 8);
    let removed = list.remove(1);
    assert_eq!(removed, 8);
    let removed = list.remove(1);
    assert_eq!(removed, 9);

    list.swap_links(0, 2);
    assert_eq!(*list.at_index(0).unwrap(), 3);
    list.reverse();
    assert_eq!(*list.at_index(2).unwrap(), 3);

    let mut other: ListBase<usize> = ListBase::new();
    other.push_back(42);
    list.append(&mut other);
    assert!(other.is_empty());
    assert_eq!(*list.at_index(3).unwrap(), 42);
    assert_eq!(list.len_calc_ex(2), 2);

    let mut it = list.iter();
    let first = *it.next(&list).unwrap();
    assert_eq!(first, *list.at_index(0).unwrap());

    assert_eq!(list.pop_back(), Some(42));
    let expected_front = *list.at_index(0).unwrap();
    assert_eq!(list.pop_front(), Some(expected_front));
    assert!(list.remove_checked(10) == false);
    list.clear();
    assert!(list.is_empty());
}

// --------------------------------------------------------------------
// Documented example and further store behaviour

#[test]
fn quick_brown_fox_roundtrip() {
    let mut bs = BArrayStore::new(1, 8);
    let data_src_a = b"The quick brown fox jumps over the lazy dog";
    let data_src_b = b"The quick brown fox almost jumps over the lazy dog";
    let data_src_c = b"The little quick brown fox jumps over the lazy dog!";

    let state_a = bs.state_add(data_src_a, None);
    let state_b = bs.state_add(data_src_b, Some(state_a));
    let state_c = bs.state_add(data_src_c, Some(state_b));

    let data_dst = bs.state_data_get_alloc(state_a);
    assert_eq!(&data_src_a[..], &data_dst[..]);

    let data_dst = bs.state_data_get_alloc(state_b);
    assert_eq!(&data_src_b[..], &data_dst[..]);

    let data_dst = bs.state_data_get_alloc(state_c);
    assert_eq!(&data_src_c[..], &data_dst[..]);

    assert!(bs.is_valid());
}

#[test]
fn state_data_get_exact_buffer() {
    let mut bs = BArrayStore::new(2, 4);
    let data_src = b"abcdefghij";
    let state = bs.state_add(data_src, None);
    assert_eq!(bs.state_size_get(state), 10);
    let mut out = vec![0u8; 10];
    bs.state_data_get(state, &mut out);
    assert_eq!(&out[..], &data_src[..]);
}

#[test]
fn remove_middle_state() {
    let mut bs = BArrayStore::new(1, 8);
    let a = bs.state_add(b"roses are red violets are blue", None);
    let b = bs.state_add(b"roses are red viulets are blue", Some(a));
    let c = bs.state_add(b"roses are red violets are glue", Some(b));
    bs.state_remove(b);
    assert!(bs.is_valid());
    assert_eq!(&bs.state_data_get_alloc(a)[..], b"roses are red violets are blue");
    assert_eq!(&bs.state_data_get_alloc(c)[..], b"roses are red violets are glue");
    bs.state_remove(a);
    assert!(bs.is_valid());
    assert_eq!(&bs.state_data_get_alloc(c)[..], b"roses are red violets are glue");
    bs.state_remove(c);
    assert!(bs.is_valid());
    assert_eq!(bs.calc_size_compacted_get(), 0);
    assert_eq!(bs.calc_size_expanded_get(), 0);
}

#[test]
fn clear_and_reuse() {
    let mut bs = BArrayStore::new(1, 8);
    let _a = bs.state_add(b"some old content", None);
    bs.clear();
    assert!(bs.is_valid());
    assert_eq!(bs.calc_size_compacted_get(), 0);
    let b = bs.state_add(b"fresh content", None);
    assert_eq!(&bs.state_data_get_alloc(b)[..], b"fresh content");
    assert!(bs.is_valid());
}

#[test]
fn empty_array_roundtrip() {
    let mut bs = BArrayStore::new(4, 8);
    let a = bs.state_add(b"", None);
    let b = bs.state_add(b"", Some(a));
    assert_eq!(bs.state_size_get(a), 0);
    assert_eq!(bs.state_data_get_alloc(b).len(), 0);
    assert_eq!(bs.calc_size_compacted_get(), 0);
    assert!(bs.is_valid());
}

/// Two stores fed the same inputs in the same order answer byte for byte the
/// same from every handle.
#[test]
fn deterministic_across_stores() {
    let inputs: Vec<&[u8]> = vec![
        b"one potato two potato",
        b"one potato three potato",
        b"four potato one potato three potato",
        b"four potato",
    ];
    let mut bs1 = BArrayStore::new(1, 4);
    let mut bs2 = BArrayStore::new(1, 4);
    let mut states1: Vec<BArrayState> = Vec::new();
    let mut states2: Vec<BArrayState> = Vec::new();
    let mut prev1: Option<BArrayState> = None;
    let mut prev2: Option<BArrayState> = None;
    for data in &inputs {
        let s1 = bs1.state_add(data, prev1);
        let s2 = bs2.state_add(data, prev2);
        states1.push(s1);
        states2.push(s2);
        prev1 = Some(s1);
        prev2 = Some(s2);
    }
    for k in 0..inputs.len() {
        assert_eq!(bs1.state_data_get_alloc(states1[k]), bs2.state_data_get_alloc(states2[k]));
    }
    assert_eq!(bs1.calc_size_compacted_get(), bs2.calc_size_compacted_get());
    assert_eq!(bs1.calc_size_expanded_get(), bs2.calc_size_expanded_get());
}

/// A boundary of the self-check: when a one-byte unmatched head is followed
/// by a whole matched suffix chunk, the head survives below the minimum
/// chunk size (merging it would disturb the shared suffix).  The content
/// still reads back exactly; the sweep in `is_valid` reports the undersized
/// survivor.
#[test]
fn undersized_head_survives_suffix_match() {
    let mut bs = BArrayStore::new(1, 32);
    let mut base = vec![0u8; 64];
    for i in 0..64 {
        base[i] = (i % 251) as u8;
    }
    let a = bs.state_add(&base, None);
    // one new byte, then the last 32 bytes of the base
    let mut edited = vec![9u8];
    edited.extend_from_slice(&base[32..64]);
    let b = bs.state_add(&edited, Some(a));
    assert_eq!(&bs.state_data_get_alloc(b)[..], &edited[..]);
    assert!(!bs.is_valid());
}

/// Identical arrays chained by reference share one list: physical storage
/// stays at one copy while the expanded size grows with every state.
#[test]
fn identical_states_compact_once() {
    let mut bs = BArrayStore::new(4, 8);
    let mut data = vec![0u8; 100];
    for i in 0..100 {
        data[i] = (7 * i % 256) as u8;
    }
    let mut prev: Option<BArrayState> = None;
    let mut states: Vec<BArrayState> = Vec::new();
    for _ in 0..5 {
        let s = bs.state_add(&data, prev);
        states.push(s);
        prev = Some(s);
    }
    assert_eq!(bs.calc_size_compacted_get(), 100);
    assert_eq!(bs.calc_size_expanded_get(), 500);
    for s in &states {
        assert_eq!(&bs.state_data_get_alloc(*s)[..], &data[..]);
    }
    assert!(bs.is_valid());
}
