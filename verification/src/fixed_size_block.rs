//! The segregated free-list allocator: power-of-two size classes layered
//! over the backing first-fit heap.
//!
//! Small requests are rounded up to one of the fixed block sizes and served
//! from a per-class LIFO free list; an empty list is refilled with exactly
//! one fresh block carved from the backing heap. Oversized requests bypass
//! the classes and go to the backing heap unchanged. Freed class blocks are
//! pushed back onto their class's list, most recently freed first.
//!
//! The allocator is modelled by [`AllocModel`]: the free lists, the backing
//! spans and the set of bytes currently handed out and not yet returned. The
//! transition functions [`spec_alloc`] and [`spec_dealloc`] pin each
//! operation's successor state exactly, and the lemmas at the end state the
//! allocator's laws over them: a fresh block never overlaps live memory, the
//! free lists are reused most-recently-freed first, and exhaustion of the
//! backing heap is deterministic.

use vstd::prelude::*;

use vstd::arithmetic::div_mod::lemma_fundamental_div_mod;

use crate::memory::spec_align_up;

use crate::linked_list::{
    first_fit, heap_alloc_result, heap_alloc_spans, heap_free_spans, lemma_carve_bytes,
    lemma_carve_total, lemma_carve_wf, lemma_first_fit_characterization, lemma_heap_free,
    lemma_no_fit_when_exhausted, range_set, spans_bytes, spans_total, spans_wf, Heap,
};

verus! {

/// Number of size classes.
pub const NUM_CLASSES: usize = 9;

/// Largest block size served from a size class; anything above bypasses the
/// classes and goes straight to the backing heap.
pub const MAX_BLOCK_SIZE: usize = 2048;

/// The block size of class `i`: one of {8, 16, 32, 64, 128, 256, 512, 1024,
/// 2048}. Each value doubles as the block's guaranteed alignment, so all of
/// them are powers of two.
pub open spec fn class_size(i: int) -> int {
    if i == 0 {
        8
    } else if i == 1 {
        16
    } else if i == 2 {
        32
    } else if i == 3 {
        64
    } else if i == 4 {
        128
    } else if i == 5 {
        256
    } else if i == 6 {
        512
    } else if i == 7 {
        1024
    } else {
        2048
    }
}

/// The block size of class `index`.
pub fn class_block_size(index: usize) -> (size: usize)
    requires
        index < NUM_CLASSES,
    ensures
        size == class_size(index as int),
{
    match index {
        0 => 8,
        1 => 16,
        2 => 32,
        3 => 64,
        4 => 128,
        5 => 256,
        6 => 512,
        7 => 1024,
        _ => 2048,
    }
}

/// The block size a request must be able to hold: the larger of its size and
/// its alignment.
pub open spec fn required_size(size: int, align: int) -> int {
    if size >= align {
        size
    } else {
        align
    }
}

/// The class serving a `(size, align)` request: the smallest class at least
/// as large as `max(size, align)`, or `None` when the request is oversized.
pub open spec fn spec_list_index(size: int, align: int) -> Option<int> {
    let req = required_size(size, align);
    if req <= 8 {
        Some(0int)
    } else if req <= 16 {
        Some(1int)
    } else if req <= 32 {
        Some(2int)
    } else if req <= 64 {
        Some(3int)
    } else if req <= 128 {
        Some(4int)
    } else if req <= 256 {
        Some(5int)
    } else if req <= 512 {
        Some(6int)
    } else if req <= 1024 {
        Some(7int)
    } else if req <= 2048 {
        Some(8int)
    } else {
        None
    }
}

/// Choose an appropriate block size for the given request: the index of the
/// smallest class whose blocks hold `max(size, align)` bytes, or `None` iff
/// that exceeds the largest class.
pub fn list_index(size: usize, align: usize) -> (r: Option<usize>)
    ensures
        match r {
            Some(i) => {
                &&& i < NUM_CLASSES
                &&& spec_list_index(size as int, align as int) == Some(i as int)
                &&& class_size(i as int) >= required_size(size as int, align as int)
                &&& forall|j: int|
                    0 <= j < i ==> class_size(j) < required_size(size as int, align as int)
            },
            None => {
                &&& spec_list_index(size as int, align as int) is None
                &&& required_size(size as int, align as int) > MAX_BLOCK_SIZE
            },
        },
{
    let required_block_size = if size >= align {
        size
    } else {
        align
    };
    let mut index: usize = 0;
    while index < NUM_CLASSES
        invariant
            index <= NUM_CLASSES,
            required_block_size == required_size(size as int, align as int),
            forall|j: int| 0 <= j < index ==> class_size(j) < required_block_size,
        decreases NUM_CLASSES - index,
    {
        if class_block_size(index) >= required_block_size {
            proof {
                let i = index as int;
                if i > 0 {
                    assert(class_size(i - 1) < required_block_size);
                }
                // Pin down which branch of the class chain the request hits.
                if i == 0 {
                } else if i == 1 {
                } else if i == 2 {
                } else if i == 3 {
                } else if i == 4 {
                } else if i == 5 {
                } else if i == 6 {
                } else if i == 7 {
                } else {
                    assert(i == 8);
                }
            }
            return Some(index);
        }
        index = index + 1;
    }
    proof {
        assert(class_size(8) < required_size(size as int, align as int));
    }
    None
}

/// A positive power of two.
pub open spec fn is_power_of_two(n: int) -> bool
    decreases n,
{
    if n <= 0 {
        false
    } else if n == 1 {
        true
    } else {
        n % 2 == 0 && is_power_of_two(n / 2)
    }
}

/// Of two powers of two, the smaller one divides the larger.
proof fn lemma_pow2_divides(a: int, b: int)
    requires
        is_power_of_two(a),
        is_power_of_two(b),
        a <= b,
    ensures
        b % a == 0,
    decreases b,
{
    reveal_with_fuel(is_power_of_two, 2);
    if a == b {
        assert(b % a == 0) by (nonlinear_arith)
            requires
                a == b && a > 0,
        ;
    } else {
        assert(b != 1);
        assert(a <= b / 2) by {
            if a > b / 2 {
                lemma_pow2_between(b / 2, a);
            }
        }
        lemma_pow2_divides(a, b / 2);
        let h = b / 2;
        lemma_fundamental_div_mod(h, a);
        lemma_fundamental_div_mod(b, 2);
        assert(b == (2 * (h / a)) * a) by (nonlinear_arith)
            requires
                b == 2 * h && h == a * (h / a),
        ;
        vstd::arithmetic::div_mod::lemma_mod_multiples_basic(2 * (h / a), a);
    }
}

/// There is no power of two strictly between a power of two and its double.
proof fn lemma_pow2_between(p: int, q: int)
    requires
        is_power_of_two(p),
        is_power_of_two(q),
        p < q,
    ensures
        2 * p <= q,
    decreases p,
{
    reveal_with_fuel(is_power_of_two, 2);
    if p == 1 {
    } else {
        lemma_pow2_between(p / 2, q / 2);
    }
}

/// A value divisible by `b` is divisible by any divisor `a` of `b`.
proof fn lemma_divides_transitive(x: int, a: int, b: int)
    requires
        0 < a,
        0 < b,
        x % b == 0,
        b % a == 0,
        0 <= x,
    ensures
        x % a == 0,
{
    lemma_fundamental_div_mod(x, b);
    lemma_fundamental_div_mod(b, a);
    assert(x == ((x / b) * (b / a)) * a) by (nonlinear_arith)
        requires
            x == b * (x / b) && b == a * (b / a),
    ;
    vstd::arithmetic::div_mod::lemma_mod_multiples_basic((x / b) * (b / a), a);
}

/// Every class block size is a power of two.
proof fn lemma_class_sizes_pow2(i: int)
    requires
        0 <= i < NUM_CLASSES,
    ensures
        is_power_of_two(class_size(i)),
{
    reveal_with_fuel(is_power_of_two, 13);
    assert(is_power_of_two(8));
    assert(is_power_of_two(16));
    assert(is_power_of_two(32));
    assert(is_power_of_two(64));
    assert(is_power_of_two(128));
    assert(is_power_of_two(256));
    assert(is_power_of_two(512));
    assert(is_power_of_two(1024));
    assert(is_power_of_two(2048));
}

/// Mathematical model of the allocator: the per-class free lists (each a
/// LIFO stack of block addresses, most recently freed last), the backing
/// heap's free spans over `[bottom, top)`, and the set of bytes currently
/// handed out and not yet returned.
#[verifier::ext_equal]
pub ghost struct AllocModel {
    /// Free-list stacks, one per size class.
    pub lists: Seq<Seq<usize>>,
    /// Free spans of the backing heap, in ascending address order.
    pub spans: Seq<(usize, usize)>,
    /// First byte of the heap region.
    pub bottom: int,
    /// One past the last byte of the heap region.
    pub top: int,
    /// Bytes of every allocation handed out and not yet deallocated.
    pub live: Set<int>,
}

/// The bytes held by the per-class free lists.
pub open spec fn class_blocks(lists: Seq<Seq<usize>>) -> Set<int> {
    Set::new(
        |b: int|
            exists|i: int, j: int|
                0 <= i < lists.len() && 0 <= j < lists[i].len() && (#[trigger] lists[i][j]) <= b
                    < lists[i][j] + class_size(i),
    )
}

/// All free bytes of the allocator: the backing spans plus the class lists.
pub open spec fn free_bytes(m: AllocModel) -> Set<int> {
    spans_bytes(m.spans).union(class_blocks(m.lists))
}

/// Block `j` of class `i` is aligned to its class size and lies inside the
/// heap region.
pub open spec fn block_wf(m: AllocModel, i: int, j: int) -> bool {
    let a = m.lists[i][j] as int;
    &&& a % class_size(i) == 0
    &&& m.bottom <= a
    &&& a + class_size(i) <= m.top
}

/// No two distinct free-list blocks share a byte.
pub open spec fn blocks_disjoint(m: AllocModel) -> bool {
    forall|i: int, j: int, k: int, l: int|
        0 <= i < m.lists.len() && 0 <= j < m.lists[i].len() && 0 <= k < m.lists.len() && 0 <= l
            < m.lists[k].len() && !(i == k && j == l) ==> ((#[trigger] m.lists[i][j])
            + class_size(i) <= (#[trigger] m.lists[k][l]) || m.lists[k][l] + class_size(k)
            <= m.lists[i][j])
}

/// The allocator's invariant: one list per class, a well-formed backing
/// heap, well-formed and pairwise disjoint free blocks, and the three kinds
/// of memory — span bytes, free-list bytes, live bytes — mutually disjoint
/// within the region.
pub open spec fn model_wf(m: AllocModel) -> bool {
    &&& m.lists.len() == NUM_CLASSES
    &&& 0 <= m.bottom <= m.top <= usize::MAX
    &&& spans_wf(m.spans, m.bottom, m.top)
    &&& forall|i: int, j: int|
        0 <= i < m.lists.len() && 0 <= j < m.lists[i].len() ==> block_wf(m, i, j)
    &&& blocks_disjoint(m)
    &&& class_blocks(m.lists).disjoint(spans_bytes(m.spans))
    &&& m.live.disjoint(free_bytes(m))
    &&& m.live.subset_of(range_set(m.bottom, m.top - m.bottom))
}

/// A freshly created allocator: everything empty, nothing live.
pub open spec fn fresh_model(m: AllocModel) -> bool {
    &&& m.lists.len() == NUM_CLASSES
    &&& forall|i: int| 0 <= i < m.lists.len() ==> (#[trigger] m.lists[i]).len() == 0
    &&& m.spans.len() == 0
    &&& m.live == Set::<int>::empty()
}

/// Number of bytes actually carved for a `(size, align)` request: the class
/// block size, or the request's own size when it is oversized.
pub open spec fn block_bytes_of(size: int, align: int) -> int {
    match spec_list_index(size, align) {
        Some(i) => class_size(i),
        None => size,
    }
}

/// Successor state and returned address of an allocation. A class request is
/// served by popping the class's free list; an empty list is refilled with
/// exactly one fresh block of (class size, class alignment) from the backing
/// heap; an oversized request goes to the backing heap unchanged. The carved
/// bytes become live.
pub open spec fn spec_alloc(m: AllocModel, size: int, align: int) -> (AllocModel, Option<int>) {
    match spec_list_index(size, align) {
        Some(i) => {
            if m.lists[i].len() > 0 {
                let addr = m.lists[i].last() as int;
                (
                    AllocModel {
                        lists: m.lists.update(i, m.lists[i].drop_last()),
                        live: m.live.union(range_set(addr, class_size(i))),
                        ..m
                    },
                    Some(addr),
                )
            } else {
                let bs = class_size(i);
                match heap_alloc_result(m.spans, bs, bs) {
                    Some(a) => (
                        AllocModel {
                            spans: heap_alloc_spans(m.spans, bs, bs),
                            live: m.live.union(range_set(a, bs)),
                            ..m
                        },
                        Some(a),
                    ),
                    None => (m, None),
                }
            }
        },
        None => match heap_alloc_result(m.spans, size, align) {
            Some(a) => (
                AllocModel {
                    spans: heap_alloc_spans(m.spans, size, align),
                    live: m.live.union(range_set(a, size)),
                    ..m
                },
                Some(a),
            ),
            None => (m, None),
        },
    }
}

/// Successor state of a deallocation with the same `(size, align)` pair the
/// block was allocated with: a class block is pushed onto its class's free
/// list (LIFO), an oversized block is reinserted into the backing heap. The
/// freed bytes stop being live.
pub open spec fn spec_dealloc(m: AllocModel, addr: int, size: int, align: int) -> AllocModel {
    match spec_list_index(size, align) {
        Some(i) => AllocModel {
            lists: m.lists.update(i, m.lists[i].push(addr as usize)),
            live: m.live.difference(range_set(addr, class_size(i))),
            ..m
        },
        None => AllocModel {
            spans: heap_free_spans(m.spans, addr, size),
            live: m.live.difference(range_set(addr, size)),
            ..m
        },
    }
}

/// What a request's class guarantees: the class exists for every request of
/// at most `MAX_BLOCK_SIZE` bytes, its block holds the request, and its
/// block size is a power of two that the request's alignment divides.
proof fn lemma_class_facts(size: int, align: int)
    requires
        0 < size,
        is_power_of_two(align),
    ensures
        0 < align,
        match spec_list_index(size, align) {
            Some(i) => {
                &&& 0 <= i < NUM_CLASSES
                &&& size <= class_size(i)
                &&& align <= class_size(i)
                &&& class_size(i) % align == 0
                &&& is_power_of_two(class_size(i))
            },
            None => required_size(size, align) > MAX_BLOCK_SIZE,
        },
{
    match spec_list_index(size, align) {
        Some(i) => {
            lemma_class_sizes_pow2(i);
            lemma_pow2_divides(align, class_size(i));
        },
        None => {},
    }
}

/// Allocating straight from the backing heap: the carved block is aligned,
/// lies in the region, was free, overlaps nothing live, and moves from the
/// free bytes to the live bytes; the invariant is preserved and the backing
/// space shrinks by exactly the carved size.
#[verifier::rlimit(60)]
proof fn lemma_carve_transition(m: AllocModel, bsize: int, balign: int)
    requires
        model_wf(m),
        0 < bsize,
        0 < balign,
    ensures
        match heap_alloc_result(m.spans, bsize, balign) {
            Some(a) => {
                let m2 = AllocModel {
                    spans: heap_alloc_spans(m.spans, bsize, balign),
                    live: m.live.union(range_set(a, bsize)),
                    ..m
                };
                &&& a % balign == 0
                &&& m.bottom <= a && a + bsize <= m.top
                &&& range_set(a, bsize).subset_of(spans_bytes(m.spans))
                &&& range_set(a, bsize).disjoint(m.live)
                &&& range_set(a, bsize).disjoint(class_blocks(m.lists))
                &&& model_wf(m2)
                &&& free_bytes(m2) == free_bytes(m).difference(range_set(a, bsize))
                &&& spans_total(m2.spans) == spans_total(m.spans) - bsize
            },
            None => heap_alloc_spans(m.spans, bsize, balign) == m.spans,
        },
{
    lemma_first_fit_characterization(m.spans, bsize, balign);
    match first_fit(m.spans, bsize, balign) {
        Some(k) => {
            lemma_carve_wf(m.spans, k, bsize, balign, m.bottom, m.top);
            lemma_carve_bytes(m.spans, k, bsize, balign, m.bottom, m.top);
            lemma_carve_total(m.spans, k, bsize, balign, m.bottom, m.top);
            crate::memory::lemma_align_up(m.spans[k].0 as int, balign);
            let a = spec_align_up(m.spans[k].0 as int, balign);
            let rng = range_set(a, bsize);
            let spans2 = heap_alloc_spans(m.spans, bsize, balign);
            let m2 = AllocModel { spans: spans2, live: m.live.union(rng), ..m };
            assert(m.bottom <= a && a + bsize <= m.top);
            assert forall|b: int| rng.contains(b) implies !m.live.contains(b) by {
                assert(spans_bytes(m.spans).contains(b));
                assert(free_bytes(m).contains(b));
            }
            assert forall|b: int| rng.contains(b) implies !class_blocks(m.lists).contains(b) by {
                assert(spans_bytes(m.spans).contains(b));
            }
            // The free lists are untouched, so their blocks stay well formed
            // and disjoint, and the freed-up invariants carry over.
            assert forall|i: int, j: int|
                0 <= i < m2.lists.len() && 0 <= j < m2.lists[i].len() implies block_wf(
                m2,
                i,
                j,
            ) by {
                assert(block_wf(m, i, j));
            }
            assert forall|b: int| class_blocks(m2.lists).contains(b) implies !spans_bytes(
                m2.spans,
            ).contains(b) by {
                assert(!spans_bytes(m.spans).contains(b));
                assert(!spans_bytes(m2.spans).contains(b)) by {
                    assert(spans_bytes(m2.spans) == spans_bytes(m.spans).difference(rng));
                }
            }
            assert forall|b: int| m2.live.contains(b) implies !free_bytes(m2).contains(b) by {
                if m.live.contains(b) {
                    assert(!free_bytes(m).contains(b));
                    assert(!spans_bytes(m.spans).contains(b));
                    assert(!class_blocks(m.lists).contains(b));
                } else {
                    assert(rng.contains(b));
                    assert(!spans_bytes(m2.spans).contains(b));
                    assert(!class_blocks(m2.lists).contains(b));
                }
            }
            assert forall|b: int| m2.live.contains(b) implies range_set(
                m2.bottom,
                m2.top - m2.bottom,
            ).contains(b) by {
                if m.live.contains(b) {
                    assert(range_set(m.bottom, m.top - m.bottom).contains(b));
                }
            }
            assert(m2.live.subset_of(range_set(m2.bottom, m2.top - m2.bottom)));
            assert(free_bytes(m2) =~= free_bytes(m).difference(rng)) by {
                assert forall|b: int|
                    free_bytes(m2).contains(b) == (free_bytes(m).contains(b)
                        && !rng.contains(b)) by {
                    assert(spans_bytes(m2.spans) == spans_bytes(m.spans).difference(rng));
                    if class_blocks(m.lists).contains(b) {
                        assert(!rng.contains(b));
                    }
                }
            }
            assert(model_wf(m2));
        },
        None => {},
    }
}

/// Popping a block from a non-empty class list: the block is aligned, lies
/// in the region, was free, overlaps nothing live, and moves from the free
/// bytes to the live bytes; the invariant is preserved.
#[verifier::rlimit(60)]
proof fn lemma_pop_transition(m: AllocModel, size: int, align: int)
    requires
        model_wf(m),
        0 < size,
        is_power_of_two(align),
        match spec_list_index(size, align) {
            Some(i) => m.lists[i].len() > 0,
            None => false,
        },
    ensures
        ({
            let i = spec_list_index(size, align)->Some_0;
            let cs = class_size(i);
            let a = m.lists[i].last() as int;
            let rng = range_set(a, cs);
            let m2 = AllocModel {
                lists: m.lists.update(i, m.lists[i].drop_last()),
                live: m.live.union(rng),
                ..m
            };
            &&& a % align == 0
            &&& m.bottom <= a && a + cs <= m.top
            &&& rng.subset_of(class_blocks(m.lists))
            &&& rng.disjoint(m.live)
            &&& model_wf(m2)
            &&& free_bytes(m2) == free_bytes(m).difference(rng)
        }),
{
    lemma_class_facts(size, align);
    let i = spec_list_index(size, align)->Some_0;
    let cs = class_size(i);
    let lst = m.lists[i];
    let j = lst.len() - 1;
    let a = lst.last() as int;
    let rng = range_set(a, cs);
    let m2 = AllocModel { lists: m.lists.update(i, lst.drop_last()), live: m.live.union(rng), ..m };
    assert(block_wf(m, i, j));
    assert(a % align == 0) by {
        lemma_divides_transitive(a, align, cs);
    }
    assert forall|b: int| rng.contains(b) implies class_blocks(m.lists).contains(b) by {
        assert(0 <= i < m.lists.len() && 0 <= j < m.lists[i].len() && m.lists[i][j] <= b
            < m.lists[i][j] + class_size(i));
    }
    assert forall|b: int| rng.contains(b) implies !m.live.contains(b) by {
        assert(free_bytes(m).contains(b));
    }
    // The shortened list keeps every block but the popped one.
    assert(m2.lists[i] == lst.drop_last());
    assert(forall|l: int| 0 <= l < j ==> #[trigger] m2.lists[i][l] == lst[l]);
    assert(forall|k: int| 0 <= k < m.lists.len() && k != i ==> #[trigger] m2.lists[k] == m.lists[k]);
    assert forall|b: int|
        class_blocks(m2.lists).contains(b) == (class_blocks(m.lists).contains(b)
            && !rng.contains(b)) by {
        if class_blocks(m2.lists).contains(b) {
            let (k, l) = choose|k: int, l: int|
                0 <= k < m2.lists.len() && 0 <= l < m2.lists[k].len() && (#[trigger] m2.lists[k][l])
                    <= b < m2.lists[k][l] + class_size(k);
            assert(m2.lists[k][l] == m.lists[k][l]);
            assert(class_blocks(m.lists).contains(b)) by {
                assert(m.lists[k][l] <= b < m.lists[k][l] + class_size(k));
            }
            // The popped block is disjoint from every other block.
            assert(!(k == i && l == j));
            assert(m.lists[k][l] + class_size(k) <= m.lists[i][j] || m.lists[i][j] + class_size(i)
                <= m.lists[k][l]);
            assert(!rng.contains(b));
        }
        if class_blocks(m.lists).contains(b) && !rng.contains(b) {
            let (k, l) = choose|k: int, l: int|
                0 <= k < m.lists.len() && 0 <= l < m.lists[k].len() && (#[trigger] m.lists[k][l])
                    <= b < m.lists[k][l] + class_size(k);
            assert(!(k == i && l == j));
            assert(0 <= k < m2.lists.len() && 0 <= l < m2.lists[k].len() && m2.lists[k][l] <= b
                < m2.lists[k][l] + class_size(k));
        }
    }
    assert forall|k: int, l: int|
        0 <= k < m2.lists.len() && 0 <= l < m2.lists[k].len() implies block_wf(m2, k, l) by {
        assert(block_wf(m, k, l));
        assert(m2.lists[k][l] == m.lists[k][l]);
    }
    assert forall|b: int| m2.live.contains(b) implies !free_bytes(m2).contains(b) by {
        if m.live.contains(b) {
            assert(!free_bytes(m).contains(b));
            assert(!spans_bytes(m.spans).contains(b));
            assert(!class_blocks(m.lists).contains(b));
            assert(!class_blocks(m2.lists).contains(b));
        } else {
            assert(rng.contains(b));
            assert(!class_blocks(m2.lists).contains(b));
            assert(!spans_bytes(m.spans).contains(b)) by {
                assert(class_blocks(m.lists).contains(b));
            }
        }
    }
    assert forall|b: int| m2.live.contains(b) implies range_set(
        m2.bottom,
        m2.top - m2.bottom,
    ).contains(b) by {
        if m.live.contains(b) {
            assert(range_set(m.bottom, m.top - m.bottom).contains(b));
        }
    }
    assert(m2.live.subset_of(range_set(m2.bottom, m2.top - m2.bottom)));
    assert forall|b: int| class_blocks(m2.lists).contains(b) implies !spans_bytes(
        m2.spans,
    ).contains(b) by {
        assert(class_blocks(m.lists).contains(b));
    }
    assert(free_bytes(m2) =~= free_bytes(m).difference(rng)) by {
        assert forall|b: int|
            free_bytes(m2).contains(b) == (free_bytes(m).contains(b) && !rng.contains(b)) by {
            if spans_bytes(m.spans).contains(b) {
                assert(!class_blocks(m.lists).contains(b));
                assert(!rng.contains(b));
            }
        }
    }
    assert(model_wf(m2));
}

/// A successful allocation returns an aligned block carved entirely out of
/// free memory and disjoint from every byte still live; that block becomes
/// live and stops being free, and everything else is untouched. A failed
/// allocation changes nothing, and happens only when the request's class
/// list is empty (or the request is oversized) and no backing span fits.
///
/// In particular, two concurrently live allocations never overlap: when the
/// younger of the two was handed out, the older one's bytes were live, and
/// the younger block is disjoint from all of them.
pub proof fn lemma_alloc(m: AllocModel, size: int, align: int)
    requires
        model_wf(m),
        0 < size,
        is_power_of_two(align),
    ensures
        model_wf(spec_alloc(m, size, align).0),
        spec_alloc(m, size, align).0.bottom == m.bottom,
        spec_alloc(m, size, align).0.top == m.top,
        spec_alloc(m, size, align).1 is None ==> spec_alloc(m, size, align).0 == m,
        spec_alloc(m, size, align).1 matches Some(a) ==> ({
            let blk = block_bytes_of(size, align);
            &&& size <= blk
            &&& a % align == 0
            &&& m.bottom <= a && a + blk <= m.top
            &&& range_set(a, blk).subset_of(free_bytes(m))
            &&& range_set(a, blk).disjoint(m.live)
            &&& spec_alloc(m, size, align).0.live == m.live.union(range_set(a, blk))
            &&& free_bytes(spec_alloc(m, size, align).0) == free_bytes(m).difference(
                range_set(a, blk),
            )
        }),
{
    lemma_class_facts(size, align);
    match spec_list_index(size, align) {
        Some(i) => {
            if m.lists[i].len() > 0 {
                lemma_pop_transition(m, size, align);
                let a = m.lists[i].last() as int;
                assert forall|b: int|
                    range_set(a, class_size(i)).contains(b) implies free_bytes(m).contains(b) by {
                    assert(class_blocks(m.lists).contains(b));
                }
            } else {
                lemma_carve_transition(m, class_size(i), class_size(i));
                match heap_alloc_result(m.spans, class_size(i), class_size(i)) {
                    Some(a) => {
                        assert(a % align == 0) by {
                            lemma_divides_transitive(a, align, class_size(i));
                        }
                        assert forall|b: int|
                            range_set(a, class_size(i)).contains(b) implies free_bytes(
                            m,
                        ).contains(b) by {
                            assert(spans_bytes(m.spans).contains(b));
                        }
                    },
                    None => {},
                }
            }
        },
        None => {
            lemma_carve_transition(m, size, align);
            match heap_alloc_result(m.spans, size, align) {
                Some(a) => {
                    assert forall|b: int|
                        range_set(a, size).contains(b) implies free_bytes(m).contains(b) by {
                        assert(spans_bytes(m.spans).contains(b));
                    }
                },
                None => {},
            }
        },
    }
}

/// Deallocating a live block with the same `(size, align)` pair it was
/// allocated with returns exactly its bytes from the live set to the free
/// bytes and preserves the invariant; everything else is untouched.
#[verifier::rlimit(100)]
pub proof fn lemma_dealloc(m: AllocModel, addr: int, size: int, align: int)
    requires
        model_wf(m),
        0 < size,
        is_power_of_two(align),
        spec_list_index(size, align) matches Some(i) ==> addr % class_size(i) == 0,
        range_set(addr, block_bytes_of(size, align)).subset_of(m.live),
    ensures
        model_wf(spec_dealloc(m, addr, size, align)),
        spec_dealloc(m, addr, size, align).bottom == m.bottom,
        spec_dealloc(m, addr, size, align).top == m.top,
        spec_dealloc(m, addr, size, align).live == m.live.difference(
            range_set(addr, block_bytes_of(size, align)),
        ),
        free_bytes(spec_dealloc(m, addr, size, align)) == free_bytes(m).union(
            range_set(addr, block_bytes_of(size, align)),
        ),
{
    lemma_class_facts(size, align);
    let blk = block_bytes_of(size, align);
    let rng = range_set(addr, blk);
    let m2 = spec_dealloc(m, addr, size, align);
    // The freed range was live, so it lies in the region and is disjoint
    // from every kind of free memory.
    assert(rng.contains(addr));
    assert(rng.contains(addr + blk - 1));
    assert(range_set(m.bottom, m.top - m.bottom).contains(addr));
    assert(range_set(m.bottom, m.top - m.bottom).contains(addr + blk - 1));
    assert(m.bottom <= addr && addr + blk <= m.top);
    assert forall|b: int| rng.contains(b) implies !free_bytes(m).contains(b) by {
        assert(m.live.contains(b));
    }
    assert forall|b: int| rng.contains(b) implies !spans_bytes(m.spans).contains(b)
        && !class_blocks(m.lists).contains(b) by {
        assert(!free_bytes(m).contains(b));
    }
    match spec_list_index(size, align) {
        Some(i) => {
            let lst = m.lists[i];
            let n = lst.len();
            assert(m2.lists[i] == lst.push(addr as usize));
            assert(m2.lists[i][n as int] == (addr as usize));
            assert(forall|l: int| 0 <= l < n ==> #[trigger] m2.lists[i][l] == lst[l]);
            assert(forall|k: int|
                0 <= k < m.lists.len() && k != i ==> #[trigger] m2.lists[k] == m.lists[k]);
            // The new block is disjoint from every existing block, as
            // intervals, because its bytes were live.
            assert forall|k: int, l: int|
                0 <= k < m.lists.len() && 0 <= l < m.lists[k].len() implies (m.lists[k][l]
                + class_size(k) <= addr || addr + blk <= m.lists[k][l]) by {
                assert(block_wf(m, k, l));
                let c = m.lists[k][l] as int;
                let cks = class_size(k);
                assert forall|b: int| range_set(c, cks).contains(b) implies !rng.contains(b) by {
                    assert(class_blocks(m.lists).contains(b)) by {
                        assert(m.lists[k][l] <= b < m.lists[k][l] + class_size(k));
                    }
                }
                crate::linked_list::lemma_ranges_disjoint(c, cks, addr, blk);
                assert(range_set(c, cks).disjoint(rng));
            }
            assert forall|k: int, l: int|
                0 <= k < m2.lists.len() && 0 <= l < m2.lists[k].len() implies block_wf(
                m2,
                k,
                l,
            ) by {
                if k == i && l == n {
                } else {
                    assert(block_wf(m, k, l));
                    assert(m2.lists[k][l] == m.lists[k][l]);
                }
            }
            assert forall|k: int, l: int, k2: int, l2: int|
                0 <= k < m2.lists.len() && 0 <= l < m2.lists[k].len() && 0 <= k2 < m2.lists.len()
                    && 0 <= l2 < m2.lists[k2].len() && !(k == k2 && l == l2) implies ((
            #[trigger] m2.lists[k][l]) + class_size(k) <= (#[trigger] m2.lists[k2][l2])
                || m2.lists[k2][l2] + class_size(k2) <= m2.lists[k][l]) by {
                if k == i && l == n {
                    assert(m2.lists[k2][l2] == m.lists[k2][l2]);
                } else if k2 == i && l2 == n {
                    assert(m2.lists[k][l] == m.lists[k][l]);
                } else {
                    assert(m2.lists[k][l] == m.lists[k][l]);
                    assert(m2.lists[k2][l2] == m.lists[k2][l2]);
                }
            }
            assert forall|b: int|
                class_blocks(m2.lists).contains(b) == (class_blocks(m.lists).contains(b)
                    || rng.contains(b)) by {
                if class_blocks(m2.lists).contains(b) {
                    let (k, l) = choose|k: int, l: int|
                        0 <= k < m2.lists.len() && 0 <= l < m2.lists[k].len() && (
                        #[trigger] m2.lists[k][l]) <= b < m2.lists[k][l] + class_size(k);
                    if k == i && l == n {
                        assert(rng.contains(b));
                    } else {
                        assert(m2.lists[k][l] == m.lists[k][l]);
                        assert(class_blocks(m.lists).contains(b)) by {
                            assert(m.lists[k][l] <= b < m.lists[k][l] + class_size(k));
                        }
                    }
                }
                if class_blocks(m.lists).contains(b) {
                    let (k, l) = choose|k: int, l: int|
                        0 <= k < m.lists.len() && 0 <= l < m.lists[k].len() && (
                        #[trigger] m.lists[k][l]) <= b < m.lists[k][l] + class_size(k);
                    assert(m2.lists[k][l] == m.lists[k][l]);
                    assert(class_blocks(m2.lists).contains(b)) by {
                        assert(m2.lists[k][l] <= b < m2.lists[k][l] + class_size(k));
                    }
                }
                if rng.contains(b) {
                    assert(class_blocks(m2.lists).contains(b)) by {
                        assert(m2.lists[i][n as int] <= b < m2.lists[i][n as int] + class_size(i));
                    }
                }
            }
            assert forall|b: int| class_blocks(m2.lists).contains(b) implies !spans_bytes(
                m2.spans,
            ).contains(b) by {
                if class_blocks(m.lists).contains(b) {
                } else {
                    assert(rng.contains(b));
                }
            }
            assert forall|b: int| m2.live.contains(b) implies !free_bytes(m2).contains(b)
                && range_set(m2.bottom, m2.top - m2.bottom).contains(b) by {
                assert(m.live.contains(b));
                assert(!free_bytes(m).contains(b));
                assert(!spans_bytes(m.spans).contains(b));
                assert(!class_blocks(m.lists).contains(b));
                assert(range_set(m.bottom, m.top - m.bottom).contains(b));
            }
            assert(m2.live.subset_of(range_set(m2.bottom, m2.top - m2.bottom)));
            assert(free_bytes(m2) =~= free_bytes(m).union(rng));
            assert(model_wf(m2));
        },
        None => {
            lemma_heap_free(m.spans, addr, size, m.bottom, m.top);
            assert(spans_bytes(m2.spans) == spans_bytes(m.spans).union(rng));
            assert forall|k: int, l: int|
                0 <= k < m2.lists.len() && 0 <= l < m2.lists[k].len() implies block_wf(
                m2,
                k,
                l,
            ) by {
                assert(block_wf(m, k, l));
            }
            assert forall|b: int| class_blocks(m2.lists).contains(b) implies !spans_bytes(
                m2.spans,
            ).contains(b) by {
                assert(!spans_bytes(m.spans).contains(b));
                assert(!rng.contains(b));
            }
            assert forall|b: int| m2.live.contains(b) implies !free_bytes(m2).contains(b)
                && range_set(m2.bottom, m2.top - m2.bottom).contains(b) by {
                assert(m.live.contains(b));
                assert(!free_bytes(m).contains(b));
                assert(!spans_bytes(m.spans).contains(b));
                assert(!class_blocks(m.lists).contains(b));
                assert(range_set(m.bottom, m.top - m.bottom).contains(b));
            }
            assert(m2.live.subset_of(range_set(m2.bottom, m2.top - m2.bottom)));
            assert(free_bytes(m2) =~= free_bytes(m).union(rng));
            assert(model_wf(m2));
        },
    }
}

/// LIFO reuse: free two distinct blocks of one class in order, and the next
/// two allocations of that class return them most recently freed first —
/// the second freed block, then the first — with the backing heap's spans
/// untouched throughout (no new carve occurs) and the free lists back where
/// they started.
pub proof fn lemma_lifo_reuse(m: AllocModel, x: usize, y: usize, size: int, align: int)
    requires
        spec_list_index(size, align) is Some,
        m.lists.len() == NUM_CLASSES,
    ensures
        ({
            let m1 = spec_dealloc(m, x as int, size, align);
            let m2 = spec_dealloc(m1, y as int, size, align);
            let (m3, r3) = spec_alloc(m2, size, align);
            let (m4, r4) = spec_alloc(m3, size, align);
            &&& r3 == Some(y as int)
            &&& r4 == Some(x as int)
            &&& m1.spans == m.spans && m2.spans == m.spans && m3.spans == m.spans && m4.spans
                == m.spans
            &&& m4.lists == m.lists
        }),
{
    let i = spec_list_index(size, align)->Some_0;
    let lst = m.lists[i];
    let m1 = spec_dealloc(m, x as int, size, align);
    let m2 = spec_dealloc(m1, y as int, size, align);
    assert(m1.lists[i] == lst.push(x));
    assert(m2.lists[i] =~= lst.push(x).push(y));
    assert(m2.lists[i].len() > 0);
    assert(m2.lists[i].last() == y);
    let (m3, r3) = spec_alloc(m2, size, align);
    assert(m3.lists[i] =~= lst.push(x));
    assert(m3.lists[i].last() == x);
    let (m4, r4) = spec_alloc(m3, size, align);
    assert(m4.lists[i] =~= lst);
    assert(m4.lists =~= m.lists);
}

/// Exhaustion is deterministic: once the request's class list is empty and
/// the backing heap holds fewer free bytes than one block of the class
/// needs, the allocation fails and the allocator is unchanged. Together with
/// [`lemma_alloc_consumes`] this pins down the behaviour of repeatedly
/// allocating one class from a fixed heap: every allocation succeeds while
/// the backing space lasts, each one consuming exactly one block's worth,
/// and the first failure comes exactly when too few bytes remain.
pub proof fn lemma_exhaustion(m: AllocModel, size: int, align: int)
    requires
        model_wf(m),
        0 < size,
        is_power_of_two(align),
        spec_list_index(size, align) matches Some(i) ==> m.lists[i].len() == 0,
        spans_total(m.spans) < block_bytes_of(size, align),
    ensures
        spec_alloc(m, size, align).1 is None,
        spec_alloc(m, size, align).0 == m,
{
    lemma_class_facts(size, align);
    match spec_list_index(size, align) {
        Some(i) => {
            lemma_no_fit_when_exhausted(m.spans, class_size(i), class_size(i), m.bottom, m.top);
        },
        None => {
            lemma_no_fit_when_exhausted(m.spans, size, align, m.bottom, m.top);
        },
    }
}

/// A successful allocation served by carving from the backing heap (the
/// request's class list being empty, or the request oversized) consumes
/// exactly one block's worth of backing bytes.
pub proof fn lemma_alloc_consumes(m: AllocModel, size: int, align: int)
    requires
        model_wf(m),
        0 < size,
        is_power_of_two(align),
        spec_list_index(size, align) matches Some(i) ==> m.lists[i].len() == 0,
        spec_alloc(m, size, align).1 is Some,
    ensures
        spans_total(spec_alloc(m, size, align).0.spans) == spans_total(m.spans) - block_bytes_of(
            size,
            align,
        ),
{
    lemma_class_facts(size, align);
    match spec_list_index(size, align) {
        Some(i) => {
            lemma_carve_transition(m, class_size(i), class_size(i));
        },
        None => {
            lemma_carve_transition(m, size, align);
        },
    }
}

/// The segregated free-list allocator: one free-list head per size class
/// plus the backing first-fit heap. The `live` field is the ghost record of
/// every byte currently handed out.
pub struct FixedSizeBlockAllocator {
    list_heads: Vec<Vec<usize>>,
    fallback_allocator: Heap,
    live: Ghost<Set<int>>,
}

impl View for FixedSizeBlockAllocator {
    type V = AllocModel;

    closed spec fn view(&self) -> AllocModel {
        AllocModel {
            lists: self.list_heads@.map_values(|l: Vec<usize>| l@),
            spans: self.fallback_allocator.spans(),
            bottom: self.fallback_allocator.bottom(),
            top: self.fallback_allocator.top(),
            live: self.live@,
        }
    }
}

impl FixedSizeBlockAllocator {
    /// The allocator's invariant, over its model.
    pub open spec fn wf(&self) -> bool {
        model_wf(self@)
    }

    /// Creates an empty FixedSizeBlockAllocator.
    pub fn new() -> (r: Self)
        ensures
            r.wf(),
            fresh_model(r@),
            r@.bottom == 0,
            r@.top == 0,
    {
        let mut list_heads: Vec<Vec<usize>> = Vec::new();
        let mut i: usize = 0;
        while i < NUM_CLASSES
            invariant
                i <= NUM_CLASSES,
                list_heads@.len() == i,
                forall|k: int| 0 <= k < i ==> (#[trigger] list_heads@[k])@.len() == 0,
            decreases NUM_CLASSES - i,
        {
            list_heads.push(Vec::new());
            i = i + 1;
        }
        let r = FixedSizeBlockAllocator {
            list_heads,
            fallback_allocator: Heap::empty(),
            live: Ghost(Set::empty()),
        };
        proof {
            let m = r@;
            assert(forall|k: int|
                0 <= k < m.lists.len() ==> (#[trigger] m.lists[k]).len() == 0);
            assert(class_blocks(m.lists) =~= Set::<int>::empty());
            assert(spans_bytes(m.spans) =~= Set::<int>::empty());
            assert(free_bytes(m) =~= Set::<int>::empty());
        }
        r
    }

    /// Initialize the allocator with the given heap bounds: the whole range
    /// `[heap_start, heap_start + heap_size)` becomes the backing heap's one
    /// free span. Must be called exactly once, before any allocation, and
    /// the caller must guarantee that the range is otherwise unused.
    pub fn init(&mut self, heap_start: usize, heap_size: usize)
        requires
            old(self).wf(),
            fresh_model(old(self)@),
            0 < heap_size,
            heap_start + heap_size <= usize::MAX,
        ensures
            final(self).wf(),
            final(self)@.lists == old(self)@.lists,
            final(self)@.spans == seq![(heap_start, heap_size)],
            final(self)@.bottom == heap_start,
            final(self)@.top == heap_start + heap_size,
            final(self)@.live == Set::<int>::empty(),
    {
        self.fallback_allocator.init(heap_start, heap_size);
        proof {
            let m = self@;
            assert(class_blocks(m.lists) =~= Set::<int>::empty());
            assert(m.live.disjoint(free_bytes(m)));
            assert(m.live.subset_of(range_set(m.bottom, m.top - m.bottom)));
        }
    }

    /// Allocates using the fallback allocator.
    fn fallback_alloc(&mut self, size: usize, align: usize) -> (r: Option<usize>)
        requires
            old(self).wf(),
            0 < size,
            0 < align,
        ensures
            final(self)@.lists == old(self)@.lists,
            final(self)@.bottom == old(self)@.bottom,
            final(self)@.top == old(self)@.top,
            final(self)@.live == old(self)@.live,
            final(self)@.spans == heap_alloc_spans(old(self)@.spans, size as int, align as int),
            match heap_alloc_result(old(self)@.spans, size as int, align as int) {
                Some(a) => r == Some(a as usize),
                None => r is None,
            },
    {
        self.fallback_allocator.allocate_first_fit(size, align)
    }

    /// Serves a `(size, align)` request: pops the class's free list when it
    /// has a block, refills the class with exactly one fresh block from the
    /// backing heap when it is empty, and forwards oversized requests to the
    /// backing heap unchanged. Returns the block's address, or `None` when
    /// the backing heap is exhausted — the only failure mode.
    pub fn allocate(&mut self, size: usize, align: usize) -> (r: Option<usize>)
        requires
            old(self).wf(),
            0 < size,
            is_power_of_two(align as int),
        ensures
            final(self).wf(),
            final(self)@ == spec_alloc(old(self)@, size as int, align as int).0,
            match spec_alloc(old(self)@, size as int, align as int).1 {
                Some(a) => r == Some(a as usize),
                None => r is None,
            },
            r matches Some(a) ==> (a as int) % (align as int) == 0 && range_set(
                a as int,
                block_bytes_of(size as int, align as int),
            ).subset_of(free_bytes(old(self)@)) && range_set(
                a as int,
                block_bytes_of(size as int, align as int),
            ).disjoint(old(self)@.live),
    {
        proof {
            lemma_alloc(self@, size as int, align as int);
        }
        let ghost m = self@;
        match list_index(size, align) {
            Some(index) => {
                let ghost i = index as int;
                let list = vstd::std_specs::vec::vec_index_mut(&mut self.list_heads, index);
                let popped = list.pop();
                match popped {
                    Some(node) => {
                        proof {
                            assert(self.list_heads@[i]@ =~= m.lists[i].drop_last());
                            assert(self@.lists =~= m.lists.update(i, m.lists[i].drop_last()));
                        }
                        self.live = Ghost(
                            self.live@.union(range_set(node as int, class_size(i))),
                        );
                        proof {
                            assert(self@ =~= spec_alloc(m, size as int, align as int).0);
                        }
                        Some(node)
                    },
                    None => {
                        proof {
                            assert(self.list_heads@[i]@ =~= m.lists[i]);
                            assert(self@.lists =~= m.lists);
                        }
                        let block_size = class_block_size(index);
                        // Only works because all block sizes are powers of 2.
                        let block_align = block_size;
                        let res = self.fallback_alloc(block_size, block_align);
                        match res {
                            Some(a) => {
                                self.live = Ghost(
                                    self.live@.union(range_set(a as int, class_size(i))),
                                );
                                proof {
                                    assert(self@ =~= spec_alloc(m, size as int, align as int).0);
                                }
                                Some(a)
                            },
                            None => {
                                proof {
                                    assert(self@ =~= spec_alloc(m, size as int, align as int).0);
                                }
                                None
                            },
                        }
                    },
                }
            },
            None => {
                let res = self.fallback_alloc(size, align);
                match res {
                    Some(a) => {
                        self.live = Ghost(self.live@.union(range_set(a as int, size as int)));
                        proof {
                            assert(self@ =~= spec_alloc(m, size as int, align as int).0);
                        }
                        Some(a)
                    },
                    None => {
                        proof {
                            assert(self@ =~= spec_alloc(m, size as int, align as int).0);
                        }
                        None
                    },
                }
            },
        }
    }

    /// Returns a block allocated with exactly this `(size, align)` pair: a
    /// class block is pushed onto its class's free list, most recently freed
    /// first; an oversized block goes back to the backing heap. The caller
    /// must pass the identical pair it used at allocation — the allocator
    /// stores no per-block metadata to recover it.
    pub fn deallocate(&mut self, addr: usize, size: usize, align: usize)
        requires
            old(self).wf(),
            0 < size,
            is_power_of_two(align as int),
            spec_list_index(size as int, align as int) matches Some(i) ==> addr as int % class_size(
                i,
            ) == 0,
            range_set(addr as int, block_bytes_of(size as int, align as int)).subset_of(
                old(self)@.live,
            ),
        ensures
            final(self).wf(),
            final(self)@ == spec_dealloc(old(self)@, addr as int, size as int, align as int),
    {
        proof {
            lemma_dealloc(self@, addr as int, size as int, align as int);
        }
        let ghost m = self@;
        match list_index(size, align) {
            Some(index) => {
                let ghost i = index as int;
                proof {
                    // A freed class block can always host the free-list
                    // link written into its own storage: every class is at
                    // least one pointer wide and pointer aligned.
                    assert(8 <= class_size(i));
                }
                let list = vstd::std_specs::vec::vec_index_mut(&mut self.list_heads, index);
                list.push(addr);
                proof {
                    assert(self.list_heads@[i]@ =~= m.lists[i].push(addr));
                    assert(self@.lists =~= m.lists.update(i, m.lists[i].push(addr)));
                }
                self.live = Ghost(self.live@.difference(range_set(addr as int, class_size(i))));
                proof {
                    assert(self@ =~= spec_dealloc(m, addr as int, size as int, align as int));
                }
            },
            None => {
                proof {
                    // The freed range was live, so it lies inside the region
                    // and shares no byte with the backing heap's spans.
                    let rng = range_set(addr as int, size as int);
                    assert(rng.contains(addr as int));
                    assert(rng.contains(addr as int + size - 1));
                    assert(range_set(m.bottom, m.top - m.bottom).contains(addr as int));
                    assert(range_set(m.bottom, m.top - m.bottom).contains(addr as int + size - 1));
                    assert forall|b: int| rng.contains(b) implies !spans_bytes(
                        m.spans,
                    ).contains(b) by {
                        assert(m.live.contains(b));
                        assert(!free_bytes(m).contains(b));
                    }
                    assert(rng.disjoint(spans_bytes(m.spans)));
                }
                self.fallback_allocator.deallocate(addr, size);
                self.live = Ghost(self.live@.difference(range_set(addr as int, size as int)));
                proof {
                    assert(self@ =~= spec_dealloc(m, addr as int, size as int, align as int));
                }
            },
        }
    }
}

} // verus!
