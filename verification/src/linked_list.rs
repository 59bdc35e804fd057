//! The backing first-fit heap: a general allocator over one contiguous byte
//! region, used for oversized requests and to mint fresh blocks for the
//! size-classed allocator above it.
//!
//! Free memory is tracked as a list of spans `(start, length)` kept in
//! ascending address order. Allocation scans the list front to back and
//! carves the first span that can hold the request after alignment padding;
//! deallocation reinserts the freed range as a new span at its address
//! position. The whole structure is modelled by the sequence of spans, so
//! every contract below pins the successor state exactly.

use vstd::prelude::*;

use crate::memory::{align_up, lemma_align_up, spec_align_up};

verus! {

/// One past the last byte of a free span.
pub open spec fn span_end(s: (usize, usize)) -> int {
    s.0 + s.1
}

/// The spans are nonempty, lie inside `[bottom, top)`, and are sorted by
/// address with no two spans sharing a byte.
pub open spec fn spans_wf(spans: Seq<(usize, usize)>, bottom: int, top: int) -> bool {
    &&& forall|i: int| 0 <= i < spans.len() ==> 0 < (#[trigger] spans[i]).1
    &&& forall|i: int|
        0 <= i < spans.len() ==> bottom <= (#[trigger] spans[i]).0 && span_end(spans[i]) <= top
    &&& forall|i: int, j: int|
        0 <= i < j < spans.len() ==> span_end(#[trigger] spans[i]) <= (#[trigger] spans[j]).0
}

/// The set of byte addresses in `[start, start + len)`.
pub open spec fn range_set(start: int, len: int) -> Set<int> {
    Set::new(|b: int| start <= b < start + len)
}

/// The set of byte addresses covered by some span of the list.
pub open spec fn spans_bytes(spans: Seq<(usize, usize)>) -> Set<int> {
    Set::new(
        |b: int|
            exists|i: int| 0 <= i < spans.len() && (#[trigger] spans[i]).0 <= b < span_end(spans[i]),
    )
}

/// Total number of free bytes held in the span list.
pub open spec fn spans_total(spans: Seq<(usize, usize)>) -> int
    decreases spans.len(),
{
    if spans.len() == 0 {
        0
    } else {
        spans[0].1 + spans_total(spans.drop_first())
    }
}

/// A request of `size` bytes at alignment `align` fits inside span `s` once
/// the start is padded up to the alignment.
pub open spec fn span_fits(s: (usize, usize), size: int, align: int) -> bool {
    spec_align_up(s.0 as int, align) + size <= span_end(s)
}

/// Index of the first span that fits the request, scanning in address order.
pub open spec fn first_fit(spans: Seq<(usize, usize)>, size: int, align: int) -> Option<int>
    decreases spans.len(),
{
    if spans.len() == 0 {
        None
    } else if span_fits(spans[0], size, align) {
        Some(0)
    } else {
        match first_fit(spans.drop_first(), size, align) {
            Some(i) => Some(i + 1),
            None => None,
        }
    }
}

/// The span list after carving `size` bytes at alignment `align` out of span
/// `i`: any padding below the aligned start and any remainder above the
/// carved block stay behind as free spans in place.
pub open spec fn carve(spans: Seq<(usize, usize)>, i: int, size: int, align: int) -> Seq<
    (usize, usize),
> {
    let s = spans[i];
    let aligned = spec_align_up(s.0 as int, align);
    let pad = aligned - s.0;
    let rest = span_end(s) - (aligned + size);
    let mid = (if pad > 0 {
        seq![(s.0, pad as usize)]
    } else {
        Seq::<(usize, usize)>::empty()
    }) + (if rest > 0 {
        seq![((aligned + size) as usize, rest as usize)]
    } else {
        Seq::<(usize, usize)>::empty()
    });
    spans.take(i) + mid + spans.skip(i + 1)
}

/// Address handed out by a first-fit allocation, if any span fits.
pub open spec fn heap_alloc_result(spans: Seq<(usize, usize)>, size: int, align: int) -> Option<
    int,
> {
    match first_fit(spans, size, align) {
        Some(i) => Some(spec_align_up(spans[i].0 as int, align)),
        None => None,
    }
}

/// Span list after a first-fit allocation; unchanged when no span fits.
pub open spec fn heap_alloc_spans(spans: Seq<(usize, usize)>, size: int, align: int) -> Seq<
    (usize, usize),
> {
    match first_fit(spans, size, align) {
        Some(i) => carve(spans, i, size, align),
        None => spans,
    }
}

/// Span list after reinserting the freed range `[addr, addr + size)` at its
/// position in address order.
pub open spec fn heap_free_spans(spans: Seq<(usize, usize)>, addr: int, size: int) -> Seq<
    (usize, usize),
>
    decreases spans.len(),
{
    if spans.len() == 0 {
        seq![(addr as usize, size as usize)]
    } else if addr < spans[0].0 {
        seq![(addr as usize, size as usize)] + spans
    } else {
        seq![spans[0]] + heap_free_spans(spans.drop_first(), addr, size)
    }
}

/// Two byte ranges of positive length are disjoint as sets exactly when one
/// ends before the other begins.
pub proof fn lemma_ranges_disjoint(a: int, la: int, b: int, lb: int)
    requires
        0 < la,
        0 < lb,
    ensures
        range_set(a, la).disjoint(range_set(b, lb)) <==> (a + la <= b || b + lb <= a),
{
    if a + la <= b || b + lb <= a {
        assert forall|x: int| !(range_set(a, la).contains(x) && range_set(b, lb).contains(x)) by {}
    } else {
        let w = if a >= b {
            a
        } else {
            b
        };
        assert(range_set(a, la).contains(w));
        assert(range_set(b, lb).contains(w));
    }
}

/// `first_fit` returns the least index whose span fits the request, and
/// `None` exactly when no span fits.
pub proof fn lemma_first_fit_characterization(spans: Seq<(usize, usize)>, size: int, align: int)
    ensures
        match first_fit(spans, size, align) {
            Some(i) => 0 <= i < spans.len() && span_fits(spans[i], size, align) && (forall|j: int|
                0 <= j < i ==> !span_fits(#[trigger] spans[j], size, align)),
            None => forall|j: int|
                0 <= j < spans.len() ==> !span_fits(#[trigger] spans[j], size, align),
        },
    decreases spans.len(),
{
    if spans.len() == 0 {
    } else if span_fits(spans[0], size, align) {
    } else {
        let rest = spans.drop_first();
        lemma_first_fit_characterization(rest, size, align);
        assert(forall|j: int| 0 <= j < rest.len() ==> #[trigger] rest[j] == spans[j + 1]);
        match first_fit(rest, size, align) {
            Some(i) => {
                assert forall|j: int| 0 <= j < i + 1 implies !span_fits(
                    #[trigger] spans[j],
                    size,
                    align,
                ) by {
                    if j > 0 {
                        assert(spans[j] == rest[j - 1]);
                    }
                }
            },
            None => {
                assert forall|j: int| 0 <= j < spans.len() implies !span_fits(
                    #[trigger] spans[j],
                    size,
                    align,
                ) by {
                    if j > 0 {
                        assert(spans[j] == rest[j - 1]);
                    }
                }
            },
        }
    }
}

/// Shape of a carved span list: untouched spans keep their order around the
/// padding and remainder pieces left from span `i`.
proof fn lemma_carve_parts(
    spans: Seq<(usize, usize)>,
    i: int,
    size: int,
    align: int,
    bottom: int,
    top: int,
)
    requires
        spans_wf(spans, bottom, top),
        0 <= bottom,
        top <= usize::MAX,
        0 <= i < spans.len(),
        0 < size,
        0 < align,
        span_fits(spans[i], size, align),
    ensures
        ({
            let s = spans[i];
            let aligned = spec_align_up(s.0 as int, align);
            let pad = aligned - s.0;
            let rest = span_end(s) - (aligned + size);
            let c = carve(spans, i, size, align);
            let midlen = (if pad > 0 {
                1int
            } else {
                0int
            }) + (if rest > 0 {
                1int
            } else {
                0int
            });
            &&& 0 <= pad
            &&& 0 <= rest
            &&& c.len() == spans.len() - 1 + midlen
            &&& forall|k: int| 0 <= k < i ==> #[trigger] c[k] == spans[k]
            &&& forall|k: int|
                i + midlen <= k < c.len() ==> #[trigger] c[k] == spans[k - midlen + 1]
            &&& pad > 0 ==> c[i] == (s.0, pad as usize)
            &&& rest > 0 ==> c[i + midlen - 1] == ((aligned + size) as usize, rest as usize)
        }),
{
    let s = spans[i];
    let aligned = spec_align_up(s.0 as int, align);
    let pad = aligned - s.0;
    let rest = span_end(s) - (aligned + size);
    lemma_align_up(s.0 as int, align);
    let c = carve(spans, i, size, align);
    let mid = (if pad > 0 {
        seq![(s.0, pad as usize)]
    } else {
        Seq::<(usize, usize)>::empty()
    }) + (if rest > 0 {
        seq![((aligned + size) as usize, rest as usize)]
    } else {
        Seq::<(usize, usize)>::empty()
    });
    assert(c == spans.take(i) + mid + spans.skip(i + 1));
    assert(spans.take(i).len() == i);
    assert(spans.skip(i + 1).len() == spans.len() - i - 1);
    assert forall|k: int| 0 <= k < i implies #[trigger] c[k] == spans[k] by {
        assert(c[k] == spans.take(i)[k]);
    }
    assert forall|k: int| i + mid.len() <= k < c.len() implies #[trigger] c[k] == spans[k
        - mid.len() + 1] by {
        assert(c[k] == spans.skip(i + 1)[k - i - mid.len()]);
    }
    if pad > 0 {
        assert(c[i] == mid[0]);
    }
    if rest > 0 {
        assert(c[i + mid.len() - 1] == mid[mid.len() - 1]);
    }
}

/// Carving out of a well-formed span list leaves a well-formed span list.
pub proof fn lemma_carve_wf(
    spans: Seq<(usize, usize)>,
    i: int,
    size: int,
    align: int,
    bottom: int,
    top: int,
)
    requires
        spans_wf(spans, bottom, top),
        0 <= bottom,
        top <= usize::MAX,
        0 <= i < spans.len(),
        0 < size,
        0 < align,
        span_fits(spans[i], size, align),
    ensures
        spans_wf(carve(spans, i, size, align), bottom, top),
{
    let s = spans[i];
    let aligned = spec_align_up(s.0 as int, align);
    let pad = aligned - s.0;
    let rest = span_end(s) - (aligned + size);
    lemma_align_up(s.0 as int, align);
    lemma_carve_parts(spans, i, size, align, bottom, top);
    let c = carve(spans, i, size, align);
    let midlen = (if pad > 0 {
        1int
    } else {
        0int
    }) + (if rest > 0 {
        1int
    } else {
        0int
    });
    // Every carved element either is an untouched span or sits inside span i,
    // so each inherits its bounds from a span of the original list.
    assert forall|k: int| 0 <= k < c.len() implies 0 < (#[trigger] c[k]).1 && spans[(if k < i {
        k
    } else if k < i + midlen {
        i
    } else {
        k - midlen + 1
    })].0 <= c[k].0 && span_end(c[k]) <= span_end(
        spans[
            (if k < i {
                k
            } else if k < i + midlen {
                i
            } else {
                k - midlen + 1
            })],
    ) by {
        if i <= k < i + midlen {
            if pad > 0 && k == i {
                assert(c[k] == (s.0, pad as usize));
            } else {
                assert(c[k] == ((aligned + size) as usize, rest as usize));
            }
        }
    }
    assert forall|k: int, l: int| 0 <= k < l < c.len() implies span_end(#[trigger] c[k]) <= (
    #[trigger] c[l]).0 by {
        let ok = if k < i {
            k
        } else if k < i + midlen {
            i
        } else {
            k - midlen + 1
        };
        let ol = if l < i {
            l
        } else if l < i + midlen {
            i
        } else {
            l - midlen + 1
        };
        if ok < ol {
            assert(span_end(spans[ok]) <= spans[ol].0);
        } else {
            // Both pieces come from span i: the padding ends at `aligned`,
            // the remainder starts at `aligned + size`.
            assert(c[k] == (s.0, pad as usize));
            assert(c[l] == ((aligned + size) as usize, rest as usize));
        }
    }
}

/// A successful carve removes exactly the returned range from the heap's
/// bytes; the range itself was free beforehand.
pub proof fn lemma_carve_bytes(
    spans: Seq<(usize, usize)>,
    i: int,
    size: int,
    align: int,
    bottom: int,
    top: int,
)
    requires
        spans_wf(spans, bottom, top),
        0 <= bottom,
        top <= usize::MAX,
        0 <= i < spans.len(),
        0 < size,
        0 < align,
        span_fits(spans[i], size, align),
    ensures
        ({
            let aligned = spec_align_up(spans[i].0 as int, align);
            &&& range_set(aligned, size).subset_of(spans_bytes(spans))
            &&& spans_bytes(carve(spans, i, size, align)) == spans_bytes(spans).difference(
                range_set(aligned, size),
            )
        }),
{
    let s = spans[i];
    let aligned = spec_align_up(s.0 as int, align);
    let pad = aligned - s.0;
    let rest = span_end(s) - (aligned + size);
    lemma_align_up(s.0 as int, align);
    lemma_carve_parts(spans, i, size, align, bottom, top);
    let c = carve(spans, i, size, align);
    let midlen = (if pad > 0 {
        1int
    } else {
        0int
    }) + (if rest > 0 {
        1int
    } else {
        0int
    });
    assert forall|b: int| range_set(aligned, size).contains(b) implies spans_bytes(
        spans,
    ).contains(b) by {
        assert(s.0 <= b < span_end(s));
    }
    assert forall|b: int|
        spans_bytes(c).contains(b) == (spans_bytes(spans).contains(b) && !range_set(
            aligned,
            size,
        ).contains(b)) by {
        if spans_bytes(c).contains(b) {
            let k = choose|k: int| 0 <= k < c.len() && (#[trigger] c[k]).0 <= b < span_end(c[k]);
            if k < i {
                assert(c[k] == spans[k]);
                assert(span_end(spans[k]) <= spans[i].0);
            } else if k < i + midlen {
                // Padding or remainder: inside span i but outside the carved range.
                if pad > 0 && k == i {
                    assert(c[k] == (s.0, pad as usize));
                } else {
                    assert(c[k] == ((aligned + size) as usize, rest as usize));
                }
                assert(s.0 <= b < span_end(s));
            } else {
                assert(c[k] == spans[k - midlen + 1]);
                assert(span_end(spans[i]) <= spans[k - midlen + 1].0);
            }
        }
        if spans_bytes(spans).contains(b) && !range_set(aligned, size).contains(b) {
            let k = choose|k: int|
                0 <= k < spans.len() && (#[trigger] spans[k]).0 <= b < span_end(spans[k]);
            if k < i {
                assert(c[k] == spans[k]);
                assert(spans_bytes(c).contains(b));
            } else if k > i {
                assert(c[k + midlen - 1] == spans[k]);
                assert(spans_bytes(c).contains(b));
            } else {
                if b < aligned {
                    assert(pad > 0);
                    assert(c[i] == (s.0, pad as usize));
                    assert(c[i].0 <= b < span_end(c[i]));
                    assert(spans_bytes(c).contains(b));
                } else {
                    assert(b >= aligned + size);
                    assert(rest > 0);
                    assert(c[i + midlen - 1] == ((aligned + size) as usize, rest as usize));
                    assert(c[i + midlen - 1].0 <= b < span_end(c[i + midlen - 1]));
                    assert(spans_bytes(c).contains(b));
                }
            }
        }
    }
    assert(spans_bytes(c) =~= spans_bytes(spans).difference(range_set(aligned, size)));
}

/// A one-span list holds exactly that span's bytes.
proof fn lemma_spans_total_singleton(x: (usize, usize))
    ensures
        spans_total(seq![x]) == x.1,
{
    let s = seq![x];
    assert(s.drop_first() =~= Seq::<(usize, usize)>::empty());
    assert(spans_total(s.drop_first()) == 0);
    assert(spans_total(s) == x.1 + spans_total(s.drop_first()));
}

/// The free-byte count distributes over concatenation of span lists.
proof fn lemma_spans_total_add(a: Seq<(usize, usize)>, b: Seq<(usize, usize)>)
    ensures
        spans_total(a + b) == spans_total(a) + spans_total(b),
    decreases a.len(),
{
    if a.len() == 0 {
        assert(a + b =~= b);
    } else {
        lemma_spans_total_add(a.drop_first(), b);
        assert((a + b).drop_first() =~= a.drop_first() + b);
        assert((a + b)[0] == a[0]);
    }
}

/// Every span holds at most the heap's total number of free bytes.
proof fn lemma_span_le_total(spans: Seq<(usize, usize)>, k: int)
    requires
        0 <= k < spans.len(),
        forall|i: int| 0 <= i < spans.len() ==> 0 < (#[trigger] spans[i]).1,
    ensures
        spans[k].1 <= spans_total(spans),
    decreases spans.len(),
{
    let rest = spans.drop_first();
    assert(forall|j: int| 0 <= j < rest.len() ==> #[trigger] rest[j] == spans[j + 1]);
    if k == 0 {
        if rest.len() > 0 {
            lemma_span_le_total(rest, 0);
        } else {
            assert(spans_total(rest) == 0);
        }
        assert(spans_total(rest) >= 0) by {
            lemma_spans_total_nonneg(rest);
        }
    } else {
        lemma_span_le_total(rest, k - 1);
    }
}

/// The free-byte count is never negative.
proof fn lemma_spans_total_nonneg(spans: Seq<(usize, usize)>)
    ensures
        spans_total(spans) >= 0,
    decreases spans.len(),
{
    if spans.len() > 0 {
        lemma_spans_total_nonneg(spans.drop_first());
    }
}

/// A successful carve consumes exactly `size` bytes of backing space.
pub proof fn lemma_carve_total(
    spans: Seq<(usize, usize)>,
    i: int,
    size: int,
    align: int,
    bottom: int,
    top: int,
)
    requires
        spans_wf(spans, bottom, top),
        0 <= bottom,
        top <= usize::MAX,
        0 <= i < spans.len(),
        0 < size,
        0 < align,
        span_fits(spans[i], size, align),
    ensures
        spans_total(carve(spans, i, size, align)) == spans_total(spans) - size,
{
    let s = spans[i];
    let aligned = spec_align_up(s.0 as int, align);
    let pad = aligned - s.0;
    let rest = span_end(s) - (aligned + size);
    lemma_align_up(s.0 as int, align);
    let c = carve(spans, i, size, align);
    let mid = (if pad > 0 {
        seq![(s.0, pad as usize)]
    } else {
        Seq::<(usize, usize)>::empty()
    }) + (if rest > 0 {
        seq![((aligned + size) as usize, rest as usize)]
    } else {
        Seq::<(usize, usize)>::empty()
    });
    assert(spans =~= spans.take(i) + seq![s] + spans.skip(i + 1));
    lemma_spans_total_add(spans.take(i) + seq![s], spans.skip(i + 1));
    lemma_spans_total_add(spans.take(i), seq![s]);
    lemma_spans_total_add(spans.take(i) + mid, spans.skip(i + 1));
    lemma_spans_total_add(spans.take(i), mid);
    lemma_spans_total_singleton(s);
    assert(spans_total(mid) == pad + rest) by {
        if pad > 0 && rest > 0 {
            let p = (s.0, pad as usize);
            let q = ((aligned + size) as usize, rest as usize);
            assert(mid == seq![p] + seq![q]);
            lemma_spans_total_add(seq![p], seq![q]);
            lemma_spans_total_singleton(p);
            lemma_spans_total_singleton(q);
        } else if pad > 0 {
            let p = (s.0, pad as usize);
            assert(mid =~= seq![p]);
            lemma_spans_total_singleton(p);
        } else if rest > 0 {
            let q = ((aligned + size) as usize, rest as usize);
            assert(mid =~= seq![q]);
            lemma_spans_total_singleton(q);
        } else {
            assert(mid =~= Seq::<(usize, usize)>::empty());
        }
    }
    assert(s.1 == pad + size + rest);
}

/// When fewer free bytes remain than the request needs, no span fits: the
/// backing heap fails deterministically.
pub proof fn lemma_no_fit_when_exhausted(
    spans: Seq<(usize, usize)>,
    size: int,
    align: int,
    bottom: int,
    top: int,
)
    requires
        spans_wf(spans, bottom, top),
        0 <= bottom,
        0 < size,
        0 < align,
        spans_total(spans) < size,
    ensures
        first_fit(spans, size, align) is None,
{
    lemma_first_fit_characterization(spans, size, align);
    match first_fit(spans, size, align) {
        Some(k) => {
            lemma_span_le_total(spans, k);
            lemma_align_up(spans[k].0 as int, align);
            assert(false);
        },
        None => {},
    }
}

/// Reinserting a freed range that is disjoint from every span keeps the span
/// list well formed and adds exactly that range to the heap's bytes.
#[verifier::rlimit(60)]
pub proof fn lemma_heap_free(spans: Seq<(usize, usize)>, addr: int, size: int, bottom: int, top: int)
    requires
        spans_wf(spans, bottom, top),
        0 <= bottom,
        top <= usize::MAX,
        0 < size,
        bottom <= addr,
        addr + size <= top,
        range_set(addr, size).disjoint(spans_bytes(spans)),
    ensures
        spans_wf(heap_free_spans(spans, addr, size), bottom, top),
        spans_bytes(heap_free_spans(spans, addr, size)) == spans_bytes(spans).union(
            range_set(addr, size),
        ),
    decreases spans.len(),
{
    let new = heap_free_spans(spans, addr, size);
    // The freed range shares no byte with any span, so as intervals it lies
    // entirely before or after each of them.
    assert forall|k: int|
        0 <= k < spans.len() implies (addr + size <= (#[trigger] spans[k]).0 || span_end(spans[k])
        <= addr) by {
        if !(addr + size <= spans[k].0 || span_end(spans[k]) <= addr) {
            let w = if addr >= spans[k].0 {
                addr
            } else {
                spans[k].0 as int
            };
            assert(range_set(addr, size).contains(w));
            assert(spans_bytes(spans).contains(w));
        }
    }
    if spans.len() == 0 {
        assert(new == seq![(addr as usize, size as usize)]);
        assert forall|b: int|
            spans_bytes(new).contains(b) == range_set(addr, size).contains(b) by {
            assert(new[0] == (addr as usize, size as usize));
            if range_set(addr, size).contains(b) {
                assert(new[0].0 <= b < span_end(new[0]));
            }
        }
        assert(spans_bytes(new) =~= spans_bytes(spans).union(range_set(addr, size)));
    } else if addr < spans[0].0 {
        assert(new == seq![(addr as usize, size as usize)] + spans);
        assert(new[0] == (addr as usize, size as usize));
        assert(forall|k: int| 1 <= k < new.len() ==> #[trigger] new[k] == spans[k - 1]);
        assert forall|b: int|
            spans_bytes(new).contains(b) == (spans_bytes(spans).contains(b) || range_set(
                addr,
                size,
            ).contains(b)) by {
            if spans_bytes(new).contains(b) {
                let k = choose|k: int|
                    0 <= k < new.len() && (#[trigger] new[k]).0 <= b < span_end(new[k]);
                if k >= 1 {
                    assert(spans[k - 1].0 <= b < span_end(spans[k - 1]));
                }
            }
            if spans_bytes(spans).contains(b) {
                let k = choose|k: int|
                    0 <= k < spans.len() && (#[trigger] spans[k]).0 <= b < span_end(spans[k]);
                assert(new[k + 1].0 <= b < span_end(new[k + 1]));
            }
            if range_set(addr, size).contains(b) {
                assert(new[0].0 <= b < span_end(new[0]));
            }
        }
        assert(spans_bytes(new) =~= spans_bytes(spans).union(range_set(addr, size)));
    } else {
        let rest = spans.drop_first();
        assert(forall|j: int| 0 <= j < rest.len() ==> #[trigger] rest[j] == spans[j + 1]);
        assert forall|b: int| spans_bytes(rest).contains(b) implies spans_bytes(
            spans,
        ).contains(b) by {
            let k = choose|k: int|
                0 <= k < rest.len() && (#[trigger] rest[k]).0 <= b < span_end(rest[k]);
            assert(spans[k + 1].0 <= b < span_end(spans[k + 1]));
        }
        lemma_heap_free(rest, addr, size, bottom, top);
        let sub = heap_free_spans(rest, addr, size);
        assert(new == seq![spans[0]] + sub);
        assert(new[0] == spans[0]);
        assert(forall|k: int| 1 <= k < new.len() ==> #[trigger] new[k] == sub[k - 1]);
        // The head span ends at or before the freed range and before every
        // span of the tail, so the result stays sorted.
        assert(span_end(spans[0]) <= addr);
        assert forall|k: int, l: int| 0 <= k < l < new.len() implies span_end(#[trigger] new[k])
            <= (#[trigger] new[l]).0 by {
            if k == 0 {
                assert(sub[l - 1].0 >= (if rest.len() == 0 || addr < rest[0].0 {
                    addr
                } else {
                    rest[0].0 as int
                })) by {
                    if l - 1 > 0 {
                        assert(span_end(sub[0]) <= sub[l - 1].0);
                    }
                }
            }
        }
        assert forall|b: int|
            spans_bytes(new).contains(b) == (spans_bytes(spans).contains(b) || range_set(
                addr,
                size,
            ).contains(b)) by {
            if spans_bytes(new).contains(b) {
                let k = choose|k: int|
                    0 <= k < new.len() && (#[trigger] new[k]).0 <= b < span_end(new[k]);
                if k >= 1 {
                    assert(spans_bytes(sub).contains(b));
                    if spans_bytes(rest).contains(b) {
                        assert(spans_bytes(spans).contains(b));
                    }
                }
            }
            if spans_bytes(spans).contains(b) {
                let k = choose|k: int|
                    0 <= k < spans.len() && (#[trigger] spans[k]).0 <= b < span_end(spans[k]);
                if k == 0 {
                    assert(new[0].0 <= b < span_end(new[0]));
                } else {
                    assert(spans_bytes(rest).contains(b)) by {
                        assert(rest[k - 1].0 <= b < span_end(rest[k - 1]));
                    }
                    assert(spans_bytes(sub).contains(b));
                    let m = choose|m: int|
                        0 <= m < sub.len() && (#[trigger] sub[m]).0 <= b < span_end(sub[m]);
                    assert(new[m + 1].0 <= b < span_end(new[m + 1]));
                }
            }
            if range_set(addr, size).contains(b) {
                assert(spans_bytes(sub).contains(b));
                let m = choose|m: int|
                    0 <= m < sub.len() && (#[trigger] sub[m]).0 <= b < span_end(sub[m]);
                assert(new[m + 1].0 <= b < span_end(new[m + 1]));
            }
        }
        assert(spans_bytes(new) =~= spans_bytes(spans).union(range_set(addr, size)));
    }
}

/// Inserting the freed range at the first position whose span starts above it
/// is exactly the recursive reinsertion.
proof fn lemma_heap_free_insert_at(spans: Seq<(usize, usize)>, addr: int, size: int, idx: int)
    requires
        0 <= idx <= spans.len(),
        forall|j: int| 0 <= j < idx ==> (#[trigger] spans[j]).0 <= addr,
        idx < spans.len() ==> addr < spans[idx].0,
    ensures
        heap_free_spans(spans, addr, size) == spans.insert(idx, (addr as usize, size as usize)),
    decreases spans.len(),
{
    let x = (addr as usize, size as usize);
    if idx == 0 {
        if spans.len() == 0 {
            assert(heap_free_spans(spans, addr, size) =~= spans.insert(0, x));
        } else {
            assert(heap_free_spans(spans, addr, size) =~= spans.insert(0, x));
        }
    } else {
        let rest = spans.drop_first();
        assert(forall|j: int| 0 <= j < rest.len() ==> #[trigger] rest[j] == spans[j + 1]);
        lemma_heap_free_insert_at(rest, addr, size, idx - 1);
        assert(heap_free_spans(spans, addr, size) == seq![spans[0]] + heap_free_spans(
            rest,
            addr,
            size,
        ));
        assert(heap_free_spans(spans, addr, size) =~= spans.insert(idx, x));
    }
}

/// The backing heap over `[bottom, top)`.
pub struct Heap {
    spans: Vec<(usize, usize)>,
    bottom: usize,
    top: usize,
}

impl Heap {
    /// The free spans, in ascending address order.
    pub closed spec fn spans(&self) -> Seq<(usize, usize)> {
        self.spans@
    }

    /// First byte of the region this heap manages.
    pub closed spec fn bottom(&self) -> int {
        self.bottom as int
    }

    /// One past the last byte of the region this heap manages.
    pub closed spec fn top(&self) -> int {
        self.top as int
    }

    /// The heap's span list is well formed within its region.
    pub open spec fn wf(&self) -> bool {
        &&& self.bottom() <= self.top()
        &&& spans_wf(self.spans(), self.bottom(), self.top())
    }

    /// Creates an empty heap managing no memory at all.
    pub fn empty() -> (r: Self)
        ensures
            r.wf(),
            r.spans() == Seq::<(usize, usize)>::empty(),
            r.bottom() == 0,
            r.top() == 0,
    {
        Heap { spans: Vec::new(), bottom: 0, top: 0 }
    }

    /// Initializes the heap over the raw byte range
    /// `[bottom, bottom + size)`, which becomes one free span. Must be called
    /// once, on an empty heap, and the caller must guarantee that the range
    /// is otherwise unused.
    pub fn init(&mut self, bottom: usize, size: usize)
        requires
            old(self).spans().len() == 0,
            0 < size,
            bottom + size <= usize::MAX,
        ensures
            final(self).wf(),
            final(self).spans() == seq![(bottom, size)],
            final(self).bottom() == bottom,
            final(self).top() == bottom + size,
    {
        self.bottom = bottom;
        self.top = bottom + size;
        self.spans.push((bottom, size));
        proof {
            assert(self.spans@ =~= seq![(bottom, size)]);
        }
    }

    /// Scans the free spans in address order and carves the requested block
    /// out of the first span that can hold it, leaving any alignment padding
    /// and any remainder behind as free spans. Returns the carved block's
    /// start address, or failure when no span qualifies.
    pub fn allocate_first_fit(&mut self, size: usize, align: usize) -> (r: Option<usize>)
        requires
            old(self).wf(),
            0 < size,
            0 < align,
        ensures
            final(self).wf(),
            final(self).bottom() == old(self).bottom(),
            final(self).top() == old(self).top(),
            final(self).spans() == heap_alloc_spans(old(self).spans(), size as int, align as int),
            match heap_alloc_result(old(self).spans(), size as int, align as int) {
                Some(a) => r == Some(a as usize),
                None => r is None,
            },
    {
        let ghost spans0 = self.spans@;
        let mut idx: usize = 0;
        let n = self.spans.len();
        while idx < n
            invariant
                spans0 == old(self).spans(),
                self.spans@ == spans0,
                self.bottom() == old(self).bottom(),
                self.top() == old(self).top(),
                self.wf(),
                0 < size,
                0 < align,
                n == spans0.len(),
                idx <= n,
                forall|j: int| 0 <= j < idx ==> !span_fits(#[trigger] spans0[j], size as int, align as int),
            decreases n - idx,
        {
            let (start, len) = self.spans[idx];
            let remainder = start % align;
            let pad = if remainder == 0 {
                0
            } else {
                proof {
                    vstd::arithmetic::div_mod::lemma_mod_decreases(start as nat, align as nat);
                }
                align - remainder
            };
            if pad <= len && size <= len - pad {
                let ghost i = idx as int;
                proof {
                    lemma_first_fit_characterization(spans0, size as int, align as int);
                    assert(spec_align_up(start as int, align as int) == start + pad);
                    assert(span_fits(spans0[i], size as int, align as int));
                    // No earlier span fits, so this is the first fit.
                    match first_fit(spans0, size as int, align as int) {
                        Some(k) => {
                            if k < i {
                                assert(!span_fits(spans0[k], size as int, align as int));
                            }
                            if k > i {
                                assert(!span_fits(spans0[i], size as int, align as int));
                            }
                        },
                        None => {
                            assert(!span_fits(spans0[i], size as int, align as int));
                        },
                    }
                    assert(first_fit(spans0, size as int, align as int) == Some(i));
                    lemma_carve_wf(
                        spans0,
                        i,
                        size as int,
                        align as int,
                        self.bottom as int,
                        self.top as int,
                    );
                }
                let aligned = align_up(start, align);
                let rest = len - pad - size;
                self.spans.remove(idx);
                if rest > 0 {
                    self.spans.insert(idx, (aligned + size, rest));
                }
                if pad > 0 {
                    self.spans.insert(idx, (start, pad));
                }
                proof {
                    assert(self.spans@ =~= carve(spans0, i, size as int, align as int));
                }
                return Some(aligned);
            }
            proof {
                assert(spec_align_up(start as int, align as int) == start + pad);
                assert(!span_fits(spans0[idx as int], size as int, align as int));
            }
            idx = idx + 1;
        }
        proof {
            lemma_first_fit_characterization(spans0, size as int, align as int);
            assert(first_fit(spans0, size as int, align as int) is None) by {
                match first_fit(spans0, size as int, align as int) {
                    Some(k) => {
                        assert(!span_fits(spans0[k], size as int, align as int));
                    },
                    None => {},
                }
            }
        }
        None
    }

    /// Reinserts the freed range `[addr, addr + size)` as a new free span at
    /// its position in address order. The caller must free exactly a range it
    /// was handed by `allocate_first_fit` and has not freed since, which is
    /// what the disjointness precondition captures.
    pub fn deallocate(&mut self, addr: usize, size: usize)
        requires
            old(self).wf(),
            0 < size,
            old(self).bottom() <= addr,
            addr + size <= old(self).top(),
            range_set(addr as int, size as int).disjoint(spans_bytes(old(self).spans())),
        ensures
            final(self).wf(),
            final(self).bottom() == old(self).bottom(),
            final(self).top() == old(self).top(),
            final(self).spans() == heap_free_spans(old(self).spans(), addr as int, size as int),
            spans_bytes(final(self).spans()) == spans_bytes(old(self).spans()).union(
                range_set(addr as int, size as int),
            ),
    {
        let ghost spans0 = self.spans@;
        let mut idx: usize = 0;
        let n = self.spans.len();
        while idx < n && self.spans[idx].0 <= addr
            invariant
                spans0 == old(self).spans(),
                self.spans@ == spans0,
                self.bottom() == old(self).bottom(),
                self.top() == old(self).top(),
                n == spans0.len(),
                idx <= n,
                forall|j: int| 0 <= j < idx ==> (#[trigger] spans0[j]).0 <= addr,
            decreases n - idx,
        {
            idx = idx + 1;
        }
        self.spans.insert(idx, (addr, size));
        proof {
            lemma_heap_free_insert_at(spans0, addr as int, size as int, idx as int);
            lemma_heap_free(
                spans0,
                addr as int,
                size as int,
                old(self).bottom(),
                old(self).top(),
            );
        }
    }
}

} // verus!
