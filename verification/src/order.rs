use vstd::prelude::*;
use vstd::string::*;
use crate::{FunctionSignature, SegmentSignature};

verus! {

/// Two function signatures say the same.
pub open spec fn same_function(a: FunctionSignature, b: FunctionSignature) -> bool {
    a.name@ == b.name@ && a.fingerprint == b.fingerprint && a.size == b.size
}

/// Two segment signatures say the same, field by field.
pub open spec fn same_segment(a: SegmentSignature, b: SegmentSignature) -> bool {
    &&& a.name@ == b.name@
    &&& a.fingerprint == b.fingerprint
    &&& a.size == b.size
    &&& a.family == b.family
    &&& a.rodata == b.rodata
    &&& a.functions@.len() == b.functions@.len()
    &&& forall|i: int|
        0 <= i < a.functions@.len() ==> same_function(#[trigger] a.functions@[i], b.functions@[i])
}

/// Whether two function signatures say the same.
pub fn function_eq(a: &FunctionSignature, b: &FunctionSignature) -> (same: bool)
    ensures
        same == same_function(*a, *b),
{
    a.name == b.name && a.fingerprint == b.fingerprint && a.size == b.size
}

/// Whether two segment signatures say the same.
pub fn segment_eq(a: &SegmentSignature, b: &SegmentSignature) -> (same: bool)
    ensures
        same == same_segment(*a, *b),
{
    if !(a.name == b.name && a.fingerprint == b.fingerprint && a.size == b.size && a.family
        == b.family) {
        return false;
    }
    let rodata_same = match (&a.rodata, &b.rodata) {
        (Some(x), Some(y)) => x.rodata_type == y.rodata_type && x.size == y.size,
        (None, None) => true,
        _ => false,
    };
    if !rodata_same {
        return false;
    }
    if a.functions.len() != b.functions.len() {
        return false;
    }
    let mut i: usize = 0;
    while i < a.functions.len()
        invariant
            i <= a.functions@.len(),
            a.functions@.len() == b.functions@.len(),
            forall|k: int|
                0 <= k < i ==> same_function(#[trigger] a.functions@[k], b.functions@[k]),
        decreases a.functions@.len() - i,
    {
        if !function_eq(&a.functions[i], &b.functions[i]) {
            return false;
        }
        i += 1;
    }
    true
}

/// How many of the first `n` segments say the same as `segment`.
pub open spec fn copies_among(segments: Seq<SegmentSignature>, segment: SegmentSignature, n: nat) -> nat
    decreases n,
{
    if n == 0 {
        0
    } else {
        copies_among(segments, segment, (n - 1) as nat) + if same_segment(
            segments[n - 1],
            segment,
        ) {
            1nat
        } else {
            0nat
        }
    }
}

/// How often the segment at `i` occurs in the library.
pub open spec fn copies(segments: Seq<SegmentSignature>, i: int) -> nat {
    copies_among(segments, segments[i], segments.len())
}

/// No earlier segment says the same as the one at `i`.
pub open spec fn is_first_copy(segments: Seq<SegmentSignature>, i: int) -> bool {
    &&& 0 <= i < segments.len()
    &&& forall|j: int| 0 <= j < i ==> !same_segment(#[trigger] segments[j], segments[i])
}

/// The segment at `i` is scanned before the one at `j`: the larger one
/// first; of two of one size, the one that occurs more often; of two that
/// agree in both, the one that the library names first.
pub open spec fn scanned_before(segments: Seq<SegmentSignature>, i: int, j: int) -> bool {
    let si = segments[i].size;
    let sj = segments[j].size;
    let ci = copies(segments, i);
    let cj = copies(segments, j);
    si > sj || (si == sj && (ci > cj || (ci == cj && i < j)))
}

/// `order` lists the first copy of every distinct segment once, in the
/// order in which the segments are scanned.
pub open spec fn is_scan_order(segments: Seq<SegmentSignature>, order: Seq<usize>) -> bool {
    &&& forall|a: int| 0 <= a < order.len() ==> is_first_copy(segments, #[trigger] order[a] as int)
    &&& forall|a: int, b: int|
        0 <= a < b < order.len() ==> scanned_before(
            segments,
            #[trigger] order[a] as int,
            #[trigger] order[b] as int,
        )
    &&& forall|i: int|
        is_first_copy(segments, i) ==> exists|a: int|
            0 <= a < order.len() && #[trigger] order[a] == i
}

/// In a scan order the sizes never grow.
pub proof fn lemma_scan_order_sizes(segments: Seq<SegmentSignature>, order: Seq<usize>, a: int, b: int)
    requires
        is_scan_order(segments, order),
        0 <= a <= b < order.len(),
    ensures
        segments[order[a] as int].size >= segments[order[b] as int].size,
{
    if a < b {
        assert(scanned_before(segments, order[a] as int, order[b] as int));
    }
}

/// Two scan orders of one library agree in their first `k` places.
pub proof fn lemma_scan_orders_agree(
    segments: Seq<SegmentSignature>,
    first: Seq<usize>,
    second: Seq<usize>,
    k: int,
)
    requires
        is_scan_order(segments, first),
        is_scan_order(segments, second),
        0 <= k <= first.len(),
        k <= second.len(),
    ensures
        forall|i: int| 0 <= i < k ==> first[i] == second[i],
    decreases k,
{
    if k > 0 {
        lemma_scan_orders_agree(segments, first, second, k - 1);
        let x = first[k - 1] as int;
        let y = second[k - 1] as int;
        if x != y {
            assert(is_first_copy(segments, x));
            assert(is_first_copy(segments, y));
            let m = choose|m: int| 0 <= m < second.len() && #[trigger] second[m] == x;
            let n = choose|n: int| 0 <= n < first.len() && #[trigger] first[n] == y;
            if m < k - 1 {
                assert(first[m] == second[m]);
                assert(scanned_before(segments, first[m] as int, first[k - 1] as int));
            } else if m > k - 1 {
                assert(scanned_before(segments, second[k - 1] as int, second[m] as int));
                if n < k - 1 {
                    assert(first[n] == second[n]);
                    assert(scanned_before(segments, second[n] as int, second[k - 1] as int));
                } else if n > k - 1 {
                    assert(scanned_before(segments, first[k - 1] as int, first[n] as int));
                }
            }
        }
    }
}

/// A library has one scan order only.
pub proof fn lemma_scan_order_unique(
    segments: Seq<SegmentSignature>,
    first: Seq<usize>,
    second: Seq<usize>,
)
    requires
        is_scan_order(segments, first),
        is_scan_order(segments, second),
    ensures
        first == second,
{
    let k = if first.len() <= second.len() {
        first.len() as int
    } else {
        second.len() as int
    };
    lemma_scan_orders_agree(segments, first, second, k);
    if first.len() < second.len() {
        let y = second[k] as int;
        assert(is_first_copy(segments, y));
        let n = choose|n: int| 0 <= n < first.len() && #[trigger] first[n] == y;
        assert(first[n] == second[n]);
        assert(scanned_before(segments, second[n] as int, second[k] as int));
    } else if second.len() < first.len() {
        let x = first[k] as int;
        assert(is_first_copy(segments, x));
        let m = choose|m: int| 0 <= m < second.len() && #[trigger] second[m] == x;
        assert(first[m] == second[m]);
        assert(scanned_before(segments, first[m] as int, first[k] as int));
    }
    assert(first =~= second);
}

/// The order in which the distinct segments of a library are scanned.
pub open spec fn scan_order_of(segments: Seq<SegmentSignature>) -> Seq<usize> {
    choose|order: Seq<usize>| is_scan_order(segments, order)
}

/// How often `segment` occurs in `segments`.
pub fn count_copies(segments: &Vec<SegmentSignature>, segment: &SegmentSignature) -> (count: usize)
    ensures
        count == copies_among(segments@, *segment, segments@.len()),
{
    let mut count: usize = 0;
    let mut i: usize = 0;
    while i < segments.len()
        invariant
            i <= segments@.len(),
            count <= i,
            count == copies_among(segments@, *segment, i as nat),
        decreases segments@.len() - i,
    {
        if segment_eq(&segments[i], segment) {
            count += 1;
        }
        i += 1;
    }
    count
}

/// Whether no segment before `i` says the same as the one at `i`.
pub fn first_copy(segments: &Vec<SegmentSignature>, i: usize) -> (first: bool)
    requires
        i < segments@.len(),
    ensures
        first == is_first_copy(segments@, i as int),
{
    let mut j: usize = 0;
    while j < i
        invariant
            j <= i < segments@.len(),
            forall|k: int| 0 <= k < j ==> !same_segment(#[trigger] segments@[k], segments@[i as int]),
        decreases i - j,
    {
        if segment_eq(&segments[j], &segments[i]) {
            return false;
        }
        j += 1;
    }
    true
}

/// Lists the distinct segments of a library in the order in which they are
/// scanned.
pub fn scan_order(segments: &Vec<SegmentSignature>) -> (order: Vec<usize>)
    ensures
        is_scan_order(segments@, order@),
        order@ == scan_order_of(segments@),
{
    let mut order: Vec<usize> = Vec::new();
    let mut counts: Vec<usize> = Vec::new();
    let mut i: usize = 0;
    while i < segments.len()
        invariant
            i <= segments@.len(),
            counts@.len() == order@.len(),
            forall|a: int|
                0 <= a < order@.len() ==> (#[trigger] order@[a]) < i && is_first_copy(
                    segments@,
                    order@[a] as int,
                ),
            forall|a: int|
                0 <= a < order@.len() ==> #[trigger] counts@[a] == copies(
                    segments@,
                    order@[a] as int,
                ),
            forall|a: int, b: int|
                0 <= a < b < order@.len() ==> scanned_before(
                    segments@,
                    #[trigger] order@[a] as int,
                    #[trigger] order@[b] as int,
                ),
            forall|x: int|
                0 <= x < i && is_first_copy(segments@, x) ==> exists|a: int|
                    0 <= a < order@.len() && #[trigger] order@[a] == x,
        decreases segments@.len() - i,
    {
        if first_copy(segments, i) {
            let size: usize = segments[i].size;
            let count: usize = count_copies(segments, &segments[i]);
            let mut at: usize = 0;
            let mut placed: bool = false;
            while at < order.len() && !placed
                invariant
                    placed ==> at < order@.len() && scanned_before(
                        segments@,
                        i as int,
                        order@[at as int] as int,
                    ),
                    at <= order@.len(),
                    i < segments@.len(),
                    size == segments@[i as int].size,
                    count == copies(segments@, i as int),
                    counts@.len() == order@.len(),
                    forall|a: int| 0 <= a < order@.len() ==> (#[trigger] order@[a]) < i,
                    forall|a: int|
                        0 <= a < order@.len() ==> #[trigger] counts@[a] == copies(
                            segments@,
                            order@[a] as int,
                        ),
                    forall|a: int|
                        0 <= a < at ==> scanned_before(
                            segments@,
                            #[trigger] order@[a] as int,
                            i as int,
                        ),
                decreases order@.len() - at + if placed { 0int } else { 1int },
            {
                let other: usize = order[at];
                let other_size: usize = segments[other].size;
                if other_size < size {
                    placed = true;
                } else if other_size == size && counts[at] < count {
                    placed = true;
                } else {
                    at += 1;
                }
            }
            let ghost before = order@;
            let ghost before_counts = counts@;
            proof {
                if at < before.len() {
                    assert(scanned_before(segments@, i as int, before[at as int] as int));
                    assert forall|b: int| at <= b < before.len() implies scanned_before(
                        segments@,
                        i as int,
                        #[trigger] before[b] as int,
                    ) by {
                        if at < b {
                            assert(scanned_before(
                                segments@,
                                before[at as int] as int,
                                before[b] as int,
                            ));
                        }
                    }
                }
            }
            order.insert(at, i);
            counts.insert(at, count);
            proof {
                assert forall|a: int| 0 <= a < order@.len() implies #[trigger] counts@[a] == copies(
                    segments@,
                    order@[a] as int,
                ) by {
                    if a < at {
                        assert(counts@[a] == before_counts[a] && order@[a] == before[a]);
                    } else if a > at {
                        assert(counts@[a] == before_counts[a - 1] && order@[a] == before[a - 1]);
                    }
                }
                assert forall|x: int| 0 <= x < i + 1 && is_first_copy(segments@, x) implies exists|
                    a: int,
                | 0 <= a < order@.len() && #[trigger] order@[a] == x by {
                    if x == i {
                        assert(order@[at as int] == x);
                    } else {
                        let a0 = choose|a: int| 0 <= a < before.len() && #[trigger] before[a] == x;
                        if a0 < at {
                            assert(order@[a0] == x);
                        } else {
                            assert(order@[a0 + 1] == x);
                        }
                    }
                }
                assert forall|a: int, b: int| 0 <= a < b < order@.len() implies scanned_before(
                    segments@,
                    #[trigger] order@[a] as int,
                    #[trigger] order@[b] as int,
                ) by {
                    let oa = if a < at { a } else { a - 1 };
                    let ob = if b < at { b } else { b - 1 };
                    if a != at && b != at {
                        assert(scanned_before(segments@, before[oa] as int, before[ob] as int));
                    } else if a == at {
                        assert(scanned_before(segments@, i as int, before[ob] as int));
                    } else {
                        assert(scanned_before(segments@, before[oa] as int, i as int));
                    }
                }
            }
        }
        i += 1;
    }
    proof {
        assert(is_scan_order(segments@, order@));
        lemma_scan_order_unique(segments@, order@, scan_order_of(segments@));
    }
    order
}

} // verus!
