//! Search structures over items compared by a distance function: a
//! vantage-point tree and a BK tree, each answering whether any item lies
//! within a radius of a query, and stopping at the first one found.
pub mod bk_tree;
pub mod vp_tree;

use vstd::prelude::*;

verus! {

/// `dist` can be called on any pair of items.
pub open spec fn total<F: Fn(&usize, &usize) -> isize>(dist: F) -> bool {
    forall|a: usize, b: usize| #[trigger] dist.requires((&a, &b))
}

/// `dist` computes `m`: every answer it gives for a pair of items is `m` of
/// that pair.
pub open spec fn computes<F: Fn(&usize, &usize) -> isize>(dist: F, m: spec_fn(usize, usize) -> int) -> bool {
    forall|a: usize, b: usize, r: isize| #[trigger] dist.ensures((&a, &b), r) ==> r == m(a, b)
}

/// `m` is a metric on `points`, as far as searching needs one: symmetric,
/// and obeying the triangle inequality.
pub open spec fn metric_on(m: spec_fn(usize, usize) -> int, points: Set<usize>) -> bool {
    &&& forall|a: usize, b: usize|
        #![trigger m(a, b)]
        points.contains(a) && points.contains(b) ==> m(a, b) == m(b, a)
    &&& forall|a: usize, b: usize, c: usize|
        #![trigger m(a, b), m(b, c)]
        points.contains(a) && points.contains(b) && points.contains(c) ==> m(a, c) <= m(a, b) + m(
            b,
            c,
        )
}

/// A search's answer `r` is the spec answer `s`: both none, or the same
/// item at the same distance.
pub open spec fn same_answer(r: Option<(usize, isize)>, s: Option<(usize, int)>) -> bool {
    match r {
        Some((item, d)) => s == Some((item, d as int)),
        None => s is None,
    }
}

/// A miss covers twins: where no held item is within `radius` of `query`,
/// neither is an item at distance 0 from a held one, if the distance
/// computes a metric on the held items, the query and that item.
pub proof fn lemma_miss_covers_twin<F: Fn(&usize, &usize) -> isize>(
    dist: F,
    m: spec_fn(usize, usize) -> int,
    held: Set<usize>,
    query: usize,
    radius: isize,
    x: usize,
    y: usize,
)
    requires
        computes(dist, m),
        metric_on(m, held.insert(query).insert(x)),
        none_within(m, held, query, radius),
        held.contains(y),
        dist.ensures((&y, &x), 0),
    ensures
        m(query, x) > radius,
{
    let p = held.insert(query).insert(x);
    assert(p.contains(y) && p.contains(x) && p.contains(query));
    assert(m(y, x) == 0);
    assert(m(x, y) == m(y, x));
    assert(m(query, y) <= m(query, x) + m(x, y));
    assert(held.contains(y));
}

/// No item of `items` is within `radius` of `query` by `m`.
pub open spec fn none_within(m: spec_fn(usize, usize) -> int, items: Set<usize>, query: usize, radius: isize) -> bool {
    forall|x: usize| #[trigger] items.contains(x) ==> m(query, x) > radius
}

} // verus!
