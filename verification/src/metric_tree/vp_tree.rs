//! A vantage-point tree with a search that stops at the first item found
//! within the radius.
use vstd::multiset::Multiset;
use vstd::prelude::*;

use super::{computes, metric_on, none_within, same_answer, total};

verus! {

/// A node: an item, the median distance from it to the items below it, the
/// items closer than that, and the rest.
struct VpNode {
    item: usize,
    threshold: isize,
    inside: Option<Box<VpNode>>,
    outside: Option<Box<VpNode>>,
}

/// The items held in a subtree.
spec fn node_items(n: Option<Box<VpNode>>) -> Set<usize>
    decreases n,
{
    match n {
        None => Set::empty(),
        Some(b) => node_items(b.inside).union(node_items(b.outside)).insert(b.item),
    }
}

/// The items held in a subtree, each counted as often as it is held.
spec fn node_counts(n: Option<Box<VpNode>>) -> Multiset<usize>
    decreases n,
{
    match n {
        None => Multiset::empty(),
        Some(b) => node_counts(b.inside).add(node_counts(b.outside)).insert(b.item),
    }
}

/// At every node, nothing outside means nothing inside and a threshold of
/// 0: such a node holds a single item.
spec fn node_shaped(n: Option<Box<VpNode>>) -> bool
    decreases n,
{
    match n {
        None => true,
        Some(b) => {
            &&& node_shaped(b.inside)
            &&& node_shaped(b.outside)
            &&& b.outside is None ==> b.inside is None && b.threshold == 0
        },
    }
}

/// Two sequences of keyed items that are permutations of each other hold
/// the same items, counted with repetition.
proof fn lemma_items_of_permutation(s1: Seq<(isize, usize)>, s2: Seq<(isize, usize)>)
    requires
        s1.to_multiset() == s2.to_multiset(),
    ensures
        s1.map_values(|p: (isize, usize)| p.1).to_multiset() == s2.map_values(|p: (isize, usize)| p.1).to_multiset(),
    decreases s1.len(),
{
    broadcast use vstd::seq_lib::group_to_multiset_ensures;
    broadcast use vstd::multiset::group_multiset_axioms;

    let f = |p: (isize, usize)| p.1;
    assert(s1.to_multiset().len() == s1.len());
    assert(s2.to_multiset().len() == s2.len());
    if s1.len() == 0 {
        assert(s2.len() == 0);
        assert(s1.map_values(f) =~= Seq::<usize>::empty());
        assert(s2.map_values(f) =~= Seq::<usize>::empty());
    } else {
        let a = s1.last();
        let s1p = s1.drop_last();
        assert(s1 =~= s1p.push(a));
        assert(s1.to_multiset() =~= s1p.to_multiset().insert(a));
        assert(s2.to_multiset().count(a) > 0);
        assert(s2.contains(a));
        let i = choose|i: int| 0 <= i < s2.len() && s2[i] == a;
        let s2p = s2.remove(i);
        assert(s2p.to_multiset() =~= s2.to_multiset().remove(a));
        assert(s1p.to_multiset() =~= s2p.to_multiset());
        lemma_items_of_permutation(s1p, s2p);
        assert(s1.map_values(f) =~= s1p.map_values(f).push(a.1));
        assert(s2p.map_values(f) =~= s2.map_values(f).remove(i));
        assert(s2.map_values(f)[i] == a.1);
        assert(s2p.map_values(f).to_multiset() =~= s2.map_values(f).to_multiset().remove(a.1));
        assert(s2.map_values(f).contains(a.1));
        assert(s2.map_values(f).to_multiset().count(a.1) > 0);
        assert(s1.map_values(f).to_multiset() =~= s2.map_values(f).to_multiset());
    }
}

/// The items under a node, counted with repetition, are the items it was
/// built from: the vantage point, then the rest keyed by distance, permuted
/// and split at `mid` into the inside and outside parts.
proof fn lemma_build_counts(
    items: Seq<usize>,
    before: Seq<(isize, usize)>,
    keyed: Seq<(isize, usize)>,
    inside: Seq<usize>,
    outside: Seq<usize>,
    mid: int,
)
    requires
        items.len() >= 2,
        before.len() == items.len() - 1,
        forall|i: int| 0 <= i < before.len() ==> #[trigger] before[i].1 == items[i + 1],
        keyed.to_multiset() == before.to_multiset(),
        0 <= mid <= keyed.len(),
        inside.len() == mid,
        outside.len() == keyed.len() - mid,
        forall|i: int| 0 <= i < inside.len() ==> #[trigger] inside[i] == keyed[i].1,
        forall|i: int| 0 <= i < outside.len() ==> #[trigger] outside[i] == keyed[mid + i].1,
    ensures
        inside.to_multiset().add(outside.to_multiset()).insert(items[0]) == items.to_multiset(),
{
    broadcast use vstd::seq_lib::group_to_multiset_ensures;
    broadcast use vstd::multiset::group_multiset_axioms;

    let f = |p: (isize, usize)| p.1;
    lemma_items_of_permutation(keyed, before);
    assert(keyed.len() == before.len()) by {
        assert(keyed.to_multiset().len() == keyed.len());
        assert(before.to_multiset().len() == before.len());
    }
    assert(keyed.map_values(f) =~= inside + outside);
    let rest = items.subrange(1, items.len() as int);
    assert(before.map_values(f) =~= rest);
    vstd::seq_lib::lemma_multiset_commutative(inside, outside);
    assert(items =~= seq![items[0]] + rest);
    vstd::seq_lib::lemma_multiset_commutative(seq![items[0]], rest);
    let e = Seq::<usize>::empty();
    assert(seq![items[0]] =~= e.push(items[0]));
    assert(e.to_multiset().len() == 0);
    assert(e.to_multiset() =~= Multiset::<usize>::empty());
    assert(e.push(items[0]).to_multiset() =~= e.to_multiset().insert(items[0]));
    assert(inside.to_multiset().add(outside.to_multiset()).insert(items[0]) =~= items.to_multiset());
}

/// Every item inside a node is at most its threshold from the node's item,
/// and every item outside at least, by some distance `dist` gives.
spec fn node_wf<F: Fn(&usize, &usize) -> isize>(dist: F, n: Option<Box<VpNode>>) -> bool
    decreases n,
{
    match n {
        None => true,
        Some(b) => {
            &&& node_wf(dist, b.inside)
            &&& node_wf(dist, b.outside)
            &&& forall|x: usize|
                #![trigger node_items(b.inside).contains(x)]
                node_items(b.inside).contains(x) ==> exists|d: isize|
                    dist.ensures((&b.item, &x), d) && d <= b.threshold
            &&& forall|x: usize|
                #![trigger node_items(b.outside).contains(x)]
                node_items(b.outside).contains(x) ==> exists|d: isize|
                    dist.ensures((&b.item, &x), d) && d >= b.threshold
        },
    }
}

/// The item and distance that a search of the subtree `n` finds first,
/// where the distance computes `m`: the node's own item where it is within
/// `radius`, and otherwise the side the query falls on before the other,
/// each searched only where the triangle inequality leaves room for it.
spec fn vp_first(m: spec_fn(usize, usize) -> int, n: Option<Box<VpNode>>, query: usize, radius: isize) -> Option<
    (usize, int),
>
    decreases n,
{
    match n {
        None => None,
        Some(b) => {
            let d = m(query, b.item);
            if d <= radius {
                Some((b.item, d))
            } else {
                let fi = if d - radius <= b.threshold {
                    vp_first(m, b.inside, query, radius)
                } else {
                    None
                };
                let fo = if d + radius >= b.threshold {
                    vp_first(m, b.outside, query, radius)
                } else {
                    None
                };
                if d <= b.threshold {
                    if fi is Some { fi } else { fo }
                } else {
                    if fo is Some { fo } else { fi }
                }
            }
        },
    }
}

/// Reorders `v` so that the entry at `mid` is where sorting by distance
/// would put it, with no larger distance before it and no smaller after
/// (std's `slice::select_nth_unstable_by_key` keyed on the distance). Claims
/// that the entries are permuted and so partitioned.
#[verifier::external_body]
fn select_nth_by_distance(v: &mut Vec<(isize, usize)>, mid: usize)
    requires
        mid < old(v).len(),
    ensures
        final(v)@.to_multiset() == old(v)@.to_multiset(),
        final(v).len() == old(v).len(),
        forall|i: int| 0 <= i < mid ==> final(v)@[i].0 <= final(v)@[mid as int].0,
        forall|i: int| mid < i < final(v).len() ==> final(v)@[i].0 >= final(v)@[mid as int].0,
{
    v.select_nth_unstable_by_key(mid, |&(d, _)| d);
}

/// A vantage-point tree over item indices, with the distance it was built
/// with.
pub struct VpTree<F> {
    root: Option<Box<VpNode>>,
    dist: F,
}

impl<F: Fn(&usize, &usize) -> isize> VpTree<F> {
    /// The items held.
    pub closed spec fn items(&self) -> Set<usize> {
        node_items(self.root)
    }

    /// The distance in use.
    pub closed spec fn metric(&self) -> F {
        self.dist
    }

    /// The item and distance that a search finds first, where the distance
    /// computes `m`: a walk from the root that tries each node's item, then
    /// the side of its threshold the query falls on, then the other side.
    pub closed spec fn first_within(&self, m: spec_fn(usize, usize) -> int, query: usize, radius: isize) -> Option<
        (usize, int),
    > {
        vp_first(m, self.root, query, radius)
    }

    /// The tree is laid out by the distance, which can be called on any
    /// pair of items, and a node with nothing outside it holds a single item
    /// with threshold 0.
    pub closed spec fn wf(&self) -> bool {
        total(self.dist) && node_wf(self.dist, self.root) && node_shaped(self.root)
    }

    /// The items held, each counted as often as it is held.
    pub closed spec fn item_counts(&self) -> Multiset<usize> {
        node_counts(self.root)
    }

    /// Builds a tree over `items` with `dist` as the distance.
    pub fn new(items: Vec<usize>, dist: F) -> (tree: Self)
        requires
            total(dist),
        ensures
            tree.wf(),
            tree.metric() == dist,
            tree.items() == items@.to_set(),
            tree.item_counts() == items@.to_multiset(),
    {
        let root = build(&dist, items.as_slice());
        VpTree { root, dist }
    }

    /// An item within `radius` of `query` and its distance, stopping at the
    /// first one found; `None` only where no item is within `radius`, for
    /// any `m` that the distance computes and that is a metric on the items
    /// and the query.
    pub fn find_first_within(&self, query: usize, radius: isize) -> (r: Option<(usize, isize)>)
        requires
            self.wf(),
        ensures
            r matches Some((item, d)) ==> self.items().contains(item) && self.metric().ensures(
                (&query, &item),
                d,
            ) && d <= radius,
            r is None ==> forall|m: spec_fn(usize, usize) -> int|
                #![trigger metric_on(m, self.items().insert(query))]
                computes(self.metric(), m) && metric_on(m, self.items().insert(query)) ==> none_within(
                    m,
                    self.items(),
                    query,
                    radius,
                ),
            forall|m: spec_fn(usize, usize) -> int|
                #[trigger] computes(self.metric(), m) ==> same_answer(r, self.first_within(m, query, radius)),
    {
        let r = match &self.root {
            Some(n) => search(&self.dist, n, query, radius),
            None => None,
        };
        proof {
            if r is None {
                assert forall|m: spec_fn(usize, usize) -> int|
                    #![trigger metric_on(m, self.items().insert(query))]
                    computes(self.metric(), m) && metric_on(m, self.items().insert(query)) implies none_within(
                        m,
                        self.items(),
                        query,
                        radius,
                    ) by {
                    let p = self.items().insert(query);
                    assert(self.items().subset_of(p));
                    assert(metric_on(m, p));
                }
            }
        }
        r
    }
}

/// Builds the subtree over `items`: the first item is the vantage point,
/// the others are split at the median of their distances from it.
fn build<F: Fn(&usize, &usize) -> isize>(dist: &F, items: &[usize]) -> (r: Option<Box<VpNode>>)
    requires
        total(*dist),
    ensures
        node_wf(*dist, r),
        node_items(r) == items@.to_set(),
        items.len() == 0 <==> r is None,
        r matches Some(n) ==> n.item == items@[0],
        items.len() == 1 ==> r == Some(Box::new(VpNode { item: items@[0], threshold: 0, inside: None, outside: None })),
        node_counts(r) == items@.to_multiset(),
        node_shaped(r),
    decreases items.len(),
{
    if items.len() == 0 {
        assert(items@.to_set() =~= Set::<usize>::empty());
        assert(items@ =~= Seq::<usize>::empty());
        proof {
            broadcast use vstd::seq_lib::group_to_multiset_ensures;
            broadcast use vstd::multiset::group_multiset_axioms;
            assert(items@.to_multiset().len() == 0);
            assert(items@.to_multiset() =~= Multiset::<usize>::empty());
        }
        return None;
    }
    let vp = items[0];
    if items.len() == 1 {
        let leaf = VpNode { item: vp, threshold: 0, inside: None, outside: None };
        assert(node_items(leaf.inside) =~= Set::<usize>::empty());
        assert(node_items(leaf.outside) =~= Set::<usize>::empty());
        assert(items@.to_set() =~= node_items(Some(Box::new(leaf)))) by {
            assert(items@.len() == 1);
            assert forall|x: usize| items@.to_set().contains(x) implies x == vp by {
                let i = choose|i: int| 0 <= i < items.len() && items@[i] == x;
            }
            assert(items@.to_set().contains(items@[0]));
        }
        assert(node_wf(*dist, leaf.inside) && node_wf(*dist, leaf.outside));
        assert(node_wf(*dist, Some(Box::new(leaf))));
        proof {
            broadcast use vstd::seq_lib::group_to_multiset_ensures;
            broadcast use vstd::multiset::group_multiset_axioms;
            let e = Seq::<usize>::empty();
            assert(items@ =~= e.push(vp));
            assert(e.to_multiset().len() == 0);
            assert(e.to_multiset() =~= Multiset::<usize>::empty());
            assert(e.push(vp).to_multiset() =~= e.to_multiset().insert(vp));
            assert(node_counts(leaf.inside) =~= Multiset::<usize>::empty());
            assert(node_counts(leaf.outside) =~= Multiset::<usize>::empty());
            assert(node_counts(Some(Box::new(leaf))) =~= items@.to_multiset());
            assert(node_shaped(leaf.inside) && node_shaped(leaf.outside));
        }
        return Some(Box::new(leaf));
    }
    let mut keyed: Vec<(isize, usize)> = Vec::new();
    let mut k: usize = 1;
    while k < items.len()
        invariant
            1 <= k <= items.len(),
            total(*dist),
            keyed.len() == k - 1,
            forall|i: int|
                0 <= i < keyed.len() ==> keyed@[i].1 == items@[i + 1] && dist.ensures(
                    (&vp, &keyed@[i].1),
                    keyed@[i].0,
                ),
        decreases items.len() - k,
    {
        let it = items[k];
        let d = dist(&vp, &it);
        keyed.push((d, it));
        k = k + 1;
    }
    let ghost before = keyed@;
    let mid = keyed.len() / 2;
    select_nth_by_distance(&mut keyed, mid);
    let threshold = keyed[mid].0;
    proof {
        before.to_multiset_ensures();
        keyed@.to_multiset_ensures();
        assert forall|i: int| 0 <= i < keyed.len() implies dist.ensures((&vp, &keyed@[i].1), keyed@[i].0)
            && items@.subrange(1, items.len() as int).contains(keyed@[i].1) by {
            assert(keyed@.to_multiset().count(keyed@[i]) > 0);
            assert(before.contains(keyed@[i]));
            let j = choose|j: int| 0 <= j < before.len() && before[j] == keyed@[i];
            assert(items@.subrange(1, items.len() as int)[j] == keyed@[i].1);
        }
    }
    let mut inside: Vec<usize> = Vec::new();
    let mut outside: Vec<usize> = Vec::new();
    let mut j: usize = 0;
    while j < keyed.len()
        invariant
            j <= keyed.len(),
            mid < keyed.len(),
            inside.len() == (if j <= mid { j } else { mid }),
            outside.len() == (if j <= mid { 0 } else { j - mid }),
            forall|i: int| 0 <= i < inside.len() ==> inside@[i] == keyed@[i].1,
            forall|i: int| 0 <= i < outside.len() ==> outside@[i] == keyed@[mid + i].1,
        decreases keyed.len() - j,
    {
        if j < mid {
            inside.push(keyed[j].1);
        } else {
            outside.push(keyed[j].1);
        }
        j = j + 1;
    }
    let inside_node = build(dist, inside.as_slice());
    let outside_node = build(dist, outside.as_slice());
    let node = VpNode { item: vp, threshold, inside: inside_node, outside: outside_node };
    proof {
        assert forall|x: usize| #[trigger] node_items(node.inside).contains(x) implies exists|d: isize|
            dist.ensures((&node.item, &x), d) && d <= node.threshold by {
            assert(inside@.to_set().contains(x));
            let i = choose|i: int| 0 <= i < inside.len() && inside@[i] == x;
            assert(dist.ensures((&vp, &keyed@[i].1), keyed@[i].0));
        }
        assert forall|x: usize| #[trigger] node_items(node.outside).contains(x) implies exists|
            d: isize,
        | dist.ensures((&node.item, &x), d) && d >= node.threshold by {
            assert(outside@.to_set().contains(x));
            let i = choose|i: int| 0 <= i < outside.len() && outside@[i] == x;
            assert(dist.ensures((&vp, &keyed@[mid + i].1), keyed@[mid + i].0));
        }
        assert forall|x: usize| #[trigger] node_items(Some(Box::new(node))).contains(x) == items@.to_set().contains(x) by {
            if x == vp {
                assert(items@[0] == x);
            } else if items@.to_set().contains(x) {
                let i = choose|i: int| 0 <= i < items.len() && items@[i] == x;
                assert(items@.subrange(1, items.len() as int)[i - 1] == x);
                assert(before.contains(before[i - 1]));
                assert(keyed@.to_multiset().count(before[i - 1]) > 0);
                let m = choose|m: int| 0 <= m < keyed.len() && keyed@[m] == before[i - 1];
                if m < mid {
                    assert(inside@[m] == x);
                    assert(inside@.to_set().contains(x));
                } else {
                    assert(outside@[m - mid] == x);
                    assert(outside@.to_set().contains(x));
                }
            }
            if node_items(Some(Box::new(node))).contains(x) && x != vp {
                if inside@.to_set().contains(x) {
                    let i = choose|i: int| 0 <= i < inside.len() && inside@[i] == x;
                    assert(items@.subrange(1, items.len() as int).contains(keyed@[i].1));
                } else {
                    assert(outside@.to_set().contains(x));
                    let i = choose|i: int| 0 <= i < outside.len() && outside@[i] == x;
                    assert(items@.subrange(1, items.len() as int).contains(keyed@[mid + i].1));
                }
            }
        }
        assert(node_items(Some(Box::new(node))) =~= items@.to_set());
        lemma_build_counts(items@, before, keyed@, inside@, outside@, mid as int);
        assert(inside.len() > 0 ==> outside.len() > 0);
    }
    Some(Box::new(node))
}

/// The first item found within `radius` of `query` in the subtree at
/// `node`, visiting first the side the query falls on and skipping a side
/// that the triangle inequality rules out.
fn search<F: Fn(&usize, &usize) -> isize>(dist: &F, node: &VpNode, query: usize, radius: isize) -> (r:
    Option<(usize, isize)>)
    requires
        total(*dist),
        node_wf(*dist, Some(Box::new(*node))),
    ensures
        r matches Some((item, d)) ==> node_items(Some(Box::new(*node))).contains(item)
            && dist.ensures((&query, &item), d) && d <= radius,
        r is None ==> forall|m: spec_fn(usize, usize) -> int, p: Set<usize>|
            #![trigger metric_on(m, p)]
            computes(*dist, m) && metric_on(m, p) && p.contains(query) && node_items(
                Some(Box::new(*node)),
            ).subset_of(p) ==> none_within(m, node_items(Some(Box::new(*node))), query, radius),
        forall|m: spec_fn(usize, usize) -> int|
            #[trigger] computes(*dist, m) ==> same_answer(r, vp_first(m, Some(Box::new(*node)), query, radius)),
    decreases node,
{
    let d = dist(&query, &node.item);
    if d <= radius {
        proof {
            assert forall|m: spec_fn(usize, usize) -> int| #[trigger] computes(*dist, m) implies same_answer(
                Some((node.item, d)),
                vp_first(m, Some(Box::new(*node)), query, radius),
            ) by {
                assert(d == m(query, node.item));
            }
        }
        return Some((node.item, d));
    }
    let inside_ok = (d as i128) - (radius as i128) <= (node.threshold as i128);
    let outside_ok = (d as i128) + (radius as i128) >= (node.threshold as i128);
    let mut found: Option<(usize, isize)> = None;
    if d <= node.threshold {
        if inside_ok {
            if let Some(child) = &node.inside {
                found = search(dist, child, query, radius);
            }
        }
        if found.is_none() && outside_ok {
            if let Some(child) = &node.outside {
                found = search(dist, child, query, radius);
            }
        }
    } else {
        if outside_ok {
            if let Some(child) = &node.outside {
                found = search(dist, child, query, radius);
            }
        }
        if found.is_none() && inside_ok {
            if let Some(child) = &node.inside {
                found = search(dist, child, query, radius);
            }
        }
    }
    proof {
        assert forall|m: spec_fn(usize, usize) -> int| #[trigger] computes(*dist, m) implies same_answer(
            found,
            vp_first(m, Some(Box::new(*node)), query, radius),
        ) by {
            assert(d == m(query, node.item));
        }
        if found is None {
            let items = node_items(Some(Box::new(*node)));
            assert forall|m: spec_fn(usize, usize) -> int, p: Set<usize>|
                #![trigger metric_on(m, p)]
                computes(*dist, m) && metric_on(m, p) && p.contains(query) && items.subset_of(p)
                implies none_within(m, items, query, radius) by {
                assert(d == m(query, node.item));
                assert(node_items(node.inside).subset_of(p));
                assert(node_items(node.outside).subset_of(p));
                assert forall|x: usize| #[trigger] items.contains(x) implies m(query, x) > radius by {
                    assert(p.contains(x) && p.contains(node.item));
                    if x == node.item {
                    } else if node_items(node.inside).contains(x) {
                        if !inside_ok {
                            let d1 = choose|d1: isize| dist.ensures((&node.item, &x), d1) && d1 <= node.threshold;
                            assert(d1 == m(node.item, x));
                            assert(m(node.item, x) == m(x, node.item));
                            assert(m(query, node.item) <= m(query, x) + m(x, node.item));
                        }
                    } else {
                        assert(node_items(node.outside).contains(x));
                        if !outside_ok {
                            let d1 = choose|d1: isize| dist.ensures((&node.item, &x), d1) && d1 >= node.threshold;
                            assert(d1 == m(node.item, x));
                            assert(m(node.item, query) == m(query, node.item));
                            assert(m(node.item, x) <= m(node.item, query) + m(query, x));
                        }
                    }
                }
            }
        }
    }
    found
}

} // verus!
