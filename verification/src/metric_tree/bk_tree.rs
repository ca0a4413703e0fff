//! A BK tree, kept in an arena, with a search that stops at the first item
//! found within the radius.
use vstd::prelude::*;

use super::{computes, metric_on, none_within, same_answer, total};

verus! {

/// A node: an item and its children, each as the distance from this item
/// to the child's item and the child's position in the arena.
pub struct BkNode {
    item: usize,
    children: Vec<(isize, usize)>,
}

/// A BK tree over item indices, with the distance it is built with.
pub struct BkTree<F> {
    nodes: Vec<BkNode>,
    dist: F,
    /// For each node, the path from the root to it: each ancestor's
    /// position and the distance from the ancestor's item to this node's.
    paths: Ghost<Seq<Seq<(int, isize)>>>,
}

impl<F: Fn(&usize, &usize) -> isize> BkTree<F> {
    /// The distance in use.
    pub closed spec fn metric(&self) -> F {
        self.dist
    }

    /// The item at position `j`.
    pub closed spec fn item_at(&self, j: int) -> usize {
        self.nodes@[j].item
    }

    /// The number of nodes.
    pub closed spec fn size(&self) -> nat {
        self.nodes.len() as nat
    }

    /// The items held.
    pub closed spec fn items(&self) -> Set<usize> {
        Set::new(|x: usize| exists|j: int| 0 <= j < self.nodes.len() && self.nodes@[j].item == x)
    }

    /// The node after the `m`th ancestor on the path to `t`.
    closed spec fn next_on_path(&self, t: int, m: int) -> int {
        if m + 1 < self.paths@[t].len() {
            self.paths@[t][m + 1].0
        } else {
            t
        }
    }

    /// Whether `t` is `i` or lies below it.
    closed spec fn in_subtree(&self, i: int, t: int) -> bool {
        0 <= t < self.nodes.len() && (t == i || exists|m: int|
            0 <= m < self.paths@[t].len() && #[trigger] self.paths@[t][m].0 == i)
    }

    /// The item and distance that a search below the node at `i` finds
    /// first, where the distance computes `m`: the node's own item where it
    /// is within `radius`, and otherwise the first found below its children,
    /// tried last-first, that the triangle inequality leaves room for.
    closed spec fn bk_first(&self, m: spec_fn(usize, usize) -> int, i: int, query: usize, radius: isize) -> Option<
        (usize, int),
    >
        decreases self.nodes.len() - i, self.nodes@[i].children.len() + 1,
    {
        if 0 <= i < self.nodes.len() {
            let d = m(query, self.nodes@[i].item);
            if d <= radius {
                Some((self.nodes@[i].item, d))
            } else {
                self.bk_first_among(m, i, self.nodes@[i].children.len() as int, d, query, radius)
            }
        } else {
            None
        }
    }

    /// The first item found below the first `k` children of the node at
    /// `i`, tried from the `k`th back, given the distance `d` from the query
    /// to the node's item.
    closed spec fn bk_first_among(
        &self,
        m: spec_fn(usize, usize) -> int,
        i: int,
        k: int,
        d: int,
        query: usize,
        radius: isize,
    ) -> Option<(usize, int)>
        decreases self.nodes.len() - i, k,
    {
        if 0 <= i < self.nodes.len() && 0 < k <= self.nodes@[i].children.len() {
            let (e, c) = self.nodes@[i].children@[k - 1];
            let found = if -radius <= e - d <= radius && i < c < self.nodes.len() {
                self.bk_first(m, c as int, query, radius)
            } else {
                None
            };
            if found is Some {
                found
            } else {
                self.bk_first_among(m, i, k - 1, d, query, radius)
            }
        } else {
            None
        }
    }

    /// The item and distance that a search finds first, where the distance
    /// computes `m`: a walk from the root that tries each node's item and
    /// then its children, last-first.
    pub closed spec fn first_within(&self, m: spec_fn(usize, usize) -> int, query: usize, radius: isize) -> Option<
        (usize, int),
    > {
        self.bk_first(m, 0, query, radius)
    }

    /// No item in the subtree at `i` is within `radius` of `query`, by any
    /// `m` that the distance computes and that is a metric on a set of points
    /// holding the query and every item.
    closed spec fn subtree_clear(&self, i: int, query: usize, radius: isize) -> bool {
        forall|m: spec_fn(usize, usize) -> int, p: Set<usize>|
            #![trigger metric_on(m, p)]
            computes(self.dist, m) && metric_on(m, p) && p.contains(query) && self.items().subset_of(p)
                ==> forall|t: int| #[trigger] self.in_subtree(i, t) ==> m(query, self.nodes@[t].item) > radius
    }

    /// The children of the node at position `j`: for each, the edge
    /// distance and the child's position.
    pub closed spec fn children_at(&self, j: int) -> Seq<(isize, usize)> {
        self.nodes@[j].children@
    }

    /// Whether a probe for `item` from the root reaches the node at `j`:
    /// every edge on the way to `j` is the distance from the node it leaves
    /// to `item`.
    pub closed spec fn probe_reaches(&self, j: int, item: usize) -> bool {
        &&& 0 <= j < self.nodes.len()
        &&& forall|m: int|
            0 <= m < self.paths@[j].len() ==> self.dist.ensures(
                (&self.nodes@[self.paths@[j][m].0].item, &item),
                #[trigger] self.paths@[j][m].1,
            )
    }

    /// No two edges leaving a node have the same distance.
    #[verifier::opaque]
    closed spec fn edges_distinct(&self) -> bool {
        forall|j: int, k1: int, k2: int|
            #![trigger self.nodes@[j].children@[k1], self.nodes@[j].children@[k2]]
            0 <= j < self.nodes.len() && 0 <= k1 < k2 < self.nodes@[j].children.len()
                ==> self.nodes@[j].children@[k1].0 != self.nodes@[j].children@[k2].0
    }

    /// The arena is a tree rooted at position 0 in which every node's
    /// item is, by the distance, the edge distance from each ancestor, and
    /// the edges leaving a node are non-zero and pairwise distinct.
    pub closed spec fn wf(&self) -> bool {
        &&& total(self.dist)
        &&& self.paths@.len() == self.nodes.len()
        &&& self.nodes.len() > 0 ==> self.paths@[0] == Seq::<(int, isize)>::empty()
        &&& forall|j: int, k: int|
            #![trigger self.nodes@[j].children@[k]]
            0 <= j < self.nodes.len() && 0 <= k < self.nodes@[j].children.len() ==> {
                let (e, c) = self.nodes@[j].children@[k];
                &&& j < c < self.nodes.len()
                &&& e != 0
                &&& self.paths@[c as int] == self.paths@[j].push((j, e))
            }
        &&& self.edges_distinct()
        &&& forall|t: int, m: int|
            #![trigger self.paths@[t][m]]
            0 <= t < self.nodes.len() && 0 <= m < self.paths@[t].len() ==> {
                let (a, e) = self.paths@[t][m];
                &&& 0 <= a < t
                &&& self.dist.ensures((&self.nodes@[a].item, &self.nodes@[t].item), e)
                &&& self.nodes@[a].children@.contains((e, self.next_on_path(t, m) as usize))
            }
        &&& forall|t: int|
            #![trigger self.paths@[t]]
            0 < t < self.nodes.len() ==> self.paths@[t].len() > 0 && self.paths@[t][0].0 == 0
    }

    /// An empty tree with `dist` as the distance.
    pub fn new(dist: F) -> (tree: Self)
        requires
            total(dist),
        ensures
            tree.wf(),
            tree.metric() == dist,
            tree.items() == Set::<usize>::empty(),
    {
        let tree = BkTree { nodes: Vec::new(), dist, paths: Ghost(Seq::empty()) };
        assert(tree.items() =~= Set::<usize>::empty());
        assert(tree.edges_distinct()) by {
            reveal(BkTree::edges_distinct);
        }
        tree
    }

    /// Whether the tree holds an item from which the distance to `x` is 0.
    pub open spec fn holds_twin_of(&self, x: usize) -> bool {
        exists|y: usize| self.items().contains(y) && #[trigger] self.metric().ensures((&y, &x), 0)
    }

    /// Inserts each of `items` in turn.
    pub fn insert_all(&mut self, items: Vec<usize>)
        requires
            old(self).wf(),
        ensures
            final(self).wf(),
            final(self).metric() == old(self).metric(),
            old(self).items().subset_of(final(self).items()),
            forall|i: int|
                0 <= i < items.len() ==> final(self).items().contains(#[trigger] items@[i])
                    || final(self).holds_twin_of(items@[i]),
            forall|x: usize|
                #![trigger final(self).items().contains(x)]
                final(self).items().contains(x) ==> old(self).items().contains(x) || items@.contains(x),
    {
        let mut k: usize = 0;
        while k < items.len()
            invariant
                k <= items.len(),
                self.wf(),
                self.metric() == old(self).metric(),
                old(self).items().subset_of(self.items()),
                forall|i: int|
                    0 <= i < k ==> self.items().contains(#[trigger] items@[i]) || self.holds_twin_of(
                        items@[i],
                    ),
                forall|x: usize|
                    #![trigger self.items().contains(x)]
                    self.items().contains(x) ==> old(self).items().contains(x) || exists|i: int|
                        0 <= i < k && items@[i] == x,
            decreases items.len() - k,
        {
            let ghost prev = *self;
            self.insert(items[k]);
            proof {
                assert forall|i: int|
                    0 <= i < k + 1 implies self.items().contains(#[trigger] items@[i]) || self.holds_twin_of(
                        items@[i],
                    ) by {
                    if i < k && !prev.items().contains(items@[i]) {
                        let y = choose|y: usize|
                            prev.items().contains(y) && #[trigger] prev.metric().ensures((&y, &items@[i]), 0);
                        assert(self.items().contains(y));
                        assert(self.metric().ensures((&y, &items@[i]), 0));
                    }
                    if i == k && !self.items().contains(items@[i]) {
                        let j = choose|j: int|
                            0 <= j < prev.size() && prev.metric().ensures((&prev.item_at(j), &items@[k as int]), 0);
                        let y = prev.item_at(j);
                        assert(prev.items().contains(y));
                        assert(self.items().contains(y));
                        assert(self.metric().ensures((&y, &items@[i]), 0));
                    }
                }
                assert forall|x: usize|
                    #![trigger self.items().contains(x)]
                    self.items().contains(x) implies old(self).items().contains(x) || exists|i: int|
                        0 <= i < k + 1 && items@[i] == x by {
                    if x != items@[k as int] {
                        assert(prev.items().contains(x));
                    }
                }
            }
            k = k + 1;
        }
        assert forall|x: usize|
            #![trigger self.items().contains(x)]
            self.items().contains(x) implies old(self).items().contains(x) || items@.contains(x) by {
            if !old(self).items().contains(x) {
                let i = choose|i: int| 0 <= i < k && items@[i] == x;
                assert(items@[i] == x);
            }
        }
    }

    /// Inserts `item` below the node whose edge distances lead to it, unless
    /// some node on the way holds an item at distance 0 from it.
    pub fn insert(&mut self, item: usize)
        requires
            old(self).wf(),
        ensures
            final(self).wf(),
            final(self).metric() == old(self).metric(),
            old(self).size() <= final(self).size(),
            forall|j: int| 0 <= j < old(self).size() ==> final(self).item_at(j) == old(self).item_at(j),
            final(self).items() == old(self).items().insert(item) || (final(self).items()
                == old(self).items() && exists|j: int|
                0 <= j < old(self).size() && old(self).metric().ensures(
                    (&old(self).item_at(j), &item),
                    0,
                )),
            old(self).size() == 0 ==> final(self).size() == 1 && final(self).item_at(0) == item
                && final(self).children_at(0) == Seq::<(isize, usize)>::empty(),
            old(self).size() > 0 ==> {
                ||| *final(self) == *old(self) && exists|j: int|
                    old(self).probe_reaches(j, item) && old(self).metric().ensures(
                        (&old(self).item_at(j), &item),
                        0,
                    )
                ||| final(self).size() == old(self).size() + 1 && final(self).item_at(
                    old(self).size() as int,
                ) == item && final(self).children_at(old(self).size() as int) == Seq::<
                    (isize, usize),
                >::empty() && exists|p: int, d: isize|
                    #![trigger old(self).metric().ensures((&old(self).item_at(p), &item), d)]
                    old(self).probe_reaches(p, item) && old(self).metric().ensures(
                        (&old(self).item_at(p), &item),
                        d,
                    ) && d != 0 && (forall|k: int|
                        0 <= k < old(self).children_at(p).len() ==> #[trigger] old(self).children_at(p)[k].0 != d)
                        && final(self).children_at(p) == old(self).children_at(p).push(
                        (d, old(self).size() as usize),
                    ) && forall|j: int|
                        0 <= j < old(self).size() && j != p ==> #[trigger] final(self).children_at(j)
                            == old(self).children_at(j)
            },
    {
        if self.nodes.len() == 0 {
            self.nodes.push(BkNode { item, children: Vec::new() });
            proof {
                self.paths@ = seq![Seq::empty()];
                reveal(BkTree::edges_distinct);
            }
            assert(self.items() =~= old(self).items().insert(item)) by {
                assert(self.nodes@[0].item == item);
            }
            return;
        }
        let mut idx: usize = 0;
        loop
            invariant
                self.wf(),
                *self == *old(self),
                idx < self.nodes.len(),
                forall|m: int|
                    0 <= m < self.paths@[idx as int].len() ==> self.dist.ensures(
                        (&self.nodes@[self.paths@[idx as int][m].0].item, &item),
                        #[trigger] self.paths@[idx as int][m].1,
                    ),
            decreases self.nodes.len() - idx,
        {
            let d = (self.dist)(&self.nodes[idx].item, &item);
            if d == 0 {
                proof {
                    assert(old(self).metric().ensures((&old(self).item_at(idx as int), &item), 0));
                    assert(old(self).probe_reaches(idx as int, item));
                }
                return;
            }
            let mut k: usize = 0;
            let mut found: Option<usize> = None;
            while k < self.nodes[idx].children.len()
                invariant
                    idx < self.nodes.len(),
                    k <= self.nodes@[idx as int].children.len(),
                    found matches Some(c) ==> self.nodes@[idx as int].children@.contains((d, c)),
                    found is None ==> forall|k2: int|
                        0 <= k2 < k ==> self.nodes@[idx as int].children@[k2].0 != d,
                ensures
                    found matches Some(c) ==> self.nodes@[idx as int].children@.contains((d, c)),
                    found is None ==> forall|k2: int|
                        0 <= k2 < self.nodes@[idx as int].children.len()
                            ==> self.nodes@[idx as int].children@[k2].0 != d,
                decreases self.nodes@[idx as int].children.len() - k,
            {
                if self.nodes[idx].children[k].0 == d {
                    found = Some(self.nodes[idx].children[k].1);
                    break;
                }
                k = k + 1;
            }
            match found {
                Some(child) => {
                    proof {
                        let k2 = choose|k2: int|
                            0 <= k2 < self.nodes@[idx as int].children.len()
                                && self.nodes@[idx as int].children@[k2] == (d, child);
                        assert(self.nodes@[idx as int].children@[k2] == (d, child));
                    }
                    idx = child;
                },
                None => {
                    let new = self.nodes.len();
                    let ghost path = self.paths@[idx as int].push((idx as int, d));
                    let ghost pre = *self;
                    self.nodes.push(BkNode { item, children: Vec::new() });
                    let parent_item = self.nodes[idx].item;
                    let mut children: Vec<(isize, usize)> = Vec::new();
                    let mut k: usize = 0;
                    while k < self.nodes[idx].children.len()
                        invariant
                            k <= self.nodes@[idx as int].children.len(),
                            idx < self.nodes.len(),
                            children@ == self.nodes@[idx as int].children@.subrange(0, k as int),
                        decreases self.nodes@[idx as int].children.len() - k,
                    {
                        children.push(self.nodes[idx].children[k]);
                        k = k + 1;
                        assert(children@ =~= self.nodes@[idx as int].children@.subrange(0, k as int));
                    }
                    assert(children@ =~= self.nodes@[idx as int].children@);
                    children.push((d, new));
                    self.nodes.set(idx, BkNode { item: parent_item, children });
                    proof {
                        self.paths@ = self.paths@.push(path);
                        lemma_grown(pre, *self, idx as int, d, item);
                        assert(old(self).probe_reaches(idx as int, item));
                        assert(self.children_at(idx as int) == old(self).children_at(idx as int).push(
                            (d, new),
                        ));
                        assert(forall|k: int|
                            0 <= k < old(self).children_at(idx as int).len() ==> #[trigger] old(
                                self,
                            ).children_at(idx as int)[k].0 != d);
                        assert(old(self).metric().ensures((&old(self).item_at(idx as int), &item), d));
                    }
                    return;
                },
            }
        }
    }

    /// An item within `radius` of `query` and its distance, stopping at the
    /// first one found; `None` only where no item is within `radius`, for
    /// any `m` that the distance computes and that is a metric on the items
    /// and the query.
    pub fn find_first_within(&self, query: usize, radius: isize) -> (r: Option<(usize, isize)>)
        requires
            self.wf(),
        ensures
            r matches Some((item, d)) ==> self.items().contains(item) && self.metric().ensures(
                (&query, &item),
                d,
            ) && d <= radius,
            r is None ==> forall|m: spec_fn(usize, usize) -> int|
                #![trigger metric_on(m, self.items().insert(query))]
                computes(self.metric(), m) && metric_on(m, self.items().insert(query)) ==> none_within(
                    m,
                    self.items(),
                    query,
                    radius,
                ),
            forall|m: spec_fn(usize, usize) -> int|
                #[trigger] computes(self.metric(), m) ==> same_answer(r, self.first_within(m, query, radius)),
    {
        if self.nodes.len() == 0 {
            assert forall|m: spec_fn(usize, usize) -> int|
                #![trigger metric_on(m, self.items().insert(query))]
                computes(self.metric(), m) && metric_on(m, self.items().insert(query)) implies none_within(
                    m,
                    self.items(),
                    query,
                    radius,
                ) by {
                assert forall|x: usize| #[trigger] self.items().contains(x) implies m(query, x) > radius by {
                    let t = choose|t: int| 0 <= t < self.nodes.len() && self.nodes@[t].item == x;
                }
            }
            return None;
        }
        let r = self.search(0, query, radius);
        proof {
            if r is None {
                assert forall|m: spec_fn(usize, usize) -> int|
                    #![trigger metric_on(m, self.items().insert(query))]
                    computes(self.metric(), m) && metric_on(m, self.items().insert(query)) implies none_within(
                        m,
                        self.items(),
                        query,
                        radius,
                    ) by {
                    let p = self.items().insert(query);
                    assert(self.items().subset_of(p));
                    assert(metric_on(m, p));
                    assert forall|x: usize| #[trigger] self.items().contains(x) implies m(query, x) > radius by {
                        let t = choose|t: int| 0 <= t < self.nodes.len() && self.nodes@[t].item == x;
                        if t > 0 {
                            assert(self.paths@[t][0].0 == 0);
                        }
                        assert(self.in_subtree(0, t));
                    }
                }
            }
        }
        r
    }

    /// The first item found within `radius` of `query` below the node at
    /// `idx`, trying children last-first and only those whose edge distance
    /// is within `radius` of the query's distance to this node.
    fn search(&self, idx: usize, query: usize, radius: isize) -> (r: Option<(usize, isize)>)
        requires
            self.wf(),
            idx < self.nodes.len(),
        ensures
            r matches Some((item, d)) ==> self.items().contains(item) && self.dist.ensures(
                (&query, &item),
                d,
            ) && d <= radius,
            r is None ==> self.subtree_clear(idx as int, query, radius),
            forall|m: spec_fn(usize, usize) -> int|
                #[trigger] computes(self.dist, m) ==> same_answer(r, self.bk_first(m, idx as int, query, radius)),
        decreases self.nodes.len() - idx,
    {
        let node = &self.nodes[idx];
        let d = (self.dist)(&query, &node.item);
        if d <= radius {
            proof {
                assert(self.nodes@[idx as int].item == node.item);
                assert forall|m: spec_fn(usize, usize) -> int| #[trigger] computes(self.dist, m) implies same_answer(
                    Some((node.item, d)),
                    self.bk_first(m, idx as int, query, radius),
                ) by {
                    assert(d == m(query, node.item));
                }
            }
            return Some((node.item, d));
        }
        let mut k = node.children.len();
        proof {
            assert forall|m: spec_fn(usize, usize) -> int| #[trigger] computes(self.dist, m) implies self.bk_first(
                m,
                idx as int,
                query,
                radius,
            ) == self.bk_first_among(m, idx as int, k as int, d as int, query, radius) by {
                assert(d == m(query, node.item));
            }
        }
        while k > 0
            invariant
                self.wf(),
                idx < self.nodes.len(),
                node == self.nodes@[idx as int],
                k <= node.children.len(),
                self.dist.ensures((&query, &node.item), d),
                d > radius,
                forall|k2: int|
                    #![trigger node.children@[k2]]
                    k <= k2 < node.children.len() ==> {
                        let (e, c) = node.children@[k2];
                        let diff = e - d;
                        (-radius <= diff <= radius) ==> self.subtree_clear(c as int, query, radius)
                    },
                forall|m: spec_fn(usize, usize) -> int|
                    #[trigger] computes(self.dist, m) ==> self.bk_first(m, idx as int, query, radius)
                        == self.bk_first_among(m, idx as int, k as int, d as int, query, radius),
            decreases k,
        {
            k = k - 1;
            let (edge, child) = node.children[k];
            let diff = (edge as i128) - (d as i128);
            let close = if diff < 0 {
                -diff <= radius as i128
            } else {
                diff <= radius as i128
            };
            proof {
                assert(node.children@[k as int] == (edge, child));
            }
            let mut hit: Option<(usize, isize)> = None;
            if close {
                hit = self.search(child, query, radius);
                if hit.is_some() {
                    proof {
                        assert forall|m: spec_fn(usize, usize) -> int| #[trigger] computes(self.dist, m) implies same_answer(
                            hit,
                            self.bk_first(m, idx as int, query, radius),
                        ) by {
                            assert(idx < child < self.nodes.len());
                            assert(self.bk_first_among(m, idx as int, k + 1, d as int, query, radius)
                                == self.bk_first(m, child as int, query, radius));
                        }
                    }
                    return hit;
                }
            }
            proof {
                if -radius <= edge - d <= radius {
                    assert(close);
                    assert(hit is None);
                }
                assert forall|m: spec_fn(usize, usize) -> int| #[trigger] computes(self.dist, m) implies self.bk_first(
                    m,
                    idx as int,
                    query,
                    radius,
                ) == self.bk_first_among(m, idx as int, k as int, d as int, query, radius) by {
                    assert(idx < child < self.nodes.len());
                    assert(self.bk_first_among(m, idx as int, k + 1, d as int, query, radius)
                        == self.bk_first_among(m, idx as int, k as int, d as int, query, radius));
                }
            }
        }
        proof {
            assert forall|m: spec_fn(usize, usize) -> int| #[trigger] computes(self.dist, m) implies same_answer(
                None,
                self.bk_first(m, idx as int, query, radius),
            ) by {
                assert(self.bk_first_among(m, idx as int, 0, d as int, query, radius) is None);
            }
            assert forall|m: spec_fn(usize, usize) -> int, p: Set<usize>|
                #![trigger metric_on(m, p)]
                computes(self.dist, m) && metric_on(m, p) && p.contains(query) && self.items().subset_of(p)
                implies forall|t: int| #[trigger] self.in_subtree(idx as int, t) ==> m(query, self.nodes@[t].item) > radius by {
                assert(d == m(query, node.item));
                assert forall|t: int| #[trigger] self.in_subtree(idx as int, t) implies m(query, self.nodes@[t].item) > radius by {
                    if t != idx {
                        let j = choose|j: int|
                            0 <= j < self.paths@[t].len() && #[trigger] self.paths@[t][j].0 == idx;
                        let (a, e) = self.paths@[t][j];
                        let c = self.next_on_path(t, j);
                        assert(node.children@.contains((e, c as usize)));
                        let k2 = choose|k2: int|
                            0 <= k2 < node.children.len() && node.children@[k2] == (e, c as usize);
                        assert(node.children@[k2] == (e, c as usize));
                        if j + 1 < self.paths@[t].len() {
                            assert(self.paths@[t][j + 1].0 == c);
                            assert(self.in_subtree(c, t));
                        } else {
                            assert(self.in_subtree(c, t));
                        }
                        if -radius <= e - d <= radius {
                            assert(self.subtree_clear(c, query, radius));
                        } else {
                            let x = self.nodes@[t].item;
                            assert(self.items().contains(x));
                            assert(self.items().contains(node.item));
                            assert(p.contains(x) && p.contains(node.item));
                            assert(e == m(node.item, x));
                            assert(m(node.item, query) == m(query, node.item));
                            assert(m(x, node.item) == m(node.item, x));
                            assert(m(node.item, x) <= m(node.item, query) + m(query, x));
                            assert(m(query, node.item) <= m(query, x) + m(x, node.item));
                        }
                    }
                }
            }
        }
        None
    }
}

/// Adding a node for `item` as a new child, at distance `d`, of the node at
/// `idx`, where every ancestor on the path to `idx` is at its edge distance
/// from `item`, keeps the tree well formed and adds `item` to its items.
#[verifier::rlimit(80)]
#[verifier::spinoff_prover]
proof fn lemma_grown<F: Fn(&usize, &usize) -> isize>(pre: BkTree<F>, post: BkTree<F>, idx: int, d: isize, item: usize)
    requires
        pre.wf(),
        0 <= idx < pre.nodes.len(),
        post.dist == pre.dist,
        pre.dist.ensures((&pre.nodes@[idx].item, &item), d),
        forall|m: int|
            0 <= m < pre.paths@[idx].len() ==> pre.dist.ensures(
                (&pre.nodes@[pre.paths@[idx][m].0].item, &item),
                #[trigger] pre.paths@[idx][m].1,
            ),
        post.nodes.len() == pre.nodes.len() + 1,
        post.nodes@[pre.nodes.len() as int].item == item,
        post.nodes@[pre.nodes.len() as int].children@ == Seq::<(isize, usize)>::empty(),
        post.nodes@[idx].item == pre.nodes@[idx].item,
        post.nodes@[idx].children@ == pre.nodes@[idx].children@.push((d, pre.nodes.len())),
        forall|j: int| 0 <= j < pre.nodes.len() && j != idx ==> #[trigger] post.nodes@[j] == pre.nodes@[j],
        post.paths@ == pre.paths@.push(pre.paths@[idx].push((idx, d))),
        d != 0,
        forall|k: int| 0 <= k < pre.nodes@[idx].children.len() ==> #[trigger] pre.nodes@[idx].children@[k].0 != d,
    ensures
        post.wf(),
        post.items() == pre.items().insert(item),
{
    let new = pre.nodes.len();
    lemma_grown_distinct(pre, post, idx, d);
    assert(post.nodes@[new as int].item == item);
    assert(post.nodes@[new as int].children@ == Seq::<(isize, usize)>::empty());
    assert(post.nodes@[idx].children@ == pre.nodes@[idx].children@.push((d, new)));
    assert forall|j: int| 0 <= j < new implies #[trigger] post.nodes@[j].item == pre.nodes@[j].item
        && (forall|p: (isize, usize)| pre.nodes@[j].children@.contains(p) ==> post.nodes@[j].children@.contains(p)) by {
        if j == idx {
            assert forall|p: (isize, usize)| pre.nodes@[j].children@.contains(p) implies post.nodes@[j].children@.contains(p) by {
                let q = choose|q: int| 0 <= q < pre.nodes@[j].children.len() && pre.nodes@[j].children@[q] == p;
                assert(post.nodes@[j].children@[q] == p);
            }
        }
    }
    assert forall|j: int, k: int|
        #![trigger post.nodes@[j].children@[k]]
        0 <= j < post.nodes.len() && 0 <= k < post.nodes@[j].children.len() implies {
            let (e, c) = post.nodes@[j].children@[k];
            &&& j < c < post.nodes.len()
            &&& post.paths@[c as int] == post.paths@[j].push((j, e))
        } by {
        if j == idx && k == pre.nodes@[idx].children.len() {
        } else if j < new {
            assert(post.nodes@[j].children@[k] == pre.nodes@[j].children@[k]);
        }
    }
    assert forall|t: int, m: int|
        #![trigger post.paths@[t][m]]
        0 <= t < post.nodes.len() && 0 <= m < post.paths@[t].len() implies {
            let (a, e) = post.paths@[t][m];
            &&& 0 <= a < t
            &&& post.dist.ensures((&post.nodes@[a].item, &post.nodes@[t].item), e)
            &&& post.nodes@[a].children@.contains((e, post.next_on_path(t, m) as usize))
        } by {
        if t < new {
            assert(post.paths@[t] == pre.paths@[t]);
            let (a, e) = post.paths@[t][m];
            assert(pre.nodes@[a].children@.contains((e, pre.next_on_path(t, m) as usize)));
            assert(post.next_on_path(t, m) == pre.next_on_path(t, m));
        } else {
            let pl = pre.paths@[idx].len();
            if m < pl {
                assert(post.paths@[t][m] == pre.paths@[idx][m]);
                let (a, e) = post.paths@[t][m];
                assert(pre.nodes@[a].children@.contains((e, pre.next_on_path(idx, m) as usize)));
                if m + 1 < pl {
                    assert(post.paths@[t][m + 1] == pre.paths@[idx][m + 1]);
                }
                assert(post.next_on_path(t, m) == pre.next_on_path(idx, m));
            } else {
                assert(post.nodes@[idx].children@.last() == (d, new));
                assert(post.nodes@[idx].children@.contains((d, new)));
            }
        }
    }
    assert forall|t: int|
        #![trigger post.paths@[t]]
        0 < t < post.nodes.len() implies post.paths@[t].len() > 0 && post.paths@[t][0].0 == 0 by {
        if t == new && idx > 0 {
            assert(post.paths@[t][0] == pre.paths@[idx][0]);
        }
    }
    assert(post.items() =~= pre.items().insert(item)) by {
        assert forall|x: usize| post.items().contains(x) implies pre.items().insert(item).contains(x) by {
            let j = choose|j: int| 0 <= j < post.nodes.len() && post.nodes@[j].item == x;
            if j < new {
                assert(pre.nodes@[j].item == x);
            }
        }
        assert forall|x: usize| pre.items().insert(item).contains(x) implies post.items().contains(x) by {
            if x != item {
                let j = choose|j: int| 0 <= j < pre.nodes.len() && pre.nodes@[j].item == x;
                assert(post.nodes@[j].item == x);
            } else {
                assert(post.nodes@[new as int].item == x);
            }
        }
    }
}

/// Adding an edge at distance `d`, which no edge of the node at `idx` has,
/// keeps the edges leaving each node distinct.
proof fn lemma_grown_distinct<F: Fn(&usize, &usize) -> isize>(pre: BkTree<F>, post: BkTree<F>, idx: int, d: isize)
    requires
        pre.edges_distinct(),
        0 <= idx < pre.nodes.len(),
        post.nodes.len() == pre.nodes.len() + 1,
        post.nodes@[pre.nodes.len() as int].children@ == Seq::<(isize, usize)>::empty(),
        post.nodes@[idx].children@ == pre.nodes@[idx].children@.push((d, pre.nodes.len())),
        forall|j: int| 0 <= j < pre.nodes.len() && j != idx ==> #[trigger] post.nodes@[j] == pre.nodes@[j],
        forall|k: int| 0 <= k < pre.nodes@[idx].children.len() ==> #[trigger] pre.nodes@[idx].children@[k].0 != d,
    ensures
        post.edges_distinct(),
{
    let new = pre.nodes.len();
    reveal(BkTree::edges_distinct);
    assert forall|j: int, k1: int, k2: int|
        #![trigger post.nodes@[j].children@[k1], post.nodes@[j].children@[k2]]
        0 <= j < post.nodes.len() && 0 <= k1 < k2 < post.nodes@[j].children.len() implies post.nodes@[j].children@[k1].0
            != post.nodes@[j].children@[k2].0 by {
        if j < new && j != idx {
            assert(post.nodes@[j] == pre.nodes@[j]);
            assert(pre.nodes@[j].children@[k1] == post.nodes@[j].children@[k1]);
            assert(pre.nodes@[j].children@[k2] == post.nodes@[j].children@[k2]);
        } else if j == idx {
            let n = pre.nodes@[idx].children.len();
            assert(post.nodes@[j].children@[k1] == pre.nodes@[idx].children@[k1]);
            if k2 < n {
                assert(post.nodes@[j].children@[k2] == pre.nodes@[idx].children@[k2]);
            }
        }
    }
}

} // verus!
