//! A k-d tree over 3-dimensional color points.
//!
//! Construction partitions the point set by the median along the dimension
//! `depth mod 3` and recurses on the two halves. The query capability is an
//! exact membership walk: it descends one branch per level by comparing the
//! query's value on the active dimension, and reports a hit only on exact
//! equality. The walk is sound (a hit means the point is in the tree); it is
//! not a nearest-neighbor search.

use vstd::prelude::*;
use vstd::multiset::Multiset;
use crate::pixel::Pixel;

verus! {

pub type KDNode = Box<KDTree>;

/// A node of the tree: a point plus exclusively-owned subtrees.
pub struct KDTree {
    pub pixel: Pixel,
    pub left: Option<KDNode>,
    pub right: Option<KDNode>,
}

/// The coordinate of a point on a partition dimension (0 = red, 1 = green,
/// other = blue).
pub open spec fn key(p: Pixel, dimension: int) -> int {
    if dimension == 0 {
        p.r as int
    } else if dimension == 1 {
        p.g as int
    } else {
        p.b as int
    }
}

/// The partition dimension one level deeper.
pub open spec fn next_dimension(dimension: int) -> int {
    (dimension + 1) % 3
}

/// Every point held by a subtree, with multiplicity.
pub open spec fn opt_contents(node: Option<KDNode>) -> Multiset<Pixel>
    decreases node,
{
    match node {
        Option::None => Multiset::empty(),
        Option::Some(t) => opt_contents(t.left).insert(t.pixel).add(opt_contents(t.right)),
    }
}

/// Every point held by a tree, with multiplicity.
pub open spec fn tree_contents(t: KDTree) -> Multiset<Pixel> {
    opt_contents(t.left).insert(t.pixel).add(opt_contents(t.right))
}

/// The ordering invariant of a subtree rooted at partition dimension
/// `dimension`: left points do not exceed the node on that dimension, right
/// points are not below it, and the subtrees are ordered one dimension on.
pub open spec fn wf_opt(node: Option<KDNode>, dimension: int) -> bool
    decreases node,
{
    match node {
        Option::None => true,
        Option::Some(t) => {
            &&& forall|q: Pixel|
                opt_contents(t.left).contains(q) ==> key(q, dimension) <= key(t.pixel, dimension)
            &&& forall|q: Pixel|
                opt_contents(t.right).contains(q) ==> key(q, dimension) >= key(t.pixel, dimension)
            &&& wf_opt(t.left, next_dimension(dimension))
            &&& wf_opt(t.right, next_dimension(dimension))
        },
    }
}

/// The ordering invariant of a whole tree, whose root partitions dimension 0.
pub open spec fn tree_wf(t: KDTree) -> bool {
    &&& forall|q: Pixel| opt_contents(t.left).contains(q) ==> key(q, 0) <= key(t.pixel, 0)
    &&& forall|q: Pixel| opt_contents(t.right).contains(q) ==> key(q, 0) >= key(t.pixel, 0)
    &&& wf_opt(t.left, 1)
    &&& wf_opt(t.right, 1)
}

/// The exact-match walk below a node: descend right on a strictly greater
/// key, left otherwise, and stop at an equal point.
pub open spec fn spec_find(node: Option<KDNode>, dimension: int, p: Pixel) -> bool
    decreases node,
{
    match node {
        Option::None => false,
        Option::Some(t) => {
            if t.pixel == p {
                true
            } else if key(p, dimension) > key(t.pixel, dimension) {
                spec_find(t.right, next_dimension(dimension), p)
            } else {
                spec_find(t.left, next_dimension(dimension), p)
            }
        },
    }
}

/// The exact-match walk from the root, which partitions dimension 0.
pub open spec fn spec_find_tree(t: KDTree, p: Pixel) -> bool {
    if t.pixel == p {
        true
    } else if key(p, 0) > key(t.pixel, 0) {
        spec_find(t.right, 1, p)
    } else {
        spec_find(t.left, 1, p)
    }
}

/// The walk is sound: it reports a hit only for a point the subtree holds.
pub proof fn lemma_find_sound(node: Option<KDNode>, dimension: int, p: Pixel)
    ensures
        spec_find(node, dimension, p) ==> opt_contents(node).contains(p),
    decreases node,
{
    broadcast use vstd::multiset::group_multiset_axioms;

    match node {
        Option::None => {},
        Option::Some(t) => {
            lemma_find_sound(t.left, next_dimension(dimension), p);
            lemma_find_sound(t.right, next_dimension(dimension), p);
        },
    }
}

/// A sequence is sorted on the given partition dimension.
pub open spec fn sorted_by_key(s: Seq<Pixel>, dimension: int) -> bool {
    forall|i: int, j: int| 0 <= i <= j < s.len() ==> key(s[i], dimension) <= key(s[j], dimension)
}

/// The index of the smallest key among the first `n` points, earliest
/// index winning ties.
pub open spec fn min_index_upto(s: Seq<Pixel>, dimension: int, n: int) -> int
    decreases n,
{
    if n <= 1 {
        0
    } else {
        let b = min_index_upto(s, dimension, n - 1);
        if key(s[n - 1], dimension) < key(s[b], dimension) {
            n - 1
        } else {
            b
        }
    }
}

/// The index of the smallest key, earliest index winning ties.
pub open spec fn min_index(s: Seq<Pixel>, dimension: int) -> int {
    min_index_upto(s, dimension, s.len() as int)
}

/// What "smallest, earliest index winning ties" means: the index is in
/// range, no key is smaller, and every earlier key is strictly larger.
proof fn lemma_min_index_upto_properties(s: Seq<Pixel>, dimension: int, n: int)
    requires
        1 <= n <= s.len(),
    ensures
        0 <= min_index_upto(s, dimension, n) < n,
        forall|j: int|
            0 <= j < n ==> key(s[min_index_upto(s, dimension, n)], dimension) <= #[trigger] key(
                s[j],
                dimension,
            ),
        forall|j: int|
            0 <= j < min_index_upto(s, dimension, n) ==> #[trigger] key(s[j], dimension) > key(
                s[min_index_upto(s, dimension, n)],
                dimension,
            ),
    decreases n,
{
    if n > 1 {
        lemma_min_index_upto_properties(s, dimension, n - 1);
    }
}

/// The sequence with the points at `a` and `b` exchanged.
pub open spec fn swap_seq(s: Seq<Pixel>, a: int, b: int) -> Seq<Pixel> {
    s.update(a, s[b]).update(b, s[a])
}

/// The one sequence that sorting on a dimension produces: repeatedly move
/// the earliest minimum to the front, exchanging it with what stood there,
/// and go on with the remainder.
pub open spec fn sel_sorted(s: Seq<Pixel>, dimension: int) -> Seq<Pixel>
    decreases s.len(),
    via sel_sorted_decreases
{
    if s.len() <= 1 {
        s
    } else {
        seq![s[min_index(s, dimension)]] + sel_sorted(
            swap_seq(s, 0, min_index(s, dimension)).drop_first(),
            dimension,
        )
    }
}

#[via_fn]
proof fn sel_sorted_decreases(s: Seq<Pixel>, dimension: int) {
    if s.len() > 1 {
        lemma_min_index_upto_properties(s, dimension, s.len() as int);
    }
}

/// Sorting keeps the length.
pub proof fn lemma_sel_sorted_len(s: Seq<Pixel>, dimension: int)
    ensures
        sel_sorted(s, dimension).len() == s.len(),
    decreases s.len(),
{
    if s.len() > 1 {
        lemma_min_index_upto_properties(s, dimension, s.len() as int);
        lemma_sel_sorted_len(swap_seq(s, 0, min_index(s, dimension)).drop_first(), dimension);
    }
}

/// The subtree a point set must build at a partition dimension: nothing for
/// no points, a leaf for one, and otherwise the sorted set's median at the
/// node with the two sorted halves as subtrees, one dimension on.
pub open spec fn is_median_build(node: Option<KDNode>, data: Seq<Pixel>, dimension: int) -> bool
    decreases data.len(),
    via is_median_build_decreases
{
    if data.len() == 0 {
        node is None
    } else if data.len() == 1 {
        match node {
            Option::Some(t) => t.pixel == data[0] && t.left is None && t.right is None,
            Option::None => false,
        }
    } else {
        let sorted = sel_sorted(data, dimension);
        let pivot = data.len() as int / 2;
        match node {
            Option::Some(t) => {
                &&& t.pixel == sorted[pivot]
                &&& is_median_build(
                    t.left,
                    sorted.subrange(0, pivot),
                    next_dimension(dimension),
                )
                &&& is_median_build(
                    t.right,
                    sorted.subrange(pivot + 1, data.len() as int),
                    next_dimension(dimension),
                )
            },
            Option::None => false,
        }
    }
}

#[via_fn]
proof fn is_median_build_decreases(node: Option<KDNode>, data: Seq<Pixel>, dimension: int) {
    if data.len() >= 2 {
        lemma_sel_sorted_len(data, dimension);
    }
}

/// The tree a non-empty point set must build, the root partitioning
/// dimension 0.
pub open spec fn tree_is_median_build(t: KDTree, data: Seq<Pixel>) -> bool
    recommends
        data.len() >= 1,
{
    if data.len() <= 1 {
        t.pixel == data[0] && t.left is None && t.right is None
    } else {
        let sorted = sel_sorted(data, 0);
        let pivot = data.len() as int / 2;
        &&& t.pixel == sorted[pivot]
        &&& is_median_build(t.left, sorted.subrange(0, pivot), next_dimension(0))
        &&& is_median_build(t.right, sorted.subrange(pivot + 1, data.len() as int), next_dimension(0))
    }
}

/// How many points a subtree holds.
pub open spec fn subtree_size(node: Option<KDNode>) -> int
    decreases node,
{
    match node {
        Option::None => 0,
        Option::Some(t) => 1 + subtree_size(t.left) + subtree_size(t.right),
    }
}

/// The median split keeps the tree balanced: at every node the two subtree
/// sizes differ by at most one.
pub open spec fn balanced(node: Option<KDNode>) -> bool
    decreases node,
{
    match node {
        Option::None => true,
        Option::Some(t) => {
            &&& -1 <= subtree_size(t.left) - subtree_size(t.right) <= 1
            &&& balanced(t.left)
            &&& balanced(t.right)
        },
    }
}

/// Balance at the root of a whole tree.
pub open spec fn tree_balanced(t: KDTree) -> bool {
    &&& -1 <= subtree_size(t.left) - subtree_size(t.right) <= 1
    &&& balanced(t.left)
    &&& balanced(t.right)
}

/// A subtree holds as many points as its contents say.
proof fn lemma_size_is_contents(node: Option<KDNode>)
    ensures
        subtree_size(node) == opt_contents(node).len(),
    decreases node,
{
    broadcast use vstd::multiset::group_multiset_axioms;

    match node {
        Option::None => {},
        Option::Some(t) => {
            lemma_size_is_contents(t.left);
            lemma_size_is_contents(t.right);
        },
    }
}

/// Swapping two positions of a sequence leaves its multiset unchanged.
proof fn lemma_swap_preserves_multiset(s: Seq<Pixel>, a: int, b: int)
    requires
        0 <= a < b < s.len(),
    ensures
        s.update(a, s[b]).update(b, s[a]).to_multiset() == s.to_multiset(),
{
    broadcast use vstd::seq_lib::lemma_multiset_commutative;
    broadcast use vstd::multiset::group_multiset_axioms;

    let t = s.update(a, s[b]).update(b, s[a]);
    let p1 = s.subrange(0, a);
    let m = s.subrange(a + 1, b);
    let p5 = s.subrange(b + 1, s.len() as int);
    assert(s =~= p1 + seq![s[a]] + m + seq![s[b]] + p5);
    assert(t =~= p1 + seq![s[b]] + m + seq![s[a]] + p5);
    assert((p1 + seq![s[a]] + m + seq![s[b]] + p5).to_multiset() =~= (p1 + seq![s[b]] + m
        + seq![s[a]] + p5).to_multiset());
}

impl KDTree {
    /// The coordinate of a point on a partition dimension, as executable code.
    fn key_of(p: &Pixel, dimension: u8) -> (k: u8)
        ensures
            k as int == key(*p, dimension as int),
    {
        if dimension == 0 {
            p.r
        } else if dimension == 1 {
            p.g
        } else {
            p.b
        }
    }

    fn new_node(pixel: Pixel, left: Option<KDNode>, right: Option<KDNode>) -> (n: KDNode)
        ensures
            n.pixel == pixel,
            n.left == left,
            n.right == right,
    {
        Box::new(KDTree { pixel, left, right })
    }

    /// Sorts the points on one partition dimension (selection sort). The
    /// result is the one sequence `sel_sorted` describes — in particular a
    /// function of the input alone — sorted on that dimension, and the same
    /// collection of points as a multiset.
    fn sort_by_dimension(data: &mut Vec<Pixel>, dimension: u8)
        ensures
            final(data)@.len() == old(data)@.len(),
            final(data)@ == sel_sorted(old(data)@, dimension as int),
            sorted_by_key(final(data)@, dimension as int),
            final(data)@.to_multiset() == old(data)@.to_multiset(),
    {
        let ghost orig = data@;
        let n = data.len();
        proof {
            assert(orig.skip(0) =~= orig);
            assert(Seq::<Pixel>::empty() + sel_sorted(orig, dimension as int) =~= sel_sorted(
                orig,
                dimension as int,
            ));
            assert(orig.take(0) =~= Seq::<Pixel>::empty());
        }
        let mut i: usize = 0;
        while i < n
            invariant
                i <= n,
                data@.len() == n,
                data@.to_multiset() == orig.to_multiset(),
                sel_sorted(orig, dimension as int) == data@.take(i as int) + sel_sorted(
                    data@.skip(i as int),
                    dimension as int,
                ),
                forall|a: int, b: int|
                    0 <= a <= b < i ==> key(data@[a], dimension as int) <= key(
                        data@[b],
                        dimension as int,
                    ),
                forall|a: int, b: int|
                    0 <= a < i <= b < n ==> key(data@[a], dimension as int) <= key(
                        data@[b],
                        dimension as int,
                    ),
            decreases n - i,
        {
            let mut m: usize = i;
            let mut j: usize = i + 1;
            while j < n
                invariant
                    i <= m < j <= n,
                    n == data@.len(),
                    forall|b: int|
                        i <= b < j ==> key(data@[m as int], dimension as int) <= key(
                            data@[b],
                            dimension as int,
                        ),
                    forall|b: int|
                        i <= b < m ==> key(data@[b], dimension as int) > key(
                            data@[m as int],
                            dimension as int,
                        ),
                decreases n - j,
            {
                if Self::key_of(&data[j], dimension) < Self::key_of(&data[m], dimension) {
                    m = j;
                }
                j = j + 1;
            }
            let ghost d = dimension as int;
            let ghost pre = data@;
            let ghost suffix = pre.skip(i as int);
            proof {
                assert forall|x: int| 0 <= x < suffix.len() implies suffix[x] == pre[i + x] by {}
                lemma_min_index_upto_properties(suffix, d, suffix.len() as int);
                let r = min_index(suffix, d);
                if r < m - i {
                    assert(key(pre[i + r], d) > key(pre[m as int], d));
                    assert(key(suffix[r], d) <= key(suffix[m - i], d));
                    assert(false);
                }
                if r > m - i {
                    assert(key(suffix[m - i], d) > key(suffix[r], d));
                    assert(key(pre[m as int], d) <= key(pre[i + r], d));
                    assert(false);
                }
                assert(r == m - i);
            }
            if m != i {
                let ghost before = data@;
                let pi = data[i];
                let pm = data[m];
                data.set(i, pm);
                data.set(m, pi);
                proof {
                    lemma_swap_preserves_multiset(before, i as int, m as int);
                }
            }
            proof {
                let cur = data@;
                assert(cur.take(i + 1) =~= pre.take(i as int).push(pre[m as int]));
                assert(cur.skip(i + 1) =~= swap_seq(suffix, 0, m - i).drop_first());
                if suffix.len() == 1 {
                    assert(sel_sorted(suffix, d) == suffix);
                    assert(cur.skip(i + 1) =~= Seq::<Pixel>::empty());
                    assert(sel_sorted(cur.skip(i + 1), d) == cur.skip(i + 1));
                    assert(pre.take(i as int) + suffix =~= cur.take(i + 1) + sel_sorted(
                        cur.skip(i + 1),
                        d,
                    ));
                } else {
                    assert(sel_sorted(suffix, d) == seq![suffix[min_index(suffix, d)]]
                        + sel_sorted(swap_seq(suffix, 0, min_index(suffix, d)).drop_first(), d));
                    assert(seq![suffix[m - i]] =~= Seq::<Pixel>::empty().push(pre[m as int]));
                    assert(pre.take(i as int) + (seq![pre[m as int]] + sel_sorted(
                        cur.skip(i + 1),
                        d,
                    )) =~= cur.take(i + 1) + sel_sorted(cur.skip(i + 1), d));
                }
            }
            i = i + 1;
        }
        proof {
            assert(data@.skip(n as int) =~= Seq::<Pixel>::empty());
            assert(data@.take(n as int) =~= data@);
            assert(data@ + sel_sorted(Seq::<Pixel>::empty(), dimension as int) =~= data@);
            assert(sorted_by_key(data@, dimension as int));
        }
    }

    /// Builds the subtree for a point set at the given partition dimension.
    /// The result is exactly the median build of the given points — which
    /// pins the whole shape, since the sort it rests on is deterministic —
    /// so it holds exactly those points, satisfies the ordering invariant,
    /// and is size-balanced at every node.
    fn new_rec(dimension: u8, data: Vec<Pixel>) -> (node: Option<KDNode>)
        requires
            dimension < 3,
        ensures
            opt_contents(node) == data@.to_multiset(),
            wf_opt(node, dimension as int),
            is_median_build(node, data@, dimension as int),
            balanced(node),
        decreases data@.len(),
    {
        broadcast use vstd::seq_lib::group_to_multiset_ensures;
        broadcast use vstd::multiset::group_multiset_axioms;

        let ghost input = data@;
        let n = data.len();
        if n == 0 {
            proof {
                assert(data@ =~= Seq::<Pixel>::empty());
                assert forall|q: Pixel| data@.to_multiset().count(q) == 0 by {
                    assert(!data@.contains(q));
                }
                assert(data@.to_multiset() =~= Multiset::<Pixel>::empty());
                assert(wf_opt(Option::<KDNode>::None, dimension as int));
            }
            Option::None
        } else if n == 1 {
            let node = Self::new_node(data[0], Option::None, Option::None);
            proof {
                let e = Seq::<Pixel>::empty();
                assert(data@ =~= e.push(data@[0]));
                assert forall|q: Pixel| e.to_multiset().count(q) == 0 by {
                    assert(!e.contains(q));
                }
                assert(e.to_multiset() =~= Multiset::<Pixel>::empty());
                assert(data@.to_multiset() =~= e.to_multiset().insert(data@[0]));
                assert(node.pixel == data@[0] && node.left is None && node.right is None);
                assert(opt_contents(Option::Some(node)) == opt_contents(node.left).insert(
                    node.pixel,
                ).add(opt_contents(node.right)));
                assert(opt_contents(node.left) =~= Multiset::<Pixel>::empty());
                assert(opt_contents(Option::Some(node)) =~= data@.to_multiset());
                assert(is_median_build(Option::Some(node), data@, dimension as int));
                assert(subtree_size(node.left) == 0 && subtree_size(node.right) == 0);
                assert(balanced(Option::<KDNode>::None));
                assert(balanced(Option::Some(node)));
                assert(wf_opt(Option::<KDNode>::None, next_dimension(dimension as int)));
                assert(forall|q: Pixel|
                    !(#[trigger] opt_contents(node.left).contains(q)) && !(opt_contents(
                        node.right,
                    ).contains(q)));
                assert(wf_opt(Option::Some(node), dimension as int));
            }
            Option::Some(node)
        } else {
            let mut data = data;
            Self::sort_by_dimension(&mut data, dimension);
            let ghost sorted = data@;
            let pivot = n / 2;
            let next_dim = (dimension + 1) % 3;
            let mut right_part = data.split_off(pivot);
            let pivot_pixel = right_part.remove(0);
            let ghost left_seq = data@;
            let ghost right_seq = right_part@;
            proof {
                assert(sorted =~= left_seq + (seq![pivot_pixel] + right_seq));
                vstd::seq_lib::lemma_multiset_commutative(left_seq, seq![pivot_pixel] + right_seq);
                vstd::seq_lib::lemma_multiset_commutative(seq![pivot_pixel], right_seq);
                assert(seq![pivot_pixel].to_multiset() =~= Multiset::empty().insert(pivot_pixel));
            }
            let left = Self::new_rec(next_dim, data);
            let right = Self::new_rec(next_dim, right_part);
            let node = Self::new_node(pivot_pixel, left, right);
            proof {
                assert(opt_contents(Option::Some(node)) =~= left_seq.to_multiset().insert(
                    pivot_pixel,
                ).add(right_seq.to_multiset()));
                assert(opt_contents(Option::Some(node)) =~= sorted.to_multiset());
                assert forall|q: Pixel| opt_contents(left).contains(q) implies key(
                    q,
                    dimension as int,
                ) <= key(pivot_pixel, dimension as int) by {
                    assert(left_seq.to_multiset().contains(q));
                    assert(left_seq.contains(q));
                    let idx = choose|idx: int| 0 <= idx < left_seq.len() && left_seq[idx] == q;
                    assert(sorted[idx] == q);
                    assert(sorted[pivot as int] == pivot_pixel);
                }
                assert forall|q: Pixel| opt_contents(right).contains(q) implies key(
                    q,
                    dimension as int,
                ) >= key(pivot_pixel, dimension as int) by {
                    assert(right_seq.to_multiset().contains(q));
                    assert(right_seq.contains(q));
                    let idx = choose|idx: int| 0 <= idx < right_seq.len() && right_seq[idx] == q;
                    assert(sorted[pivot + 1 + idx] == q);
                    assert(sorted[pivot as int] == pivot_pixel);
                }
                assert(next_dim as int == next_dimension(dimension as int));
                assert(node.left == left && node.right == right && node.pixel == pivot_pixel);
                assert(wf_opt(Option::Some(node), dimension as int));
                assert(sorted == sel_sorted(input, dimension as int));
                assert(left_seq =~= sorted.subrange(0, pivot as int));
                assert(right_seq =~= sorted.subrange(pivot as int + 1, n as int));
                assert(node.pixel == sorted[pivot as int]);
                assert(is_median_build(Option::Some(node), input, dimension as int));
                lemma_size_is_contents(left);
                lemma_size_is_contents(right);
                assert(subtree_size(left) == left_seq.to_multiset().len());
                assert(subtree_size(left) == pivot as int);
                assert(subtree_size(right) == n - pivot - 1);
                vstd::arithmetic::div_mod::lemma_fundamental_div_mod(n as int, 2);
                vstd::arithmetic::div_mod::lemma_mod_bound(n as int, 2);
                assert(balanced(Option::Some(node)));
            }
            Option::Some(node)
        }
    }

    /// Builds a tree over a non-empty point set: exactly the median build
    /// of those points, which pins the whole shape. It holds exactly the
    /// given points (as a multiset), satisfies the ordering invariant, and
    /// is size-balanced at every node. It indexes the point set frozen at
    /// this moment: it must be rebuilt, not queried, if the reference set
    /// changes.
    pub fn new(data: &Vec<Pixel>) -> (t: KDTree)
        requires
            data@.len() > 0,
        ensures
            tree_contents(t) == data@.to_multiset(),
            tree_wf(t),
            tree_is_median_build(t, data@),
            tree_balanced(t),
    {
        broadcast use vstd::seq_lib::group_to_multiset_ensures;
        broadcast use vstd::multiset::group_multiset_axioms;

        let mut points: Vec<Pixel> = Vec::new();
        let mut i: usize = 0;
        while i < data.len()
            invariant
                i <= data@.len(),
                points@ == data@.take(i as int),
            decreases data@.len() - i,
        {
            let p = data[i];
            points.push(p);
            proof {
                assert(data@.take(i + 1) =~= data@.take(i as int).push(p));
            }
            i = i + 1;
        }
        proof {
            assert(data@.take(data@.len() as int) =~= data@);
        }
        match Self::new_rec(0, points) {
            Option::Some(node) => {
                let t = *node;
                proof {
                    assert(is_median_build(Option::Some(node), data@, 0));
                    assert(tree_is_median_build(t, data@));
                    assert(tree_balanced(t));
                }
                t
            },
            Option::None => {
                proof {
                    assert(data@.to_multiset().len() == data@.len());
                    assert(false);
                }
                vstd::pervasive::unreached()
            },
        }
    }

    /// The exact-match walk below a node, as executable code.
    fn find_rec(dimension: u8, node: &Option<KDNode>, pixel: &Pixel) -> (r: bool)
        requires
            dimension < 3,
        ensures
            r == spec_find(*node, dimension as int, *pixel),
        decreases node,
    {
        if let Option::Some(node_inner) = node {
            let self_el = Self::key_of(&node_inner.pixel, dimension);
            let other_el = Self::key_of(pixel, dimension);
            let new_dimension = (dimension + 1) % 3;
            if node_inner.pixel == *pixel {
                true
            } else if other_el > self_el {
                Self::find_rec(new_dimension, &node_inner.right, pixel)
            } else {
                Self::find_rec(new_dimension, &node_inner.left, pixel)
            }
        } else {
            false
        }
    }

    /// Whether the tree holds a point exactly equal to `pixel`, by the
    /// exact-match walk. A hit guarantees membership; the walk descends a
    /// single branch per level.
    pub fn find(&self, pixel: &Pixel) -> (r: bool)
        ensures
            r == spec_find_tree(*self, *pixel),
            r ==> tree_contents(*self).contains(*pixel),
    {
        proof {
            broadcast use vstd::multiset::group_multiset_axioms;

            lemma_find_sound(self.left, 1, *pixel);
            lemma_find_sound(self.right, 1, *pixel);
        }
        if self.pixel == *pixel {
            true
        } else if pixel.r > self.pixel.r {
            Self::find_rec(1, &self.right, pixel)
        } else {
            Self::find_rec(1, &self.left, pixel)
        }
    }
}

} // verus!

