use vstd::prelude::*;

use crate::utils::{
    lowbit, lowbit_spec, lemma_lowbit_bounds, lemma_lowbit_add_smaller, lemma_lowbit_add_equal,
};

verus! {

/// The elements of a sequence of machine integers, as mathematical integers.
pub open spec fn int_seq(s: Seq<i64>) -> Seq<int> {
    s.map_values(|x: i64| x as int)
}

/// Sum of the logical values at positions `[0, n)`.
pub open spec fn prefix_sum(v: Seq<int>, n: int) -> int
    decreases n,
{
    if n <= 0 {
        0
    } else {
        prefix_sum(v, n - 1) + v[n - 1]
    }
}

/// Sum of the logical values at positions `[a, b)`.
pub open spec fn range_sum(v: Seq<int>, a: int, b: int) -> int {
    prefix_sum(v, b) - prefix_sum(v, a)
}

/// Every range sum over `v` fits in an `i64`. The tree stores such sums in
/// `i64` cells, so this is the machine limit under which the structure
/// operates without overflow.
pub open spec fn sums_in_bounds(v: Seq<int>) -> bool {
    forall|a: int, b: int|
        0 <= a <= b <= v.len() ==> i64::MIN <= #[trigger] range_sum(v, a, b) <= i64::MAX
}

/// First position of the range a tree node is responsible for: node `i >= 1`
/// covers the positions `(i - lowbit(i), i]`, that is `[i + 1 - lowbit(i), i]`;
/// node `0` covers only position `0`.
pub open spec fn coverage_start(i: int) -> int {
    if i <= 0 {
        0
    } else {
        i + 1 - lowbit_spec(i as nat)
    }
}

/// Node `i` is responsible for position `k`.
pub open spec fn covers(i: int, k: int) -> bool {
    coverage_start(i) <= k <= i
}

/// The sum a tree node holds: the logical values over its coverage range.
pub open spec fn node_sum(v: Seq<int>, i: int) -> int {
    range_sum(v, coverage_start(i), i + 1)
}

/// A Fenwick tree (binary indexed tree): an array-backed structure over a
/// fixed-length sequence of logical values, answering prefix-sum queries and
/// applying point updates in logarithmic time. Cell `i` of the backing array
/// stores the sum of the logical values over `(i - lowbit(i), i]` (cell `0`
/// stores the value at position `0` alone).
pub struct BinaryIndexedTree {
    tree: Vec<i64>,
    len: usize,
    elems: Ghost<Seq<int>>,
}

impl View for BinaryIndexedTree {
    type V = Seq<int>;

    /// The logical values the tree represents, position by position.
    closed spec fn view(&self) -> Seq<int> {
        self.elems@
    }
}

impl BinaryIndexedTree {
    /// Every cell of the backing array holds the sum over its coverage range,
    /// and all range sums over the logical values fit in an `i64`.
    pub closed spec fn wf(self) -> bool {
        &&& self.tree@.len() == self.len
        &&& self@.len() == self.len
        &&& sums_in_bounds(self@)
        &&& forall|i: int| 0 <= i < self.len ==> self.tree@[i] as int == node_sum(self@, i)
    }

    /// Build a tree over the given logical values. Queries on the result
    /// report cumulative sums of exactly these values. An empty input yields
    /// an empty tree, on which no index is valid for any operation.
    pub fn from(tree: Vec<i64>) -> (result: Self)
        requires
            sums_in_bounds(int_seq(tree@)),
        ensures
            result.wf(),
            result@ == int_seq(tree@),
            result@.len() == tree@.len(),
    {
        let ghost v = int_seq(tree@);
        let mut tree = tree;
        let len = tree.len();
        let mut x = len;
        while x > 1
            invariant
                tree@.len() == len,
                v.len() == len,
                x <= len,
                len >= 1 ==> x >= 1,
                sums_in_bounds(v),
                forall|j: int| 0 <= j < x ==> tree@[j] as int == v[j],
                forall|j: int| x <= j < len ==> tree@[j] as int == node_sum(v, j),
            decreases x,
        {
            let x1 = x - 1;
            proof {
                lemma_lowbit_bounds(x1 as nat);
            }
            let lb = lowbit(x1);
            let begin = x1 - lb + 1;
            let mut acc: i64 = 0;
            let mut i = begin;
            while i < x1
                invariant
                    tree@.len() == len,
                    v.len() == len,
                    begin <= i <= x1 < len,
                    1 <= begin,
                    sums_in_bounds(v),
                    forall|j: int| 0 <= j < len ==> tree@[j] as int == (
                        if j <= x1 { v[j] } else { node_sum(v, j) }
                    ),
                    acc as int == range_sum(v, begin as int, i as int),
                decreases x1 - i,
            {
                proof {
                    assert(range_sum(v, begin as int, i as int + 1)
                        == range_sum(v, begin as int, i as int) + v[i as int]);
                    assert(i64::MIN <= range_sum(v, begin as int, i as int + 1) <= i64::MAX);
                }
                acc = acc + tree[i];
                i = i + 1;
            }
            proof {
                assert(range_sum(v, begin as int, x1 as int + 1)
                    == range_sum(v, begin as int, x1 as int) + v[x1 as int]);
                assert(i64::MIN <= range_sum(v, begin as int, x1 as int + 1) <= i64::MAX);
            }
            let val = tree[x1] + acc;
            tree.set(x1, val);
            proof {
                assert(coverage_start(x1 as int) == begin as int);
                assert(tree@[x1 as int] as int == node_sum(v, x1 as int));
            }
            x = x1;
        }
        proof {
            if len >= 1 {
                assert(node_sum(v, 0) == v[0]) by {
                    assert(prefix_sum(v, 1) == prefix_sum(v, 0) + v[0]);
                };
            }
        }
        BinaryIndexedTree { tree, len, elems: Ghost(v) }
    }

    /// Cumulative sum of the logical values over positions `[0, index]`,
    /// walking down the responsibility chain and adding one covered block per
    /// step.
    pub fn query_one(&self, index: usize) -> (ans: i64)
        requires
            self.wf(),
            index < self@.len(),
        ensures
            ans as int == prefix_sum(self@, index as int + 1),
    {
        let ghost v = self@;
        let mut i = index;
        let mut ans = self.tree[i];
        proof {
            assert(self.tree@[index as int] as int == node_sum(v, index as int));
        }
        while i > 0
            invariant
                self.wf(),
                v == self@,
                i <= index < self@.len(),
                ans as int == prefix_sum(v, index as int + 1)
                    - prefix_sum(v, coverage_start(i as int)),
            decreases i,
        {
            proof {
                lemma_lowbit_bounds(i as nat);
            }
            let ghost i0 = i as int;
            let lb = lowbit(i);
            i = i - lb;
            proof {
                lemma_coverage_start_bounds(i as int);
                assert(coverage_start(i0) == i as int + 1);
                assert(self.tree@[i as int] as int == node_sum(v, i as int));
                assert(range_sum(v, coverage_start(i as int), index as int + 1)
                    == ans as int + self.tree@[i as int] as int);
                assert(i64::MIN <= range_sum(v, coverage_start(i as int), index as int + 1)
                    <= i64::MAX);
            }
            ans = ans + self.tree[i];
        }
        ans
    }

    /// Cumulative sum of the logical values over positions `(index_left,
    /// index_right]` — exclusive on the left, inclusive on the right, so
    /// `query_range(i, i)` is zero and adjacent ranges compose. Computed as
    /// the difference of the two prefix queries.
    pub fn query_range(&self, index_left: usize, index_right: usize) -> (ans: i64)
        requires
            self.wf(),
            index_left <= index_right < self@.len(),
        ensures
            ans as int == range_sum(self@, index_left as int + 1, index_right as int + 1),
            ans as int == prefix_sum(self@, index_right as int + 1)
                - prefix_sum(self@, index_left as int + 1),
    {
        let right = self.query_one(index_right);
        let left = self.query_one(index_left);
        proof {
            assert(i64::MIN
                <= range_sum(self@, index_left as int + 1, index_right as int + 1)
                <= i64::MAX);
        }
        right - left
    }

    /// Apply `delta` to the logical value at position `index`, adjusting
    /// every tree node responsible for that position so that prefix queries
    /// keep measuring cumulative sums of the updated logical values.
    pub fn edit(&mut self, index: usize, delta: i64)
        requires
            old(self).wf(),
            index < old(self)@.len(),
            sums_in_bounds(old(self)@.update(index as int, old(self)@[index as int] + delta)),
        ensures
            final(self).wf(),
            final(self)@ == old(self)@.update(index as int, old(self)@[index as int] + delta),
    {
        let ghost v1 = self@;
        let ghost v2 = v1.update(index as int, v1[index as int] + delta);
        self.elems = Ghost(v2);
        if index == 0 {
            proof {
                lemma_node_sum_update(v1, 0, delta as int, 0);
                assert(i64::MIN <= range_sum(v2, coverage_start(0), 1) <= i64::MAX);
            }
            let val = self.tree[0] + delta;
            self.tree.set(0, val);
            proof {
                assert forall|j: int| 0 <= j < self.len implies self.tree@[j] as int
                    == node_sum(v2, j) by {
                    lemma_node_sum_update(v1, 0, delta as int, j);
                    lemma_coverage_start_bounds(j);
                    if j >= 1 {
                        // Position 0 belongs to node 0 alone.
                        lemma_lowbit_bounds(j as nat);
                        assert(!covers(j, 0));
                    }
                }
            }
            return;
        }
        let mut i = index;
        proof {
            lemma_lowbit_bounds(index as nat);
            assert(covers(index as int, index as int));
        }
        while i < self.len
            invariant
                self.tree@.len() == self.len,
                v1.len() == self.len,
                v2 == v1.update(index as int, v1[index as int] + delta),
                self@ == v2,
                1 <= index <= i,
                index < self.len,
                sums_in_bounds(v2),
                i < self.len ==> covers(i as int, index as int),
                forall|j: int|
                    0 <= j < self.len && covers(j, index as int) && j < i
                        ==> self.tree@[j] as int == node_sum(v2, j),
                forall|j: int|
                    0 <= j < self.len && !(covers(j, index as int) && j < i)
                        ==> self.tree@[j] as int == node_sum(v1, j),
            decreases self.len - i,
        {
            proof {
                lemma_node_sum_update(v1, index as int, delta as int, i as int);
                lemma_coverage_start_bounds(i as int);
                assert(i64::MIN <= range_sum(v2, coverage_start(i as int), i as int + 1)
                    <= i64::MAX);
            }
            let val = self.tree[i] + delta;
            self.tree.set(i, val);
            proof {
                lemma_lowbit_bounds(i as nat);
                lemma_chain_step(i as int, index as int);
            }
            let lb = lowbit(i);
            if lb >= self.len - i {
                i = self.len;
            } else {
                i = i + lb;
            }
        }
        proof {
            assert forall|j: int| 0 <= j < self.len implies self.tree@[j] as int
                == node_sum(v2, j) by {
                if !covers(j, index as int) {
                    lemma_node_sum_update(v1, index as int, delta as int, j);
                }
            }
        }
    }
}

/// The start of a node's coverage range lies between position zero and the
/// node's own position.
pub proof fn lemma_coverage_start_bounds(j: int)
    requires
        j >= 0,
    ensures
        0 <= coverage_start(j) <= j,
{
    if j >= 1 {
        lemma_lowbit_bounds(j as nat);
    }
}

/// A point update moves every prefix sum that reaches past the updated
/// position by exactly the delta, and leaves every earlier prefix sum
/// unchanged.
pub proof fn lemma_prefix_sum_update(v: Seq<int>, k: int, d: int, n: int)
    requires
        0 <= k < v.len(),
        0 <= n <= v.len(),
    ensures
        prefix_sum(v.update(k, v[k] + d), n) == prefix_sum(v, n) + if k < n {
            d
        } else {
            0
        },
    decreases n,
{
    if n > 0 {
        lemma_prefix_sum_update(v, k, d, n - 1);
    }
}

/// A point update moves a node's sum by the delta exactly when the node
/// covers the updated position.
proof fn lemma_node_sum_update(v: Seq<int>, k: int, d: int, j: int)
    requires
        0 <= k < v.len(),
        0 <= j < v.len(),
    ensures
        node_sum(v.update(k, v[k] + d), j) == node_sum(v, j) + if covers(j, k) {
            d
        } else {
            0
        },
{
    lemma_coverage_start_bounds(j);
    lemma_prefix_sum_update(v, k, d, j + 1);
    lemma_prefix_sum_update(v, k, d, coverage_start(j));
}

/// The update chain from a covering node `i` of position `k` continues at
/// `i + lowbit(i)`: that node covers `k` as well, and no node strictly in
/// between does.
proof fn lemma_chain_step(i: int, k: int)
    requires
        1 <= k <= i,
        covers(i, k),
    ensures
        covers(i + lowbit_spec(i as nat), k),
        forall|j: int| i < j < i + lowbit_spec(i as nat) ==> !covers(j, k),
{
    let lb = lowbit_spec(i as nat) as int;
    let next = i + lb;
    lemma_lowbit_bounds(i as nat);
    lemma_lowbit_add_equal(i as nat);
    lemma_lowbit_bounds(next as nat);
    assert(coverage_start(next) <= k);
    assert forall|j: int| i < j < next implies !covers(j, k) by {
        let r = j - i;
        lemma_lowbit_bounds(r as nat);
        lemma_lowbit_add_smaller(r as nat, i as nat);
        assert(coverage_start(j) >= i + 1);
    }
}

/// Prefix sums of a constant sequence grow linearly: over `n` positions each
/// holding `c`, the prefix sum is `c * n`.
pub proof fn lemma_prefix_sum_constant(v: Seq<int>, c: int, n: int)
    requires
        0 <= n <= v.len(),
        forall|i: int| 0 <= i < v.len() ==> v[i] == c,
    ensures
        prefix_sum(v, n) == c * n,
    decreases n,
{
    if n > 0 {
        lemma_prefix_sum_constant(v, c, n - 1);
        assert(c * (n - 1) + c == c * n) by (nonlinear_arith);
    } else {
        assert(c * n == 0) by (nonlinear_arith)
            requires
                n == 0,
        ;
    }
}

/// A range query is the difference of the two prefix queries, a range from a
/// position to itself sums to zero, and adjacent ranges compose.
pub proof fn lemma_range_sum_properties(v: Seq<int>, a: int, b: int, c: int)
    requires
        0 <= a <= b <= c <= v.len(),
    ensures
        range_sum(v, a, b) == prefix_sum(v, b) - prefix_sum(v, a),
        range_sum(v, a, a) == 0,
        range_sum(v, a, b) + range_sum(v, b, c) == range_sum(v, a, c),
{
}

/// A point update followed by its inverse restores the logical values
/// exactly, and with them every prefix sum.
pub proof fn lemma_edit_inverse(v: Seq<int>, k: int, d: int)
    requires
        0 <= k < v.len(),
    ensures
        v.update(k, v[k] + d).update(k, v.update(k, v[k] + d)[k] + (-d)) == v,
{
    assert(v.update(k, v[k] + d).update(k, v.update(k, v[k] + d)[k] + (-d)) =~= v);
}

} // verus!
