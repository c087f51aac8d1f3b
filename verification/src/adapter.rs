//! The generation rule: how a node value expands into children.
//!
//! A rule gives the root values of the implicit tree and, for every node
//! value, the ordered children of that node.  `nei` turns a group of parent
//! values into a bundle: one `(parent, children)` pair per parent, in order.
//! The rule also carries the batch size with which the traversal driver
//! groups parents before generation.

use vstd::prelude::*;

verus! {

/// Largest magnitude for which all children values of the numbering rules
/// below still fit in an `i64`; values beyond it are treated as leaves.
pub const CHILD_BOUND: i64 = 922_337_203_685_477_580;

/// A generation rule for an implicit tree of `i64` node values.
pub trait Adapter {
    /// The batch size, as seen by specifications.
    spec fn spec_batching(&self) -> usize;

    /// The root values, as seen by specifications.
    spec fn spec_root(&self) -> Seq<i64>;

    /// The children of a node value, as seen by specifications.
    spec fn spec_children(&self, x: i64) -> Seq<i64>;

    /// The batch size with which parents are grouped before generation.
    fn batching(&self) -> (b: usize)
        ensures
            b == self.spec_batching(),
    ;

    /// The starting values of the traversal.
    fn root(&self) -> (r: Vec<i64>)
        ensures
            r@ == self.spec_root(),
    ;

    /// The ordered children of one node value.
    fn children(&self, x: i64) -> (r: Vec<i64>)
        ensures
            r@ == self.spec_children(x),
    ;

    /// The bundle for a group of parents: exactly one `(parent, children)`
    /// pair per parent, in the parents' order.
    fn nei(&self, parents: &Vec<i64>) -> (pairs: Vec<(i64, Vec<i64>)>)
        ensures
            pairs@.len() == parents@.len(),
            forall|i: int|
                0 <= i < pairs@.len() ==> (#[trigger] pairs@[i]).0 == parents@[i]
                    && pairs@[i].1@ == self.spec_children(parents@[i]),
    ;
}

/// Complete numbering rule: value `x` expands to `10x+1`, `10x+2`, `10x+3`,
/// a uniform branching factor of three; values out of the representable
/// range have no children.
pub struct CompleteBinaryTree {
    /// Batch size for grouping parents before generation.
    pub batching: usize,
}

impl Adapter for CompleteBinaryTree {
    open spec fn spec_batching(&self) -> usize {
        self.batching
    }

    open spec fn spec_root(&self) -> Seq<i64> {
        seq![0i64]
    }

    open spec fn spec_children(&self, x: i64) -> Seq<i64> {
        if -CHILD_BOUND <= x <= CHILD_BOUND {
            seq![(10 * x + 1) as i64, (10 * x + 2) as i64, (10 * x + 3) as i64]
        } else {
            Seq::empty()
        }
    }

    fn batching(&self) -> usize {
        self.batching
    }

    fn root(&self) -> (r: Vec<i64>)
        ensures
            r@ == self.spec_root(),
    {
        let mut r: Vec<i64> = Vec::new();
        r.push(0);
        proof {
            assert(r@ =~= seq![0i64]);
        }
        r
    }

    fn children(&self, x: i64) -> (r: Vec<i64>)
        ensures
            r@ == self.spec_children(x),
    {
        let mut r: Vec<i64> = Vec::new();
        if -CHILD_BOUND <= x && x <= CHILD_BOUND {
            r.push(10 * x + 1);
            r.push(10 * x + 2);
            r.push(10 * x + 3);
            proof {
                assert(r@ =~= seq![(10 * x + 1) as i64, (10 * x + 2) as i64, (10 * x + 3) as i64]);
            }
        } else {
            proof {
                assert(r@ =~= Seq::<i64>::empty());
            }
        }
        r
    }

    fn nei(&self, parents: &Vec<i64>) -> (pairs: Vec<(i64, Vec<i64>)>) {
        let mut pairs: Vec<(i64, Vec<i64>)> = Vec::new();
        let mut i: usize = 0;
        while i < parents.len()
            invariant
                i <= parents@.len(),
                pairs@.len() == i as int,
                forall|k: int|
                    0 <= k < i as int ==> (#[trigger] pairs@[k]).0 == parents@[k] && pairs@[k].1@
                        == self.spec_children(parents@[k]),
            decreases parents@.len() - i,
        {
            let x = parents[i];
            let cs = self.children(x);
            pairs.push((x, cs));
            i = i + 1;
        }
        pairs
    }
}

/// Comb rule: a value `x` expands to one or five children depending on
/// parity — five children `10x+1` to `10x+5` when `x` is even, the single
/// child `10x+1` when `x` is odd — so full branching happens on every other
/// turn; negative values and values out of the representable range have no
/// children.
pub struct Comb {
    /// Batch size for grouping parents before generation.
    pub batching: usize,
}

impl Adapter for Comb {
    open spec fn spec_batching(&self) -> usize {
        self.batching
    }

    open spec fn spec_root(&self) -> Seq<i64> {
        seq![0i64]
    }

    open spec fn spec_children(&self, x: i64) -> Seq<i64> {
        if 0 <= x <= CHILD_BOUND && x % 2 == 0 {
            seq![(10 * x + 1) as i64, (10 * x + 2) as i64, (10 * x + 3) as i64, (10 * x + 4) as i64, (10 * x + 5) as i64]
        } else if 0 <= x <= CHILD_BOUND {
            seq![(10 * x + 1) as i64]
        } else {
            Seq::empty()
        }
    }

    fn batching(&self) -> usize {
        self.batching
    }

    fn root(&self) -> (r: Vec<i64>)
        ensures
            r@ == self.spec_root(),
    {
        let mut r: Vec<i64> = Vec::new();
        r.push(0);
        proof {
            assert(r@ =~= seq![0i64]);
        }
        r
    }

    fn children(&self, x: i64) -> (r: Vec<i64>)
        ensures
            r@ == self.spec_children(x),
    {
        let mut r: Vec<i64> = Vec::new();
        if 0 <= x && x <= CHILD_BOUND && x % 2 == 0 {
            r.push(10 * x + 1);
            r.push(10 * x + 2);
            r.push(10 * x + 3);
            r.push(10 * x + 4);
            r.push(10 * x + 5);
            proof {
                assert(r@ =~= seq![(10 * x + 1) as i64, (10 * x + 2) as i64, (10 * x + 3) as i64, (10 * x + 4) as i64, (10 * x + 5) as i64]);
            }
        } else if 0 <= x && x <= CHILD_BOUND {
            r.push(10 * x + 1);
            proof {
                assert(r@ =~= seq![(10 * x + 1) as i64]);
            }
        } else {
            proof {
                assert(r@ =~= Seq::<i64>::empty());
            }
        }
        r
    }

    fn nei(&self, parents: &Vec<i64>) -> (pairs: Vec<(i64, Vec<i64>)>) {
        let mut pairs: Vec<(i64, Vec<i64>)> = Vec::new();
        let mut i: usize = 0;
        while i < parents.len()
            invariant
                i <= parents@.len(),
                pairs@.len() == i as int,
                forall|k: int|
                    0 <= k < i as int ==> (#[trigger] pairs@[k]).0 == parents@[k] && pairs@[k].1@
                        == self.spec_children(parents@[k]),
            decreases parents@.len() - i,
        {
            let x = parents[i];
            let cs = self.children(x);
            pairs.push((x, cs));
            i = i + 1;
        }
        pairs
    }
}

/// Complete numbering rule truncated at a value cap: `x` expands to `10x+1`,
/// `10x+2`, `10x+3` while `0 <= x <= cap`, and is a leaf otherwise.  The
/// resulting tree is finite, so a traversal over it can be run to exhaustion.
pub struct CappedBinaryTree {
    /// Batch size for grouping parents before generation.
    pub batching: usize,
    /// Largest value that still has children.
    pub cap: i64,
}

impl Adapter for CappedBinaryTree {
    open spec fn spec_batching(&self) -> usize {
        self.batching
    }

    open spec fn spec_root(&self) -> Seq<i64> {
        seq![0i64]
    }

    open spec fn spec_children(&self, x: i64) -> Seq<i64> {
        if 0 <= x <= self.cap && x <= CHILD_BOUND {
            seq![(10 * x + 1) as i64, (10 * x + 2) as i64, (10 * x + 3) as i64]
        } else {
            Seq::empty()
        }
    }

    fn batching(&self) -> usize {
        self.batching
    }

    fn root(&self) -> (r: Vec<i64>)
        ensures
            r@ == self.spec_root(),
    {
        let mut r: Vec<i64> = Vec::new();
        r.push(0);
        proof {
            assert(r@ =~= seq![0i64]);
        }
        r
    }

    fn children(&self, x: i64) -> (r: Vec<i64>)
        ensures
            r@ == self.spec_children(x),
    {
        let mut r: Vec<i64> = Vec::new();
        if 0 <= x && x <= self.cap && x <= CHILD_BOUND {
            r.push(10 * x + 1);
            r.push(10 * x + 2);
            r.push(10 * x + 3);
            proof {
                assert(r@ =~= seq![(10 * x + 1) as i64, (10 * x + 2) as i64, (10 * x + 3) as i64]);
            }
        } else {
            proof {
                assert(r@ =~= Seq::<i64>::empty());
            }
        }
        r
    }

    fn nei(&self, parents: &Vec<i64>) -> (pairs: Vec<(i64, Vec<i64>)>) {
        let mut pairs: Vec<(i64, Vec<i64>)> = Vec::new();
        let mut i: usize = 0;
        while i < parents.len()
            invariant
                i <= parents@.len(),
                pairs@.len() == i as int,
                forall|k: int|
                    0 <= k < i as int ==> (#[trigger] pairs@[k]).0 == parents@[k] && pairs@[k].1@
                        == self.spec_children(parents@[k]),
            decreases parents@.len() - i,
        {
            let x = parents[i];
            let cs = self.children(x);
            pairs.push((x, cs));
            i = i + 1;
        }
        pairs
    }
}

} // verus!
