//! Trees are low: how many levels a tree can have.
use vstd::prelude::*;

use crate::storage::btree::rooted;
use crate::storage::page::PageView;
use crate::storage::tree::{
    all_leaves, few_numbers, height, kid_spot, leaf_leaves, leaves, leaves_chained, level_is_height,
    node_counts, node_kids, node_leaves, numbers, ok, owned_stored, stored, top, Size, Spot, Stock,
    Tree,
};

verus! {

/// The number of levels above the leaves that a tree has at most.
pub const MAX_HEIGHT: usize = 5;

/// The least number of leaves below a node at this level that is at least half full.
spec fn fewest(level: nat) -> nat
    decreases level,
{
    if level == 0 {
        1
    } else {
        101 * fewest((level - 1) as nat)
    }
}

proof fn all_leaves_len(kids: Seq<Tree>, n: nat)
    requires
        forall|j: int| 0 <= j < kids.len() ==> leaves(#[trigger] kids[j]).len() >= n,
    ensures
        all_leaves(kids).len() >= kids.len() * n,
    decreases kids.len(),
{
    if kids.len() > 0 {
        let front = kids.drop_last();
        assert forall|j: int| 0 <= j < front.len() implies leaves(#[trigger] front[j]).len() >= n by {
            assert(front[j] == kids[j]);
        }
        all_leaves_len(front, n);
        assert(leaves(kids[kids.len() - 1]).len() >= n);
        assert(kids.len() * n == front.len() * n + n) by (nonlinear_arith)
            requires
                kids.len() == front.len() + 1,
        ;
    }
}

#[verifier::spinoff_prover]
#[verifier::rlimit(40)]
proof fn many_leaves(t: Tree, s: Spot, stock: Stock)
    requires
        ok(t, s, Size::Half, stock),
    ensures
        leaves(t).len() >= fewest(s.level),
    decreases t,
{
    level_is_height(t, s, Size::Half, stock);
    node_counts(t, s, Size::Half, stock);
    match t {
        Tree::Leaf { .. } => {
            leaf_leaves(t);
        },
        Tree::Node { id, keys, kids } => {
            node_kids(id, keys, kids, s, Size::Half, stock);
            let n = fewest((s.level - 1) as nat);
            assert forall|j: int| 0 <= j < kids.len() implies leaves(#[trigger] kids[j]).len() >= n by {
                many_leaves(kids[j], kid_spot(s, keys, kids, j), stock);
            }
            all_leaves_len(kids, n);
            node_leaves(id, keys, kids);
            assert(kids.len() * n >= 101 * n) by (nonlinear_arith)
                requires
                    kids.len() >= 101,
            ;
        },
    }
}

proof fn fewest_grows(a: nat, b: nat)
    requires
        a <= b,
    ensures
        1 <= fewest(a) <= fewest(b),
    decreases b,
{
    if a < b {
        fewest_grows(a, (b - 1) as nat);
    } else if b > 0 {
        fewest_grows((a - 1) as nat, (b - 1) as nat);
    }
}

/// A tree has few levels, since its leaves have different page numbers.
pub proof fn tree_is_low(t: Tree, stock: Stock, m: Map<u32, PageView>, n: u32)
    requires
        rooted(t, stock),
        stored(t, m),
        forall|x: u32| #[trigger] m.contains_key(x) ==> 0 < x < n,
    ensures
        height(t) <= MAX_HEIGHT,
{
    let s = top(height(t));
    leaves_chained(t, s, Size::Root, stock, m);
    let ids = numbers(leaves(t));
    assert forall|i: int| 0 <= i < ids.len() implies 0 < #[trigger] ids[i] < n by {
        owned_stored(t, m, leaves(t)[i].id());
    }
    few_numbers(ids, n);
    if height(t) > MAX_HEIGHT {
        node_counts(t, s, Size::Root, stock);
        match t {
            Tree::Leaf { .. } => {},
            Tree::Node { id, keys, kids } => {
                node_kids(id, keys, kids, s, Size::Root, stock);
                let k = fewest((height(t) - 1) as nat);
                assert forall|j: int| 0 <= j < kids.len() implies leaves(#[trigger] kids[j]).len() >= k by {
                    many_leaves(kids[j], kid_spot(s, keys, kids, j), stock);
                }
                all_leaves_len(kids, k);
                node_leaves(id, keys, kids);
                fewest_grows(5, (height(t) - 1) as nat);
                assert(fewest(5) == 10510100501) by {
                    reveal_with_fuel(fewest, 7);
                }
                assert(kids.len() * k >= k) by (nonlinear_arith)
                    requires
                        kids.len() >= 1,
                ;
            },
        }
    }
}

} // verus!
