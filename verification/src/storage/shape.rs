//! The shape of a B+ tree, spelled out.
use vstd::prelude::*;

use crate::bytes::{ascending, le, lt};
use crate::storage::low::MAX_HEIGHT;
use crate::storage::page::PageView;
use crate::storage::store::Store;
use crate::storage::tree::{
    any_stock, entries, flat, height, kid_spot, leaves, leaves_chained, map_of, node_counts,
    node_kids, ok, owned_stored, owns, stored, top, within, Size, Spot, Stock, Tree,
    MAX_KEYS_INTERNAL, MAX_KEYS_LEAF, MIN_KEYS_INTERNAL, MIN_KEYS_LEAF,
};

verus! {

/// What a B+ tree looks like below a page: a page takes no more keys than it may, and at least half of
/// them unless it is the root; keys strictly ascend, and lie from the lower bound on and before the upper
/// one; a page that is no leaf has one child more than it has keys, and the keys below each child lie
/// between the keys on its two sides; and all leaves are equally far down.
pub open spec fn shaped(t: Tree, lo: Option<Seq<u8>>, hi: Option<Seq<u8>>, level: nat, root: bool) -> bool
    decreases t,
{
    match t {
        Tree::Leaf { keys, values, .. } => {
            &&& level == 0
            &&& keys.len() <= MAX_KEYS_LEAF
            &&& !root ==> keys.len() >= MIN_KEYS_LEAF
            &&& values.len() == keys.len()
            &&& ascending(keys)
            &&& bounded(keys, lo, hi)
        },
        Tree::Node { keys, kids, .. } => {
            &&& level > 0
            &&& 1 <= keys.len() <= MAX_KEYS_INTERNAL
            &&& !root ==> keys.len() >= MIN_KEYS_INTERNAL
            &&& kids.len() == keys.len() + 1
            &&& ascending(keys)
            &&& bounded(keys, lo, hi)
            &&& forall|j: int|
                0 <= j < kids.len() ==> shaped(
                    #[trigger] kids[j],
                    if j == 0 {
                        lo
                    } else {
                        Some(keys[j - 1])
                    },
                    if j == keys.len() {
                        hi
                    } else {
                        Some(keys[j])
                    },
                    (level - 1) as nat,
                    false,
                )
        },
    }
}

/// The keys lie from the lower bound on, and before the upper one.
pub open spec fn bounded(keys: Seq<Seq<u8>>, lo: Option<Seq<u8>>, hi: Option<Seq<u8>>) -> bool {
    forall|i: int|
        0 <= i < keys.len() ==> (lo matches Some(l) ==> le(l, #[trigger] keys[i])) && (hi matches Some(h) ==> lt(
            keys[i],
            h,
        ))
}

/// The leaves of a tree from left to right each point to the next one, and the last one to none.
pub open spec fn linked(t: Tree) -> bool {
    forall|i: int|
        0 <= i < leaves(t).len() ==> (#[trigger] leaves(t)[i]) is Leaf && leaves(t)[i]->next == if i + 1
            < leaves(t).len() {
            leaves(t)[i + 1].id()
        } else {
            0
        }
}

proof fn ok_is_shaped(t: Tree, s: Spot, size: Size, stock: Stock)
    requires
        ok(t, s, size, stock),
        size !is Loose,
        t is Node && size is Root ==> t.top_keys().len() >= 1,
    ensures
        shaped(t, s.lo, s.hi, s.level, size is Root),
    decreases t,
{
    node_counts(t, s, size, stock);
    match t {
        Tree::Leaf { keys, .. } => {
            reveal(ok);
            assert forall|i: int| 0 <= i < keys.len() implies (s.lo matches Some(l) ==> le(l, #[trigger] keys[i])) && (
            s.hi matches Some(h) ==> lt(keys[i], h)) by {
                assert(within(s, keys[i]));
            }
        },
        Tree::Node { id, keys, kids } => {
            node_kids(id, keys, kids, s, size, stock);
            assert forall|i: int| 0 <= i < keys.len() implies (s.lo matches Some(l) ==> le(l, #[trigger] keys[i])) && (
            s.hi matches Some(h) ==> lt(keys[i], h)) by {
                assert(within(s, keys[i]));
            }
            assert forall|j: int| 0 <= j < kids.len() implies shaped(
                #[trigger] kids[j],
                if j == 0 {
                    s.lo
                } else {
                    Some(keys[j - 1])
                },
                if j == keys.len() {
                    s.hi
                } else {
                    Some(keys[j])
                },
                (s.level - 1) as nat,
                false,
            ) by {
                let ks = kid_spot(s, keys, kids, j);
                assert(ok(kids[j], ks, Size::Half, stock));
                ok_is_shaped(kids[j], ks, Size::Half, stock);
            }
        },
    }
}

impl Store {
    /// Every tree of a store in order is a B+ tree: it has the shape of one, its leaves are linked from
    /// left to right, what the leaves hold is what the tree holds, and it is low.
    pub proof fn trees_are_b_plus_trees(&self, root: u32)
        requires
            self.wf(),
            self@.contains_key(root),
        ensures
            self.forest().contains_key(root),
            self.forest()[root].id() == root,
            shaped(self.forest()[root], None, None, height(self.forest()[root]), true),
            linked(self.forest()[root]),
            flat(leaves(self.forest()[root])) == entries(self.forest()[root]),
            map_of(entries(self.forest()[root])) == self@[root],
            height(self.forest()[root]) <= MAX_HEIGHT,
            forall|x: u32| #[trigger] owns(self.forest()[root], x) ==> self.used().contains(x),
    {
        self.tree_stands(root);
        let t = self.forest()[root];
        let s = top(height(t));
        ok_is_shaped(t, s, Size::Root, any_stock());
        let m = choose|m: Map<u32, PageView>| #[trigger] stored(t, m) && m.dom() == self.used();
        leaves_chained(t, s, Size::Root, any_stock(), m);
        assert(linked(t)) by {
            assert forall|i: int| 0 <= i < leaves(t).len() implies (#[trigger] leaves(t)[i]) is Leaf
                && leaves(t)[i]->next == if i + 1 < leaves(t).len() {
                leaves(t)[i + 1].id()
            } else {
                0
            } by {}
        }
        assert forall|x: u32| #[trigger] owns(t, x) implies self.used().contains(x) by {
            owned_stored(t, m, x);
        }
    }
}

} // verus!
