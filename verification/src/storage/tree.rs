//! The mathematical model of a B+ tree: its nodes, what it means for them to be in order, and what
//! joining and cutting nodes does to them.
use vstd::prelude::*;

use crate::bytes::{ascending, group_order, le, lt, places};
use crate::storage::page::{fits, whole, PageView};

verus! {

/// The maximum number of keys in a leaf page.
pub const MAX_KEYS_LEAF: usize = 100;

/// The maximum number of keys in an internal page.
pub const MAX_KEYS_INTERNAL: usize = 200;

/// The minimum number of keys in a leaf page other than a root.
pub const MIN_KEYS_LEAF: usize = 50;

/// The minimum number of keys in an internal page other than a root.
pub const MIN_KEYS_INTERNAL: usize = 100;

/// A B+ tree, each node with the number of its page.
pub ghost enum Tree {
    Leaf { id: u32, keys: Seq<Seq<u8>>, values: Seq<Seq<u8>>, next: u32 },
    Node { id: u32, keys: Seq<Seq<u8>>, kids: Seq<Tree> },
}

impl Tree {
    /// The page number of the root.
    pub open spec fn id(self) -> u32 {
        match self {
            Tree::Leaf { id, .. } => id,
            Tree::Node { id, .. } => id,
        }
    }

    /// The keys of the root.
    pub open spec fn top_keys(self) -> Seq<Seq<u8>> {
        match self {
            Tree::Leaf { keys, .. } => keys,
            Tree::Node { keys, .. } => keys,
        }
    }

    /// The page of the root.
    pub open spec fn page(self) -> PageView {
        match self {
            Tree::Leaf { keys, values, next, .. } => PageView::Leaf { keys, values, next },
            Tree::Node { keys, kids, .. } => PageView::Internal { keys, children: numbers(kids) },
        }
    }
}

/// The page numbers of the roots.
pub open spec fn numbers(kids: Seq<Tree>) -> Seq<u32> {
    Seq::new(kids.len(), |j: int| kids[j].id())
}

/// The nodes of the tree stand in these pages.
pub open spec fn stored(t: Tree, pages: Map<u32, PageView>) -> bool
    decreases t,
{
    &&& pages.contains_key(t.id())
    &&& pages[t.id()] == t.page()
    &&& match t {
        Tree::Leaf { .. } => true,
        Tree::Node { kids, .. } => forall|j: int| 0 <= j < kids.len() ==> stored(#[trigger] kids[j], pages),
    }
}

/// The tree has a node in this page.
pub open spec fn owns(t: Tree, x: u32) -> bool
    decreases t,
{
    match t {
        Tree::Leaf { id, .. } => x == id,
        Tree::Node { id, kids, .. } => x == id || exists|j: int| 0 <= j < kids.len() && owns(#[trigger] kids[j], x),
    }
}

/// No two of the trees share a page.
pub open spec fn apart(kids: Seq<Tree>) -> bool {
    forall|j: int, l: int, x: u32|
        0 <= j < l < kids.len() ==> !(#[trigger] owns(kids[j], x) && #[trigger] owns(kids[l], x))
}

/// The page number of the leftmost leaf.
pub open spec fn first(t: Tree) -> u32
    decreases t,
{
    match t {
        Tree::Leaf { id, .. } => id,
        Tree::Node { kids, .. } => if kids.len() > 0 {
            first(kids[0])
        } else {
            0
        },
    }
}

/// The number of levels above the leaves.
pub open spec fn height(t: Tree) -> nat
    decreases t,
{
    match t {
        Tree::Leaf { .. } => 0,
        Tree::Node { kids, .. } => if kids.len() > 0 {
            1 + height(kids[0])
        } else {
            1
        },
    }
}

/// The entries of the first `n` children, in order; of a leaf its own entries.
pub open spec fn run(t: Tree, n: nat) -> Seq<(Seq<u8>, Seq<u8>)>
    decreases t, n,
{
    match t {
        Tree::Leaf { keys, values, .. } => Seq::new(keys.len(), |i: int| (keys[i], values[i])),
        Tree::Node { kids, .. } => if n == 0 || n > kids.len() {
            Seq::empty()
        } else {
            run(t, (n - 1) as nat) + run(kids[n - 1], width(kids[n - 1]))
        },
    }
}

/// The number of children.
pub open spec fn width(t: Tree) -> nat {
    match t {
        Tree::Leaf { .. } => 0,
        Tree::Node { kids, .. } => kids.len(),
    }
}

/// The entries of a tree, in order.
#[verifier::opaque]
pub open spec fn entries(t: Tree) -> Seq<(Seq<u8>, Seq<u8>)> {
    run(t, width(t))
}

/// The entries of trees one after the other.
pub open spec fn flat(kids: Seq<Tree>) -> Seq<(Seq<u8>, Seq<u8>)>
    decreases kids.len(),
{
    if kids.len() == 0 {
        Seq::empty()
    } else {
        flat(kids.drop_last()) + entries(kids.last())
    }
}

/// Where a node stands: its level, the bounds of its keys, and the leaf that follows its last one.
pub ghost struct Spot {
    pub level: nat,
    pub lo: Option<Seq<u8>>,
    pub hi: Option<Seq<u8>>,
    pub tail: u32,
}

/// The key lies between the bounds: from the lower one on, before the upper one.
pub open spec fn within(s: Spot, k: Seq<u8>) -> bool {
    &&& s.lo matches Some(lo) ==> le(lo, k)
    &&& s.hi matches Some(hi) ==> lt(k, hi)
}

/// Where child `j` of a node stands.
pub open spec fn kid_spot(s: Spot, keys: Seq<Seq<u8>>, kids: Seq<Tree>, j: int) -> Spot {
    Spot {
        level: (s.level - 1) as nat,
        lo: if j == 0 {
            s.lo
        } else {
            Some(keys[j - 1])
        },
        hi: if j == keys.len() {
            s.hi
        } else {
            Some(keys[j])
        },
        tail: if j + 1 == kids.len() {
            s.tail
        } else {
            first(kids[j + 1])
        },
    }
}

/// Where the root of a tree of this height stands.
pub open spec fn top(level: nat) -> Spot {
    Spot { level, lo: None, hi: None, tail: 0 }
}

/// How many keys a node may hold.
pub ghost enum Size {
    /// Any number.
    Loose,
    /// No more than a page takes.
    Root,
    /// At least half of what a page takes.
    Half,
}

pub open spec fn leaf_sized(n: nat, size: Size) -> bool {
    &&& size !is Loose ==> n <= MAX_KEYS_LEAF
    &&& size is Half ==> n >= MIN_KEYS_LEAF
}

pub open spec fn node_sized(n: nat, size: Size) -> bool {
    &&& size !is Loose ==> n <= MAX_KEYS_INTERNAL
    &&& size is Half ==> n >= MIN_KEYS_INTERNAL
}

/// The number of keys of the root is as it should be.
pub open spec fn sized(t: Tree, size: Size) -> bool {
    match t {
        Tree::Leaf { keys, .. } => leaf_sized(keys.len(), size),
        Tree::Node { keys, .. } => node_sized(keys.len(), size),
    }
}

/// The separators and the entries that a tree may hold.
pub ghost struct Stock {
    pub keys: Set<Seq<u8>>,
    pub pairs: Set<(Seq<u8>, Seq<u8>)>,
    /// The tree that leads to the others is a single page, the first one.
    pub few: bool,
}

/// The tree is in order: keys ascend and stay within bounds, every leaf is on the same level and
/// points to the next one, no page occurs twice, every node below the root is at least half full,
/// and what the nodes hold comes from the stock.
#[verifier::opaque]
pub open spec fn ok(t: Tree, s: Spot, size: Size, stock: Stock) -> bool
    decreases t,
{
    match t {
        Tree::Leaf { keys, values, next, .. } => {
            &&& s.level == 0
            &&& leaf_sized(keys.len(), size)
            &&& keys.len() == values.len()
            &&& ascending(keys)
            &&& forall|i: int|
                0 <= i < keys.len() ==> within(s, #[trigger] keys[i]) && stock.pairs.contains((keys[i], values[i]))
                    && stock.keys.contains(keys[i])
            &&& next == s.tail
        },
        Tree::Node { id, keys, kids } => {
            &&& s.level > 0
            &&& node_sized(keys.len(), size)
            &&& kids.len() == keys.len() + 1
            &&& ascending(keys)
            &&& forall|i: int| 0 <= i < keys.len() ==> within(s, #[trigger] keys[i]) && stock.keys.contains(keys[i])
            &&& forall|j: int|
                0 <= j < kids.len() ==> ok(#[trigger] kids[j], kid_spot(s, keys, kids, j), Size::Half, stock) && !owns(
                    kids[j],
                    id,
                )
            &&& apart(kids)
        },
    }
}

/// Separators and children that are in order, but for the number of keys of child `weak`.
pub open spec fn kids_ok(keys: Seq<Seq<u8>>, kids: Seq<Tree>, s: Spot, stock: Stock, weak: int) -> bool {
    &&& s.level > 0
    &&& kids.len() == keys.len() + 1
    &&& ascending(keys)
    &&& forall|i: int| 0 <= i < keys.len() ==> within(s, #[trigger] keys[i]) && stock.keys.contains(keys[i])
    &&& forall|j: int|
        0 <= j < kids.len() ==> ok(
            #[trigger] kids[j],
            kid_spot(s, keys, kids, j),
            if j == weak {
                Size::Loose
            } else {
                Size::Half
            },
            stock,
        )
    &&& apart(kids)
}

/// The children are clear of a page.
pub open spec fn clear(kids: Seq<Tree>, x: u32) -> bool {
    forall|j: int| 0 <= j < kids.len() ==> !owns(#[trigger] kids[j], x)
}

/// What holds of a page holds of it among other pages too.
pub proof fn stored_frame(t: Tree, m: Map<u32, PageView>, m2: Map<u32, PageView>)
    requires
        stored(t, m),
        forall|x: u32| #[trigger] owns(t, x) ==> m2.contains_key(x) && m2[x] == m[x],
    ensures
        stored(t, m2),
    decreases t,
{
    assert(owns(t, t.id()));
    match t {
        Tree::Leaf { .. } => {},
        Tree::Node { id, keys, kids } => {
            assert forall|j: int| 0 <= j < kids.len() implies stored(#[trigger] kids[j], m2) by {
                assert forall|x: u32| #[trigger] owns(kids[j], x) implies m2.contains_key(x) && m2[x] == m[x] by {
                    assert(owns(t, x));
                }
                stored_frame(kids[j], m, m2);
            }
        },
    }
}

/// The pages of a stored tree are there.
pub proof fn owned_stored(t: Tree, m: Map<u32, PageView>, x: u32)
    requires
        stored(t, m),
        owns(t, x),
    ensures
        m.contains_key(x),
    decreases t,
{
    match t {
        Tree::Leaf { .. } => {},
        Tree::Node { id, keys, kids } => {
            if x != id {
                let j = choose|j: int| 0 <= j < kids.len() && owns(#[trigger] kids[j], x);
                owned_stored(kids[j], m, x);
            }
        },
    }
}

/// The level of a tree in order is its height.
pub proof fn level_is_height(t: Tree, s: Spot, size: Size, stock: Stock)
    requires
        ok(t, s, size, stock),
    ensures
        s.level == height(t),
    decreases t,
{
    reveal(ok);
    match t {
        Tree::Leaf { .. } => {},
        Tree::Node { id, keys, kids } => {
            let k = kids[0];
            level_is_height(k, kid_spot(s, keys, kids, 0), Size::Half, stock);
        },
    }
}

/// The size may be stated more loosely.
pub proof fn resize(t: Tree, s: Spot, size: Size, size2: Size, stock: Stock)
    requires
        ok(t, s, size, stock),
        sized(t, size2),
    ensures
        ok(t, s, size2, stock),
{
    reveal(ok);
}

/// The stock may be larger.
#[verifier::spinoff_prover]
#[verifier::rlimit(40)]
pub proof fn restock(t: Tree, s: Spot, size: Size, a: Stock, b: Stock)
    requires
        ok(t, s, size, a),
        a.keys.subset_of(b.keys),
        a.pairs.subset_of(b.pairs),
    ensures
        ok(t, s, size, b),
    decreases t,
{
    reveal(ok);
    match t {
        Tree::Leaf { .. } => {},
        Tree::Node { id, keys, kids } => {
            assert forall|j: int| 0 <= j < kids.len() implies ok(
                #[trigger] kids[j],
                kid_spot(s, keys, kids, j),
                Size::Half,
                b,
            ) by {
                restock(kids[j], kid_spot(s, keys, kids, j), Size::Half, a, b);
            }
        },
    }
}

/// A node is in order if its separators and children are.
pub proof fn node_ok(id: u32, keys: Seq<Seq<u8>>, kids: Seq<Tree>, s: Spot, size: Size, stock: Stock)
    requires
        kids_ok(keys, kids, s, stock, -1),
        clear(kids, id),
        node_sized(keys.len(), size),
    ensures
        ok(Tree::Node { id, keys, kids }, s, size, stock),
{
    reveal(ok);
}

/// The separators and children of a node in order are in order.
pub proof fn node_kids(id: u32, keys: Seq<Seq<u8>>, kids: Seq<Tree>, s: Spot, size: Size, stock: Stock)
    requires
        ok(Tree::Node { id, keys, kids }, s, size, stock),
    ensures
        kids_ok(keys, kids, s, stock, -1),
        clear(kids, id),
{
    reveal(ok);
}

/// A child that is known to be half full is no longer an exception.
pub proof fn firm(keys: Seq<Seq<u8>>, kids: Seq<Tree>, s: Spot, stock: Stock, weak: int)
    requires
        kids_ok(keys, kids, s, stock, weak),
        0 <= weak < kids.len() ==> sized(kids[weak], Size::Half),
    ensures
        kids_ok(keys, kids, s, stock, -1),
{
    assert forall|j: int| 0 <= j < kids.len() implies ok(
        #[trigger] kids[j],
        kid_spot(s, keys, kids, j),
        Size::Half,
        stock,
    ) by {
        if j == weak {
            resize(kids[j], kid_spot(s, keys, kids, j), Size::Loose, Size::Half, stock);
        }
    }
}

pub proof fn run_is_flat(t: Tree, n: nat)
    requires
        t is Node,
        n <= t->kids.len(),
    ensures
        run(t, n) == flat(t->kids.take(n as int)),
    decreases n,
{
    reveal(entries);
    let kids = t->kids;
    if n == 0 {
        assert(kids.take(0) =~= Seq::empty());
    } else {
        run_is_flat(t, (n - 1) as nat);
        assert(kids.take(n as int).drop_last() =~= kids.take(n - 1));
        assert(kids.take(n as int).last() == kids[n - 1]);
    }
}

/// The entries of a leaf are its keys with their values.
pub proof fn leaf_entries(id: u32, keys: Seq<Seq<u8>>, values: Seq<Seq<u8>>, next: u32)
    ensures
        entries(Tree::Leaf { id, keys, values, next }) == Seq::new(keys.len(), |i: int| (keys[i], values[i])),
{
    reveal(entries);
}

/// The entries of a node are those of its children.
pub proof fn node_entries(id: u32, keys: Seq<Seq<u8>>, kids: Seq<Tree>)
    ensures
        entries(Tree::Node { id, keys, kids }) == flat(kids),
{
    reveal(entries);
    let t = Tree::Node { id, keys, kids };
    run_is_flat(t, kids.len());
    assert(kids.take(kids.len() as int) =~= kids);
}

pub proof fn flat_append(a: Seq<Tree>, b: Seq<Tree>)
    ensures
        flat(a + b) == flat(a) + flat(b),
    decreases b.len(),
{
    if b.len() == 0 {
        assert(a + b =~= a);
        assert(flat(a) + flat(b) =~= flat(a));
    } else {
        assert((a + b).drop_last() =~= a + b.drop_last());
        flat_append(a, b.drop_last());
        assert(flat(a) + (flat(b.drop_last()) + entries(b.last())) =~= flat(a) + flat(b.drop_last()) + entries(
            b.last(),
        ));
    }
}

pub proof fn flat_one(t: Tree)
    ensures
        flat(seq![t]) == entries(t),
{
    assert(seq![t].drop_last() =~= Seq::empty());
    assert(flat(Seq::<Tree>::empty()) =~= Seq::empty());
    assert(flat(seq![t].drop_last()) + entries(seq![t].last()) =~= entries(t));
}

/// The entries of trees, one of them set apart.
pub proof fn flat_around(kids: Seq<Tree>, i: int)
    requires
        0 <= i < kids.len(),
    ensures
        flat(kids) == flat(kids.take(i)) + entries(kids[i]) + flat(kids.skip(i + 1)),
{
    let a = kids.take(i);
    let b = kids.skip(i + 1);
    assert(kids =~= a + seq![kids[i]] + b);
    flat_append(a + seq![kids[i]], b);
    flat_append(a, seq![kids[i]]);
    flat_one(kids[i]);
}

proof fn contains_concat<A>(a: Seq<A>, b: Seq<A>)
    ensures
        forall|x: A| #[trigger] (a + b).contains(x) <==> a.contains(x) || b.contains(x),
{
    let c = a + b;
    assert forall|x: A| #[trigger] c.contains(x) <==> a.contains(x) || b.contains(x) by {
        if a.contains(x) {
            let i = choose|i: int| 0 <= i < a.len() && a[i] == x;
            assert(c[i] == x);
        }
        if b.contains(x) {
            let i = choose|i: int| 0 <= i < b.len() && b[i] == x;
            assert(c[a.len() + i] == x);
        }
        if c.contains(x) {
            let i = choose|i: int| 0 <= i < c.len() && c[i] == x;
            if i < a.len() {
                assert(a[i] == x);
            } else {
                assert(b[i - a.len()] == x);
            }
        }
    }
}

/// An entry of trees is an entry of one of them.
pub proof fn flat_contains(kids: Seq<Tree>, e: (Seq<u8>, Seq<u8>))
    ensures
        flat(kids).contains(e) <==> exists|j: int| 0 <= j < kids.len() && entries(#[trigger] kids[j]).contains(e),
    decreases kids.len(),
{
    if kids.len() > 0 {
        let front = kids.drop_last();
        flat_contains(front, e);
        contains_concat(flat(front), entries(kids.last()));
        if entries(kids.last()).contains(e) {
            assert(entries(kids[kids.len() - 1]).contains(e));
        }
        if flat(front).contains(e) {
            let j = choose|j: int| 0 <= j < front.len() && entries(#[trigger] front[j]).contains(e);
            assert(entries(kids[j]).contains(e));
        }
        if exists|j: int| 0 <= j < kids.len() && entries(#[trigger] kids[j]).contains(e) {
            let j = choose|j: int| 0 <= j < kids.len() && entries(#[trigger] kids[j]).contains(e);
            if j < front.len() {
                assert(entries(front[j]).contains(e));
            }
        }
    }
}

/// What lies within the bounds of a child lies within those of its parent.
pub proof fn kid_within(keys: Seq<Seq<u8>>, kids: Seq<Tree>, s: Spot, stock: Stock, weak: int, j: int, k: Seq<u8>)
    requires
        kids_ok(keys, kids, s, stock, weak),
        0 <= j < kids.len(),
        within(kid_spot(s, keys, kids, j), k),
    ensures
        within(s, k),
{
    broadcast use group_order;

    if j > 0 {
        assert(within(s, keys[j - 1]));
    }
    if j < keys.len() {
        assert(within(s, keys[j]));
    }
}

/// The entries of a tree lie within its bounds.
#[verifier::spinoff_prover]
#[verifier::rlimit(40)]
pub proof fn entries_within(t: Tree, s: Spot, size: Size, stock: Stock, e: (Seq<u8>, Seq<u8>))
    requires
        ok(t, s, size, stock),
        entries(t).contains(e),
    ensures
        within(s, e.0),
        stock.pairs.contains(e),
        stock.keys.contains(e.0),
    decreases t,
{
    reveal(ok);
    match t {
        Tree::Leaf { id, keys, values, next } => {
            leaf_entries(id, keys, values, next);
            let i = choose|i: int| 0 <= i < entries(t).len() && entries(t)[i] == e;
            assert(keys[i] == e.0);
        },
        Tree::Node { id, keys, kids } => {
            node_entries(id, keys, kids);
            flat_contains(kids, e);
            node_kids(id, keys, kids, s, size, stock);
            let j = choose|j: int| 0 <= j < kids.len() && entries(#[trigger] kids[j]).contains(e);
            entries_within(kids[j], kid_spot(s, keys, kids, j), Size::Half, stock, e);
            kid_within(keys, kids, s, stock, -1, j, e.0);
        },
    }
}

/// Keys within the bounds of different children are ordered as the children are.
pub proof fn kids_ordered(
    keys: Seq<Seq<u8>>,
    kids: Seq<Tree>,
    s: Spot,
    stock: Stock,
    weak: int,
    i: int,
    j: int,
    a: Seq<u8>,
    b: Seq<u8>,
)
    requires
        kids_ok(keys, kids, s, stock, weak),
        0 <= i < j < kids.len(),
        within(kid_spot(s, keys, kids, i), a),
        within(kid_spot(s, keys, kids, j), b),
    ensures
        lt(a, b),
{
    broadcast use group_order;

    assert(lt(a, keys[i]));
    assert(le(keys[i], keys[j - 1]));
    assert(le(keys[j - 1], b));
}

/// The entries before a child come before its keys, and those after it come after them.
pub proof fn around_kid(keys: Seq<Seq<u8>>, kids: Seq<Tree>, s: Spot, stock: Stock, weak: int, i: int, k: Seq<u8>)
    requires
        kids_ok(keys, kids, s, stock, weak),
        0 <= i < kids.len(),
        within(kid_spot(s, keys, kids, i), k),
    ensures
        forall|e: (Seq<u8>, Seq<u8>)| #[trigger] flat(kids.take(i)).contains(e) ==> lt(e.0, k),
        forall|e: (Seq<u8>, Seq<u8>)| #[trigger] flat(kids.skip(i + 1)).contains(e) ==> lt(k, e.0),
{
    let a = kids.take(i);
    let b = kids.skip(i + 1);
    assert forall|e: (Seq<u8>, Seq<u8>)| #[trigger] flat(a).contains(e) implies lt(e.0, k) by {
        flat_contains(a, e);
        let j = choose|j: int| 0 <= j < a.len() && entries(#[trigger] a[j]).contains(e);
        let kid = kids[j];
        entries_within(
            kid,
            kid_spot(s, keys, kids, j),
            if j == weak {
                Size::Loose
            } else {
                Size::Half
            },
            stock,
            e,
        );
        kids_ordered(keys, kids, s, stock, weak, j, i, e.0, k);
    }
    assert forall|e: (Seq<u8>, Seq<u8>)| #[trigger] flat(b).contains(e) implies lt(k, e.0) by {
        flat_contains(b, e);
        let j = choose|j: int| 0 <= j < b.len() && entries(#[trigger] b[j]).contains(e);
        let kid = kids[i + 1 + j];
        entries_within(
            kid,
            kid_spot(s, keys, kids, i + 1 + j),
            if i + 1 + j == weak {
                Size::Loose
            } else {
                Size::Half
            },
            stock,
            e,
        );
        kids_ordered(keys, kids, s, stock, weak, i, i + 1 + j, k, e.0);
    }
}

/// A key is found below a node exactly if it is found below the child whose bounds it lies in.
pub proof fn descend(keys: Seq<Seq<u8>>, kids: Seq<Tree>, s: Spot, stock: Stock, i: int, k: Seq<u8>)
    requires
        kids_ok(keys, kids, s, stock, -1),
        0 <= i < kids.len(),
        within(kid_spot(s, keys, kids, i), k),
    ensures
        forall|v: Seq<u8>| #[trigger] flat(kids).contains((k, v)) <==> entries(kids[i]).contains((k, v)),
{
    broadcast use group_order;

    flat_around(kids, i);
    around_kid(keys, kids, s, stock, -1, i, k);
    let a = flat(kids.take(i));
    let m = entries(kids[i]);
    let b = flat(kids.skip(i + 1));
    contains_concat(a + m, b);
    contains_concat(a, m);
    assert forall|v: Seq<u8>| #[trigger] flat(kids).contains((k, v)) <==> m.contains((k, v)) by {
        assert((a + m + b).contains((k, v)) <==> (a + m).contains((k, v)) || b.contains((k, v)));
        assert((a + m).contains((k, v)) <==> a.contains((k, v)) || m.contains((k, v)));
        if a.contains((k, v)) {
            assert(lt((k, v).0, k));
        }
        if b.contains((k, v)) {
            assert(lt(k, (k, v).0));
        }
    }
}

/// Entries in ascending order of their keys.
pub open spec fn sorted(e: Seq<(Seq<u8>, Seq<u8>)>) -> bool {
    forall|i: int, j: int| 0 <= i < j < e.len() ==> lt(#[trigger] e[i].0, #[trigger] e[j].0)
}

proof fn sorted_concat(a: Seq<(Seq<u8>, Seq<u8>)>, b: Seq<(Seq<u8>, Seq<u8>)>)
    requires
        sorted(a),
        sorted(b),
        forall|x: (Seq<u8>, Seq<u8>), y: (Seq<u8>, Seq<u8>)| #[trigger] a.contains(x) && #[trigger] b.contains(y) ==> lt(x.0, y.0),
    ensures
        sorted(a + b),
{
    let c = a + b;
    assert forall|i: int, j: int| 0 <= i < j < c.len() implies lt(#[trigger] c[i].0, #[trigger] c[j].0) by {
        if i < a.len() && j >= a.len() {
            assert(a.contains(a[i]));
            assert(b.contains(b[j - a.len()]));
        }
    }
}

proof fn flat_sorted(keys: Seq<Seq<u8>>, kids: Seq<Tree>, s: Spot, stock: Stock, n: int)
    requires
        kids_ok(keys, kids, s, stock, -1),
        0 <= n <= kids.len(),
        forall|j: int| 0 <= j < kids.len() ==> sorted(#[trigger] entries(kids[j])),
    ensures
        sorted(flat(kids.take(n))),
    decreases n,
{
    if n > 0 {
        flat_sorted(keys, kids, s, stock, n - 1);
        assert(kids.take(n).drop_last() =~= kids.take(n - 1));
        let a = flat(kids.take(n - 1));
        let b = entries(kids[n - 1]);
        assert(flat(kids.take(n)) == a + b);
        assert forall|x: (Seq<u8>, Seq<u8>), y: (Seq<u8>, Seq<u8>)| #[trigger] a.contains(x) && #[trigger] b.contains(y) implies lt(
            x.0,
            y.0,
        ) by {
            let kid = kids[n - 1];
            entries_within(kid, kid_spot(s, keys, kids, n - 1), Size::Half, stock, y);
            around_kid(keys, kids, s, stock, -1, n - 1, y.0);
        }
        sorted_concat(a, b);
    }
}

/// The entries of a tree in order ascend.
pub proof fn entries_sorted(t: Tree, s: Spot, size: Size, stock: Stock)
    requires
        ok(t, s, size, stock),
    ensures
        sorted(entries(t)),
    decreases t,
{
    node_counts(t, s, size, stock);
    match t {
        Tree::Leaf { id, keys, values, next } => {
            leaf_entries(id, keys, values, next);
            assert forall|i: int, j: int| 0 <= i < j < entries(t).len() implies lt(
                #[trigger] entries(t)[i].0,
                #[trigger] entries(t)[j].0,
            ) by {
                assert(lt(keys[i], keys[j]));
            }
        },
        Tree::Node { id, keys, kids } => {
            node_entries(id, keys, kids);
            node_kids(id, keys, kids, s, size, stock);
            assert forall|j: int| 0 <= j < kids.len() implies sorted(#[trigger] entries(kids[j])) by {
                let kid = kids[j];
                entries_sorted(kid, kid_spot(s, keys, kids, j), Size::Half, stock);
            }
            flat_sorted(keys, kids, s, stock, kids.len() as int);
            assert(kids.take(kids.len() as int) =~= kids);
        },
    }
}

/// The entries after setting the value of a key.
pub open spec fn inserted(
    before: Seq<(Seq<u8>, Seq<u8>)>,
    after: Seq<(Seq<u8>, Seq<u8>)>,
    k: Seq<u8>,
    v: Seq<u8>,
) -> bool {
    forall|x: Seq<u8>, y: Seq<u8>| #[trigger]
        after.contains((x, y)) <==> if x == k {
            y == v
        } else {
            before.contains((x, y))
        }
}

/// The entries after removing a key.
pub open spec fn removed(before: Seq<(Seq<u8>, Seq<u8>)>, after: Seq<(Seq<u8>, Seq<u8>)>, k: Seq<u8>) -> bool {
    forall|x: Seq<u8>, y: Seq<u8>| #[trigger] after.contains((x, y)) <==> x != k && before.contains((x, y))
}

/// Setting a key among other entries that do not have it.
pub proof fn inserted_around(
    a: Seq<(Seq<u8>, Seq<u8>)>,
    m: Seq<(Seq<u8>, Seq<u8>)>,
    m2: Seq<(Seq<u8>, Seq<u8>)>,
    b: Seq<(Seq<u8>, Seq<u8>)>,
    k: Seq<u8>,
    v: Seq<u8>,
)
    requires
        inserted(m, m2, k, v),
        forall|e: (Seq<u8>, Seq<u8>)| #[trigger] a.contains(e) ==> lt(e.0, k),
        forall|e: (Seq<u8>, Seq<u8>)| #[trigger] b.contains(e) ==> lt(k, e.0),
    ensures
        inserted(a + m + b, a + m2 + b, k, v),
{
    broadcast use group_order;

    contains_concat(a + m, b);
    contains_concat(a, m);
    contains_concat(a + m2, b);
    contains_concat(a, m2);
    assert forall|x: Seq<u8>, y: Seq<u8>| #[trigger] (a + m2 + b).contains((x, y)) <==> if x == k {
        y == v
    } else {
        (a + m + b).contains((x, y))
    } by {
        assert((a + m2).contains((x, y)) <==> a.contains((x, y)) || m2.contains((x, y)));
        assert((a + m).contains((x, y)) <==> a.contains((x, y)) || m.contains((x, y)));
        assert((a + m + b).contains((x, y)) <==> (a + m).contains((x, y)) || b.contains((x, y)));
        if a.contains((x, y)) {
            assert(lt((x, y).0, k));
        }
        if b.contains((x, y)) {
            assert(lt(k, (x, y).0));
        }
    }
}

/// Removing a key from among other entries that do not have it.
pub proof fn removed_around(
    a: Seq<(Seq<u8>, Seq<u8>)>,
    m: Seq<(Seq<u8>, Seq<u8>)>,
    m2: Seq<(Seq<u8>, Seq<u8>)>,
    b: Seq<(Seq<u8>, Seq<u8>)>,
    k: Seq<u8>,
)
    requires
        removed(m, m2, k),
        forall|e: (Seq<u8>, Seq<u8>)| #[trigger] a.contains(e) ==> lt(e.0, k),
        forall|e: (Seq<u8>, Seq<u8>)| #[trigger] b.contains(e) ==> lt(k, e.0),
    ensures
        removed(a + m + b, a + m2 + b, k),
{
    broadcast use group_order;

    contains_concat(a + m, b);
    contains_concat(a, m);
    contains_concat(a + m2, b);
    contains_concat(a, m2);
    assert forall|x: Seq<u8>, y: Seq<u8>| #[trigger] (a + m2 + b).contains((x, y)) <==> x != k && (a + m + b).contains(
        (x, y),
    ) by {
        assert((a + m2).contains((x, y)) <==> a.contains((x, y)) || m2.contains((x, y)));
        assert((a + m).contains((x, y)) <==> a.contains((x, y)) || m.contains((x, y)));
        assert((a + m + b).contains((x, y)) <==> (a + m).contains((x, y)) || b.contains((x, y)));
        if a.contains((x, y)) {
            assert(lt((x, y).0, k));
        }
        if b.contains((x, y)) {
            assert(lt(k, (x, y).0));
        }
    }
}

/// The left part of a spot that is divided at a key, when this leaf comes next.
pub open spec fn left_spot(s: Spot, sep: Seq<u8>, tail: u32) -> Spot {
    Spot { level: s.level, lo: s.lo, hi: Some(sep), tail }
}

/// The right part of a spot that is divided at a key.
pub open spec fn right_spot(s: Spot, sep: Seq<u8>) -> Spot {
    Spot { level: s.level, lo: Some(sep), hi: s.hi, tail: s.tail }
}

/// Two neighbours made into one node, in the page of the left one.
pub open spec fn join(a: Tree, sep: Seq<u8>, b: Tree) -> Tree {
    match (a, b) {
        (Tree::Leaf { id, keys, values, .. }, Tree::Leaf { keys: keys2, values: values2, next, .. }) => Tree::Leaf {
            id,
            keys: keys + keys2,
            values: values + values2,
            next,
        },
        (Tree::Node { id, keys, kids }, Tree::Node { keys: keys2, kids: kids2, .. }) => Tree::Node {
            id,
            keys: keys.push(sep) + keys2,
            kids: kids + kids2,
        },
        _ => a,
    }
}

/// What stays of a node that is cut at key `m`, when the rest goes to page `rid`.
pub open spec fn cut_left(c: Tree, m: int, rid: u32) -> Tree {
    match c {
        Tree::Leaf { id, keys, values, .. } => Tree::Leaf {
            id,
            keys: keys.take(m),
            values: values.take(m),
            next: rid,
        },
        Tree::Node { id, keys, kids } => Tree::Node { id, keys: keys.take(m), kids: kids.take(m + 1) },
    }
}

/// The rest of a node that is cut at key `m`.
pub open spec fn cut_right(c: Tree, m: int, rid: u32) -> Tree {
    match c {
        Tree::Leaf { keys, values, next, .. } => Tree::Leaf {
            id: rid,
            keys: keys.skip(m),
            values: values.skip(m),
            next,
        },
        Tree::Node { keys, kids, .. } => Tree::Node { id: rid, keys: keys.skip(m + 1), kids: kids.skip(m + 1) },
    }
}

/// No page belongs to both trees.
pub open spec fn disjoint(a: Tree, b: Tree) -> bool {
    forall|x: u32| !(#[trigger] owns(a, x) && #[trigger] owns(b, x))
}

#[verifier::spinoff_prover]
#[verifier::rlimit(30)]
proof fn kids_cut_left(keys: Seq<Seq<u8>>, kids: Seq<Tree>, s: Spot, stock: Stock, m: int)
    requires
        kids_ok(keys, kids, s, stock, -1),
        0 <= m < keys.len(),
    ensures
        kids_ok(keys.take(m), kids.take(m + 1), left_spot(s, keys[m], first(kids[m + 1])), stock, -1),
{
    broadcast use group_order;

    let s2 = left_spot(s, keys[m], first(kids[m + 1]));
    let keys2 = keys.take(m);
    let kids2 = kids.take(m + 1);
    assert forall|i: int| 0 <= i < keys2.len() implies within(s2, #[trigger] keys2[i]) && stock.keys.contains(
        keys2[i],
    ) by {
        assert(within(s, keys[i]));
        assert(lt(keys[i], keys[m]));
    }
    assert forall|j: int| 0 <= j < kids2.len() implies ok(
        #[trigger] kids2[j],
        kid_spot(s2, keys2, kids2, j),
        Size::Half,
        stock,
    ) by {
        assert(kids2[j] == kids[j]);
        assert(kid_spot(s2, keys2, kids2, j) == kid_spot(s, keys, kids, j));
    }
    assert(apart(kids2)) by {
        assert forall|j: int, l: int, x: u32| 0 <= j < l < kids2.len() implies !(#[trigger] owns(kids2[j], x)
            && #[trigger] owns(kids2[l], x)) by {
            assert(kids2[j] == kids[j] && kids2[l] == kids[l]);
        }
    }
}

#[verifier::spinoff_prover]
#[verifier::rlimit(30)]
proof fn kids_cut_right(keys: Seq<Seq<u8>>, kids: Seq<Tree>, s: Spot, stock: Stock, m: int)
    requires
        kids_ok(keys, kids, s, stock, -1),
        0 <= m < keys.len(),
    ensures
        kids_ok(keys.skip(m + 1), kids.skip(m + 1), right_spot(s, keys[m]), stock, -1),
{
    broadcast use group_order;

    let s2 = right_spot(s, keys[m]);
    let keys2 = keys.skip(m + 1);
    let kids2 = kids.skip(m + 1);
    assert forall|i: int| 0 <= i < keys2.len() implies within(s2, #[trigger] keys2[i]) && stock.keys.contains(
        keys2[i],
    ) by {
        assert(keys2[i] == keys[m + 1 + i]);
        assert(within(s, keys[m + 1 + i]));
        assert(lt(keys[m], keys[m + 1 + i]));
    }
    assert forall|j: int| 0 <= j < kids2.len() implies ok(
        #[trigger] kids2[j],
        kid_spot(s2, keys2, kids2, j),
        Size::Half,
        stock,
    ) by {
        assert(kids2[j] == kids[m + 1 + j]);
        assert(kid_spot(s2, keys2, kids2, j) == kid_spot(s, keys, kids, m + 1 + j));
    }
    assert(apart(kids2)) by {
        assert forall|j: int, l: int, x: u32| 0 <= j < l < kids2.len() implies !(#[trigger] owns(kids2[j], x)
            && #[trigger] owns(kids2[l], x)) by {
            assert(kids2[j] == kids[m + 1 + j] && kids2[l] == kids[m + 1 + l]);
        }
    }
}

#[verifier::spinoff_prover]
#[verifier::rlimit(30)]
proof fn kids_join(
    ka: Seq<Seq<u8>>,
    kida: Seq<Tree>,
    sep: Seq<u8>,
    kb: Seq<Seq<u8>>,
    kidb: Seq<Tree>,
    s: Spot,
    stock: Stock,
)
    requires
        kidb.len() > 0,
        kids_ok(ka, kida, left_spot(s, sep, first(kidb[0])), stock, -1),
        kids_ok(kb, kidb, right_spot(s, sep), stock, -1),
        within(s, sep),
        stock.keys.contains(sep),
        forall|j: int, l: int, x: u32|
            0 <= j < kida.len() && 0 <= l < kidb.len() ==> !(#[trigger] owns(kida[j], x) && #[trigger] owns(kidb[l], x)),
    ensures
        kids_ok(ka.push(sep) + kb, kida + kidb, s, stock, -1),
{
    broadcast use group_order;

    let keys = ka.push(sep) + kb;
    let kids = kida + kidb;
    let sa = left_spot(s, sep, first(kidb[0]));
    let sb = right_spot(s, sep);
    let n = ka.len() as int;
    assert forall|i: int| 0 <= i < keys.len() implies within(s, #[trigger] keys[i]) && stock.keys.contains(keys[i]) by {
        if i < n {
            assert(within(sa, ka[i]));
        } else if i > n {
            assert(within(sb, kb[i - n - 1]));
        }
    }
    assert(ascending(keys)) by {
        assert forall|i: int, j: int| 0 <= i < j < keys.len() implies lt(#[trigger] keys[i], #[trigger] keys[j]) by {
            if i < n {
                assert(within(sa, ka[i]));
            }
            if j > n {
                assert(within(sb, kb[j - n - 1]));
            }
            if j < n {
                assert(lt(ka[i], ka[j]));
            } else if i > n {
                assert(lt(kb[i - n - 1], kb[j - n - 1]));
            } else if i == n {
                kids_first_above(kb, kidb, s, sep, stock, j - n - 1);
            } else if j > n {
                kids_first_above(kb, kidb, s, sep, stock, j - n - 1);
            }
        }
    }
    assert forall|j: int| 0 <= j < kids.len() implies ok(
        #[trigger] kids[j],
        kid_spot(s, keys, kids, j),
        Size::Half,
        stock,
    ) by {
        if j < kida.len() {
            assert(kids[j] == kida[j]);
            assert(kid_spot(s, keys, kids, j) == kid_spot(sa, ka, kida, j));
        } else {
            let l = j - kida.len();
            assert(kids[j] == kidb[l]);
            assert(kid_spot(s, keys, kids, j) == kid_spot(sb, kb, kidb, l));
        }
    }
    assert(apart(kids)) by {
        assert forall|j: int, l: int, x: u32| 0 <= j < l < kids.len() implies !(#[trigger] owns(kids[j], x)
            && #[trigger] owns(kids[l], x)) by {
            if l < kida.len() {
                assert(kids[j] == kida[j] && kids[l] == kida[l]);
            } else if j >= kida.len() {
                assert(kids[j] == kidb[j - kida.len()] && kids[l] == kidb[l - kida.len()]);
            } else {
                assert(kids[j] == kida[j] && kids[l] == kidb[l - kida.len()]);
            }
        }
    }
}

/// A half full node has a key, which lies within its bounds.
proof fn some_key(t: Tree, s: Spot, stock: Stock) -> (k: Seq<u8>)
    requires
        ok(t, s, Size::Half, stock),
    ensures
        within(s, k),
{
    reveal(ok);
    let k = t.top_keys()[0];
    match t {
        Tree::Leaf { keys, .. } => {
            assert(within(s, keys[0]));
        },
        Tree::Node { keys, .. } => {
            assert(within(s, keys[0]));
        },
    }
    k
}

proof fn kids_first_above(kb: Seq<Seq<u8>>, kidb: Seq<Tree>, s: Spot, sep: Seq<u8>, stock: Stock, i: int)
    requires
        kids_ok(kb, kidb, right_spot(s, sep), stock, -1),
        0 <= i < kb.len(),
    ensures
        lt(sep, kb[i]),
{
    broadcast use group_order;

    let k = some_key(kidb[0], kid_spot(right_spot(s, sep), kb, kidb, 0), stock);
    if i > 0 {
        assert(lt(kb[0], kb[i]));
    }
}

proof fn kid_owned(t: Tree, j: int, x: u32)
    requires
        t is Node,
        0 <= j < t->kids.len(),
        owns(t->kids[j], x),
    ensures
        owns(t, x),
{
}

/// Joining two neighbours gives a node that stands in the place of both.
#[verifier::spinoff_prover]
#[verifier::rlimit(30)]
pub proof fn join_ok(a: Tree, sep: Seq<u8>, b: Tree, s: Spot, za: Size, zb: Size, stock: Stock)
    requires
        ok(a, left_spot(s, sep, first(b)), za, stock),
        ok(b, right_spot(s, sep), zb, stock),
        within(s, sep),
        stock.keys.contains(sep),
        disjoint(a, b),
    ensures
        ok(join(a, sep, b), s, Size::Loose, stock),
        entries(join(a, sep, b)) == entries(a) + entries(b),
        first(join(a, sep, b)) == first(a),
        join(a, sep, b).id() == a.id(),
        forall|x: u32| #[trigger] owns(join(a, sep, b), x) ==> owns(a, x) || owns(b, x),
        !owns(join(a, sep, b), b.id()),
        a is Leaf <==> b is Leaf,
{
    reveal(ok);
    broadcast use group_order;

    let c = join(a, sep, b);
    let sa = left_spot(s, sep, first(b));
    let sb = right_spot(s, sep);
    assert(owns(a, a.id()));
    assert(owns(b, b.id()));
    match (a, b) {
        (
            Tree::Leaf { id, keys: ka, values: va, next: na },
            Tree::Leaf { id: idb, keys: kb, values: vb, next: nb },
        ) => {
            leaf_entries(id, ka, va, na);
            leaf_entries(idb, kb, vb, nb);
            leaf_entries(id, ka + kb, va + vb, nb);
            assert(entries(c) =~= entries(a) + entries(b));
            let keys = ka + kb;
            let values = va + vb;
            assert forall|i: int| 0 <= i < keys.len() implies within(s, #[trigger] keys[i]) && stock.pairs.contains(
                (keys[i], values[i]),
            ) && stock.keys.contains(keys[i]) by {
                if i < ka.len() {
                    assert(within(sa, ka[i]));
                } else {
                    assert(within(sb, kb[i - ka.len()]));
                }
            }
            assert(ascending(keys)) by {
                assert forall|i: int, j: int| 0 <= i < j < keys.len() implies lt(
                    #[trigger] keys[i],
                    #[trigger] keys[j],
                ) by {
                    if i < ka.len() {
                        assert(within(sa, ka[i]));
                    }
                    if j >= ka.len() {
                        assert(within(sb, kb[j - ka.len()]));
                    }
                    if j < ka.len() {
                        assert(lt(ka[i], ka[j]));
                    } else if i >= ka.len() {
                        assert(lt(kb[i - ka.len()], kb[j - ka.len()]));
                    }
                }
            }
        },
        (Tree::Node { id, keys: ka, kids: kida }, Tree::Node { id: idb, keys: kb, kids: kidb }) => {
            node_kids(id, ka, kida, sa, za, stock);
            node_kids(idb, kb, kidb, sb, zb, stock);
            assert forall|j: int, l: int, x: u32| 0 <= j < kida.len() && 0 <= l < kidb.len() implies !(
            #[trigger] owns(kida[j], x) && #[trigger] owns(kidb[l], x)) by {
                if owns(kida[j], x) && owns(kidb[l], x) {
                    kid_owned(a, j, x);
                    kid_owned(b, l, x);
                }
            }
            kids_join(ka, kida, sep, kb, kidb, s, stock);
            let kids = kida + kidb;
            assert forall|j: int| 0 <= j < kids.len() implies !owns(#[trigger] kids[j], id) && !owns(kids[j], idb) by {
                if j < kida.len() {
                    assert(kids[j] == kida[j]);
                    if owns(kida[j], idb) {
                        kid_owned(a, j, idb);
                    }
                } else {
                    let l = j - kida.len();
                    assert(kids[j] == kidb[l]);
                    if owns(kidb[l], id) {
                        kid_owned(b, l, id);
                    }
                }
            }
            node_ok(id, ka.push(sep) + kb, kids, s, Size::Loose, stock);
            node_entries(id, ka, kida);
            node_entries(idb, kb, kidb);
            node_entries(id, ka.push(sep) + kb, kids);
            flat_append(kida, kidb);
            assert(kids[0] == kida[0]);
            assert forall|x: u32| #[trigger] owns(c, x) implies owns(a, x) || owns(b, x) by {
                if x != id {
                    let j = choose|j: int| 0 <= j < kids.len() && owns(#[trigger] kids[j], x);
                    if j < kida.len() {
                        kid_owned(a, j, x);
                    } else {
                        kid_owned(b, j - kida.len(), x);
                    }
                }
            }
        },
        _ => {},
    }
}

/// Cutting a node gives two neighbours that stand in its place.
#[verifier::spinoff_prover]
#[verifier::rlimit(30)]
pub proof fn cut_ok(c: Tree, m: int, rid: u32, s: Spot, size: Size, stock: Stock)
    requires
        ok(c, s, size, stock),
        0 <= m < c.top_keys().len(),
        !owns(c, rid),
    ensures
        ({
            let a = cut_left(c, m, rid);
            let b = cut_right(c, m, rid);
            let sep = c.top_keys()[m];
            &&& ok(a, left_spot(s, sep, first(b)), Size::Loose, stock)
            &&& ok(b, right_spot(s, sep), Size::Loose, stock)
            &&& entries(a) + entries(b) == entries(c)
            &&& first(a) == first(c)
            &&& within(s, sep)
            &&& stock.keys.contains(sep)
            &&& disjoint(a, b)
            &&& forall|x: u32| #[trigger] owns(a, x) ==> owns(c, x)
            &&& forall|x: u32| #[trigger] owns(b, x) ==> owns(c, x) || x == rid
        }),
{
    reveal(ok);
    broadcast use group_order;

    let a = cut_left(c, m, rid);
    let b = cut_right(c, m, rid);
    let sep = c.top_keys()[m];
    let sa = left_spot(s, sep, first(b));
    let sb = right_spot(s, sep);
    match c {
        Tree::Leaf { id, keys, values, next } => {
            leaf_entries(id, keys, values, next);
            leaf_entries(id, keys.take(m), values.take(m), rid);
            leaf_entries(rid, keys.skip(m), values.skip(m), next);
            assert(entries(a) + entries(b) =~= entries(c));
            assert(within(s, keys[m]));
            let ka = keys.take(m);
            let kb = keys.skip(m);
            assert forall|i: int| 0 <= i < ka.len() implies within(sa, #[trigger] ka[i]) && stock.pairs.contains(
                (ka[i], values.take(m)[i]),
            ) && stock.keys.contains(ka[i]) by {
                assert(within(s, keys[i]));
                assert(lt(keys[i], keys[m]));
            }
            assert forall|i: int| 0 <= i < kb.len() implies within(sb, #[trigger] kb[i]) && stock.pairs.contains(
                (kb[i], values.skip(m)[i]),
            ) && stock.keys.contains(kb[i]) by {
                assert(kb[i] == keys[m + i]);
                assert(within(s, keys[m + i]));
                if i > 0 {
                    assert(lt(keys[m], keys[m + i]));
                }
            }
            assert(ascending(ka));
            assert(ascending(kb)) by {
                assert forall|i: int, j: int| 0 <= i < j < kb.len() implies lt(#[trigger] kb[i], #[trigger] kb[j]) by {
                    assert(lt(keys[m + i], keys[m + j]));
                }
            }
        },
        Tree::Node { id, keys, kids } => {
            node_kids(id, keys, kids, s, size, stock);
            kids_cut_left(keys, kids, s, stock, m);
            kids_cut_right(keys, kids, s, stock, m);
            let kida = kids.take(m + 1);
            let kidb = kids.skip(m + 1);
            assert(kidb[0] == kids[m + 1]);
            assert(within(s, keys[m]));
            assert forall|j: int| 0 <= j < kida.len() implies !owns(#[trigger] kida[j], id) && !owns(kida[j], rid) by {
                assert(kida[j] == kids[j]);
                if owns(kids[j], rid) {
                    kid_owned(c, j, rid);
                }
            }
            assert forall|j: int| 0 <= j < kidb.len() implies !owns(#[trigger] kidb[j], id) && !owns(kidb[j], rid) by {
                assert(kidb[j] == kids[m + 1 + j]);
                if owns(kids[m + 1 + j], rid) {
                    kid_owned(c, m + 1 + j, rid);
                }
            }
            node_ok(id, keys.take(m), kida, sa, Size::Loose, stock);
            node_ok(rid, keys.skip(m + 1), kidb, sb, Size::Loose, stock);
            node_entries(id, keys, kids);
            node_entries(id, keys.take(m), kida);
            node_entries(rid, keys.skip(m + 1), kidb);
            assert(kida + kidb =~= kids);
            flat_append(kida, kidb);
            assert forall|x: u32| #[trigger] owns(a, x) implies owns(c, x) by {
                if x != id {
                    let j = choose|j: int| 0 <= j < kida.len() && owns(#[trigger] kida[j], x);
                    kid_owned(c, j, x);
                }
            }
            assert forall|x: u32| #[trigger] owns(b, x) implies owns(c, x) || x == rid by {
                if x != rid {
                    let j = choose|j: int| 0 <= j < kidb.len() && owns(#[trigger] kidb[j], x);
                    kid_owned(c, m + 1 + j, x);
                }
            }
            assert(disjoint(a, b)) by {
                assert forall|x: u32| !(#[trigger] owns(a, x) && #[trigger] owns(b, x)) by {
                    if owns(a, x) && owns(b, x) {
                        assert(owns(c, id));
                        if x == id {
                            let j = choose|j: int| 0 <= j < kidb.len() && owns(#[trigger] kidb[j], x);
                        } else if x != rid {
                            let j = choose|j: int| 0 <= j < kida.len() && owns(#[trigger] kida[j], x);
                            let l = choose|l: int| 0 <= l < kidb.len() && owns(#[trigger] kidb[l], x);
                            assert(owns(kids[j], x) && owns(kids[m + 1 + l], x));
                        }
                    }
                }
            }
        },
    }
}

/// Replacing a child by a tree that stands in its place.
#[verifier::spinoff_prover]
#[verifier::rlimit(30)]
pub proof fn replace_one(
    keys: Seq<Seq<u8>>,
    kids: Seq<Tree>,
    s: Spot,
    stock: Stock,
    weak: int,
    i: int,
    kid: Tree,
    weak2: int,
)
    requires
        kids_ok(keys, kids, s, stock, weak),
        0 <= i < kids.len(),
        weak == -1 || weak == i,
        weak2 == -1 || weak2 == i,
        ok(
            kid,
            kid_spot(s, keys, kids, i),
            if weak2 == i {
                Size::Loose
            } else {
                Size::Half
            },
            stock,
        ),
        first(kid) == first(kids[i]),
        forall|x: u32| #[trigger] owns(kid, x) ==> owns(kids[i], x) || clear(kids, x),
    ensures
        kids_ok(keys, kids.update(i, kid), s, stock, weak2),
        flat(kids.update(i, kid)) == flat(kids.take(i)) + entries(kid) + flat(kids.skip(i + 1)),
{
    let kids2 = kids.update(i, kid);
    assert forall|j: int| 0 <= j < kids2.len() implies ok(
        #[trigger] kids2[j],
        kid_spot(s, keys, kids2, j),
        if j == weak2 {
            Size::Loose
        } else {
            Size::Half
        },
        stock,
    ) by {
        assert(kid_spot(s, keys, kids2, j) == kid_spot(s, keys, kids, j));
        if j != i {
            assert(kids2[j] == kids[j]);
        }
    }
    assert(apart(kids2)) by {
        assert forall|j: int, l: int, x: u32| 0 <= j < l < kids2.len() implies !(#[trigger] owns(kids2[j], x)
            && #[trigger] owns(kids2[l], x)) by {
            if owns(kids2[j], x) && owns(kids2[l], x) {
                if j == i {
                    assert(kids2[l] == kids[l]);
                    assert(owns(kids[i], x) && owns(kids[l], x));
                } else if l == i {
                    assert(kids2[j] == kids[j]);
                    assert(owns(kids[j], x) && owns(kids[i], x));
                } else {
                    assert(owns(kids[j], x) && owns(kids[l], x));
                }
            }
        }
    }
    flat_around(kids2, i);
    assert(kids2.take(i) =~= kids.take(i));
    assert(kids2.skip(i + 1) =~= kids.skip(i + 1));
}

proof fn split_keys(keys: Seq<Seq<u8>>, i: int, sep: Seq<u8>)
    requires
        ascending(keys),
        0 <= i <= keys.len(),
        i > 0 ==> lt(keys[i - 1], sep),
        i < keys.len() ==> lt(sep, keys[i]),
    ensures
        ascending(keys.insert(i, sep)),
{
    broadcast use group_order;

    let keys2 = keys.insert(i, sep);
    assert(ascending(keys2)) by {
        assert forall|p: int, q: int| 0 <= p < q < keys2.len() implies lt(#[trigger] keys2[p], #[trigger] keys2[q]) by {
            if p < i {
                assert(keys2[p] == keys[p]);
                assert(le(keys[p], keys[i - 1]));
            } else if p > i {
                assert(keys2[p] == keys[p - 1]);
            }
            if q < i {
                assert(keys2[q] == keys[q]);
            } else if q > i {
                assert(keys2[q] == keys[q - 1]);
                assert(le(keys[i], keys[q - 1]));
            }
        }
    }
}

proof fn split_apart(kids: Seq<Tree>, i: int, a: Tree, b: Tree)
    requires
        apart(kids),
        0 <= i < kids.len(),
        disjoint(a, b),
        forall|x: u32| #[trigger] owns(a, x) ==> owns(kids[i], x) || clear(kids, x),
        forall|x: u32| #[trigger] owns(b, x) ==> owns(kids[i], x) || clear(kids, x),
    ensures
        apart(kids.update(i, a).insert(i + 1, b)),
{
    let kids2 = kids.update(i, a).insert(i + 1, b);
    assert(kids2[i] == a && kids2[i + 1] == b);
    assert forall|j: int| 0 <= j < i implies #[trigger] kids2[j] == kids[j] by {}
    assert forall|j: int| i + 1 < j < kids2.len() implies #[trigger] kids2[j] == kids[j - 1] by {}
    assert(apart(kids2)) by {
        assert forall|j: int, l: int, x: u32| 0 <= j < l < kids2.len() implies !(#[trigger] owns(kids2[j], x)
            && #[trigger] owns(kids2[l], x)) by {
            if owns(kids2[j], x) && owns(kids2[l], x) && !(j == i && l == i + 1) {
                let j0 = if j <= i {
                    j
                } else {
                    j - 1
                };
                let l0 = if l <= i {
                    l
                } else {
                    l - 1
                };
                assert(j0 < l0);
                if j0 == i {
                    assert(kids2[l] == kids[l0]);
                    assert(owns(kids[l0], x));
                    assert(owns(kids[i], x));
                } else if l0 == i {
                    assert(kids2[j] == kids[j0]);
                    assert(owns(kids[j0], x));
                    assert(owns(kids[i], x));
                } else {
                    assert(kids2[j] == kids[j0] && kids2[l] == kids[l0]);
                    assert(owns(kids[j0], x) && owns(kids[l0], x));
                }
            }
        }
    }
}

proof fn split_flat(kids: Seq<Tree>, i: int, a: Tree, b: Tree)
    requires
        0 <= i < kids.len(),
    ensures
        flat(kids.update(i, a).insert(i + 1, b)) == flat(kids.take(i)) + (entries(a) + entries(b)) + flat(
            kids.skip(i + 1),
        ),
{
    let kids2 = kids.update(i, a).insert(i + 1, b);
    let pre = kids.take(i);
    let post = kids.skip(i + 1);
    assert(kids2 =~= pre + seq![a] + (seq![b] + post));
    flat_append(pre + seq![a], seq![b] + post);
    flat_append(pre, seq![a]);
    flat_append(seq![b], post);
    flat_one(a);
    flat_one(b);
    assert(flat(kids2) =~= flat(pre) + (entries(a) + entries(b)) + flat(post));
}

pub proof fn split_spots(keys: Seq<Seq<u8>>, kids: Seq<Tree>, s: Spot, i: int, a: Tree, sep: Seq<u8>, b: Tree, j: int)
    requires
        kids.len() == keys.len() + 1,
        0 <= i < kids.len(),
        first(a) == first(kids[i]),
        0 <= j <= kids.len(),
    ensures
        kid_spot(s, keys.insert(i, sep), kids.update(i, a).insert(i + 1, b), j) == if j < i {
            kid_spot(s, keys, kids, j)
        } else if j == i {
            left_spot(kid_spot(s, keys, kids, i), sep, first(b))
        } else if j == i + 1 {
            right_spot(kid_spot(s, keys, kids, i), sep)
        } else {
            kid_spot(s, keys, kids, j - 1)
        },
        kids.update(i, a).insert(i + 1, b)[j] == if j < i {
            kids[j]
        } else if j == i {
            a
        } else if j == i + 1 {
            b
        } else {
            kids[j - 1]
        },
{
    let kids2 = kids.update(i, a).insert(i + 1, b);
    if j + 1 < kids2.len() {
        assert(kids2[j + 1] == if j + 1 < i {
            kids[j + 1]
        } else if j + 1 == i {
            a
        } else if j == i {
            b
        } else {
            kids[j]
        });
    }
}

proof fn split_members(
    keys: Seq<Seq<u8>>,
    kids: Seq<Tree>,
    s: Spot,
    stock: Stock,
    weak: int,
    i: int,
    a: Tree,
    sep: Seq<u8>,
    b: Tree,
)
    requires
        kids.len() == keys.len() + 1,
        forall|j: int|
            0 <= j < kids.len() ==> ok(
                #[trigger] kids[j],
                kid_spot(s, keys, kids, j),
                if j == weak {
                    Size::Loose
                } else {
                    Size::Half
                },
                stock,
            ),
        0 <= i < kids.len(),
        weak == -1 || weak == i,
        ok(a, left_spot(kid_spot(s, keys, kids, i), sep, first(b)), Size::Half, stock),
        ok(b, right_spot(kid_spot(s, keys, kids, i), sep), Size::Half, stock),
        first(a) == first(kids[i]),
    ensures
        ({
            let keys2 = keys.insert(i, sep);
            let kids2 = kids.update(i, a).insert(i + 1, b);
            forall|j: int|
                0 <= j < kids2.len() ==> ok(#[trigger] kids2[j], kid_spot(s, keys2, kids2, j), Size::Half, stock)
        }),
{
    let keys2 = keys.insert(i, sep);
    let kids2 = kids.update(i, a).insert(i + 1, b);
    assert forall|j: int| 0 <= j < kids2.len() implies ok(
        #[trigger] kids2[j],
        kid_spot(s, keys2, kids2, j),
        Size::Half,
        stock,
    ) by {
        split_spots(keys, kids, s, i, a, sep, b, j);
        if j < i {
            assert(ok(kids[j], kid_spot(s, keys, kids, j), Size::Half, stock));
        } else if j > i + 1 {
            assert(ok(kids[j - 1], kid_spot(s, keys, kids, j - 1), Size::Half, stock));
        }
    }
}

/// Replacing a child by two neighbours that stand in its place.
#[verifier::spinoff_prover]
#[verifier::rlimit(30)]
pub proof fn split_one(
    keys: Seq<Seq<u8>>,
    kids: Seq<Tree>,
    s: Spot,
    stock: Stock,
    weak: int,
    i: int,
    a: Tree,
    sep: Seq<u8>,
    b: Tree,
)
    requires
        kids_ok(keys, kids, s, stock, weak),
        0 <= i < kids.len(),
        weak == -1 || weak == i,
        ok(a, left_spot(kid_spot(s, keys, kids, i), sep, first(b)), Size::Half, stock),
        ok(b, right_spot(kid_spot(s, keys, kids, i), sep), Size::Half, stock),
        within(kid_spot(s, keys, kids, i), sep),
        stock.keys.contains(sep),
        first(a) == first(kids[i]),
        disjoint(a, b),
        forall|x: u32| #[trigger] owns(a, x) ==> owns(kids[i], x) || clear(kids, x),
        forall|x: u32| #[trigger] owns(b, x) ==> owns(kids[i], x) || clear(kids, x),
    ensures
        kids_ok(keys.insert(i, sep), kids.update(i, a).insert(i + 1, b), s, stock, -1),
        flat(kids.update(i, a).insert(i + 1, b)) == flat(kids.take(i)) + (entries(a) + entries(b)) + flat(
            kids.skip(i + 1),
        ),
{
    broadcast use group_order;

    let si = kid_spot(s, keys, kids, i);
    let keys2 = keys.insert(i, sep);
    let kids2 = kids.update(i, a).insert(i + 1, b);
    kid_within(keys, kids, s, stock, weak, i, sep);
    let k = some_key(a, left_spot(si, sep, first(b)), stock);
    assert forall|p: int| 0 <= p < keys2.len() implies within(s, #[trigger] keys2[p]) && stock.keys.contains(
        keys2[p],
    ) by {
        if p < i {
            assert(keys2[p] == keys[p]);
        } else if p > i {
            assert(keys2[p] == keys[p - 1]);
        }
    }
    split_keys(keys, i, sep);
    split_members(keys, kids, s, stock, weak, i, a, sep, b);
    split_apart(kids, i, a, b);
    split_flat(kids, i, a, b);
}

/// The spot that children `i` and `i + 1` take up together.
pub open spec fn pair_spot(s: Spot, keys: Seq<Seq<u8>>, kids: Seq<Tree>, i: int) -> Spot {
    Spot {
        level: (s.level - 1) as nat,
        lo: kid_spot(s, keys, kids, i).lo,
        hi: kid_spot(s, keys, kids, i + 1).hi,
        tail: kid_spot(s, keys, kids, i + 1).tail,
    }
}

/// How the spots of two neighbours divide the one they take up together.
pub proof fn pair_divided(keys: Seq<Seq<u8>>, kids: Seq<Tree>, s: Spot, stock: Stock, weak: int, i: int)
    requires
        kids_ok(keys, kids, s, stock, weak),
        0 <= i,
        i + 1 < kids.len(),
    ensures
        kid_spot(s, keys, kids, i) == left_spot(pair_spot(s, keys, kids, i), keys[i], first(kids[i + 1])),
        kid_spot(s, keys, kids, i + 1) == right_spot(pair_spot(s, keys, kids, i), keys[i]),
        within(pair_spot(s, keys, kids, i), keys[i]),
        stock.keys.contains(keys[i]),
        disjoint(kids[i], kids[i + 1]),
{
    broadcast use group_order;

    assert(within(s, keys[i]));
    if i > 0 {
        assert(lt(keys[i - 1], keys[i]));
    }
    if i + 1 < keys.len() {
        assert(lt(keys[i], keys[i + 1]));
    }
}

proof fn join_keys(keys: Seq<Seq<u8>>, i: int)
    requires
        ascending(keys),
        0 <= i < keys.len(),
    ensures
        ascending(keys.remove(i)),
{
    let keys2 = keys.remove(i);
    assert(ascending(keys2)) by {
        assert forall|p: int, q: int| 0 <= p < q < keys2.len() implies lt(#[trigger] keys2[p], #[trigger] keys2[q]) by {
            let p0 = if p < i {
                p
            } else {
                p + 1
            };
            let q0 = if q < i {
                q
            } else {
                q + 1
            };
            assert(lt(keys[p0], keys[q0]));
        }
    }
}

proof fn join_apart(kids: Seq<Tree>, i: int, c: Tree)
    requires
        apart(kids),
        0 <= i,
        i + 1 < kids.len(),
        forall|x: u32| #[trigger] owns(c, x) ==> owns(kids[i], x) || owns(kids[i + 1], x),
    ensures
        apart(kids.remove(i + 1).update(i, c)),
{
    let kids2 = kids.remove(i + 1).update(i, c);
    assert(kids2[i] == c);
    assert forall|j: int| 0 <= j < i implies #[trigger] kids2[j] == kids[j] by {}
    assert forall|j: int| i < j < kids2.len() implies #[trigger] kids2[j] == kids[j + 1] by {}
    assert(apart(kids2)) by {
        assert forall|j: int, l: int, x: u32| 0 <= j < l < kids2.len() implies !(#[trigger] owns(kids2[j], x)
            && #[trigger] owns(kids2[l], x)) by {
            if owns(kids2[j], x) && owns(kids2[l], x) {
                let j0 = if j <= i {
                    j
                } else {
                    j + 1
                };
                let l0 = if l <= i {
                    l
                } else {
                    l + 1
                };
                if j == i {
                    assert(kids2[l] == kids[l0]);
                    assert(owns(kids[l0], x));
                    assert(owns(kids[i], x) || owns(kids[i + 1], x));
                } else if l == i {
                    assert(kids2[j] == kids[j0]);
                    assert(owns(kids[j0], x));
                    assert(owns(kids[i], x) || owns(kids[i + 1], x));
                } else {
                    assert(kids2[j] == kids[j0] && kids2[l] == kids[l0]);
                    assert(owns(kids[j0], x) && owns(kids[l0], x));
                }
            }
        }
    }
}

proof fn join_spots(keys: Seq<Seq<u8>>, kids: Seq<Tree>, s: Spot, i: int, c: Tree, j: int)
    requires
        kids.len() == keys.len() + 1,
        0 <= i,
        i + 1 < kids.len(),
        first(c) == first(kids[i]),
        0 <= j < kids.len() - 1,
    ensures
        kid_spot(s, keys.remove(i), kids.remove(i + 1).update(i, c), j) == if j < i {
            kid_spot(s, keys, kids, j)
        } else if j == i {
            pair_spot(s, keys, kids, i)
        } else {
            kid_spot(s, keys, kids, j + 1)
        },
        kids.remove(i + 1).update(i, c)[j] == if j < i {
            kids[j]
        } else if j == i {
            c
        } else {
            kids[j + 1]
        },
{
    let keys2 = keys.remove(i);
    let kids2 = kids.remove(i + 1).update(i, c);
    if j + 1 < kids2.len() {
        assert(kids2[j + 1] == if j + 1 < i {
            kids[j + 1]
        } else if j + 1 == i {
            c
        } else {
            kids[j + 2]
        });
    }
}

proof fn join_flat(kids: Seq<Tree>, i: int, c: Tree)
    requires
        0 <= i,
        i + 1 < kids.len(),
    ensures
        flat(kids.remove(i + 1).update(i, c)) == flat(kids.take(i)) + entries(c) + flat(kids.skip(i + 2)),
{
    let kids2 = kids.remove(i + 1).update(i, c);
    flat_around(kids2, i);
    assert(kids2.take(i) =~= kids.take(i));
    assert(kids2.skip(i + 1) =~= kids.skip(i + 2));
}

proof fn join_members(keys: Seq<Seq<u8>>, kids: Seq<Tree>, s: Spot, stock: Stock, weak: int, i: int, c: Tree)
    requires
        kids.len() == keys.len() + 1,
        forall|j: int|
            0 <= j < kids.len() ==> ok(
                #[trigger] kids[j],
                kid_spot(s, keys, kids, j),
                if j == weak {
                    Size::Loose
                } else {
                    Size::Half
                },
                stock,
            ),
        0 <= i,
        i + 1 < kids.len(),
        weak == -1 || weak == i || weak == i + 1,
        ok(c, pair_spot(s, keys, kids, i), Size::Loose, stock),
        first(c) == first(kids[i]),
    ensures
        ({
            let keys2 = keys.remove(i);
            let kids2 = kids.remove(i + 1).update(i, c);
            forall|j: int|
                0 <= j < kids2.len() ==> ok(
                    #[trigger] kids2[j],
                    kid_spot(s, keys2, kids2, j),
                    if j == i {
                        Size::Loose
                    } else {
                        Size::Half
                    },
                    stock,
                )
        }),
{
    let keys2 = keys.remove(i);
    let kids2 = kids.remove(i + 1).update(i, c);
    assert forall|j: int| 0 <= j < kids2.len() implies ok(
        #[trigger] kids2[j],
        kid_spot(s, keys2, kids2, j),
        if j == i {
            Size::Loose
        } else {
            Size::Half
        },
        stock,
    ) by {
        join_spots(keys, kids, s, i, c, j);
        if j < i {
            assert(ok(kids[j], kid_spot(s, keys, kids, j), Size::Half, stock));
        } else if j > i {
            assert(ok(kids[j + 1], kid_spot(s, keys, kids, j + 1), Size::Half, stock));
        }
    }
}

/// Replacing two neighbours by one tree that stands in their place.
#[verifier::spinoff_prover]
#[verifier::rlimit(30)]
pub proof fn join_two(
    keys: Seq<Seq<u8>>,
    kids: Seq<Tree>,
    s: Spot,
    stock: Stock,
    weak: int,
    i: int,
    c: Tree,
)
    requires
        kids_ok(keys, kids, s, stock, weak),
        0 <= i,
        i + 1 < kids.len(),
        weak == -1 || weak == i || weak == i + 1,
        ok(c, pair_spot(s, keys, kids, i), Size::Loose, stock),
        first(c) == first(kids[i]),
        forall|x: u32| #[trigger] owns(c, x) ==> owns(kids[i], x) || owns(kids[i + 1], x),
    ensures
        kids_ok(keys.remove(i), kids.remove(i + 1).update(i, c), s, stock, i),
        kid_spot(s, keys.remove(i), kids.remove(i + 1).update(i, c), i) == pair_spot(s, keys, kids, i),
        flat(kids.remove(i + 1).update(i, c)) == flat(kids.take(i)) + entries(c) + flat(kids.skip(i + 2)),
{
    let keys2 = keys.remove(i);
    let kids2 = kids.remove(i + 1).update(i, c);
    join_keys(keys, i);
    join_apart(kids, i, c);
    join_flat(kids, i, c);
    join_spots(keys, kids, s, i, c, i);
    join_members(keys, kids, s, stock, weak, i, c);
    assert forall|p: int| 0 <= p < keys2.len() implies within(s, #[trigger] keys2[p]) && stock.keys.contains(
        keys2[p],
    ) by {
        let q = if p < i {
            p
        } else {
            p + 1
        };
        assert(keys2[p] == keys[q]);
    }
}

/// The entries of trees, two neighbours set apart.
pub proof fn flat_around_two(kids: Seq<Tree>, i: int)
    requires
        0 <= i,
        i + 1 < kids.len(),
    ensures
        flat(kids) == flat(kids.take(i)) + (entries(kids[i]) + entries(kids[i + 1])) + flat(kids.skip(i + 2)),
{
    let pre = kids.take(i);
    let post = kids.skip(i + 2);
    let a = kids[i];
    let b = kids[i + 1];
    assert(kids =~= pre + seq![a] + (seq![b] + post));
    flat_append(pre + seq![a], seq![b] + post);
    flat_append(pre, seq![a]);
    flat_append(seq![b], post);
    flat_one(a);
    flat_one(b);
    assert(flat(kids) =~= flat(pre) + (entries(a) + entries(b)) + flat(post));
}

/// Any page made from this stock, with no more keys than allowed, can be written.
pub open spec fn roomy(stock: Stock) -> bool {
    &&& forall|keys: Seq<Seq<u8>>, values: Seq<Seq<u8>>, next: u32|
        keys.len() <= MAX_KEYS_LEAF && keys.len() == values.len() && ascending(keys) && (forall|i: int|
            0 <= i < keys.len() ==> stock.pairs.contains((#[trigger] keys[i], values[i]))) ==> #[trigger] fits(
            PageView::Leaf { keys, values, next },
        )
    &&& forall|keys: Seq<Seq<u8>>, children: Seq<u32>|
        keys.len() <= MAX_KEYS_INTERNAL && children.len() == keys.len() + 1 && ascending(keys) && (forall|i: int|
            0 <= i < keys.len() ==> stock.keys.contains(#[trigger] keys[i])) ==> #[trigger] fits(
            PageView::Internal { keys, children },
        )
}

/// The page of a node in order is a whole page, and can be written if the stock allows.
pub proof fn page_ok(t: Tree, s: Spot, size: Size, stock: Stock)
    requires
        ok(t, s, size, stock),
    ensures
        whole(t.page()),
        roomy(stock) && size !is Loose ==> fits(t.page()),
{
    reveal(ok);
}

/// A node stands in the pages if its own page and its children do.
pub proof fn node_stored(id: u32, keys: Seq<Seq<u8>>, kids: Seq<Tree>, m: Map<u32, PageView>)
    requires
        m.contains_key(id),
        m[id] == (PageView::Internal { keys, children: numbers(kids) }),
        forall|j: int| 0 <= j < kids.len() ==> stored(#[trigger] kids[j], m),
    ensures
        stored(Tree::Node { id, keys, kids }, m),
{
}

/// A new page belongs to no tree that is stored already.
pub proof fn fresh_clear(kids: Seq<Tree>, m: Map<u32, PageView>, x: u32)
    requires
        forall|j: int| 0 <= j < kids.len() ==> stored(#[trigger] kids[j], m),
        !m.contains_key(x),
    ensures
        clear(kids, x),
{
    assert forall|j: int| 0 <= j < kids.len() implies !owns(#[trigger] kids[j], x) by {
        if owns(kids[j], x) {
            owned_stored(kids[j], m, x);
        }
    }
}

/// The pages outside a tree are as they were.
pub open spec fn untouched(m: Map<u32, PageView>, m2: Map<u32, PageView>, t: Tree) -> bool {
    forall|x: u32| #[trigger] m.contains_key(x) && !owns(t, x) ==> m2.contains_key(x) && m2[x] == m[x]
}

/// The pages of a tree were those of another one or not in use.
pub open spec fn taken_from(m: Map<u32, PageView>, t: Tree, t2: Tree) -> bool {
    forall|x: u32| #[trigger] owns(t2, x) ==> owns(t, x) || !m.contains_key(x)
}

/// A tree that shares no page with the one that changed still stands.
pub proof fn other_stored(t: Tree, o: Tree, m: Map<u32, PageView>, m2: Map<u32, PageView>)
    requires
        stored(o, m),
        untouched(m, m2, t),
        disjoint(t, o),
    ensures
        stored(o, m2),
{
    assert forall|x: u32| #[trigger] owns(o, x) implies m2.contains_key(x) && m2[x] == m[x] by {
        owned_stored(o, m, x);
        assert(m.contains_key(x) && !owns(t, x));
    }
    stored_frame(o, m, m2);
}

/// A tree still stands after a page that is not its own has changed.
pub proof fn kept_stored(t: Tree, m: Map<u32, PageView>, x: u32, p: PageView)
    requires
        stored(t, m),
        !owns(t, x),
    ensures
        stored(t, m.insert(x, p)),
{
    let m2 = m.insert(x, p);
    assert forall|y: u32| #[trigger] owns(t, y) implies m2.contains_key(y) && m2[y] == m[y] by {
        owned_stored(t, m, y);
    }
    stored_frame(t, m, m2);
}

/// The pages on the way from the root to the leftmost leaf.
pub open spec fn spine(t: Tree) -> Seq<u32>
    decreases t,
{
    match t {
        Tree::Leaf { id, .. } => seq![id],
        Tree::Node { id, kids, .. } => if kids.len() > 0 {
            seq![id] + spine(kids[0])
        } else {
            seq![id]
        },
    }
}

#[verifier::spinoff_prover]
#[verifier::rlimit(40)]
proof fn spine_distinct(t: Tree, s: Spot, size: Size, stock: Stock)
    requires
        ok(t, s, size, stock),
    ensures
        spine(t).no_duplicates(),
        spine(t).len() == height(t) + 1,
        forall|i: int| 0 <= i < spine(t).len() ==> owns(t, #[trigger] spine(t)[i]),
    decreases t,
{
    match t {
        Tree::Leaf { .. } => {},
        Tree::Node { id, keys, kids } => {
            node_kids(id, keys, kids, s, size, stock);
            let k = kids[0];
            spine_distinct(k, kid_spot(s, keys, kids, 0), Size::Half, stock);
            let r = spine(k);
            assert forall|i: int| 0 <= i < spine(t).len() implies owns(t, #[trigger] spine(t)[i]) by {
                if i > 0 {
                    assert(owns(k, r[i - 1]));
                    kid_owned(t, 0, r[i - 1]);
                }
            }
            assert forall|i: int| 0 <= i < r.len() implies r[i] != id by {
                assert(owns(k, r[i]));
            }
        },
    }
}

/// Different numbers from 1 to below `n` are fewer than `n`.
pub proof fn few_numbers(s: Seq<u32>, n: u32)
    requires
        s.no_duplicates(),
        forall|i: int| 0 <= i < s.len() ==> 0 < #[trigger] s[i] < n,
    ensures
        s.len() < n || s.len() == 0,
    decreases n,
{
    if s.len() > 0 {
        assert(0 < s[0] < n);
        let m = (n - 1) as u32;
        if s.contains(m) {
            let p = choose|p: int| 0 <= p < s.len() && s[p] == m;
            let r = s.remove(p);
            assert forall|i: int| 0 <= i < r.len() implies 0 < #[trigger] r[i] < m by {
                if i < p {
                    assert(r[i] == s[i]);
                } else {
                    assert(r[i] == s[i + 1]);
                }
            }
            few_numbers(r, m);
        } else {
            assert forall|i: int| 0 <= i < s.len() implies 0 < #[trigger] s[i] < m by {
                assert(s.contains(s[i]));
            }
            few_numbers(s, m);
        }
    }
}

/// A tree is less high than there are pages.
pub proof fn height_bounded(t: Tree, s: Spot, size: Size, stock: Stock, m: Map<u32, PageView>, n: u32)
    requires
        ok(t, s, size, stock),
        stored(t, m),
        forall|x: u32| #[trigger] m.contains_key(x) ==> 0 < x < n,
    ensures
        s.level < n,
        s.level == height(t),
{
    level_is_height(t, s, size, stock);
    spine_distinct(t, s, size, stock);
    assert forall|i: int| 0 <= i < spine(t).len() implies 0 < #[trigger] spine(t)[i] < n by {
        owned_stored(t, m, spine(t)[i]);
    }
    few_numbers(spine(t), n);
}

/// Setting the value of a key that a leaf has.
pub proof fn leaf_updated(
    id: u32,
    keys: Seq<Seq<u8>>,
    values: Seq<Seq<u8>>,
    next: u32,
    s: Spot,
    size: Size,
    stock: Stock,
    pos: int,
    v: Seq<u8>,
)
    requires
        ok(Tree::Leaf { id, keys, values, next }, s, size, stock),
        0 <= pos < keys.len(),
        stock.pairs.contains((keys[pos], v)),
    ensures
        ok(Tree::Leaf { id, keys, values: values.update(pos, v), next }, s, size, stock),
        inserted(
            entries(Tree::Leaf { id, keys, values, next }),
            entries(Tree::Leaf { id, keys, values: values.update(pos, v), next }),
            keys[pos],
            v,
        ),
{
    broadcast use group_order;

    reveal(ok);
    let values2 = values.update(pos, v);
    leaf_entries(id, keys, values, next);
    leaf_entries(id, keys, values2, next);
    let a = entries(Tree::Leaf { id, keys, values, next });
    let b = entries(Tree::Leaf { id, keys, values: values2, next });
    assert forall|x: Seq<u8>, y: Seq<u8>| #[trigger] b.contains((x, y)) <==> if x == keys[pos] {
        y == v
    } else {
        a.contains((x, y))
    } by {
        if b.contains((x, y)) {
            let i = choose|i: int| 0 <= i < b.len() && b[i] == (x, y);
            if i < pos {
                assert(lt(keys[i], keys[pos]));
            } else if i > pos {
                assert(lt(keys[pos], keys[i]));
            }
            if i != pos {
                assert(a[i] == (x, y));
            }
        }
        if x == keys[pos] && y == v {
            assert(b[pos] == (x, y));
        }
        if x != keys[pos] && a.contains((x, y)) {
            let i = choose|i: int| 0 <= i < a.len() && a[i] == (x, y);
            assert(b[i] == (x, y));
        }
    }
}

/// Adding a key to a leaf that does not have it.
pub proof fn leaf_inserted(
    id: u32,
    keys: Seq<Seq<u8>>,
    values: Seq<Seq<u8>>,
    next: u32,
    s: Spot,
    size: Size,
    stock: Stock,
    pos: int,
    k: Seq<u8>,
    v: Seq<u8>,
)
    requires
        ok(Tree::Leaf { id, keys, values, next }, s, size, stock),
        places(keys, k, false, pos),
        within(s, k),
        stock.keys.contains(k),
        stock.pairs.contains((k, v)),
    ensures
        ok(Tree::Leaf { id, keys: keys.insert(pos, k), values: values.insert(pos, v), next }, s, Size::Loose, stock),
        inserted(
            entries(Tree::Leaf { id, keys, values, next }),
            entries(Tree::Leaf { id, keys: keys.insert(pos, k), values: values.insert(pos, v), next }),
            k,
            v,
        ),
{
    broadcast use group_order;

    reveal(ok);
    let keys2 = keys.insert(pos, k);
    let values2 = values.insert(pos, v);
    split_keys(keys, pos, k);
    leaf_entries(id, keys, values, next);
    leaf_entries(id, keys2, values2, next);
    let a = entries(Tree::Leaf { id, keys, values, next });
    let b = entries(Tree::Leaf { id, keys: keys2, values: values2, next });
    assert forall|i: int| 0 <= i < keys2.len() implies within(s, #[trigger] keys2[i]) && stock.pairs.contains(
        (keys2[i], values2[i]),
    ) && stock.keys.contains(keys2[i]) by {
        if i < pos {
            assert(keys2[i] == keys[i]);
        } else if i > pos {
            assert(keys2[i] == keys[i - 1]);
        }
    }
    assert forall|x: Seq<u8>, y: Seq<u8>| #[trigger] b.contains((x, y)) <==> if x == k {
        y == v
    } else {
        a.contains((x, y))
    } by {
        if b.contains((x, y)) {
            let i = choose|i: int| 0 <= i < b.len() && b[i] == (x, y);
            if i < pos {
                assert(lt(keys[i], k));
                assert(a[i] == (x, y));
            } else if i > pos {
                assert(lt(k, keys[i - 1]));
                assert(a[i - 1] == (x, y));
            }
        }
        if x == k && y == v {
            assert(b[pos] == (x, y));
        }
        if x != k && a.contains((x, y)) {
            let i = choose|i: int| 0 <= i < a.len() && a[i] == (x, y);
            if i < pos {
                assert(b[i] == (x, y));
            } else {
                assert(b[i + 1] == (x, y));
            }
        }
    }
}

/// Taking a key from a leaf that has it.
pub proof fn leaf_removed(
    id: u32,
    keys: Seq<Seq<u8>>,
    values: Seq<Seq<u8>>,
    next: u32,
    s: Spot,
    size: Size,
    stock: Stock,
    pos: int,
)
    requires
        ok(Tree::Leaf { id, keys, values, next }, s, size, stock),
        0 <= pos < keys.len(),
    ensures
        ok(Tree::Leaf { id, keys: keys.remove(pos), values: values.remove(pos), next }, s, Size::Loose, stock),
        removed(
            entries(Tree::Leaf { id, keys, values, next }),
            entries(Tree::Leaf { id, keys: keys.remove(pos), values: values.remove(pos), next }),
            keys[pos],
        ),
{
    broadcast use group_order;

    reveal(ok);
    let keys2 = keys.remove(pos);
    let values2 = values.remove(pos);
    join_keys(keys, pos);
    leaf_entries(id, keys, values, next);
    leaf_entries(id, keys2, values2, next);
    let a = entries(Tree::Leaf { id, keys, values, next });
    let b = entries(Tree::Leaf { id, keys: keys2, values: values2, next });
    assert forall|i: int| 0 <= i < keys2.len() implies within(s, #[trigger] keys2[i]) && stock.pairs.contains(
        (keys2[i], values2[i]),
    ) && stock.keys.contains(keys2[i]) by {
        if i < pos {
            assert(keys2[i] == keys[i]);
        } else {
            assert(keys2[i] == keys[i + 1]);
        }
    }
    assert forall|x: Seq<u8>, y: Seq<u8>| #[trigger] b.contains((x, y)) <==> x != keys[pos] && a.contains((x, y)) by {
        if b.contains((x, y)) {
            let i = choose|i: int| 0 <= i < b.len() && b[i] == (x, y);
            if i < pos {
                assert(lt(keys[i], keys[pos]));
                assert(a[i] == (x, y));
            } else {
                assert(lt(keys[pos], keys[i + 1]));
                assert(a[i + 1] == (x, y));
            }
        }
        if x != keys[pos] && a.contains((x, y)) {
            let i = choose|i: int| 0 <= i < a.len() && a[i] == (x, y);
            if i < pos {
                assert(b[i] == (x, y));
            } else {
                assert(i != pos);
                assert(b[i - 1] == (x, y));
            }
        }
    }
}

/// Every one of the trees stands in these pages.
pub open spec fn all_stored(kids: Seq<Tree>, m: Map<u32, PageView>) -> bool {
    forall|j: int| 0 <= j < kids.len() ==> stored(#[trigger] kids[j], m)
}

/// Trees still stand after a page that belongs to none of them has changed.
pub proof fn all_kept(kids: Seq<Tree>, m: Map<u32, PageView>, x: u32, p: PageView)
    requires
        all_stored(kids, m),
        clear(kids, x),
    ensures
        all_stored(kids, m.insert(x, p)),
{
    assert forall|j: int| 0 <= j < kids.len() implies stored(#[trigger] kids[j], m.insert(x, p)) by {
        kept_stored(kids[j], m, x, p);
    }
}

/// What a node owns is its own page or belongs to a child.
pub proof fn node_owns(id: u32, keys: Seq<Seq<u8>>, kids: Seq<Tree>, x: u32)
    ensures
        owns(Tree::Node { id, keys, kids }, x) <==> x == id || !clear(kids, x),
{
    if !clear(kids, x) {
        let j = choose|j: int| 0 <= j < kids.len() && owns(#[trigger] kids[j], x);
        kid_owned(Tree::Node { id, keys, kids }, j, x);
    }
}

/// The node after one child has become another tree.
#[verifier::spinoff_prover]
#[verifier::rlimit(30)]
pub proof fn kid_replaced(
    m: Map<u32, PageView>,
    m2: Map<u32, PageView>,
    id: u32,
    keys: Seq<Seq<u8>>,
    kids: Seq<Tree>,
    s: Spot,
    size: Size,
    stock: Stock,
    i: int,
    a: Tree,
    weak: int,
)
    requires
        ok(Tree::Node { id, keys, kids }, s, size, stock),
        stored(Tree::Node { id, keys, kids }, m),
        0 <= i < kids.len(),
        weak == -1 || weak == i,
        ok(
            a,
            kid_spot(s, keys, kids, i),
            if weak == i {
                Size::Loose
            } else {
                Size::Half
            },
            stock,
        ),
        a.id() == kids[i].id(),
        first(a) == first(kids[i]),
        stored(a, m2),
        taken_from(m, kids[i], a),
        untouched(m, m2, kids[i]),
    ensures
        kids_ok(keys, kids.update(i, a), s, stock, weak),
        clear(kids.update(i, a), id),
        all_stored(kids.update(i, a), m2),
        m2.contains_key(id),
        m2[id] == m[id],
        numbers(kids.update(i, a)) == numbers(kids),
        flat(kids.update(i, a)) == flat(kids.take(i)) + entries(a) + flat(kids.skip(i + 1)),
        taken_from(m, Tree::Node { id, keys, kids }, Tree::Node { id, keys, kids: kids.update(i, a) }),
        untouched(m, m2, Tree::Node { id, keys, kids }),
{
    let t = Tree::Node { id, keys, kids };
    let kids2 = kids.update(i, a);
    let t2 = Tree::Node { id, keys, kids: kids2 };
    node_kids(id, keys, kids, s, size, stock);
    assert forall|x: u32| #[trigger] owns(a, x) implies owns(kids[i], x) || clear(kids, x) by {
        if !m.contains_key(x) {
            fresh_clear(kids, m, x);
        }
    }
    replace_one(keys, kids, s, stock, -1, i, a, weak);
    assert(!owns(kids[i], id));
    assert forall|j: int| 0 <= j < kids2.len() implies !owns(#[trigger] kids2[j], id) && stored(kids2[j], m2) by {
        if j == i {
            assert(m.contains_key(id));
        } else {
            assert(kids2[j] == kids[j]);
            assert(disjoint(kids[i], kids[j]));
            other_stored(kids[i], kids[j], m, m2);
        }
    }
    assert(numbers(kids2) =~= numbers(kids));
    assert forall|x: u32| #[trigger] owns(t2, x) implies owns(t, x) || !m.contains_key(x) by {
        node_owns(id, keys, kids2, x);
        node_owns(id, keys, kids, x);
        if x != id {
            let j = choose|j: int| 0 <= j < kids2.len() && owns(#[trigger] kids2[j], x);
            if j == i {
                assert(owns(a, x));
                if owns(kids[i], x) {
                    assert(!clear(kids, x));
                }
            } else {
                assert(owns(kids[j], x));
            }
        }
    }
    assert forall|x: u32| #[trigger] m.contains_key(x) && !owns(t, x) implies m2.contains_key(x) && m2[x] == m[x] by {
        if owns(kids[i], x) {
            kid_owned(t, i, x);
        }
    }
}

/// The node after one child has become two trees.
#[verifier::spinoff_prover]
#[verifier::rlimit(30)]
pub proof fn kid_split(
    m: Map<u32, PageView>,
    m2: Map<u32, PageView>,
    id: u32,
    keys: Seq<Seq<u8>>,
    kids: Seq<Tree>,
    s: Spot,
    size: Size,
    stock: Stock,
    i: int,
    a: Tree,
    sep: Seq<u8>,
    b: Tree,
)
    requires
        ok(Tree::Node { id, keys, kids }, s, size, stock),
        stored(Tree::Node { id, keys, kids }, m),
        0 <= i < kids.len(),
        ok(a, left_spot(kid_spot(s, keys, kids, i), sep, first(b)), Size::Half, stock),
        ok(b, right_spot(kid_spot(s, keys, kids, i), sep), Size::Half, stock),
        within(kid_spot(s, keys, kids, i), sep),
        stock.keys.contains(sep),
        a.id() == kids[i].id(),
        first(a) == first(kids[i]),
        disjoint(a, b),
        stored(a, m2),
        stored(b, m2),
        taken_from(m, kids[i], a),
        taken_from(m, kids[i], b),
        untouched(m, m2, kids[i]),
    ensures
        ({
            let keys2 = keys.insert(i, sep);
            let kids2 = kids.update(i, a).insert(i + 1, b);
            &&& kids_ok(keys2, kids2, s, stock, -1)
            &&& clear(kids2, id)
            &&& all_stored(kids2, m2)
            &&& numbers(kids2) == numbers(kids).insert(i + 1, b.id())
            &&& flat(kids2) == flat(kids.take(i)) + (entries(a) + entries(b)) + flat(kids.skip(i + 1))
            &&& taken_from(m, Tree::Node { id, keys, kids }, Tree::Node { id, keys: keys2, kids: kids2 })
        }),
        m2.contains_key(id),
        m2[id] == m[id],
        untouched(m, m2, Tree::Node { id, keys, kids }),
{
    let t = Tree::Node { id, keys, kids };
    let keys2 = keys.insert(i, sep);
    let kids2 = kids.update(i, a).insert(i + 1, b);
    let t2 = Tree::Node { id, keys: keys2, kids: kids2 };
    node_kids(id, keys, kids, s, size, stock);
    assert forall|x: u32| #[trigger] owns(a, x) implies owns(kids[i], x) || clear(kids, x) by {
        if !m.contains_key(x) {
            fresh_clear(kids, m, x);
        }
    }
    assert forall|x: u32| #[trigger] owns(b, x) implies owns(kids[i], x) || clear(kids, x) by {
        if !m.contains_key(x) {
            fresh_clear(kids, m, x);
        }
    }
    split_one(keys, kids, s, stock, -1, i, a, sep, b);
    assert(!owns(kids[i], id));
    assert forall|j: int| 0 <= j < kids2.len() implies !owns(#[trigger] kids2[j], id) && stored(kids2[j], m2) by {
        split_spots(keys, kids, s, i, a, sep, b, j);
        assert(m.contains_key(id));
        if j < i {
            assert(disjoint(kids[i], kids[j]));
            other_stored(kids[i], kids[j], m, m2);
        } else if j > i + 1 {
            assert(disjoint(kids[i], kids[j - 1]));
            other_stored(kids[i], kids[j - 1], m, m2);
        }
    }
    assert(numbers(kids2) =~= numbers(kids).insert(i + 1, b.id()));
    assert forall|x: u32| #[trigger] owns(t2, x) implies owns(t, x) || !m.contains_key(x) by {
        node_owns(id, keys2, kids2, x);
        node_owns(id, keys, kids, x);
        if x != id {
            let j = choose|j: int| 0 <= j < kids2.len() && owns(#[trigger] kids2[j], x);
            split_spots(keys, kids, s, i, a, sep, b, j);
            if j < i {
                assert(owns(kids[j], x));
            } else if j > i + 1 {
                assert(owns(kids[j - 1], x));
            } else if owns(kids[i], x) {
                assert(!clear(kids, x));
            }
        }
    }
    assert forall|x: u32| #[trigger] m.contains_key(x) && !owns(t, x) implies m2.contains_key(x) && m2[x] == m[x] by {
        if owns(kids[i], x) {
            kid_owned(t, i, x);
        }
    }
}

/// How many keys, values and children a node has.
pub proof fn node_counts(t: Tree, s: Spot, size: Size, stock: Stock)
    requires
        ok(t, s, size, stock),
    ensures
        sized(t, size),
        ascending(t.top_keys()),
        t is Leaf <==> s.level == 0,
        match t {
            Tree::Leaf { keys, values, next, .. } => keys.len() == values.len() && next == s.tail,
            Tree::Node { keys, kids, .. } => kids.len() == keys.len() + 1,
        },
{
    reveal(ok);
}

/// A node stands where its page is written and its children are as they were.
pub proof fn restored(t: Tree, m: Map<u32, PageView>, m2: Map<u32, PageView>)
    requires
        m2.contains_key(t.id()),
        m2[t.id()] == t.page(),
        t is Node ==> all_stored(t->kids, m) && clear(t->kids, t.id()),
        forall|x: u32| #[trigger] owns(t, x) && x != t.id() ==> m2.contains_key(x) && m2[x] == m[x],
    ensures
        stored(t, m2),
{
    match t {
        Tree::Leaf { .. } => {},
        Tree::Node { id, keys, kids } => {
            assert forall|j: int| 0 <= j < kids.len() implies stored(#[trigger] kids[j], m2) by {
                assert forall|x: u32| #[trigger] owns(kids[j], x) implies m2.contains_key(x) && m2[x] == m[x] by {
                    kid_owned(t, j, x);
                    assert(x != id);
                }
                stored_frame(kids[j], m, m2);
            }
        },
    }
}

/// The children of joined and cut nodes stand where they did.
pub proof fn parts_stored(a: Tree, sep: Seq<u8>, b: Tree, m: Map<u32, PageView>, at: int, rid: u32)
    requires
        stored(a, m),
        stored(b, m),
        a is Node <==> b is Node,
    ensures
        a is Node ==> {
            let c = join(a, sep, b);
            &&& all_stored(c->kids, m)
            &&& 0 <= at < c->kids.len() ==> all_stored(cut_left(c, at, rid)->kids, m)
            &&& 0 <= at < c->kids.len() ==> all_stored(cut_right(c, at, rid)->kids, m)
        },
{
    if a is Node {
        let c = join(a, sep, b);
        let ka = a->kids;
        let kb = b->kids;
        assert forall|j: int| 0 <= j < c->kids.len() implies stored(#[trigger] c->kids[j], m) by {
            if j < ka.len() {
                assert(c->kids[j] == ka[j]);
            } else {
                assert(c->kids[j] == kb[j - ka.len()]);
            }
        }
        if 0 <= at < c->kids.len() {
            let l = cut_left(c, at, rid)->kids;
            let r = cut_right(c, at, rid)->kids;
            assert forall|j: int| 0 <= j < l.len() implies stored(#[trigger] l[j], m) by {
                assert(l[j] == c->kids[j]);
            }
            assert forall|j: int| 0 <= j < r.len() implies stored(#[trigger] r[j], m) by {
                assert(r[j] == c->kids[at + 1 + j]);
            }
        }
    }
}

/// A node one of whose children has too few keys.
pub open spec fn lame(m: Map<u32, PageView>, t: Tree, s: Spot, stock: Stock, weak: int) -> bool {
    &&& t is Node
    &&& stored(t, m)
    &&& kids_ok(t->Node_keys, t->kids, s, stock, weak)
    &&& clear(t->kids, t.id())
    &&& 0 <= weak < t->kids.len()
}

/// A node in order again: the same entries in some of the same pages, with no or one key less.
pub open spec fn mended(t: Tree, g: Tree, s: Spot, stock: Stock) -> bool {
    &&& g is Node
    &&& g.id() == t.id()
    &&& first(g) == first(t)
    &&& ok(g, s, Size::Loose, stock)
    &&& entries(g) == entries(t)
    &&& g.top_keys().len() <= t.top_keys().len() <= g.top_keys().len() + 1
    &&& forall|x: u32| #[trigger] owns(g, x) ==> owns(t, x)
}

/// The node after keys have moved between children `i` and `i + 1`.
pub open spec fn rotate(t: Tree, i: int, at: int) -> Tree {
    let a = t->kids[i];
    let b = t->kids[i + 1];
    let c = join(a, t->Node_keys[i], b);
    Tree::Node {
        id: t.id(),
        keys: t->Node_keys.update(i, c.top_keys()[at]),
        kids: t->kids.update(i, cut_left(c, at, b.id())).update(i + 1, cut_right(c, at, b.id())),
    }
}

/// The node after child `i + 1` has been joined to child `i`.
pub open spec fn merge(t: Tree, i: int) -> Tree {
    let c = join(t->kids[i], t->Node_keys[i], t->kids[i + 1]);
    Tree::Node { id: t.id(), keys: t->Node_keys.remove(i), kids: t->kids.remove(i + 1).update(i, c) }
}

proof fn pair_joined(m: Map<u32, PageView>, t: Tree, s: Spot, stock: Stock, weak: int, i: int)
    requires
        lame(m, t, s, stock, weak),
        0 <= i,
        i + 1 < t->kids.len(),
        weak == i || weak == i + 1,
    ensures
        ({
            let keys = t->Node_keys;
            let kids = t->kids;
            let c = join(kids[i], keys[i], kids[i + 1]);
            &&& ok(c, pair_spot(s, keys, kids, i), Size::Loose, stock)
            &&& entries(c) == entries(kids[i]) + entries(kids[i + 1])
            &&& first(c) == first(kids[i])
            &&& c.id() == kids[i].id()
            &&& forall|x: u32| #[trigger] owns(c, x) ==> owns(kids[i], x) || owns(kids[i + 1], x)
            &&& !owns(c, kids[i + 1].id())
            &&& kids[i] is Leaf <==> kids[i + 1] is Leaf
            &&& disjoint(kids[i], kids[i + 1])
        }),
{
    let keys = t->Node_keys;
    let kids = t->kids;
    pair_divided(keys, kids, s, stock, weak, i);
    let a = kids[i];
    let b = kids[i + 1];
    let za = if i == weak {
        Size::Loose
    } else {
        Size::Half
    };
    let zb = if i + 1 == weak {
        Size::Loose
    } else {
        Size::Half
    };
    join_ok(a, keys[i], b, pair_spot(s, keys, kids, i), za, zb, stock);
}

/// Moving keys between neighbours mends a node, if both then have enough keys.
#[verifier::spinoff_prover]
#[verifier::rlimit(40)]
pub proof fn rotated(m: Map<u32, PageView>, t: Tree, s: Spot, stock: Stock, weak: int, i: int, at: int)
    requires
        lame(m, t, s, stock, weak),
        0 <= i,
        i + 1 < t->kids.len(),
        weak == i || weak == i + 1,
        0 <= at < join(t->kids[i], t->Node_keys[i], t->kids[i + 1]).top_keys().len(),
        sized(rotate(t, i, at)->kids[i], Size::Half),
        sized(rotate(t, i, at)->kids[i + 1], Size::Half),
    ensures
        mended(t, rotate(t, i, at), s, stock),
        clear(rotate(t, i, at)->kids, t.id()),
        kids_ok(rotate(t, i, at)->Node_keys, rotate(t, i, at)->kids, s, stock, -1),
        disjoint(rotate(t, i, at)->kids[i], rotate(t, i, at)->kids[i + 1]),
        forall|x: u32| #[trigger]
            owns(rotate(t, i, at)->kids[i], x) ==> owns(t->kids[i], x) || owns(t->kids[i + 1], x),
        forall|x: u32| #[trigger]
            owns(rotate(t, i, at)->kids[i + 1], x) ==> owns(t->kids[i], x) || owns(t->kids[i + 1], x),
{
    let id = t.id();
    let keys = t->Node_keys;
    let kids = t->kids;
    let a = kids[i];
    let b = kids[i + 1];
    let c = join(a, keys[i], b);
    let g = rotate(t, i, at);
    pair_joined(m, t, s, stock, weak, i);
    join_two(keys, kids, s, stock, weak, i, c);
    let keys1 = keys.remove(i);
    let kids1 = kids.remove(i + 1).update(i, c);
    let sc = pair_spot(s, keys, kids, i);
    let l = cut_left(c, at, b.id());
    let r = cut_right(c, at, b.id());
    let sep = c.top_keys()[at];
    cut_ok(c, at, b.id(), sc, Size::Loose, stock);
    assert(g->kids[i] == l);
    assert(g->kids[i + 1] == r);
    resize(l, left_spot(sc, sep, first(r)), Size::Loose, Size::Half, stock);
    resize(r, right_spot(sc, sep), Size::Loose, Size::Half, stock);
    join_spots(keys, kids, s, i, c, i);
    assert(kids1[i] == c);
    assert(owns(b, b.id()));
    assert forall|x: u32| #[trigger] owns(r, x) implies owns(kids1[i], x) || clear(kids1, x) by {
        if x == b.id() {
            joined_clear(kids, i, c, x);
        }
    }
    split_one(keys1, kids1, s, stock, i, i, l, sep, r);
    assert(keys1.insert(i, sep) =~= g->Node_keys);
    assert(kids1.update(i, l).insert(i + 1, r) =~= g->kids);
    flat_around_two(kids, i);
    assert(kids1.take(i) =~= kids.take(i));
    assert(kids1.skip(i + 1) =~= kids.skip(i + 2));
    node_entries(id, keys, kids);
    node_entries(id, g->Node_keys, g->kids);
    assert forall|x: u32| #[trigger] owns(g, x) implies owns(t, x) by {
        node_owns(id, g->Node_keys, g->kids, x);
        node_owns(id, keys, kids, x);
        if x != id {
            let j = choose|j: int| 0 <= j < g->kids.len() && owns(#[trigger] g->kids[j], x);
            if j == i || j == i + 1 {
                assert(owns(kids[i], x) || owns(kids[i + 1], x));
            } else {
                assert(g->kids[j] == kids[j]);
            }
        }
    }
    assert forall|j: int| 0 <= j < g->kids.len() implies !owns(#[trigger] g->kids[j], id) by {
        assert(!owns(kids[i], id));
        assert(!owns(kids[i + 1], id));
        if j != i && j != i + 1 {
            assert(g->kids[j] == kids[j]);
        }
    }
    node_ok(id, g->Node_keys, g->kids, s, Size::Loose, stock);
    if i > 0 {
        assert(g->kids[0] == kids[0]);
    }
}

proof fn joined_clear(kids: Seq<Tree>, i: int, c: Tree, x: u32)
    requires
        apart(kids),
        0 <= i,
        i + 1 < kids.len(),
        owns(kids[i + 1], x),
        !owns(c, x),
    ensures
        clear(kids.remove(i + 1).update(i, c), x),
{
    let kids1 = kids.remove(i + 1).update(i, c);
    assert forall|j: int| 0 <= j < kids1.len() implies !owns(#[trigger] kids1[j], x) by {
        if j < i {
            assert(kids1[j] == kids[j]);
        } else if j > i {
            assert(kids1[j] == kids[j + 1]);
        }
    }
}

/// Joining neighbours mends a node, if the one then has neither too few nor too many keys.
#[verifier::spinoff_prover]
#[verifier::rlimit(40)]
pub proof fn merged(m: Map<u32, PageView>, t: Tree, s: Spot, stock: Stock, weak: int, i: int)
    requires
        lame(m, t, s, stock, weak),
        0 <= i,
        i + 1 < t->kids.len(),
        weak == i || weak == i + 1,
        sized(join(t->kids[i], t->Node_keys[i], t->kids[i + 1]), Size::Half),
    ensures
        mended(t, merge(t, i), s, stock),
        clear(merge(t, i)->kids, t.id()),
        clear(merge(t, i)->kids, t->kids[i + 1].id()),
        kids_ok(merge(t, i)->Node_keys, merge(t, i)->kids, s, stock, -1),
        forall|x: u32| #[trigger] owns(merge(t, i)->kids[i], x) ==> owns(t->kids[i], x) || owns(t->kids[i + 1], x),
{
    let id = t.id();
    let keys = t->Node_keys;
    let kids = t->kids;
    let a = kids[i];
    let b = kids[i + 1];
    let c = join(a, keys[i], b);
    let g = merge(t, i);
    pair_joined(m, t, s, stock, weak, i);
    join_two(keys, kids, s, stock, weak, i, c);
    assert(g->kids[i] == c);
    firm(g->Node_keys, g->kids, s, stock, i);
    assert(owns(b, b.id()));
    joined_clear(kids, i, c, b.id());
    flat_around_two(kids, i);
    node_entries(id, keys, kids);
    node_entries(id, g->Node_keys, g->kids);
    assert forall|j: int| 0 <= j < g->kids.len() implies !owns(#[trigger] g->kids[j], id) by {
        assert(!owns(kids[i], id));
        assert(!owns(kids[i + 1], id));
        if j < i {
            assert(g->kids[j] == kids[j]);
        } else if j > i {
            assert(g->kids[j] == kids[j + 1]);
        }
    }
    assert forall|x: u32| #[trigger] owns(g, x) implies owns(t, x) by {
        node_owns(id, g->Node_keys, g->kids, x);
        node_owns(id, keys, kids, x);
        if x != id {
            let j = choose|j: int| 0 <= j < g->kids.len() && owns(#[trigger] g->kids[j], x);
            if j < i {
                assert(g->kids[j] == kids[j]);
            } else if j > i {
                assert(g->kids[j] == kids[j + 1]);
            } else {
                assert(owns(kids[i], x) || owns(kids[i + 1], x));
            }
        }
    }
    node_ok(id, g->Node_keys, g->kids, s, Size::Loose, stock);
    if i > 0 {
        assert(g->kids[0] == kids[0]);
    }
}

/// The pages after keys have moved between neighbours hold the new node.
#[verifier::spinoff_prover]
#[verifier::rlimit(40)]
pub proof fn rotated_stored(
    m: Map<u32, PageView>,
    m2: Map<u32, PageView>,
    t: Tree,
    s: Spot,
    stock: Stock,
    weak: int,
    i: int,
    at: int,
)
    requires
        lame(m, t, s, stock, weak),
        0 <= i,
        i + 1 < t->kids.len(),
        weak == i || weak == i + 1,
        0 <= at < join(t->kids[i], t->Node_keys[i], t->kids[i + 1]).top_keys().len(),
        sized(rotate(t, i, at)->kids[i], Size::Half),
        sized(rotate(t, i, at)->kids[i + 1], Size::Half),
        forall|x: u32| #[trigger]
            m.contains_key(x) && x != t.id() && x != t->kids[i].id() && x != t->kids[i + 1].id() ==> m2.contains_key(x)
                && m2[x] == m[x],
        m2.contains_key(t.id()),
        m2[t.id()] == rotate(t, i, at).page(),
        m2.contains_key(t->kids[i].id()),
        m2[t->kids[i].id()] == rotate(t, i, at)->kids[i].page(),
        m2.contains_key(t->kids[i + 1].id()),
        m2[t->kids[i + 1].id()] == rotate(t, i, at)->kids[i + 1].page(),
    ensures
        stored(rotate(t, i, at), m2),
        untouched(m, m2, t),
{
    let id = t.id();
    let keys = t->Node_keys;
    let kids = t->kids;
    let a = kids[i];
    let b = kids[i + 1];
    let c = join(a, keys[i], b);
    let g = rotate(t, i, at);
    let l = g->kids[i];
    let r = g->kids[i + 1];
    rotated(m, t, s, stock, weak, i, at);
    pair_joined(m, t, s, stock, weak, i);
    node_counts(c, pair_spot(s, keys, kids, i), Size::Loose, stock);
    assert(stored(a, m) && stored(b, m));
    parts_stored(a, keys[i], b, m, at, b.id());
    assert(l == cut_left(c, at, b.id()));
    assert(r == cut_right(c, at, b.id()));
    assert(l.id() == a.id() && r.id() == b.id());
    assert(owns(l, l.id()) && owns(r, r.id()));
    assert forall|j: int| 0 <= j < g->kids.len() implies stored(#[trigger] g->kids[j], m2) by {
        let kid = g->kids[j];
        if j == i || j == i + 1 {
            if kid is Node {
                node_kids(
                    kid.id(),
                    kid->Node_keys,
                    kid->kids,
                    kid_spot(s, g->Node_keys, g->kids, j),
                    Size::Half,
                    stock,
                );
            }
            assert forall|x: u32| #[trigger] owns(kid, x) && x != kid.id() implies m2.contains_key(x) && m2[x]
                == m[x] by {
                assert(owns(a, x) || owns(b, x));
                if owns(a, x) {
                    owned_stored(a, m, x);
                } else {
                    owned_stored(b, m, x);
                }
                if j == i {
                    assert(!owns(r, x));
                } else {
                    assert(!owns(l, x));
                }
                assert(x != id);
            }
            restored(kid, m, m2);
        } else {
            assert(kid == kids[j]);
            assert(stored(kid, m));
            assert forall|x: u32| #[trigger] owns(kid, x) implies m2.contains_key(x) && m2[x] == m[x] by {
                owned_stored(kid, m, x);
                assert(owns(a, a.id()) && owns(b, b.id()));
                assert(owns(kids[j], x));
                assert(!(owns(kids[j], a.id()) && owns(kids[i], a.id())));
                assert(!(owns(kids[j], b.id()) && owns(kids[i + 1], b.id())));
            }
            stored_frame(kid, m, m2);
        }
    }
    node_stored(id, g->Node_keys, g->kids, m2);
    assert forall|x: u32| #[trigger] m.contains_key(x) && !owns(t, x) implies m2.contains_key(x) && m2[x] == m[x] by {
        node_owns(id, keys, kids, x);
        assert(!owns(kids[i], x) && !owns(kids[i + 1], x));
    }
}

/// The pages after neighbours have been joined hold the new node.
#[verifier::spinoff_prover]
#[verifier::rlimit(40)]
pub proof fn merged_stored(
    m: Map<u32, PageView>,
    m2: Map<u32, PageView>,
    t: Tree,
    s: Spot,
    stock: Stock,
    weak: int,
    i: int,
)
    requires
        lame(m, t, s, stock, weak),
        0 <= i,
        i + 1 < t->kids.len(),
        weak == i || weak == i + 1,
        sized(join(t->kids[i], t->Node_keys[i], t->kids[i + 1]), Size::Half),
        forall|x: u32| #[trigger]
            m.contains_key(x) && x != t.id() && x != t->kids[i].id() && x != t->kids[i + 1].id() ==> m2.contains_key(x)
                && m2[x] == m[x],
        m2.contains_key(t.id()),
        m2[t.id()] == merge(t, i).page(),
        m2.contains_key(t->kids[i].id()),
        m2[t->kids[i].id()] == merge(t, i)->kids[i].page(),
    ensures
        stored(merge(t, i), m2),
        untouched(m, m2, t),
{
    let id = t.id();
    let keys = t->Node_keys;
    let kids = t->kids;
    let a = kids[i];
    let b = kids[i + 1];
    let c = join(a, keys[i], b);
    let g = merge(t, i);
    merged(m, t, s, stock, weak, i);
    pair_joined(m, t, s, stock, weak, i);
    assert(stored(a, m) && stored(b, m));
    parts_stored(a, keys[i], b, m, 0, 0);
    assert(g->kids[i] == c);
    assert(owns(b, b.id()) && owns(a, a.id()) && owns(c, c.id()));
    assert forall|j: int| 0 <= j < g->kids.len() implies stored(#[trigger] g->kids[j], m2) by {
        let kid = g->kids[j];
        assert(!owns(kid, b.id()));
        assert(!owns(kid, id));
        if j == i {
            if kid is Node {
                node_kids(
                    kid.id(),
                    kid->Node_keys,
                    kid->kids,
                    kid_spot(s, g->Node_keys, g->kids, j),
                    Size::Half,
                    stock,
                );
            }
            assert forall|x: u32| #[trigger] owns(kid, x) && x != kid.id() implies m2.contains_key(x) && m2[x]
                == m[x] by {
                assert(owns(a, x) || owns(b, x));
                if owns(a, x) {
                    owned_stored(a, m, x);
                } else {
                    owned_stored(b, m, x);
                }
            }
            restored(kid, m, m2);
        } else {
            let j0 = if j < i {
                j
            } else {
                j + 1
            };
            assert(kid == kids[j0]);
            assert(stored(kid, m));
            assert forall|x: u32| #[trigger] owns(kid, x) implies m2.contains_key(x) && m2[x] == m[x] by {
                owned_stored(kid, m, x);
                assert(!(owns(kids[j0], a.id()) && owns(kids[i], a.id())));
            }
            stored_frame(kid, m, m2);
        }
    }
    node_stored(id, g->Node_keys, g->kids, m2);
    assert forall|x: u32| #[trigger] m.contains_key(x) && !owns(t, x) implies m2.contains_key(x) && m2[x] == m[x] by {
        node_owns(id, keys, kids, x);
        assert(!owns(kids[i], x) && !owns(kids[i + 1], x));
    }
}

/// The leaves below the first `n` children, in order; of a leaf the leaf itself.
pub open spec fn leaf_run(t: Tree, n: nat) -> Seq<Tree>
    decreases t, n,
{
    match t {
        Tree::Leaf { .. } => seq![t],
        Tree::Node { kids, .. } => if n == 0 || n > kids.len() {
            Seq::empty()
        } else {
            leaf_run(t, (n - 1) as nat) + leaf_run(kids[n - 1], width(kids[n - 1]))
        },
    }
}

/// The leaves of a tree, in order.
#[verifier::opaque]
pub open spec fn leaves(t: Tree) -> Seq<Tree> {
    leaf_run(t, width(t))
}

/// The leaves of trees one after the other.
pub open spec fn all_leaves(kids: Seq<Tree>) -> Seq<Tree>
    decreases kids.len(),
{
    if kids.len() == 0 {
        Seq::empty()
    } else {
        all_leaves(kids.drop_last()) + leaves(kids.last())
    }
}

/// A leaf has itself for its only leaf.
pub proof fn leaf_leaves(t: Tree)
    requires
        t is Leaf,
    ensures
        leaves(t) == seq![t],
{
    reveal(leaves);
}

proof fn leaf_run_flat(t: Tree, n: nat)
    requires
        t is Node,
        n <= t->kids.len(),
    ensures
        leaf_run(t, n) == all_leaves(t->kids.take(n as int)),
    decreases n,
{
    reveal(leaves);
    let kids = t->kids;
    if n == 0 {
        assert(kids.take(0) =~= Seq::empty());
    } else {
        leaf_run_flat(t, (n - 1) as nat);
        assert(kids.take(n as int).drop_last() =~= kids.take(n - 1));
        assert(kids.take(n as int).last() == kids[n - 1]);
    }
}

/// The leaves of a node are those of its children.
pub proof fn node_leaves(id: u32, keys: Seq<Seq<u8>>, kids: Seq<Tree>)
    ensures
        leaves(Tree::Node { id, keys, kids }) == all_leaves(kids),
{
    reveal(leaves);
    let t = Tree::Node { id, keys, kids };
    leaf_run_flat(t, kids.len());
    assert(kids.take(kids.len() as int) =~= kids);
}

pub proof fn all_leaves_append(a: Seq<Tree>, b: Seq<Tree>)
    ensures
        all_leaves(a + b) == all_leaves(a) + all_leaves(b),
    decreases b.len(),
{
    if b.len() == 0 {
        assert(a + b =~= a);
        assert(all_leaves(a) + all_leaves(b) =~= all_leaves(a));
    } else {
        assert((a + b).drop_last() =~= a + b.drop_last());
        all_leaves_append(a, b.drop_last());
        assert(all_leaves(a) + (all_leaves(b.drop_last()) + leaves(b.last())) =~= all_leaves(a) + all_leaves(
            b.drop_last(),
        ) + leaves(b.last()));
    }
}

/// The leaves of trees, one of them set apart.
pub proof fn all_leaves_around(kids: Seq<Tree>, i: int)
    requires
        0 <= i < kids.len(),
    ensures
        all_leaves(kids) == all_leaves(kids.take(i)) + leaves(kids[i]) + all_leaves(kids.skip(i + 1)),
{
    let a = kids.take(i);
    let b = kids.skip(i + 1);
    assert(kids =~= a.push(kids[i]) + b);
    all_leaves_append(a.push(kids[i]), b);
    assert(a.push(kids[i]).drop_last() =~= a);
}

/// The leaves stand in these pages, each pointing to the next, the last one to `tail`.
pub open spec fn chain(ls: Seq<Tree>, tail: u32, m: Map<u32, PageView>) -> bool {
    &&& forall|i: int|
        0 <= i < ls.len() ==> (#[trigger] ls[i]) is Leaf && stored(ls[i], m) && ls[i]->Leaf_keys.len()
            == ls[i]->values.len()
    &&& forall|i: int|
        0 <= i < ls.len() ==> #[trigger] (ls[i]->next) == if i + 1 < ls.len() {
            ls[i + 1].id()
        } else {
            tail
        }
}

/// Each leaf belongs to the tree, and no page occurs twice.
pub open spec fn leaves_owned(t: Tree) -> bool {
    &&& forall|i: int| 0 <= i < leaves(t).len() ==> owns(t, (#[trigger] leaves(t)[i]).id())
    &&& numbers(leaves(t)).no_duplicates()
}

pub proof fn flat_of_leaves(kids: Seq<Tree>)
    requires
        forall|j: int| 0 <= j < kids.len() ==> flat(leaves(#[trigger] kids[j])) == entries(kids[j]),
    ensures
        flat(all_leaves(kids)) == flat(kids),
    decreases kids.len(),
{
    if kids.len() > 0 {
        let front = kids.drop_last();
        assert forall|j: int| 0 <= j < front.len() implies flat(leaves(#[trigger] front[j])) == entries(front[j]) by {
            assert(front[j] == kids[j]);
        }
        flat_of_leaves(front);
        let last = kids[kids.len() - 1];
        flat_append(all_leaves(front), leaves(last));
    }
}

/// One of the first `n` trees has a node in this page.
spec fn held(kids: Seq<Tree>, n: int, x: u32) -> bool {
    exists|j: int| 0 <= j < n && owns(#[trigger] kids[j], x)
}

proof fn chain_append(a: Seq<Tree>, b: Seq<Tree>, mid: u32, tail: u32, m: Map<u32, PageView>)
    requires
        chain(a, mid, m),
        chain(b, tail, m),
        b.len() > 0,
        b[0].id() == mid,
    ensures
        chain(a + b, tail, m),
{
    let ls = a + b;
    assert forall|i: int| 0 <= i < ls.len() implies (#[trigger] ls[i]) is Leaf && stored(ls[i], m)
        && ls[i]->Leaf_keys.len() == ls[i]->values.len() by {
        if i < a.len() {
            assert(ls[i] == a[i]);
        } else {
            assert(ls[i] == b[i - a.len()]);
        }
    }
    assert forall|i: int| 0 <= i < ls.len() implies #[trigger] (ls[i]->next) == if i + 1 < ls.len() {
        ls[i + 1].id()
    } else {
        tail
    } by {
        if i < a.len() {
            assert(a[i]->next == if i + 1 < a.len() {
                a[i + 1].id()
            } else {
                mid
            });
        } else {
            let j = i - a.len();
            assert(b[j]->next == if j + 1 < b.len() {
                b[j + 1].id()
            } else {
                tail
            });
        }
    }
}

proof fn distinct_append(kids: Seq<Tree>, n: int, a: Seq<Tree>, b: Seq<Tree>)
    requires
        apart(kids),
        0 < n <= kids.len(),
        numbers(a).no_duplicates(),
        numbers(b).no_duplicates(),
        forall|i: int| 0 <= i < a.len() ==> held(kids, n - 1, (#[trigger] a[i]).id()),
        forall|i: int| 0 <= i < b.len() ==> owns(kids[n - 1], (#[trigger] b[i]).id()),
    ensures
        numbers(a + b).no_duplicates(),
        forall|i: int| 0 <= i < (a + b).len() ==> held(kids, n, (#[trigger] (a + b)[i]).id()),
{
    let ls = a + b;
    assert forall|i: int| 0 <= i < ls.len() implies held(kids, n, (#[trigger] ls[i]).id()) by {
        if i < a.len() {
            assert(ls[i] == a[i]);
            let j = choose|j: int| 0 <= j < n - 1 && owns(#[trigger] kids[j], a[i].id());
            assert(owns(kids[j], ls[i].id()));
        } else {
            assert(ls[i] == b[i - a.len()]);
            assert(owns(kids[n - 1], ls[i].id()));
        }
    }
    assert forall|p: int, q: int| 0 <= p < q < ls.len() implies numbers(ls)[p] != numbers(ls)[q] by {
        if q < a.len() {
            assert(numbers(a)[p] != numbers(a)[q]);
        } else if p >= a.len() {
            assert(numbers(b)[p - a.len()] != numbers(b)[q - a.len()]);
        } else {
            let x = a[p].id();
            assert(held(kids, n - 1, x));
            let j = choose|j: int| 0 <= j < n - 1 && owns(#[trigger] kids[j], x);
            let y = b[q - a.len()].id();
            assert(owns(kids[n - 1], y));
            assert(owns(kids[j], x));
        }
    }
}

proof fn chain_upto(keys: Seq<Seq<u8>>, kids: Seq<Tree>, s: Spot, stock: Stock, m: Map<u32, PageView>, n: int)
    requires
        kids_ok(keys, kids, s, stock, -1),
        0 < n <= kids.len(),
        forall|j: int|
            0 <= j < kids.len() ==> {
                &&& leaves(#[trigger] kids[j]).len() > 0
                &&& leaves(kids[j])[0].id() == first(kids[j])
                &&& chain(leaves(kids[j]), kid_spot(s, keys, kids, j).tail, m)
                &&& leaves_owned(kids[j])
            },
    ensures
        ({
            let ls = all_leaves(kids.take(n));
            &&& ls.len() > 0
            &&& ls[0].id() == first(kids[0])
            &&& chain(ls, kid_spot(s, keys, kids, n - 1).tail, m)
            &&& numbers(ls).no_duplicates()
            &&& forall|i: int| 0 <= i < ls.len() ==> held(kids, n, (#[trigger] ls[i]).id())
        }),
    decreases n,
{
    let b = leaves(kids[n - 1]);
    assert(kids.take(n).drop_last() =~= kids.take(n - 1));
    let a = all_leaves(kids.take(n - 1));
    assert(all_leaves(kids.take(n)) == a + b);
    assert(leaves_owned(kids[n - 1]));
    if n == 1 {
        assert(kids.take(0) =~= Seq::empty());
        assert(a =~= Seq::empty());
        assert(numbers(a).no_duplicates());
        distinct_append(kids, n, a, b);
        assert(a + b =~= b);
    } else {
        chain_upto(keys, kids, s, stock, m, n - 1);
        assert(kid_spot(s, keys, kids, n - 2).tail == first(kids[n - 1]));
        chain_append(a, b, first(kids[n - 1]), kid_spot(s, keys, kids, n - 1).tail, m);
        distinct_append(kids, n, a, b);
    }
}

/// The leaves of a tree in order form a chain that holds its entries.
#[verifier::spinoff_prover]
#[verifier::rlimit(40)]
pub proof fn leaves_chained(t: Tree, s: Spot, size: Size, stock: Stock, m: Map<u32, PageView>)
    requires
        ok(t, s, size, stock),
        stored(t, m),
    ensures
        leaves(t).len() > 0,
        leaves(t)[0].id() == first(t),
        chain(leaves(t), s.tail, m),
        flat(leaves(t)) == entries(t),
        leaves_owned(t),
    decreases t,
{
    node_counts(t, s, size, stock);
    match t {
        Tree::Leaf { .. } => {
            leaf_leaves(t);
            flat_one(t);
        },
        Tree::Node { id, keys, kids } => {
            node_kids(id, keys, kids, s, size, stock);
            assert forall|j: int| 0 <= j < kids.len() implies {
                &&& leaves(#[trigger] kids[j]).len() > 0
                &&& leaves(kids[j])[0].id() == first(kids[j])
                &&& chain(leaves(kids[j]), kid_spot(s, keys, kids, j).tail, m)
                &&& leaves_owned(kids[j])
                &&& flat(leaves(kids[j])) == entries(kids[j])
            } by {
                let kid = kids[j];
                leaves_chained(kid, kid_spot(s, keys, kids, j), Size::Half, stock, m);
            }
            chain_upto(keys, kids, s, stock, m, kids.len() as int);
            assert(kids.take(kids.len() as int) =~= kids);
            node_leaves(id, keys, kids);
            flat_of_leaves(kids);
            node_entries(id, keys, kids);
            assert forall|i: int| 0 <= i < leaves(t).len() implies owns(t, (#[trigger] leaves(t)[i]).id()) by {
                let x = leaves(t)[i].id();
                assert(held(kids, kids.len() as int, x));
                let j = choose|j: int| 0 <= j < kids.len() && owns(#[trigger] kids[j], x);
                kid_owned(t, j, x);
            }
        },
    }
}

/// There are fewer leaves than pages.
pub proof fn leaves_bounded(t: Tree, s: Spot, size: Size, stock: Stock, m: Map<u32, PageView>, n: u32)
    requires
        ok(t, s, size, stock),
        stored(t, m),
        forall|x: u32| #[trigger] m.contains_key(x) ==> 0 < x < n,
    ensures
        leaves(t).len() < n,
{
    leaves_chained(t, s, size, stock, m);
    let ids = numbers(leaves(t));
    assert forall|i: int| 0 <= i < ids.len() implies 0 < #[trigger] ids[i] < n by {
        assert(ids[i] == leaves(t)[i].id());
        owned_stored(t, m, ids[i]);
    }
    few_numbers(ids, n);
}

/// The key lies in the range from `lo` on, up to but without `hi`.
pub open spec fn in_range(k: Seq<u8>, lo: Seq<u8>, hi: Option<Seq<u8>>) -> bool {
    &&& le(lo, k)
    &&& hi matches Some(h) ==> lt(k, h)
}

/// The entries whose keys lie in a range, in order.
pub open spec fn ranged(
    all: Seq<(Seq<u8>, Seq<u8>)>,
    part: Seq<(Seq<u8>, Seq<u8>)>,
    lo: Seq<u8>,
    hi: Option<Seq<u8>>,
) -> bool {
    &&& sorted(part)
    &&& forall|e: (Seq<u8>, Seq<u8>)| #[trigger] part.contains(e) <==> all.contains(e) && in_range(e.0, lo, hi)
}

/// A node above the leaves has this key.
pub open spec fn separates(t: Tree, k: Seq<u8>) -> bool
    decreases t,
{
    match t {
        Tree::Leaf { .. } => false,
        Tree::Node { keys, kids, .. } => keys.contains(k) || exists|j: int|
            0 <= j < kids.len() && separates(#[trigger] kids[j], k),
    }
}

/// The tree has an entry for this key.
pub open spec fn has_key(e: Seq<(Seq<u8>, Seq<u8>)>, k: Seq<u8>) -> bool {
    exists|v: Seq<u8>| #[trigger] e.contains((k, v))
}

/// What a tree holds and no more.
pub open spec fn stock_of(t: Tree) -> Stock {
    Stock {
        keys: Set::new(|k: Seq<u8>| separates(t, k) || has_key(entries(t), k)),
        pairs: Set::new(|e: (Seq<u8>, Seq<u8>)| entries(t).contains(e)),
        few: false,
    }
}

/// Everything.
pub open spec fn any_stock() -> Stock {
    Stock { keys: Set::full(), pairs: Set::full(), few: false }
}

/// One entry more.
pub open spec fn stocked(stock: Stock, k: Seq<u8>, v: Seq<u8>) -> Stock {
    Stock { keys: stock.keys.insert(k), pairs: stock.pairs.insert((k, v)), few: stock.few }
}

/// One stock is part of another.
pub open spec fn part_of(a: Stock, b: Stock) -> bool {
    a.keys.subset_of(b.keys) && a.pairs.subset_of(b.pairs)
}

#[verifier::spinoff_prover]
#[verifier::rlimit(40)]
proof fn separates_stocked(t: Tree, s: Spot, size: Size, stock: Stock, k: Seq<u8>)
    requires
        ok(t, s, size, stock),
        separates(t, k),
    ensures
        stock.keys.contains(k),
    decreases t,
{
    match t {
        Tree::Leaf { .. } => {},
        Tree::Node { id, keys, kids } => {
            node_kids(id, keys, kids, s, size, stock);
            if keys.contains(k) {
                let i = choose|i: int| 0 <= i < keys.len() && keys[i] == k;
                assert(within(s, keys[i]));
            } else {
                let j = choose|j: int| 0 <= j < kids.len() && separates(#[trigger] kids[j], k);
                let kid = kids[j];
                separates_stocked(kid, kid_spot(s, keys, kids, j), Size::Half, stock, k);
            }
        },
    }
}

proof fn kid_separates(t: Tree, j: int, k: Seq<u8>)
    requires
        t is Node,
        0 <= j < t->kids.len(),
        separates(t->kids[j], k),
    ensures
        separates(t, k),
{
}

proof fn kid_stock(id: u32, keys: Seq<Seq<u8>>, kids: Seq<Tree>, j: int)
    requires
        0 <= j < kids.len(),
    ensures
        part_of(stock_of(kids[j]), stock_of(Tree::Node { id, keys, kids })),
{
    let t = Tree::Node { id, keys, kids };
    node_entries(id, keys, kids);
    let a = stock_of(kids[j]);
    let b = stock_of(t);
    assert forall|e: (Seq<u8>, Seq<u8>)| entries(kids[j]).contains(e) implies entries(t).contains(e) by {
        flat_contains(kids, e);
    }
    assert forall|k: Seq<u8>| a.keys.contains(k) implies b.keys.contains(k) by {
        if separates(kids[j], k) {
            kid_separates(t, j, k);
        } else {
            let v = choose|v: Seq<u8>| #[trigger] entries(kids[j]).contains((k, v));
            assert(entries(t).contains((k, v)));
        }
    }
}

/// A tree in order is in order within its own stock, which is part of any other.
#[verifier::spinoff_prover]
#[verifier::rlimit(40)]
pub proof fn tight(t: Tree, s: Spot, size: Size, stock: Stock)
    requires
        ok(t, s, size, stock),
    ensures
        ok(t, s, size, stock_of(t)),
        part_of(stock_of(t), stock),
    decreases t,
{
    let own = stock_of(t);
    assert forall|e: (Seq<u8>, Seq<u8>)| own.pairs.contains(e) implies stock.pairs.contains(e) by {
        entries_within(t, s, size, stock, e);
    }
    assert forall|k: Seq<u8>| own.keys.contains(k) implies stock.keys.contains(k) by {
        if separates(t, k) {
            separates_stocked(t, s, size, stock, k);
        } else {
            let v = choose|v: Seq<u8>| #[trigger] entries(t).contains((k, v));
            entries_within(t, s, size, stock, (k, v));
        }
    }
    match t {
        Tree::Leaf { id, keys, values, next } => {
            leaf_entries(id, keys, values, next);
            tight_leaf(t, s, size, stock);
        },
        Tree::Node { id, keys, kids } => {
            node_kids(id, keys, kids, s, size, stock);
            node_counts(t, s, size, stock);
            assert forall|j: int| 0 <= j < kids.len() implies ok(
                #[trigger] kids[j],
                kid_spot(s, keys, kids, j),
                Size::Half,
                own,
            ) by {
                let kid = kids[j];
                let ks = kid_spot(s, keys, kids, j);
                tight(kid, ks, Size::Half, stock);
                kid_stock(id, keys, kids, j);
                restock(kid, ks, Size::Half, stock_of(kid), own);
            }
            assert forall|i: int| 0 <= i < keys.len() implies within(s, #[trigger] keys[i]) && own.keys.contains(
                keys[i],
            ) by {
                assert(keys.contains(keys[i]));
            }
            assert(kids_ok(keys, kids, s, own, -1));
            node_ok(id, keys, kids, s, size, own);
        },
    }
}

proof fn tight_leaf(t: Tree, s: Spot, size: Size, stock: Stock)
    requires
        t is Leaf,
        ok(t, s, size, stock),
    ensures
        ok(t, s, size, stock_of(t)),
{
    reveal(ok);
    let keys = t->Leaf_keys;
    let values = t->values;
    leaf_entries(t.id(), keys, values, t->next);
    assert forall|i: int| 0 <= i < keys.len() implies within(s, #[trigger] keys[i]) && stock_of(t).pairs.contains(
        (keys[i], values[i]),
    ) && stock_of(t).keys.contains(keys[i]) by {
        assert(entries(t)[i] == (keys[i], values[i]));
        assert(entries(t).contains((keys[i], values[i])));
    }
}

/// Part of a stock with room has room.
pub proof fn roomy_part(a: Stock, b: Stock)
    requires
        part_of(a, b),
        roomy(b),
    ensures
        roomy(a),
{
    assert forall|keys: Seq<Seq<u8>>, values: Seq<Seq<u8>>, next: u32|
        keys.len() <= MAX_KEYS_LEAF && keys.len() == values.len() && ascending(keys) && (forall|i: int|
            0 <= i < keys.len() ==> a.pairs.contains((#[trigger] keys[i], values[i]))) implies #[trigger] fits(
        PageView::Leaf { keys, values, next },
    ) by {
        assert forall|i: int| 0 <= i < keys.len() implies b.pairs.contains((#[trigger] keys[i], values[i])) by {}
    }
    assert forall|keys: Seq<Seq<u8>>, children: Seq<u32>|
        keys.len() <= MAX_KEYS_INTERNAL && children.len() == keys.len() + 1 && ascending(keys) && (forall|i: int|
            0 <= i < keys.len() ==> a.keys.contains(#[trigger] keys[i])) implies #[trigger] fits(
        PageView::Internal { keys, children },
    ) by {
        assert forall|i: int| 0 <= i < keys.len() implies b.keys.contains(#[trigger] keys[i]) by {}
    }
}

/// A tree is determined by the pages it stands in and the number of its root.
pub proof fn tree_unique(a: Tree, b: Tree, m: Map<u32, PageView>)
    requires
        stored(a, m),
        stored(b, m),
        a.id() == b.id(),
    ensures
        a == b,
    decreases a,
{
    match (a, b) {
        (Tree::Node { id, keys, kids }, Tree::Node { keys: keys2, kids: kids2, .. }) => {
            assert(numbers(kids) == numbers(kids2));
            assert(kids.len() == numbers(kids2).len());
            assert forall|j: int| 0 <= j < kids.len() implies kids[j] == kids2[j] by {
                assert(numbers(kids)[j] == numbers(kids2)[j]);
                assert(stored(kids[j], m));
                assert(stored(kids2[j], m));
                tree_unique(kids[j], kids2[j], m);
            }
            assert(kids =~= kids2);
        },
        _ => {},
    }
}

/// The entries as a map.
pub open spec fn map_of(e: Seq<(Seq<u8>, Seq<u8>)>) -> Map<Seq<u8>, Seq<u8>> {
    Map::new(|k: Seq<u8>| has_key(e, k), |k: Seq<u8>| choose|v: Seq<u8>| #[trigger] e.contains((k, v)))
}

/// Sorted entries are as many as their keys.
pub proof fn map_of_len(e: Seq<(Seq<u8>, Seq<u8>)>)
    requires
        sorted(e),
    ensures
        map_of(e).dom().len() == e.len(),
        map_of(e).dom().finite(),
{
    broadcast use group_order;

    let keys = Seq::new(e.len(), |i: int| e[i].0);
    assert forall|i: int, j: int| 0 <= i < j < keys.len() implies keys[i] != keys[j] by {
        assert(lt(e[i].0, e[j].0));
    }
    assert(keys.no_duplicates());
    keys.unique_seq_to_set();
    vstd::seq_lib::seq_to_set_is_finite(keys);
    assert forall|k: Seq<u8>| map_of(e).dom().contains(k) <==> keys.to_set().contains(k) by {
        if has_key(e, k) {
            let v = choose|v: Seq<u8>| #[trigger] e.contains((k, v));
            let i = choose|i: int| 0 <= i < e.len() && e[i] == (k, v);
            assert(keys[i] == k);
        }
        if keys.contains(k) {
            let i = choose|i: int| 0 <= i < keys.len() && keys[i] == k;
            assert(e[i] == (k, e[i].1));
            assert(e.contains((k, e[i].1)));
        }
    }
    assert(map_of(e).dom() =~= keys.to_set());
}

/// Of sorted entries, each key has one value.
pub proof fn map_of_sorted(e: Seq<(Seq<u8>, Seq<u8>)>, k: Seq<u8>, v: Seq<u8>)
    requires
        sorted(e),
    ensures
        e.contains((k, v)) <==> map_of(e).contains_key(k) && map_of(e)[k] == v,
{
    broadcast use group_order;

    if has_key(e, k) {
        let w = choose|w: Seq<u8>| #[trigger] e.contains((k, w));
        if e.contains((k, v)) {
            let i = choose|i: int| 0 <= i < e.len() && e[i] == (k, v);
            let j = choose|j: int| 0 <= j < e.len() && e[j] == (k, w);
            if i < j {
                assert(lt(e[i].0, e[j].0));
            } else if j < i {
                assert(lt(e[j].0, e[i].0));
            }
        }
    }
}

/// Setting a key in sorted entries sets it in the map.
pub proof fn map_inserted(a: Seq<(Seq<u8>, Seq<u8>)>, b: Seq<(Seq<u8>, Seq<u8>)>, k: Seq<u8>, v: Seq<u8>)
    requires
        sorted(a),
        sorted(b),
        inserted(a, b, k, v),
    ensures
        map_of(b) == map_of(a).insert(k, v),
{
    let m = map_of(a).insert(k, v);
    assert forall|x: Seq<u8>| #![auto]
        map_of(b).contains_key(x) <==> m.contains_key(x) by {
        if map_of(b).contains_key(x) {
            let y = choose|y: Seq<u8>| #[trigger] b.contains((x, y));
            if x != k {
                assert(a.contains((x, y)));
            }
        }
        if m.contains_key(x) {
            if x == k {
                assert(b.contains((k, v)));
            } else {
                let y = choose|y: Seq<u8>| #[trigger] a.contains((x, y));
                assert(b.contains((x, y)));
            }
        }
    }
    assert forall|x: Seq<u8>| #![auto] map_of(b).contains_key(x) implies map_of(b)[x] == m[x] by {
        let y = map_of(b)[x];
        map_of_sorted(b, x, y);
        if x == k {
            assert(b.contains((x, y)));
        } else {
            assert(a.contains((x, y)));
            map_of_sorted(a, x, y);
        }
    }
    assert(map_of(b) =~= m);
}

/// Removing a key from sorted entries removes it from the map.
pub proof fn map_removed(a: Seq<(Seq<u8>, Seq<u8>)>, b: Seq<(Seq<u8>, Seq<u8>)>, k: Seq<u8>)
    requires
        sorted(a),
        sorted(b),
        removed(a, b, k),
    ensures
        map_of(b) == map_of(a).remove(k),
{
    let m = map_of(a).remove(k);
    assert forall|x: Seq<u8>| #![auto]
        map_of(b).contains_key(x) <==> m.contains_key(x) by {
        if map_of(b).contains_key(x) {
            let y = choose|y: Seq<u8>| #[trigger] b.contains((x, y));
            assert(a.contains((x, y)));
        }
        if m.contains_key(x) {
            let y = choose|y: Seq<u8>| #[trigger] a.contains((x, y));
            assert(b.contains((x, y)));
        }
    }
    assert forall|x: Seq<u8>| #![auto] map_of(b).contains_key(x) implies map_of(b)[x] == m[x] by {
        let y = map_of(b)[x];
        map_of_sorted(b, x, y);
        assert(a.contains((x, y)));
        map_of_sorted(a, x, y);
    }
    assert(map_of(b) =~= m);
}

} // verus!
