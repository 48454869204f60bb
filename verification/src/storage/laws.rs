//! What reading gives back of writing, and how lists of entries hang together.
use vstd::prelude::*;

use crate::bytes::{ascending, empty_is_least, group_order, le, lt};
use crate::ints::group_ints;
use crate::storage::btree::rooted;
use crate::storage::page::{blocks, fits, pairs, words, PageView, PAGE_SIZE};
use crate::storage::pager::{pages_of, sound};
use crate::storage::store::{changed, contents_of, first_tree, lists, lists_all, Store};
use crate::storage::tree::{
    any_stock, in_range, roomy, sorted, stored, tree_unique, Stock, Tree, MAX_KEYS_INTERNAL,
    MAX_KEYS_LEAF,
};

verus! {

/// A key that was set has its value; every other key, and every other tree, is as it was.
pub proof fn put_is_read_back(
    before: Map<u32, Map<Seq<u8>, Seq<u8>>>,
    after: Map<u32, Map<Seq<u8>, Seq<u8>>>,
    root: u32,
    root2: u32,
    key: Seq<u8>,
    value: Seq<u8>,
)
    requires
        before.contains_key(root),
        changed(before, after, root, root2, before[root].insert(key, value), true),
    ensures
        after[root2].contains_key(key) && after[root2][key] == value,
        after[root2].remove(key) == before[root].remove(key),
        forall|q: u32| #[trigger] before.contains_key(q) && q != root ==> after.contains_key(q) && after[q] == before[q],
{
    assert(after[root2].remove(key) =~= before[root].remove(key));
}

/// A key that was removed has no value; every other key, and every other tree, is as it was.
pub proof fn deleted_is_gone(
    before: Map<u32, Map<Seq<u8>, Seq<u8>>>,
    after: Map<u32, Map<Seq<u8>, Seq<u8>>>,
    root: u32,
    root2: u32,
    key: Seq<u8>,
)
    requires
        before.contains_key(root),
        changed(before, after, root, root2, before[root].remove(key), true),
    ensures
        !after[root2].contains_key(key),
        forall|k: Seq<u8>| k != key ==> #[trigger] after[root2].contains_key(k) == before[root].contains_key(k),
        forall|k: Seq<u8>| #[trigger] after[root2].contains_key(k) ==> after[root2][k] == before[root][k],
        forall|q: u32| #[trigger] before.contains_key(q) && q != root ==> after.contains_key(q) && after[q] == before[q],
{
}

/// A range has one list only.
pub proof fn list_is_unique(
    a: Seq<(Seq<u8>, Seq<u8>)>,
    b: Seq<(Seq<u8>, Seq<u8>)>,
    m: Map<Seq<u8>, Seq<u8>>,
    lo: Seq<u8>,
    hi: Option<Seq<u8>>,
)
    requires
        lists(a, m, lo, hi),
        lists(b, m, lo, hi),
    ensures
        a == b,
{
    assert forall|e: (Seq<u8>, Seq<u8>)| #[trigger] a.contains(e) <==> b.contains(e) by {
        assert(a.contains((e.0, e.1)) <==> b.contains((e.0, e.1)));
    }
    sorted_unique(a, b);
}

proof fn sorted_unique(a: Seq<(Seq<u8>, Seq<u8>)>, b: Seq<(Seq<u8>, Seq<u8>)>)
    requires
        sorted(a),
        sorted(b),
        forall|e: (Seq<u8>, Seq<u8>)| #[trigger] a.contains(e) <==> b.contains(e),
    ensures
        a == b,
    decreases a.len(),
{
    broadcast use group_order;

    if a.len() == 0 {
        if b.len() > 0 {
            assert(b.contains(b[0]));
            assert(a.contains(b[0]));
        }
        assert(a =~= b);
    } else {
        assert(a.contains(a.last()));
        assert(b.len() > 0);
        assert(b.contains(b.last()));
        assert(a.contains(b.last()));
        let i = choose|i: int| 0 <= i < a.len() && a[i] == b.last();
        let j = choose|j: int| 0 <= j < b.len() && b[j] == a.last();
        if i < a.len() - 1 && j < b.len() - 1 {
            assert(lt(a[i].0, a[a.len() - 1].0));
            assert(lt(b[j].0, b[b.len() - 1].0));
        }
        assert(a.last() == b.last());
        let a2 = a.drop_last();
        let b2 = b.drop_last();
        assert forall|e: (Seq<u8>, Seq<u8>)| #[trigger] a2.contains(e) <==> b2.contains(e) by {
            if a2.contains(e) {
                let p = choose|p: int| 0 <= p < a2.len() && a2[p] == e;
                assert(a[p] == e);
                assert(a.contains(e));
                assert(lt(a[p].0, a[a.len() - 1].0));
                let q = choose|q: int| 0 <= q < b.len() && b[q] == e;
                assert(b2[q] == e);
            }
            if b2.contains(e) {
                let q = choose|q: int| 0 <= q < b2.len() && b2[q] == e;
                assert(b[q] == e);
                assert(b.contains(e));
                assert(a.contains(e));
                assert(lt(b[q].0, b[b.len() - 1].0));
                let p = choose|p: int| 0 <= p < a.len() && a[p] == e;
                assert(a2[p] == e);
            }
        }
        sorted_unique(a2, b2);
        assert(a =~= a2.push(a.last()));
        assert(b =~= b2.push(b.last()));
    }
}

/// The list of everything is the list of the range from the empty key on.
pub proof fn scan_is_the_whole_range(v: Seq<(Seq<u8>, Seq<u8>)>, m: Map<Seq<u8>, Seq<u8>>)
    ensures
        lists_all(v, m) <==> lists(v, m, Seq::empty(), None),
{
    assert forall|k: Seq<u8>| in_range(k, Seq::empty(), None) by {
        broadcast use group_order;

        empty_is_least(k);
        assert(k == Seq::<u8>::empty() || lt(k, Seq::<u8>::empty()) || lt(Seq::<u8>::empty(), k));
    }
    if lists_all(v, m) {
        assert forall|k: Seq<u8>, x: Seq<u8>| #[trigger]
            v.contains((k, x)) <==> m.contains_key(k) && m[k] == x && in_range(k, Seq::empty(), None) by {
            assert(in_range(k, Seq::empty(), None));
        }
    }
    if lists(v, m, Seq::empty(), None) {
        assert forall|k: Seq<u8>, x: Seq<u8>| #[trigger] v.contains((k, x)) <==> m.contains_key(k) && m[k] == x by {
            assert(in_range(k, Seq::empty(), None));
        }
    }
}

/// The lists of two ranges, one of which begins where the other ends, make the list of both.
pub proof fn adjacent_ranges_join(
    a: Seq<(Seq<u8>, Seq<u8>)>,
    b: Seq<(Seq<u8>, Seq<u8>)>,
    m: Map<Seq<u8>, Seq<u8>>,
    lo: Seq<u8>,
    mid: Seq<u8>,
    hi: Option<Seq<u8>>,
)
    requires
        lists(a, m, lo, Some(mid)),
        lists(b, m, mid, hi),
        le(lo, mid),
        hi matches Some(h) ==> le(mid, h),
    ensures
        lists(a + b, m, lo, hi),
{
    broadcast use group_order;

    let v = a + b;
    assert forall|k: Seq<u8>, x: Seq<u8>| #[trigger] v.contains((k, x)) <==> m.contains_key(k) && m[k] == x && in_range(
        k,
        lo,
        hi,
    ) by {
        if v.contains((k, x)) {
            let i = choose|i: int| 0 <= i < v.len() && v[i] == (k, x);
            if i < a.len() {
                assert(a[i] == (k, x));
                assert(a.contains((k, x)));
            } else {
                assert(b[i - a.len()] == (k, x));
                assert(b.contains((k, x)));
            }
        }
        if m.contains_key(k) && m[k] == x && in_range(k, lo, hi) {
            if lt(k, mid) {
                assert(a.contains((k, x)));
                let i = choose|i: int| 0 <= i < a.len() && a[i] == (k, x);
                assert(v[i] == (k, x));
            } else {
                assert(b.contains((k, x)));
                let i = choose|i: int| 0 <= i < b.len() && b[i] == (k, x);
                assert(v[a.len() + i] == (k, x));
            }
        }
    }
    assert forall|i: int, j: int| 0 <= i < j < v.len() implies lt(#[trigger] v[i].0, #[trigger] v[j].0) by {
        if i < a.len() && j >= a.len() {
            let j0 = j - a.len();
            assert(a.contains((a[i].0, a[i].1)));
            assert(b.contains((b[j0].0, b[j0].1)));
        } else if i >= a.len() {
            assert(lt(b[i - a.len()].0, b[j - a.len()].0));
        } else {
            assert(lt(a[i].0, a[j].0));
        }
    }
}

/// Where keys take at most 12 bytes, and a key and its value at most 32, every page has room for as many
/// as it may hold.
pub proof fn short_entries_are_roomy(stock: Stock)
    requires
        forall|k: Seq<u8>| #[trigger] stock.keys.contains(k) ==> k.len() <= 12,
        forall|k: Seq<u8>, v: Seq<u8>| #[trigger] stock.pairs.contains((k, v)) ==> k.len() + v.len() <= 32,
    ensures
        roomy(stock),
{
    bounded_stock_is_roomy(stock, Set::full(), MAX_KEYS_LEAF as nat, 32, MAX_KEYS_INTERNAL as nat, 12);
}

/// There are no more than so many of something, or a page takes no more anyway.
pub open spec fn at_most<A>(s: Set<A>, n: nat, page: nat) -> bool {
    n >= page || (s.finite() && s.len() <= n)
}

/// A stock has room if an entry for each of its keys, or for as many of them as a page may hold, fit into
/// one page, and so do its separators: `n` entries of at most `p` bytes, with keys from `of`, and `k`
/// separators of at most `q` bytes.
pub proof fn bounded_stock_is_roomy(stock: Stock, of: Set<Seq<u8>>, n: nat, p: nat, k: nat, q: nat)
    requires
        n <= MAX_KEYS_LEAF,
        forall|x: Seq<u8>, v: Seq<u8>| #[trigger] stock.pairs.contains((x, v)) ==> of.contains(x),
        at_most(of, n, MAX_KEYS_LEAF as nat),
        forall|x: Seq<u8>, v: Seq<u8>| #[trigger] stock.pairs.contains((x, v)) ==> x.len() + v.len() <= p,
        7 + (8 + p) * n <= PAGE_SIZE,
        k <= MAX_KEYS_INTERNAL,
        at_most(stock.keys, k, MAX_KEYS_INTERNAL as nat),
        forall|x: Seq<u8>| #[trigger] stock.keys.contains(x) ==> x.len() <= q,
        7 + (8 + q) * k <= PAGE_SIZE,
    ensures
        roomy(stock),
{
    broadcast use {group_ints, group_order};

    assert forall|keys: Seq<Seq<u8>>, values: Seq<Seq<u8>>, next: u32|
        keys.len() <= MAX_KEYS_LEAF && keys.len() == values.len() && ascending(keys) && (forall|i: int|
            0 <= i < keys.len() ==> stock.pairs.contains((#[trigger] keys[i], values[i]))) implies #[trigger] fits(
        PageView::Leaf { keys, values, next },
    ) by {
        assert(keys.no_duplicates()) by {
            assert forall|i: int, j: int| 0 <= i < j < keys.len() implies keys[i] != keys[j] by {
                assert(lt(keys[i], keys[j]));
            }
        }
        assert forall|i: int| 0 <= i < keys.len() implies of.contains(#[trigger] keys[i]) by {
            assert(stock.pairs.contains((keys[i], values[i])));
        }
        no_more_than_set(keys, of);
        assert forall|i: int| 0 <= i < keys.len() implies (#[trigger] keys[i]).len() + values[i].len() <= p by {
            assert(stock.pairs.contains((keys[i], values[i])));
        }
        short_pairs(keys, values, keys.len(), p);
        assert((8 + p) * keys.len() <= (8 + p) * n) by (nonlinear_arith)
            requires
                keys.len() <= n,
        ;
    }
    assert forall|keys: Seq<Seq<u8>>, children: Seq<u32>|
        keys.len() <= MAX_KEYS_INTERNAL && children.len() == keys.len() + 1 && ascending(keys) && (forall|i: int|
            0 <= i < keys.len() ==> stock.keys.contains(#[trigger] keys[i])) implies #[trigger] fits(
        PageView::Internal { keys, children },
    ) by {
        assert(keys.no_duplicates()) by {
            assert forall|i: int, j: int| 0 <= i < j < keys.len() implies keys[i] != keys[j] by {
                assert(lt(keys[i], keys[j]));
            }
        }
        no_more_than_set(keys, stock.keys);
        short_blocks(keys, q);
        words_len(children);
        assert((4 + q) * keys.len() + 4 * keys.len() <= (8 + q) * k) by (nonlinear_arith)
            requires
                keys.len() <= k,
        ;
    }
}

/// Different elements of a set are no more than there are.
proof fn no_more_than_set<A>(es: Seq<A>, s: Set<A>)
    requires
        es.no_duplicates(),
        forall|i: int| 0 <= i < es.len() ==> s.contains(#[trigger] es[i]),
    ensures
        s.finite() ==> es.len() <= s.len(),
{
    if s.finite() {
        es.unique_seq_to_set();
        assert forall|x: A| es.to_set().contains(x) implies s.contains(x) by {
            let i = choose|i: int| 0 <= i < es.len() && es[i] == x;
            assert(s.contains(es[i]));
        }
        vstd::set_lib::lemma_len_subset(es.to_set(), s);
    }
}

proof fn short_pairs(keys: Seq<Seq<u8>>, values: Seq<Seq<u8>>, n: nat, p: nat)
    requires
        n <= keys.len(),
        keys.len() == values.len(),
        forall|i: int| 0 <= i < keys.len() ==> (#[trigger] keys[i]).len() + values[i].len() <= p,
    ensures
        pairs(keys, values, n).len() <= (8 + p) * n,
    decreases n,
{
    broadcast use group_ints;

    if n > 0 {
        short_pairs(keys, values, (n - 1) as nat, p);
        assert(keys[n - 1].len() + values[n - 1].len() <= p);
        assert((8 + p) * n == (8 + p) * (n - 1) + 8 + p) by (nonlinear_arith);
    }
}

proof fn short_blocks(keys: Seq<Seq<u8>>, q: nat)
    requires
        forall|i: int| 0 <= i < keys.len() ==> (#[trigger] keys[i]).len() <= q,
    ensures
        blocks(keys).len() <= (4 + q) * keys.len(),
    decreases keys.len(),
{
    broadcast use group_ints;

    if keys.len() > 0 {
        short_blocks(keys.drop_last(), q);
        assert(keys[keys.len() - 1].len() <= q);
        assert((4 + q) * keys.len() == (4 + q) * (keys.len() - 1) + 4 + q) by (nonlinear_arith);
    }
}

proof fn words_len(s: Seq<u32>)
    ensures
        words(s).len() == 4 * s.len(),
    decreases s.len(),
{
    broadcast use group_ints;

    if s.len() > 0 {
        words_len(s.drop_last());
    }
}

/// The tree that is opened from a file is the one that stands in its first page.
pub proof fn opened_tree_is_the_one_there(m: Map<u32, PageView>, t: Tree)
    requires
        stored(t, m),
        rooted(t, any_stock()),
        t.id() == 1,
    ensures
        first_tree(m) == Map::<u32, Tree>::empty().insert(1, t),
{
    let u = choose|u: Tree| stored(u, m) && rooted(u, any_stock()) && #[trigger] u.id() == 1;
    tree_unique(t, u, m);
}

/// What a saved store holds in the tree with root page 1 is what is opened from its file.
pub proof fn saved_tree_is_opened(s: Store)
    requires
        s.wf(),
        s.saved(),
        s@.contains_key(1),
    ensures
        sound(s.on_file()),
        contents_of(first_tree(pages_of(s.on_file()))) == Map::<u32, Map<Seq<u8>, Seq<u8>>>::empty().insert(1, s@[1]),
{
    s.saved_trees();
    let t = s.forest()[1];
    assert(s.forest().contains_key(1)) by {
        assert(contents_of(s.forest()).contains_key(1));
    }
    opened_tree_is_the_one_there(pages_of(s.on_file()), t);
    assert(contents_of(first_tree(pages_of(s.on_file()))) =~= Map::<u32, Map<Seq<u8>, Seq<u8>>>::empty().insert(1, s@[1]));
}

} // verus!
