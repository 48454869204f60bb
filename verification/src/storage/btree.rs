//! B+ trees over the pages of a pager.
use vstd::prelude::*;

use crate::bytes::{
    ascending, compare, copy, group_order, le, lower_bound, lt, places, search, strings, Standing,
};
use crate::storage::owned::{
    cut_owns, merge_owns, rotate_owns, tidy, tidy_kid, tidy_split_kid, tidy_twice,
};
use crate::storage::page::{
    fits, whole, HeaderPage, InternalPage, LeafPage, Page, PageError, PageView,
};
use crate::storage::pager::{Pager, StorageError};
use crate::storage::tree::{
    all_kept, all_leaves, all_leaves_around, all_stored, apart, around_kid, chain, clear, cut_left,
    cut_ok, cut_right, descend, disjoint, entries, entries_sorted, entries_within, firm, first,
    flat, flat_append, flat_around, flat_contains, flat_of_leaves, flat_one, fresh_clear, has_key,
    height, height_bounded, in_range, inserted, inserted_around, join, kept_stored, kid_replaced,
    kid_split, kid_spot, kids_ok, lame, leaf_entries, leaf_inserted, leaf_leaves, leaf_removed,
    leaf_updated, leaves, leaves_bounded, leaves_chained, left_spot, level_is_height, mended, merge,
    merged, merged_stored, node_counts, node_entries, node_kids, node_leaves, node_ok, node_owns,
    node_sized, node_stored, numbers, ok, owned_stored, owns, page_ok, ranged, removed,
    removed_around, resize, right_spot, roomy, rotate, rotated, rotated_stored, sized, sorted,
    split_spots, stored, stored_frame, taken_from, top, untouched, within, Size, Spot, Stock, Tree,
    MAX_KEYS_INTERNAL, MAX_KEYS_LEAF, MIN_KEYS_INTERNAL, MIN_KEYS_LEAF,
};

verus! {

/// The tree stands in the pages of the pager and is in order.
pub open spec fn holds(pager: Pager, t: Tree, s: Spot, size: Size, stock: Stock) -> bool {
    &&& pager.wf()
    &&& stored(t, pager@)
    &&& ok(t, s, size, stock)
}

/// The pages of the pager are as they were.
pub open spec fn same_pages(a: Pager, b: Pager) -> bool {
    &&& b.wf()
    &&& b@ == a@
    &&& b.page_count() == a.page_count()
    &&& b.free_pages() == a.free_pages()
}

/// A copy of byte strings.
fn copy_strings(v: &Vec<Vec<u8>>) -> (r: Vec<Vec<u8>>)
    ensures
        strings(r@) == strings(v@),
{
    let mut r: Vec<Vec<u8>> = Vec::new();
    let mut i: usize = 0;
    while i < v.len()
        invariant
            i <= v@.len(),
            r@.len() == i,
            forall|j: int| 0 <= j < i ==> (#[trigger] r@[j])@ == v@[j]@,
        decreases v@.len() - i,
    {
        r.push(copy(v[i].as_slice()));
        i += 1;
    }
    assert(strings(r@) =~= strings(v@));
    r
}

/// A copy of page numbers.
fn copy_numbers(v: &Vec<u32>) -> (r: Vec<u32>)
    ensures
        r@ == v@,
{
    vstd::slice::slice_to_vec(v.as_slice())
}

/// The child below which a key belongs.
fn child_index(keys: &Vec<Vec<u8>>, key: &[u8]) -> (i: usize)
    ensures
        i <= keys@.len(),
        ascending(strings(keys@)) ==> {
            &&& i > 0 ==> le(strings(keys@)[i - 1], key@)
            &&& i < keys@.len() ==> lt(key@, strings(keys@)[i as int])
        },
{
    broadcast use group_order;

    let n: usize = keys.len();
    let (found, pos) = search(keys, key);
    if found {
        assert(pos < n);
        proof {
            let ks = strings(keys@);
            if ascending(ks) && pos + 1 < ks.len() {
                assert(lt(ks[pos as int], ks[pos + 1]));
            }
        }
        pos + 1
    } else {
        pos
    }
}

/// A key that a node is responsible for is one that the child found for it is responsible for.
proof fn chosen_kid(keys: Seq<Seq<u8>>, kids: Seq<Tree>, s: Spot, stock: Stock, i: int, k: Seq<u8>)
    requires
        kids_ok(keys, kids, s, stock, -1),
        within(s, k),
        0 <= i <= keys.len(),
        i > 0 ==> le(keys[i - 1], k),
        i < keys.len() ==> lt(k, keys[i]),
    ensures
        0 <= i < kids.len(),
        within(kid_spot(s, keys, kids, i), k),
{
}

/// Look up the value of a key below page `root`.
pub fn find(pager: &mut Pager, root: u32, key: &[u8], Ghost(t): Ghost<Tree>, Ghost(stock): Ghost<Stock>) -> (r: Result<
    Option<Vec<u8>>,
    StorageError,
>)
    ensures
        holds(*old(pager), t, top(height(t)), Size::Root, stock) && t.id() == root ==> {
            &&& same_pages(*old(pager), *final(pager))
            &&& match r {
                Ok(Some(v)) => entries(t).contains((key@, v@)),
                Ok(None) => forall|v: Seq<u8>| !(#[trigger] entries(t).contains((key@, v))),
                Err(e) => e == StorageError::Page(PageError::Overflow) && !old(pager).all_fit(),
            }
        },
{
    let ghost good = holds(*pager, t, top(height(t)), Size::Root, stock) && t.id() == root;
    let ghost was = *pager;
    let mut fuel: u32 = pager.num_pages();
    let mut current: u32 = root;
    let ghost mut cur = t;
    let ghost mut s = top(height(t));
    let ghost mut size = Size::Root;
    proof {
        if good {
            pager.numbers_bounded();
            height_bounded(t, s, size, stock, pager@, fuel);
        }
    }
    while fuel > 0
        invariant
            was == *old(pager),
            good == (holds(was, t, top(height(t)), Size::Root, stock) && t.id() == root),
            good ==> {
                &&& same_pages(was, *pager)
                &&& holds(*pager, cur, s, size, stock)
                &&& cur.id() == current
                &&& within(s, key@)
                &&& s.level < fuel
                &&& forall|v: Seq<u8>| #[trigger]
                    entries(t).contains((key@, v)) <==> entries(cur).contains((key@, v))
            },
        decreases fuel,
    {
        let ghost before = *pager;
        proof {
            if good {
                reveal(ok);
            }
        }
        match pager.get_page(current) {
            Err(e) => {
                return Err(e);
            },
            Ok(Page::Internal(p)) => {
                let i = child_index(&p.keys, key);
                if i >= p.children.len() {
                    return Err(StorageError::Corrupt);
                }
                current = p.children[i];
                proof {
                    if good {
                        match cur {
                            Tree::Node { id, keys, kids } => {
                                node_kids(id, keys, kids, s, size, stock);
                                chosen_kid(keys, kids, s, stock, i as int, key@);
                                descend(keys, kids, s, stock, i as int, key@);
                                node_entries(id, keys, kids);
                                let kid = kids[i as int];
                                s = kid_spot(s, keys, kids, i as int);
                                size = Size::Half;
                                cur = kid;
                            },
                            _ => {},
                        }
                    }
                }
            },
            Ok(Page::Leaf(p)) => {
                let (found, pos) = search(&p.keys, key);
                if found {
                    if pos >= p.values.len() {
                        return Err(StorageError::Corrupt);
                    }
                    let v = copy(p.values[pos].as_slice());
                    proof {
                        if good {
                            match cur {
                                Tree::Leaf { id, keys, values, next } => {
                                    leaf_entries(id, keys, values, next);
                                    assert(entries(cur)[pos as int] == (key@, v@));
                                    assert(entries(cur).contains((key@, v@)));
                                },
                                _ => {},
                            }
                        }
                    }
                    return Ok(Some(v));
                }
                proof {
                    if good {
                        broadcast use group_order;

                        match cur {
                            Tree::Leaf { id, keys, values, next } => {
                                leaf_entries(id, keys, values, next);
                                assert forall|v: Seq<u8>| !(#[trigger] entries(t).contains((key@, v))) by {
                                    if entries(cur).contains((key@, v)) {
                                        let j = choose|j: int|
                                            0 <= j < entries(cur).len() && entries(cur)[j] == (key@, v);
                                        assert(keys[j] == key@);
                                        if j < pos {
                                            assert(lt(keys[j], key@));
                                        } else {
                                            assert(lt(key@, keys[j]));
                                        }
                                    }
                                }
                            },
                            _ => {},
                        }
                    }
                }
                return Ok(None);
            },
            Ok(_) => {
                return Err(StorageError::Corrupt);
            },
        }
        fuel -= 1;
    }
    Err(StorageError::Corrupt)
}

/// What becomes of the tree below a page when a key is set: one tree in the same page, or two with
/// a separator between them.
pub open spec fn put_below(
    before: Pager,
    after: Pager,
    t: Tree,
    s: Spot,
    size: Size,
    stock: Stock,
    k: Seq<u8>,
    v: Seq<u8>,
    split: Option<(Seq<u8>, u32)>,
    a: Tree,
    b: Tree,
) -> bool {
    &&& a.id() == t.id()
    &&& first(a) == first(t)
    &&& stored(a, after@)
    &&& taken_from(before@, t, a)
    &&& tidy(
        before@,
        after@,
        t,
        a,
        if split is None {
            a
        } else {
            b
        },
    )
    &&& match split {
        None => {
            &&& ok(a, s, size, stock)
            &&& a.top_keys().len() >= t.top_keys().len()
            &&& inserted(entries(t), entries(a), k, v)
        },
        Some((sep, rid)) => {
            &&& b.id() == rid
            &&& ok(a, left_spot(s, sep, first(b)), Size::Half, stock)
            &&& ok(b, right_spot(s, sep), Size::Half, stock)
            &&& stored(b, after@)
            &&& taken_from(before@, t, b)
            &&& disjoint(a, b)
            &&& within(s, sep)
            &&& stock.keys.contains(sep)
            &&& inserted(entries(t), entries(a) + entries(b), k, v)
            &&& t is Leaf ==> entries(a).len() + entries(b).len() > MAX_KEYS_LEAF
        },
    }
}

/// How many pages setting a key below a page at this level can take: none if the key is there.
pub open spec fn put_pages(t: Tree, level: nat, k: Seq<u8>) -> int {
    if has_key(entries(t), k) {
        0
    } else {
        level as int + 1
    }
}

/// A step has taken at most this many pages, and has failed for want of page numbers only if there were
/// fewer.
pub open spec fn within_pages<T>(before: Pager, after: Pager, most: int, r: Result<T, StorageError>) -> bool {
    match r {
        Ok(_) => after.pages_left() + most >= before.pages_left(),
        Err(e) => e == StorageError::Full ==> before.pages_left() < most,
    }
}

/// The key and value may be put below a spot.
pub open spec fn admits(s: Spot, stock: Stock, k: Seq<u8>, v: Seq<u8>) -> bool {
    &&& within(s, k)
    &&& stock.keys.contains(k)
    &&& stock.pairs.contains((k, v))
}

/// The split that is passed upwards, by its view.
pub open spec fn split_view(o: Option<(Vec<u8>, u32)>) -> Option<(Seq<u8>, u32)> {
    match o {
        None => None,
        Some((sep, rid)) => Some((sep@, rid)),
    }
}

/// Put a key and its value into a leaf, cutting it if it overflows.
fn put_leaf(
    pager: &mut Pager,
    id: u32,
    leaf: LeafPage,
    key: &[u8],
    value: &[u8],
    Ghost(t): Ghost<Tree>,
    Ghost(s): Ghost<Spot>,
    Ghost(size): Ghost<Size>,
    Ghost(stock): Ghost<Stock>,
) -> (r: Result<(Option<(Vec<u8>, u32)>, Ghost<(Tree, Tree)>), StorageError>)
    ensures
        holds(*old(pager), t, s, size, stock) && t.id() == id && t.page() == leaf@ && size !is Loose && admits(
            s,
            stock,
            key@,
            value@,
        ) ==> {
            &&& final(pager).wf()
            &&& untouched(old(pager)@, final(pager)@, t)
            &&& kept(old(pager)@, final(pager)@)
            &&& r matches Ok((split, g)) ==> put_below(
                *old(pager),
                *final(pager),
                t,
                s,
                size,
                stock,
                key@,
                value@,
                split_view(split),
                g@.0,
                g@.1,
            )
            &&& within_pages(*old(pager), *final(pager), put_pages(t, s.level, key@), r)
            &&& r matches Ok((split, _)) ==> (has_key(entries(t), key@) ==> split is None)
            &&& roomy(stock) && old(pager).all_fit() ==> match r {
                Ok(_) => final(pager).all_fit(),
                Err(e) => e == StorageError::Full,
            }
        },
{
    let ghost good = holds(*pager, t, s, size, stock) && t.id() == id && t.page() == leaf@ && size !is Loose && admits(
        s,
        stock,
        key@,
        value@,
    );
    let mut leaf = leaf;
    let ghost keys = strings(leaf.keys@);
    let ghost values = strings(leaf.values@);
    let ghost next = leaf.next;
    proof {
        if good {
            reveal(ok);
            assert(t == Tree::Leaf { id, keys, values, next });
        }
    }
    if leaf.keys.len() != leaf.values.len() {
        return Err(StorageError::Corrupt);
    }
    let (found, pos) = search(&leaf.keys, key);
    if found {
        leaf.values.set(pos, copy(value));
        let ghost a = Tree::Leaf { id, keys, values: values.update(pos as int, value@), next };
        proof {
            assert(strings(leaf.values@) =~= values.update(pos as int, value@));
            if good {
                leaf_updated(id, keys, values, next, s, size, stock, pos as int, value@);
                page_ok(a, s, size, stock);
            }
        }
        match pager.set_page(id, Page::Leaf(leaf)) {
            Err(e) => Err(e),
            Ok(_) => Ok((None, Ghost((a, a)))),
        }
    } else {
        proof {
            if good {
                leaf_misses(t, s, size, stock, key@, pos as int);
            }
        }
        leaf.keys.insert(pos, copy(key));
        leaf.values.insert(pos, copy(value));
        let ghost keys2 = keys.insert(pos as int, key@);
        let ghost values2 = values.insert(pos as int, value@);
        let ghost c = Tree::Leaf { id, keys: keys2, values: values2, next };
        proof {
            assert(strings(leaf.keys@) =~= keys2);
            assert(strings(leaf.values@) =~= values2);
            if good {
                leaf_inserted(id, keys, values, next, s, size, stock, pos as int, key@, value@);
            }
        }
        if leaf.keys.len() <= MAX_KEYS_LEAF {
            proof {
                if good {
                    resize(c, s, Size::Loose, size, stock);
                    page_ok(c, s, size, stock);
                }
            }
            match pager.set_page(id, Page::Leaf(leaf)) {
                Err(e) => Err(e),
                Ok(_) => Ok((None, Ghost((c, c)))),
            }
        } else {
            let mid: usize = leaf.keys.len() / 2;
            let sep = copy(leaf.keys[mid].as_slice());
            let new_keys = leaf.keys.split_off(mid);
            let new_values = leaf.values.split_off(mid);
            let right = LeafPage { keys: new_keys, values: new_values, next: leaf.next };
            proof {
                assert(right@->Leaf_keys =~= keys2.skip(mid as int));
                assert(right@->Leaf_values =~= values2.skip(mid as int));
                assert(strings(leaf.keys@) =~= keys2.take(mid as int));
                assert(strings(leaf.values@) =~= values2.take(mid as int));
            }
            let ghost before = *pager;
            let ghost rpage = right@;
            proof {
                if good {
                    // Whatever number the new page gets, it has this content.
                    assert(rpage == cut_right(c, mid as int, 0).page());
                    assert(whole(rpage));
                    assert(keys2.len() == keys.len() + 1);
                    if roomy(stock) {
                        assert(fits(rpage)) by {
                            reveal(ok);
                            let ks = keys2.skip(mid as int);
                            let vs = values2.skip(mid as int);
                            assert forall|i: int| 0 <= i < ks.len() implies stock.pairs.contains(
                                (#[trigger] ks[i], vs[i]),
                            ) by {
                                assert(ks[i] == keys2[mid + i]);
                            }
                            assert(ascending(ks)) by {
                                assert forall|i: int, j: int| 0 <= i < j < ks.len() implies lt(
                                    #[trigger] ks[i],
                                    #[trigger] ks[j],
                                ) by {
                                    assert(lt(keys2[mid + i], keys2[mid + j]));
                                }
                            }
                        }
                    }
                }
            }
            match pager.new_page(Page::Leaf(right)) {
                Err(e) => Err(e),
                Ok(rid) => {
                    leaf.next = rid;
                    let ghost a = cut_left(c, mid as int, rid);
                    let ghost b = cut_right(c, mid as int, rid);
                    proof {
                        if good {
                            cut_ok(c, mid as int, rid, s, Size::Loose, stock);
                            let sa = left_spot(s, sep@, first(b));
                            resize(a, sa, Size::Loose, Size::Half, stock);
                            resize(b, right_spot(s, sep@), Size::Loose, Size::Half, stock);
                            page_ok(a, sa, Size::Half, stock);
                            leaf_entries(id, keys2, values2, next);
                            assert(entries(a).len() + entries(b).len() == (entries(a) + entries(b)).len());
                        }
                    }
                    match pager.set_page(id, Page::Leaf(leaf)) {
                        Err(e) => Err(e),
                        Ok(_) => Ok((Some((sep, rid)), Ghost((a, b)))),
                    }
                },
            }
        }
    }
}

proof fn put_child_start(
    orig: Pager,
    now: Pager,
    id: u32,
    i: int,
    sep: Seq<u8>,
    rid: u32,
    t: Tree,
    s: Spot,
    size: Size,
    stock: Stock,
    k: Seq<u8>,
    v: Seq<u8>,
    a: Tree,
    b: Tree,
)
    requires
        child_ready(orig, now, id, i, sep, rid, t, s, size, stock, k, v, a, b),
    ensures
        ({
            let keys2 = t->Node_keys.insert(i, sep);
            let kids2 = t->kids.update(i, a).insert(i + 1, b);
            let c = Tree::Node { id, keys: keys2, kids: kids2 };
            &&& kids_ok(keys2, kids2, s, stock, -1)
            &&& clear(kids2, id)
            &&& all_stored(kids2, now@)
            &&& numbers(kids2) == numbers(t->kids).insert(i + 1, rid)
            &&& taken_from(orig@, t, c)
            &&& ok(c, s, Size::Loose, stock)
            &&& first(c) == first(t)
            &&& inserted(entries(t), entries(c), k, v)
        }),
        t == (Tree::Node { id, keys: t->Node_keys, kids: t->kids }),
        t->kids.len() == t->Node_keys.len() + 1,
        node_sized(t->Node_keys.len(), size),
        now@.contains_key(id),
        now@[id] == t.page(),
        untouched(orig@, now@, t),
{
    let keys = t->Node_keys;
    let kids = t->kids;
    let keys2 = keys.insert(i, sep);
    let kids2 = kids.update(i, a).insert(i + 1, b);
    let c = Tree::Node { id, keys: keys2, kids: kids2 };
    node_counts(t, s, size, stock);
    node_kids(id, keys, kids, s, size, stock);
    kid_split(orig@, now@, id, keys, kids, s, size, stock, i, a, sep, b);
    node_ok(id, keys2, kids2, s, Size::Loose, stock);
    node_entries(id, keys, kids);
    node_entries(id, keys2, kids2);
    around_kid(keys, kids, s, stock, -1, i, k);
    flat_around(kids, i);
    inserted_around(
        flat(kids.take(i)),
        entries(kids[i]),
        entries(a) + entries(b),
        flat(kids.skip(i + 1)),
        k,
        v,
    );
    assert(first(c) == first(t)) by {
        split_spots(keys, kids, s, i, a, sep, b, 0);
    }
}

proof fn put_child_cut(
    m1: Map<u32, PageView>,
    m2: Map<u32, PageView>,
    rpage: PageView,
    c: Tree,
    mid: int,
    rid: u32,
    s: Spot,
    stock: Stock,
)
    requires
        c is Node,
        ok(c, s, Size::Loose, stock),
        all_stored(c->kids, m1),
        clear(c->kids, c.id()),
        m1.contains_key(c.id()),
        !m1.contains_key(rid),
        c->Node_keys.len() == MAX_KEYS_INTERNAL + 1,
        mid == MIN_KEYS_INTERNAL,
        m2 == m1.insert(rid, rpage),
        rpage == cut_right(c, mid, rid).page(),
    ensures
        ({
            let left = cut_left(c, mid, rid);
            let rest = cut_right(c, mid, rid);
            let up = c->Node_keys[mid];
            let m3 = m2.insert(c.id(), left.page());
            &&& ok(left, left_spot(s, up, first(rest)), Size::Half, stock)
            &&& ok(rest, right_spot(s, up), Size::Half, stock)
            &&& entries(left) + entries(rest) == entries(c)
            &&& first(left) == first(c)
            &&& within(s, up)
            &&& stock.keys.contains(up)
            &&& disjoint(left, rest)
            &&& forall|x: u32| #[trigger] owns(left, x) ==> owns(c, x)
            &&& forall|x: u32| #[trigger] owns(rest, x) ==> owns(c, x) || x == rid
            &&& stored(left, m3)
            &&& stored(rest, m3)
            &&& whole(left.page())
            &&& roomy(stock) ==> fits(left.page())
        }),
{
    let id = c.id();
    let keys2 = c->Node_keys;
    let kids2 = c->kids;
    let left = cut_left(c, mid, rid);
    let rest = cut_right(c, mid, rid);
    let up = keys2[mid];
    let m3 = m2.insert(id, left.page());
    let lkids = kids2.take(mid + 1);
    let rkids = kids2.skip(mid + 1);
    node_counts(c, s, Size::Loose, stock);
    assert(c == Tree::Node { id, keys: keys2, kids: kids2 });
    fresh_clear(kids2, m1, rid);
    node_owns(id, keys2, kids2, rid);
    cut_ok(c, mid, rid, s, Size::Loose, stock);
    let sa = left_spot(s, up, first(rest));
    resize(left, sa, Size::Loose, Size::Half, stock);
    resize(rest, right_spot(s, up), Size::Loose, Size::Half, stock);
    page_ok(left, sa, Size::Half, stock);
    all_kept(kids2, m1, rid, rpage);
    all_kept(kids2, m2, id, left.page());
    assert forall|j: int| 0 <= j < lkids.len() implies stored(#[trigger] lkids[j], m3) by {
        assert(lkids[j] == kids2[j]);
    }
    assert forall|j: int| 0 <= j < rkids.len() implies stored(#[trigger] rkids[j], m3) by {
        assert(rkids[j] == kids2[mid + 1 + j]);
    }
    node_stored(id, keys2.take(mid), lkids, m3);
    node_stored(rid, keys2.skip(mid + 1), rkids, m3);
}

/// A node in memory is to be written to its page.
pub open spec fn node_ready(now: Pager, id: u32, node: PageView, c: Tree, s: Spot, size: Size, stock: Stock) -> bool {
    &&& now.wf()
    &&& c is Node
    &&& c.id() == id
    &&& ok(c, s, Size::Loose, stock)
    &&& all_stored(c->kids, now@)
    &&& clear(c->kids, id)
    &&& now@.contains_key(id)
    &&& node == c.page()
    &&& c->Node_keys.len() == MAX_KEYS_INTERNAL + 1 || (size !is Loose && node_sized(c->Node_keys.len(), size))
}

/// What becomes of a node that is written: it stays one, or it is cut in two.
pub open spec fn node_written(
    before: Pager,
    after: Pager,
    c: Tree,
    s: Spot,
    size: Size,
    stock: Stock,
    split: Option<(Seq<u8>, u32)>,
    a: Tree,
    b: Tree,
) -> bool {
    &&& a.id() == c.id()
    &&& first(a) == first(c)
    &&& stored(a, after@)
    &&& forall|x: u32| #[trigger] owns(a, x) ==> owns(c, x)
    &&& tidy(
        before@,
        after@,
        c,
        a,
        if split is None {
            a
        } else {
            b
        },
    )
    &&& match split {
        None => {
            &&& a == c
            &&& ok(a, s, size, stock)
        },
        Some((sep, rid)) => {
            &&& b.id() == rid
            &&& !before@.contains_key(rid)
            &&& ok(a, left_spot(s, sep, first(b)), Size::Half, stock)
            &&& ok(b, right_spot(s, sep), Size::Half, stock)
            &&& stored(b, after@)
            &&& forall|x: u32| #[trigger] owns(b, x) ==> owns(c, x) || x == rid
            &&& disjoint(a, b)
            &&& within(s, sep)
            &&& stock.keys.contains(sep)
            &&& entries(a) + entries(b) == entries(c)
        },
    }
}

proof fn right_half_fits(keys: Seq<Seq<u8>>, children: Seq<u32>, m: int, c: Tree, s: Spot, stock: Stock)
    requires
        ok(c, s, Size::Loose, stock),
        c is Node,
        roomy(stock),
        0 <= m < c->Node_keys.len(),
        keys == c->Node_keys.skip(m + 1),
        keys.len() <= MAX_KEYS_INTERNAL,
        children.len() == keys.len() + 1,
    ensures
        fits(PageView::Internal { keys, children }),
{
    reveal(ok);
    let all = c->Node_keys;
    assert forall|p: int| 0 <= p < keys.len() implies stock.keys.contains(#[trigger] keys[p]) by {
        assert(keys[p] == all[m + 1 + p]);
    }
    assert(ascending(keys)) by {
        assert forall|p: int, q: int| 0 <= p < q < keys.len() implies lt(#[trigger] keys[p], #[trigger] keys[q]) by {
            assert(lt(all[m + 1 + p], all[m + 1 + q]));
        }
    }
}

/// Write a node, cutting it if it overflows.
fn put_node(
    pager: &mut Pager,
    id: u32,
    node: InternalPage,
    Ghost(c): Ghost<Tree>,
    Ghost(s): Ghost<Spot>,
    Ghost(size): Ghost<Size>,
    Ghost(stock): Ghost<Stock>,
) -> (r: Result<(Option<(Vec<u8>, u32)>, Ghost<(Tree, Tree)>), StorageError>)
    ensures
        node_ready(*old(pager), id, node@, c, s, size, stock) ==> {
            &&& final(pager).wf()
            &&& forall|x: u32| #[trigger]
                old(pager)@.contains_key(x) ==> final(pager)@.contains_key(x) && (x != id ==> final(pager)@[x]
                    == old(pager)@[x])
            &&& r matches Ok((split, g)) ==> node_written(
                *old(pager),
                *final(pager),
                c,
                s,
                size,
                stock,
                split_view(split),
                g@.0,
                g@.1,
            )
            &&& within_pages(*old(pager), *final(pager), 1, r)
            &&& roomy(stock) && old(pager).all_fit() ==> match r {
                Ok(_) => final(pager).all_fit(),
                Err(e) => e == StorageError::Full,
            }
        },
{
    let ghost good = node_ready(*pager, id, node@, c, s, size, stock);
    let ghost m1 = pager@;
    let mut node = node;
    proof {
        if good {
            node_counts(c, s, Size::Loose, stock);
        }
    }
    if node.children.len() == 0 || node.children.len() - 1 != node.keys.len() {
        return Err(StorageError::Corrupt);
    }
    if node.keys.len() <= MAX_KEYS_INTERNAL {
        proof {
            if good {
                resize(c, s, Size::Loose, size, stock);
                page_ok(c, s, size, stock);
                all_kept(c->kids, m1, id, c.page());
                node_stored(id, c->Node_keys, c->kids, m1.insert(id, c.page()));
            }
        }
        match pager.set_page(id, Page::Internal(node)) {
            Err(e) => Err(e),
            Ok(_) => Ok((None, Ghost((c, c)))),
        }
    } else {
        let mid: usize = node.keys.len() / 2;
        let up = copy(node.keys[mid].as_slice());
        let right_keys = node.keys.split_off(mid + 1);
        node.keys.pop();
        let right_children = node.children.split_off(mid + 1);
        let right = InternalPage { keys: right_keys, children: right_children };
        let ghost rpage = right@;
        proof {
            if good {
                assert(right@->Internal_keys =~= c->Node_keys.skip(mid + 1));
                assert(right@->children =~= numbers(c->kids.skip(mid + 1)));
                assert(strings(node.keys@) =~= c->Node_keys.take(mid as int));
                assert(node.children@ =~= numbers(c->kids.take(mid + 1)));
                if roomy(stock) {
                    right_half_fits(rpage->Internal_keys, rpage->children, mid as int, c, s, stock);
                }
            }
        }
        match pager.new_page(Page::Internal(right)) {
            Err(e) => Err(e),
            Ok(rid) => {
                let ghost a = cut_left(c, mid as int, rid);
                let ghost b = cut_right(c, mid as int, rid);
                proof {
                    if good {
                        put_child_cut(m1, pager@, rpage, c, mid as int, rid, s, stock);
                        assert forall|x: u32| owns(c, x) implies owns(a, x) || owns(b, x) by {
                            cut_owns(c, mid as int, rid, x);
                        }
                    }
                }
                match pager.set_page(id, Page::Internal(node)) {
                    Err(e) => Err(e),
                    Ok(_) => Ok((Some((up, rid)), Ghost((a, b)))),
                }
            },
        }
    }
}

/// Add a new child to a node, cutting it if it overflows.
fn put_child(
    pager: &mut Pager,
    id: u32,
    i: usize,
    sep: Vec<u8>,
    rid: u32,
    Ghost(orig): Ghost<Pager>,
    Ghost(t): Ghost<Tree>,
    Ghost(s): Ghost<Spot>,
    Ghost(size): Ghost<Size>,
    Ghost(stock): Ghost<Stock>,
    Ghost(k): Ghost<Seq<u8>>,
    Ghost(v): Ghost<Seq<u8>>,
    Ghost(a): Ghost<Tree>,
    Ghost(b): Ghost<Tree>,
) -> (r: Result<(Option<(Vec<u8>, u32)>, Ghost<(Tree, Tree)>), StorageError>)
    ensures
        child_ready(orig, *old(pager), id, i as int, sep@, rid, t, s, size, stock, k, v, a, b) ==> {
            &&& final(pager).wf()
            &&& untouched(orig@, final(pager)@, t)
            &&& kept(orig@, final(pager)@)
            &&& r matches Ok((split, g)) ==> put_below(
                orig,
                *final(pager),
                t,
                s,
                size,
                stock,
                k,
                v,
                split_view(split),
                g@.0,
                g@.1,
            )
            &&& within_pages(*old(pager), *final(pager), 1, r)
            &&& roomy(stock) && old(pager).all_fit() ==> match r {
                Ok(_) => final(pager).all_fit(),
                Err(e) => e == StorageError::Full,
            }
        },
{
    let ghost good = child_ready(orig, *pager, id, i as int, sep@, rid, t, s, size, stock, k, v, a, b);
    let ghost keys2 = t->Node_keys.insert(i as int, sep@);
    let ghost kids2 = t->kids.update(i as int, a).insert(i + 1, b);
    let ghost c = Tree::Node { id, keys: keys2, kids: kids2 };
    let ghost m1 = pager@;
    proof {
        if good {
            put_child_start(orig, *pager, id, i as int, sep@, rid, t, s, size, stock, k, v, a, b);
        }
    }
    let mut node = match pager.get_page(id) {
        Err(e) => {
            return Err(e);
        },
        Ok(Page::Internal(p)) => InternalPage { keys: copy_strings(&p.keys), children: copy_numbers(&p.children) },
        Ok(_) => {
            return Err(StorageError::Corrupt);
        },
    };
    if i >= node.children.len() || node.children.len() - 1 != node.keys.len() {
        return Err(StorageError::Corrupt);
    }
    node.keys.insert(i, sep);
    node.children.insert(i + 1, rid);
    proof {
        if good {
            assert(strings(node.keys@) =~= keys2);
            assert(node.children@ =~= numbers(kids2));
            assert(node@ == c.page());
        }
    }
    let r = put_node(pager, id, node, Ghost(c), Ghost(s), Ghost(size), Ghost(stock));
    proof {
        if good {
            assert(untouched(orig@, pager@, t)) by {
                assert forall|x: u32| #[trigger] orig@.contains_key(x) && !owns(t, x) implies pager@.contains_key(x)
                    && pager@[x] == orig@[x] by {
                    assert(owns(t, id));
                    assert(m1.contains_key(x));
                }
            }
            assert(kept(orig@, pager@)) by {
                assert forall|x: u32| #[trigger] orig@.contains_key(x) implies pager@.contains_key(x) by {
                    assert(m1.contains_key(x));
                }
            }
            if r is Ok {
                let (split, g) = r->Ok_0;
                tidy_split_kid(orig@, m1, id, t->Node_keys, keys2, t->kids, i as int, a, b);
                tidy_twice(
                    orig@,
                    m1,
                    pager@,
                    t,
                    c,
                    g@.0,
                    if split is None {
                        g@.0
                    } else {
                        g@.1
                    },
                );
                assert(taken_from(orig@, t, g@.0)) by {
                    assert forall|x: u32| #[trigger] owns(g@.0, x) implies owns(t, x) || !orig@.contains_key(x) by {
                        assert(owns(c, x));
                    }
                }
                if split is Some {
                    assert(taken_from(orig@, t, g@.1)) by {
                        assert forall|x: u32| #[trigger] owns(g@.1, x) implies owns(t, x) || !orig@.contains_key(x) by {
                            if x == split->Some_0.1 {
                                assert(!m1.contains_key(x));
                            } else {
                                assert(owns(c, x));
                            }
                        }
                    }
                }
            }
        }
    }
    r
}

/// A child has been replaced by two trees, and the node above it is still to be changed.
pub open spec fn child_ready(
    orig: Pager,
    now: Pager,
    id: u32,
    i: int,
    sep: Seq<u8>,
    rid: u32,
    t: Tree,
    s: Spot,
    size: Size,
    stock: Stock,
    k: Seq<u8>,
    v: Seq<u8>,
    a: Tree,
    b: Tree,
) -> bool {
    &&& holds(orig, t, s, size, stock)
    &&& t is Node
    &&& t.id() == id
    &&& size !is Loose
    &&& 0 <= i < t->kids.len()
    &&& within(kid_spot(s, t->Node_keys, t->kids, i), k)
    &&& now.wf()
    &&& untouched(orig@, now@, t->kids[i])
    &&& kept(orig@, now@)
    &&& put_below(
        orig,
        now,
        t->kids[i],
        kid_spot(s, t->Node_keys, t->kids, i),
        Size::Half,
        stock,
        k,
        v,
        Some((sep, rid)),
        a,
        b,
    )
}

/// No page has gone out of use.
pub open spec fn kept(m: Map<u32, PageView>, m2: Map<u32, PageView>) -> bool {
    forall|x: u32| #[trigger] m.contains_key(x) ==> m2.contains_key(x)
}

/// Put a key and its value into the tree below page `id`.
fn put_into(
    pager: &mut Pager,
    id: u32,
    key: &[u8],
    value: &[u8],
    fuel: u32,
    Ghost(t): Ghost<Tree>,
    Ghost(s): Ghost<Spot>,
    Ghost(size): Ghost<Size>,
    Ghost(stock): Ghost<Stock>,
) -> (r: Result<(Option<(Vec<u8>, u32)>, Ghost<(Tree, Tree)>), StorageError>)
    ensures
        holds(*old(pager), t, s, size, stock) && t.id() == id && size !is Loose && admits(s, stock, key@, value@)
            && s.level < fuel ==> {
            &&& final(pager).wf()
            &&& untouched(old(pager)@, final(pager)@, t)
            &&& kept(old(pager)@, final(pager)@)
            &&& r matches Ok((split, g)) ==> put_below(
                *old(pager),
                *final(pager),
                t,
                s,
                size,
                stock,
                key@,
                value@,
                split_view(split),
                g@.0,
                g@.1,
            )
            &&& within_pages(*old(pager), *final(pager), put_pages(t, s.level, key@), r)
            &&& r matches Ok((split, _)) ==> (has_key(entries(t), key@) ==> split is None)
            &&& roomy(stock) && old(pager).all_fit() ==> match r {
                Ok(_) => final(pager).all_fit(),
                Err(e) => e == StorageError::Full,
            }
        },
    decreases fuel,
{
    let ghost orig = *pager;
    let ghost good = holds(orig, t, s, size, stock) && t.id() == id && size !is Loose && admits(s, stock, key@, value@)
        && s.level < fuel;
    if fuel == 0 {
        return Err(StorageError::Corrupt);
    }
    proof {
        if good {
            node_counts(t, s, size, stock);
        }
    }
    let (i, child) = match pager.get_page(id) {
        Err(e) => {
            return Err(e);
        },
        Ok(Page::Leaf(p)) => {
            let leaf = LeafPage { keys: copy_strings(&p.keys), values: copy_strings(&p.values), next: p.next };
            return put_leaf(pager, id, leaf, key, value, Ghost(t), Ghost(s), Ghost(size), Ghost(stock));
        },
        Ok(Page::Internal(p)) => {
            let i = child_index(&p.keys, key);
            if i >= p.children.len() {
                return Err(StorageError::Corrupt);
            }
            (i, p.children[i])
        },
        Ok(_) => {
            return Err(StorageError::Corrupt);
        },
    };
    let ghost keys = t->Node_keys;
    let ghost kids = t->kids;
    let ghost kid = kids[i as int];
    let ghost ks = kid_spot(s, keys, kids, i as int);
    let ghost before = *pager;
    proof {
        if good {
            assert(t is Node);
            node_kids(id, keys, kids, s, size, stock);
            chosen_kid(keys, kids, s, stock, i as int, key@);
            node_entries(id, keys, kids);
            descend(keys, kids, s, stock, i as int, key@);
            assert(has_key(entries(t), key@) == has_key(entries(kid), key@)) by {
                if has_key(entries(t), key@) {
                    let v = choose|v: Seq<u8>| #[trigger] entries(t).contains((key@, v));
                    assert(entries(kid).contains((key@, v)));
                }
                if has_key(entries(kid), key@) {
                    let v = choose|v: Seq<u8>| #[trigger] entries(kid).contains((key@, v));
                    assert(entries(t).contains((key@, v)));
                }
            }
        }
    }
    match put_into(pager, child, key, value, fuel - 1, Ghost(kid), Ghost(ks), Ghost(Size::Half), Ghost(stock)) {
        Err(e) => {
            proof {
                if good {
                    assert forall|x: u32| #[trigger] orig@.contains_key(x) && !owns(t, x) implies pager@.contains_key(x)
                        && pager@[x] == orig@[x] by {
                        if owns(kid, x) {
                            node_owns(id, keys, kids, x);
                        }
                    }
                }
            }
            Err(e)
        },
        Ok((None, g)) => {
            let ghost a = g@.0;
            let ghost kids2 = kids.update(i as int, a);
            let ghost t2 = Tree::Node { id, keys, kids: kids2 };
            proof {
                if good {
                    kid_replaced(orig@, pager@, id, keys, kids, s, size, stock, i as int, a, -1);
                    tidy_kid(orig@, pager@, id, keys, kids, i as int, a);
                    node_ok(id, keys, kids2, s, size, stock);
                    node_stored(id, keys, kids2, pager@);
                    node_entries(id, keys, kids);
                    node_entries(id, keys, kids2);
                    around_kid(keys, kids, s, stock, -1, i as int, key@);
                    flat_around(kids, i as int);
                    inserted_around(
                        flat(kids.take(i as int)),
                        entries(kid),
                        entries(a),
                        flat(kids.skip(i + 1)),
                        key@,
                        value@,
                    );
                    assert(first(t2) == first(t));
                }
            }
            Ok((None, Ghost((t2, t2))))
        },
        Ok((Some((sep, rid)), g)) => {
            put_child(
                pager,
                id,
                i,
                sep,
                rid,
                Ghost(orig),
                Ghost(t),
                Ghost(s),
                Ghost(size),
                Ghost(stock),
                Ghost(key@),
                Ghost(value@),
                Ghost(g@.0),
                Ghost(g@.1),
            )
        },
    }
}

/// A copy of a page.
fn copy_page(p: &Page) -> (r: Page)
    ensures
        r@ == p@,
{
    match p {
        Page::Header(h) => Page::Header(
            HeaderPage { magic: h.magic, version: h.version, num_pages: h.num_pages, free_list: h.free_list },
        ),
        Page::Internal(p) => Page::Internal(
            InternalPage { keys: copy_strings(&p.keys), children: copy_numbers(&p.children) },
        ),
        Page::Leaf(p) => Page::Leaf(
            LeafPage { keys: copy_strings(&p.keys), values: copy_strings(&p.values), next: p.next },
        ),
    }
}

/// A copy of the page with the given number.
fn load(pager: &mut Pager, id: u32) -> (r: Result<Page, StorageError>)
    ensures
        old(pager).wf() && old(pager)@.contains_key(id) ==> {
            &&& same_pages(*old(pager), *final(pager))
            &&& match r {
                Ok(p) => p@ == old(pager)@[id],
                Err(e) => e == StorageError::Page(PageError::Overflow) && !old(pager).all_fit(),
            }
        },
{
    match pager.get_page(id) {
        Err(e) => Err(e),
        Ok(p) => Ok(copy_page(p)),
    }
}

/// Only these three pages may differ.
pub open spec fn same_but(m: Map<u32, PageView>, m2: Map<u32, PageView>, a: u32, b: u32, c: u32) -> bool {
    forall|x: u32| #[trigger]
        m.contains_key(x) && x != a && x != b && x != c ==> m2.contains_key(x) && m2[x] == m[x]
}

/// Write two neighbours and the node above them.
fn set_three(pager: &mut Pager, a: u32, left: Page, b: u32, right: Page, c: u32, above: Page) -> (r: Result<
    (),
    StorageError,
>)
    ensures
        old(pager).wf() && old(pager)@.contains_key(a) && old(pager)@.contains_key(b) && old(pager)@.contains_key(c)
            && whole(left@) && whole(right@) && whole(above@) ==> {
            &&& final(pager).wf()
            &&& same_but(old(pager)@, final(pager)@, a, b, c)
            &&& final(pager).page_count() == old(pager).page_count()
            &&& final(pager).free_pages() == old(pager).free_pages()
            &&& r is Ok ==> final(pager)@ == old(pager)@.insert(a, left@).insert(b, right@).insert(c, above@)
            &&& old(pager).all_fit() && fits(left@) && fits(right@) && fits(above@) ==> r is Ok
                && final(pager).all_fit()
        },
{
    match pager.set_page(a, left) {
        Err(e) => Err(e),
        Ok(_) => match pager.set_page(b, right) {
            Err(e) => Err(e),
            Ok(_) => match pager.set_page(c, above) {
                Err(e) => Err(e),
                Ok(_) => Ok(()),
            },
        },
    }
}

/// One key is missing for the node to be half full.
pub open spec fn short_by_one(t: Tree) -> bool {
    match t {
        Tree::Leaf { keys, .. } => keys.len() + 1 == MIN_KEYS_LEAF,
        Tree::Node { keys, .. } => keys.len() + 1 == MIN_KEYS_INTERNAL,
    }
}

/// The node has no key to spare.
pub open spec fn no_spare(t: Tree) -> bool {
    match t {
        Tree::Leaf { keys, .. } => keys.len() <= MIN_KEYS_LEAF,
        Tree::Node { keys, .. } => keys.len() <= MIN_KEYS_INTERNAL,
    }
}

/// A child is to be brought up to half of a page again.
pub open spec fn limping(now: Pager, t: Tree, s: Spot, stock: Stock, id: u32, weak: int) -> bool {
    &&& now.wf()
    &&& t.id() == id
    &&& lame(now@, t, s, stock, weak)
    &&& short_by_one(t->kids[weak])
    &&& t->Node_keys.len() <= MAX_KEYS_INTERNAL
}

/// What an attempt to mend a node leaves.
pub open spec fn mend_result(
    before: Pager,
    after: Pager,
    t: Tree,
    s: Spot,
    stock: Stock,
    r: Result<(bool, Ghost<Tree>), StorageError>,
) -> bool {
    &&& after.wf()
    &&& untouched(before@, after@, t)
    &&& match r {
        Ok((true, g)) => mended(t, g@, s, stock) && stored(g@, after@) && after.pages_left() >= before.pages_left(),
        Ok((false, _)) => same_pages(before, after),
        Err(_) => true,
    }
    &&& roomy(stock) && before.all_fit() ==> r is Ok && after.all_fit()
}

/// Keys have moved between children `i` and `i + 1` of a node, so that the first has `at` of them: the
/// pages of the two children and of the node have been written, and no other page has changed.
pub open spec fn rotated_to(before: Pager, after: Pager, t: Tree, g: Tree, i: int, at: int) -> bool {
    &&& g == rotate(t, i, at)
    &&& after@ == before@.insert(t->kids[i].id(), g->kids[i].page()).insert(
        t->kids[i + 1].id(),
        g->kids[i + 1].page(),
    ).insert(t.id(), g.page())
    &&& after.page_count() == before.page_count()
    &&& after.free_pages() == before.free_pages()
}

/// Child `i + 1` of a node has been joined to child `i`: the page of child `i` and that of the node have
/// been written, that of child `i + 1` has been freed, and no other page has changed.
pub open spec fn merged_to(before: Pager, after: Pager, t: Tree, g: Tree, i: int) -> bool {
    &&& g == merge(t, i)
    &&& after@ == before@.insert(t->kids[i].id(), g->kids[i].page()).insert(t.id(), g.page()).remove(
        t->kids[i + 1].id(),
    )
    &&& after.page_count() == before.page_count()
    &&& after.free_pages() == seq![t->kids[i + 1].id()] + before.free_pages()
}

/// The first key of child `i + 1` has moved to the end of child `i`, by way of the separator if the
/// children are not leaves, and the separator follows.
pub open spec fn first_moved_left(t: Tree, g: Tree, i: int) -> bool {
    let l = g->kids[i];
    let r = g->kids[i + 1];
    match (t->kids[i].page(), t->kids[i + 1].page()) {
        (PageView::Leaf { keys: ka, values: va, next: na }, PageView::Leaf { keys: kb, values: vb, next: nb }) => {
            &&& l.page() == PageView::Leaf { keys: ka.push(kb[0]), values: va.push(vb[0]), next: na }
            &&& r.page() == PageView::Leaf { keys: kb.skip(1), values: vb.skip(1), next: nb }
            &&& g.page() == PageView::Internal { keys: t->Node_keys.update(i, kb[1]), children: numbers(t->kids) }
        },
        (PageView::Internal { keys: ka, children: ca }, PageView::Internal { keys: kb, children: cb }) => {
            &&& l.page() == PageView::Internal { keys: ka.push(t->Node_keys[i]), children: ca.push(cb[0]) }
            &&& r.page() == PageView::Internal { keys: kb.skip(1), children: cb.skip(1) }
            &&& g.page() == PageView::Internal { keys: t->Node_keys.update(i, kb[0]), children: numbers(t->kids) }
        },
        _ => false,
    }
}

/// The last key of child `i` has moved to the front of child `i + 1`, by way of the separator if the
/// children are not leaves, and the separator follows.
pub open spec fn last_moved_right(t: Tree, g: Tree, i: int) -> bool {
    let l = g->kids[i];
    let r = g->kids[i + 1];
    match (t->kids[i].page(), t->kids[i + 1].page()) {
        (PageView::Leaf { keys: ka, values: va, next: na }, PageView::Leaf { keys: kb, values: vb, next: nb }) => {
            &&& l.page() == PageView::Leaf { keys: ka.drop_last(), values: va.drop_last(), next: na }
            &&& r.page() == PageView::Leaf { keys: seq![ka.last()] + kb, values: seq![va.last()] + vb, next: nb }
            &&& g.page() == PageView::Internal { keys: t->Node_keys.update(i, ka.last()), children: numbers(t->kids) }
        },
        (PageView::Internal { keys: ka, children: ca }, PageView::Internal { keys: kb, children: cb }) => {
            &&& l.page() == PageView::Internal { keys: ka.drop_last(), children: ca.drop_last() }
            &&& r.page() == PageView::Internal { keys: seq![t->Node_keys[i]] + kb, children: seq![ca.last()] + cb }
            &&& g.page() == PageView::Internal { keys: t->Node_keys.update(i, ka.last()), children: numbers(t->kids) }
        },
        _ => false,
    }
}

/// Child `i` is followed by what child `i + 1` held, with the separator between them if the children are
/// not leaves; the separator and child `i + 1` have left the node.
pub open spec fn joined_right(t: Tree, g: Tree, i: int) -> bool {
    let c = g->kids[i];
    &&& match (t->kids[i].page(), t->kids[i + 1].page()) {
        (PageView::Leaf { keys: ka, values: va, .. }, PageView::Leaf { keys: kb, values: vb, next }) => {
            c.page() == (PageView::Leaf { keys: ka + kb, values: va + vb, next })
        },
        (PageView::Internal { keys: ka, children: ca }, PageView::Internal { keys: kb, children: cb }) => {
            c.page() == (PageView::Internal { keys: ka.push(t->Node_keys[i]) + kb, children: ca + cb })
        },
        _ => false,
    }
    &&& g.page() == PageView::Internal { keys: t->Node_keys.remove(i), children: numbers(t->kids).remove(i + 1) }
}

/// Whether a page has more keys than it must.
fn can_spare(p: &Page) -> (r: bool)
    ensures
        match p@ {
            PageView::Leaf { keys, .. } => r == (keys.len() > MIN_KEYS_LEAF),
            PageView::Internal { keys, .. } => r == (keys.len() > MIN_KEYS_INTERNAL),
            PageView::Header { .. } => !r,
        },
{
    match p {
        Page::Leaf(p) => p.keys.len() > MIN_KEYS_LEAF,
        Page::Internal(p) => p.keys.len() > MIN_KEYS_INTERNAL,
        Page::Header(_) => false,
    }
}

/// The pages of a node and two neighbouring children.
proof fn family(m: Map<u32, PageView>, t: Tree, s: Spot, stock: Stock, weak: int, i: int)
    requires
        lame(m, t, s, stock, weak),
        0 <= i,
        i + 1 < t->kids.len(),
    ensures
        t->kids.len() == t->Node_keys.len() + 1,
        m.contains_key(t.id()),
        m[t.id()] == t.page(),
        m.contains_key(t->kids[i].id()),
        m[t->kids[i].id()] == t->kids[i].page(),
        m.contains_key(t->kids[i + 1].id()),
        m[t->kids[i + 1].id()] == t->kids[i + 1].page(),
        t.id() != t->kids[i].id(),
        t.id() != t->kids[i + 1].id(),
        t->kids[i].id() != t->kids[i + 1].id(),
        t->kids[i] is Leaf <==> t->kids[i + 1] is Leaf,
        t->kids[i] is Leaf ==> t->kids[i]->next == t->kids[i + 1].id(),
        i != weak ==> sized(t->kids[i], Size::Half),
        i + 1 != weak ==> sized(t->kids[i + 1], Size::Half),
        whole(t->kids[i].page()),
        whole(t->kids[i + 1].page()),
{
    let keys = t->Node_keys;
    let kids = t->kids;
    let a = kids[i];
    let b = kids[i + 1];
    let za = if i == weak {
        Size::Loose
    } else {
        Size::Half
    };
    let zb = if i + 1 == weak {
        Size::Loose
    } else {
        Size::Half
    };
    node_counts(a, kid_spot(s, keys, kids, i), za, stock);
    node_counts(b, kid_spot(s, keys, kids, i + 1), zb, stock);
    page_ok(a, kid_spot(s, keys, kids, i), za, stock);
    page_ok(b, kid_spot(s, keys, kids, i + 1), zb, stock);
    assert(stored(a, m) && stored(b, m));
    assert(owns(a, a.id()) && owns(b, b.id()));
    assert(!owns(kids[i], t.id()) && !owns(kids[i + 1], t.id()));
}

/// Keys are to move between children `i` and `i + 1`, so that the first has `at` of them.
pub open spec fn moving(
    now: Pager,
    t: Tree,
    s: Spot,
    stock: Stock,
    id: u32,
    weak: int,
    i: int,
    at: int,
    node: PageView,
    a: u32,
    left: PageView,
    b: u32,
    right: PageView,
    sep: Seq<u8>,
) -> bool {
    let g = rotate(t, i, at);
    &&& limping(now, t, s, stock, id, weak)
    &&& 0 <= i
    &&& i + 1 < t->kids.len()
    &&& weak == i || weak == i + 1
    &&& 0 <= at < join(t->kids[i], t->Node_keys[i], t->kids[i + 1]).top_keys().len()
    &&& sized(g->kids[i], Size::Half)
    &&& sized(g->kids[i + 1], Size::Half)
    &&& node == t.page()
    &&& a == t->kids[i].id()
    &&& left == g->kids[i].page()
    &&& b == t->kids[i + 1].id()
    &&& right == g->kids[i + 1].page()
    &&& sep == g->Node_keys[i]
}

/// Write two neighbours between which keys have moved, and their new separator.
fn install(
    pager: &mut Pager,
    id: u32,
    node: InternalPage,
    i: usize,
    a: u32,
    left: Page,
    b: u32,
    right: Page,
    sep: Vec<u8>,
    Ghost(t): Ghost<Tree>,
    Ghost(s): Ghost<Spot>,
    Ghost(stock): Ghost<Stock>,
    Ghost(weak): Ghost<int>,
    Ghost(at): Ghost<int>,
) -> (r: Result<(bool, Ghost<Tree>), StorageError>)
    ensures
        moving(*old(pager), t, s, stock, id, weak, i as int, at, node@, a, left@, b, right@, sep@) ==> {
            &&& mend_result(*old(pager), *final(pager), t, s, stock, r)
            &&& r matches Ok((done, g)) ==> done && rotated_to(*old(pager), *final(pager), t, g@, i as int, at)
        },
{
    let ghost good = moving(*pager, t, s, stock, id, weak, i as int, at, node@, a, left@, b, right@, sep@);
    let ghost m = pager@;
    let ghost g = rotate(t, i as int, at);
    let mut node = node;
    proof {
        if good {
            family(m, t, s, stock, weak, i as int);
        }
    }
    if i >= node.keys.len() {
        return Err(StorageError::Corrupt);
    }
    node.keys.set(i, sep);
    proof {
        if good {
            assert(strings(node.keys@) =~= g->Node_keys);
            assert(node.children@ =~= numbers(g->kids));
            rotation_ready(m, t, s, stock, weak, i as int, at);
        }
    }
    match set_three(pager, a, left, b, right, id, Page::Internal(node)) {
        Err(e) => {
            proof {
                if good {
                    outside(m, pager@, t, s, stock, weak, i as int);
                }
            }
            Err(e)
        },
        Ok(_) => {
            proof {
                if good {
                    rotated_stored(m, pager@, t, s, stock, weak, i as int, at);
                }
            }
            Ok((true, Ghost(g)))
        },
    }
}

/// The keys of the right neighbour move to the left, one of them.
fn shift_left(left: Page, right: Page, sep: &Vec<u8>) -> (r: Option<(Page, Page, Vec<u8>)>)
    ensures
        match (left@, right@) {
            (PageView::Leaf { keys: ka, values: va, next: na }, PageView::Leaf { keys: kb, values: vb, next: nb }) => {
                if kb.len() >= 2 && vb.len() == kb.len() {
                    &&& r matches Some((l, r, k))
                    &&& l@ == PageView::Leaf { keys: ka.push(kb[0]), values: va.push(vb[0]), next: na }
                    &&& r@ == PageView::Leaf { keys: kb.skip(1), values: vb.skip(1), next: nb }
                    &&& k@ == kb[1]
                } else {
                    r is None
                }
            },
            (PageView::Internal { keys: ka, children: ca }, PageView::Internal { keys: kb, children: cb }) => {
                if kb.len() >= 1 && cb.len() >= 1 {
                    &&& r matches Some((l, r, k))
                    &&& l@ == PageView::Internal { keys: ka.push(sep@), children: ca.push(cb[0]) }
                    &&& r@ == PageView::Internal { keys: kb.skip(1), children: cb.skip(1) }
                    &&& k@ == kb[0]
                } else {
                    r is None
                }
            },
            _ => r is None,
        },
{
    match (left, right) {
        (Page::Leaf(l), Page::Leaf(r)) => {
            let mut l = l;
            let mut r = r;
            if r.keys.len() < 2 || r.values.len() != r.keys.len() {
                return None;
            }
            let ghost (l0, r0) = (l, r);
            let k = r.keys.remove(0);
            let v = r.values.remove(0);
            l.keys.push(k);
            l.values.push(v);
            let sep = copy(r.keys[0].as_slice());
            assert(strings(l.keys@) =~= strings(l0.keys@).push(strings(r0.keys@)[0]));
            assert(strings(l.values@) =~= strings(l0.values@).push(strings(r0.values@)[0]));
            assert(strings(r.keys@) =~= strings(r0.keys@).skip(1));
            assert(strings(r.values@) =~= strings(r0.values@).skip(1));
            Some((Page::Leaf(l), Page::Leaf(r), sep))
        },
        (Page::Internal(l), Page::Internal(r)) => {
            let mut l = l;
            let mut r = r;
            if r.keys.len() < 1 || r.children.len() < 1 {
                return None;
            }
            let ghost (l0, r0) = (l, r);
            let k = r.keys.remove(0);
            let c: u32 = r.children.remove(0);
            l.keys.push(copy(sep.as_slice()));
            l.children.push(c);
            assert(strings(l.keys@) =~= strings(l0.keys@).push(sep@));
            assert(l.children@ =~= l0.children@.push(r0.children@[0]));
            assert(strings(r.keys@) =~= strings(r0.keys@).skip(1));
            assert(r.children@ =~= r0.children@.skip(1));
            Some((Page::Internal(l), Page::Internal(r), k))
        },
        _ => None,
    }
}

/// The keys of the left neighbour move to the right, one of them.
fn shift_right(left: Page, right: Page, sep: &Vec<u8>) -> (r: Option<(Page, Page, Vec<u8>)>)
    ensures
        match (left@, right@) {
            (PageView::Leaf { keys: ka, values: va, next: na }, PageView::Leaf { keys: kb, values: vb, next: nb }) => {
                if ka.len() >= 1 && va.len() == ka.len() {
                    &&& r matches Some((l, r, k))
                    &&& l@ == PageView::Leaf { keys: ka.drop_last(), values: va.drop_last(), next: na }
                    &&& r@ == PageView::Leaf { keys: seq![ka.last()] + kb, values: seq![va.last()] + vb, next: nb }
                    &&& k@ == ka.last()
                } else {
                    r is None
                }
            },
            (PageView::Internal { keys: ka, children: ca }, PageView::Internal { keys: kb, children: cb }) => {
                if ka.len() >= 1 && ca.len() >= 1 {
                    &&& r matches Some((l, r, k))
                    &&& l@ == PageView::Internal { keys: ka.drop_last(), children: ca.drop_last() }
                    &&& r@ == PageView::Internal { keys: seq![sep@] + kb, children: seq![ca.last()] + cb }
                    &&& k@ == ka.last()
                } else {
                    r is None
                }
            },
            _ => r is None,
        },
{
    match (left, right) {
        (Page::Leaf(l), Page::Leaf(r)) => {
            let mut l = l;
            let mut r = r;
            if l.keys.len() < 1 || l.values.len() != l.keys.len() {
                return None;
            }
            let ghost (l0, r0) = (l, r);
            match (l.keys.pop(), l.values.pop()) {
                (Some(k), Some(v)) => {
                    let sep = copy(k.as_slice());
                    r.keys.insert(0, k);
                    r.values.insert(0, v);
                    assert(strings(l.keys@) =~= strings(l0.keys@).drop_last());
                    assert(strings(l.values@) =~= strings(l0.values@).drop_last());
                    assert(strings(r.keys@) =~= seq![strings(l0.keys@).last()] + strings(r0.keys@));
                    assert(strings(r.values@) =~= seq![strings(l0.values@).last()] + strings(r0.values@));
                    Some((Page::Leaf(l), Page::Leaf(r), sep))
                },
                _ => None,
            }
        },
        (Page::Internal(l), Page::Internal(r)) => {
            let mut l = l;
            let mut r = r;
            let ghost (l0, r0) = (l, r);
            if l.keys.len() < 1 || l.children.len() < 1 {
                return None;
            }
            match (l.keys.pop(), l.children.pop()) {
                (Some(k), Some(c)) => {
                    r.keys.insert(0, copy(sep.as_slice()));
                    r.children.insert(0, c);
                    assert(strings(l.keys@) =~= strings(l0.keys@).drop_last());
                    assert(l.children@ =~= l0.children@.drop_last());
                    assert(strings(r.keys@) =~= seq![sep@] + strings(r0.keys@));
                    assert(r.children@ =~= seq![l0.children@.last()] + r0.children@);
                    Some((Page::Internal(l), Page::Internal(r), k))
                },
                _ => None,
            }
        },
        _ => None,
    }
}

/// What one key moved to the left makes of two neighbours.
proof fn shifted_left(t: Tree, i: int)
    requires
        t is Node,
        t->kids.len() == t->Node_keys.len() + 1,
        0 <= i,
        i + 1 < t->kids.len(),
        t->kids[i] is Leaf <==> t->kids[i + 1] is Leaf,
        t->kids[i] is Leaf ==> t->kids[i]->next == t->kids[i + 1].id(),
        whole(t->kids[i].page()),
        whole(t->kids[i + 1].page()),
        t->kids[i + 1].top_keys().len() >= 2,
    ensures
        ({
            let a = t->kids[i];
            let b = t->kids[i + 1];
            let at = a.top_keys().len() as int + 1;
            let g = rotate(t, i, at);
            let l = g->kids[i];
            let r = g->kids[i + 1];
            &&& 0 <= at < join(a, t->Node_keys[i], b).top_keys().len()
            &&& l is Leaf <==> a is Leaf
            &&& r is Leaf <==> a is Leaf
            &&& l.top_keys().len() == a.top_keys().len() + 1
            &&& r.top_keys().len() + 1 == b.top_keys().len()
            &&& first_moved_left(t, g, i)
            &&& g->Node_keys[i] == g.page()->Internal_keys[i]
        }),
{
    let a = t->kids[i];
    let b = t->kids[i + 1];
    let sep = t->Node_keys[i];
    let at = a.top_keys().len() as int + 1;
    let g = rotate(t, i, at);
    let l = g->kids[i];
    let r = g->kids[i + 1];
    assert(numbers(g->kids) =~= numbers(t->kids));
    match (a, b) {
        (Tree::Leaf { keys: ka, values: va, .. }, Tree::Leaf { keys: kb, values: vb, .. }) => {
            assert((ka + kb).take(at) =~= ka.push(kb[0]));
            assert((va + vb).take(at) =~= va.push(vb[0]));
            assert((ka + kb).skip(at) =~= kb.skip(1));
            assert((va + vb).skip(at) =~= vb.skip(1));
        },
        (Tree::Node { keys: ka, kids: kida, .. }, Tree::Node { keys: kb, kids: kidb, .. }) => {
            let all = ka.push(sep) + kb;
            assert(numbers(kida).len() == ka.len() + 1);
            assert(numbers(kidb).len() == kb.len() + 1);
            assert(all.take(at) =~= ka.push(sep));
            assert(all.skip(at + 1) =~= kb.skip(1));
            assert(all[at] == kb[0]);
            assert(numbers((kida + kidb).take(at + 1)) =~= numbers(kida).push(numbers(kidb)[0]));
            assert(numbers((kida + kidb).skip(at + 1)) =~= numbers(kidb).skip(1));
        },
        _ => {},
    }
}

/// What one key moved to the right makes of two neighbours.
proof fn shifted_right(t: Tree, i: int)
    requires
        t is Node,
        t->kids.len() == t->Node_keys.len() + 1,
        0 <= i,
        i + 1 < t->kids.len(),
        t->kids[i] is Leaf <==> t->kids[i + 1] is Leaf,
        t->kids[i] is Leaf ==> t->kids[i]->next == t->kids[i + 1].id(),
        whole(t->kids[i].page()),
        whole(t->kids[i + 1].page()),
        t->kids[i].top_keys().len() >= 1,
    ensures
        ({
            let a = t->kids[i];
            let b = t->kids[i + 1];
            let at = a.top_keys().len() - 1;
            let g = rotate(t, i, at);
            let l = g->kids[i];
            let r = g->kids[i + 1];
            &&& 0 <= at < join(a, t->Node_keys[i], b).top_keys().len()
            &&& l is Leaf <==> a is Leaf
            &&& r is Leaf <==> a is Leaf
            &&& l.top_keys().len() + 1 == a.top_keys().len()
            &&& r.top_keys().len() == b.top_keys().len() + 1
            &&& last_moved_right(t, g, i)
            &&& g->Node_keys[i] == g.page()->Internal_keys[i]
        }),
{
    let a = t->kids[i];
    let b = t->kids[i + 1];
    let sep = t->Node_keys[i];
    let at = a.top_keys().len() - 1;
    let g = rotate(t, i, at);
    assert(numbers(g->kids) =~= numbers(t->kids));
    match (a, b) {
        (Tree::Leaf { keys: ka, values: va, .. }, Tree::Leaf { keys: kb, values: vb, .. }) => {
            assert((ka + kb).take(at) =~= ka.drop_last());
            assert((va + vb).take(at) =~= va.drop_last());
            assert((ka + kb).skip(at) =~= seq![ka.last()] + kb);
            assert((va + vb).skip(at) =~= seq![va.last()] + vb);
        },
        (Tree::Node { keys: ka, kids: kida, .. }, Tree::Node { keys: kb, kids: kidb, .. }) => {
            let all = ka.push(sep) + kb;
            assert(numbers(kida).len() == ka.len() + 1);
            assert(numbers(kidb).len() == kb.len() + 1);
            assert(all.take(at) =~= ka.drop_last());
            assert(all.skip(at + 1) =~= seq![sep] + kb);
            assert(all[at] == ka.last());
            assert(numbers((kida + kidb).take(at + 1)) =~= numbers(kida).drop_last());
            assert(numbers((kida + kidb).skip(at + 1)) =~= seq![numbers(kida).last()] + numbers(kidb));
        },
        _ => {},
    }
}

/// Borrow a key from the sibling on the right, if it has one to spare.
fn try_borrow_right(
    pager: &mut Pager,
    parent_id: u32,
    child_idx: usize,
    Ghost(t): Ghost<Tree>,
    Ghost(s): Ghost<Spot>,
    Ghost(stock): Ghost<Stock>,
) -> (r: Result<(bool, Ghost<Tree>), StorageError>)
    ensures
        limping(*old(pager), t, s, stock, parent_id, child_idx as int) ==> {
            &&& mend_result(*old(pager), *final(pager), t, s, stock, r)
            &&& r matches Ok((done, g)) ==> {
                let i = child_idx as int;
                &&& done == (i + 1 < t->kids.len() && !no_spare(t->kids[i + 1]))
                &&& done ==> first_moved_left(t, g@, i) && rotated_to(
                    *old(pager),
                    *final(pager),
                    t,
                    g@,
                    i,
                    t->kids[i].top_keys().len() as int + 1,
                )
            }
        },
{
    let ghost good = limping(*pager, t, s, stock, parent_id, child_idx as int);
    let ghost m = pager@;
    let ghost i = child_idx as int;
    let node = match load(pager, parent_id) {
        Err(e) => {
            return Err(e);
        },
        Ok(Page::Internal(p)) => p,
        Ok(_) => {
            return Err(StorageError::Corrupt);
        },
    };
    if child_idx >= node.children.len() {
        return Err(StorageError::Corrupt);
    }
    if child_idx == node.children.len() - 1 {
        return Ok((false, Ghost(t)));
    }
    let current_id: u32 = node.children[child_idx];
    let right_id: u32 = node.children[child_idx + 1];
    let ghost at = t->kids[i].top_keys().len() + 1;
    proof {
        if good {
            family(m, t, s, stock, i, i);
        }
    }
    let right = match load(pager, right_id) {
        Err(e) => {
            return Err(e);
        },
        Ok(p) => p,
    };
    if !can_spare(&right) {
        return Ok((false, Ghost(t)));
    }
    let current = match load(pager, current_id) {
        Err(e) => {
            return Err(e);
        },
        Ok(p) => p,
    };
    if child_idx >= node.keys.len() {
        return Err(StorageError::Corrupt);
    }
    proof {
        if good {
            shifted_left(t, i);
        }
    }
    match shift_left(current, right, &node.keys[child_idx]) {
        None => Err(StorageError::Corrupt),
        Some((l, r, sep)) => install(
            pager,
            parent_id,
            node,
            child_idx,
            current_id,
            l,
            right_id,
            r,
            sep,
            Ghost(t),
            Ghost(s),
            Ghost(stock),
            Ghost(i),
            Ghost(at as int),
        ),
    }
}

/// Borrow a key from the sibling on the left, if it has one to spare.
fn try_borrow_left(
    pager: &mut Pager,
    parent_id: u32,
    child_idx: usize,
    Ghost(t): Ghost<Tree>,
    Ghost(s): Ghost<Spot>,
    Ghost(stock): Ghost<Stock>,
) -> (r: Result<(bool, Ghost<Tree>), StorageError>)
    ensures
        limping(*old(pager), t, s, stock, parent_id, child_idx as int) ==> {
            &&& mend_result(*old(pager), *final(pager), t, s, stock, r)
            &&& r matches Ok((done, g)) ==> {
                let i = child_idx - 1;
                &&& done == (child_idx > 0 && !no_spare(t->kids[i]))
                &&& done ==> last_moved_right(t, g@, i) && rotated_to(
                    *old(pager),
                    *final(pager),
                    t,
                    g@,
                    i,
                    t->kids[i].top_keys().len() - 1,
                )
            }
        },
{
    let ghost good = limping(*pager, t, s, stock, parent_id, child_idx as int);
    let ghost m = pager@;
    if child_idx == 0 {
        return Ok((false, Ghost(t)));
    }
    let left_idx: usize = child_idx - 1;
    let ghost i = left_idx as int;
    let node = match load(pager, parent_id) {
        Err(e) => {
            return Err(e);
        },
        Ok(Page::Internal(p)) => p,
        Ok(_) => {
            return Err(StorageError::Corrupt);
        },
    };
    if child_idx >= node.children.len() {
        return Err(StorageError::Corrupt);
    }
    let left_id: u32 = node.children[left_idx];
    let current_id: u32 = node.children[child_idx];
    let ghost at = t->kids[i].top_keys().len() - 1;
    proof {
        if good {
            family(m, t, s, stock, i + 1, i);
        }
    }
    let left = match load(pager, left_id) {
        Err(e) => {
            return Err(e);
        },
        Ok(p) => p,
    };
    if !can_spare(&left) {
        return Ok((false, Ghost(t)));
    }
    let current = match load(pager, current_id) {
        Err(e) => {
            return Err(e);
        },
        Ok(p) => p,
    };
    if left_idx >= node.keys.len() {
        return Err(StorageError::Corrupt);
    }
    proof {
        if good {
            shifted_right(t, i);
        }
    }
    match shift_right(left, current, &node.keys[left_idx]) {
        None => Err(StorageError::Corrupt),
        Some((l, r, sep)) => install(
            pager,
            parent_id,
            node,
            left_idx,
            left_id,
            l,
            current_id,
            r,
            sep,
            Ghost(t),
            Ghost(s),
            Ghost(stock),
            Ghost(i + 1),
            Ghost(at),
        ),
    }
}

/// The pages of a node that is mended by moving keys can be written.
proof fn rotation_ready(m: Map<u32, PageView>, t: Tree, s: Spot, stock: Stock, weak: int, i: int, at: int)
    requires
        lame(m, t, s, stock, weak),
        t->Node_keys.len() <= MAX_KEYS_INTERNAL,
        0 <= i,
        i + 1 < t->kids.len(),
        weak == i || weak == i + 1,
        0 <= at < join(t->kids[i], t->Node_keys[i], t->kids[i + 1]).top_keys().len(),
        sized(rotate(t, i, at)->kids[i], Size::Half),
        sized(rotate(t, i, at)->kids[i + 1], Size::Half),
    ensures
        mended(t, rotate(t, i, at), s, stock),
        whole(rotate(t, i, at).page()),
        whole(rotate(t, i, at)->kids[i].page()),
        whole(rotate(t, i, at)->kids[i + 1].page()),
        roomy(stock) ==> {
            &&& fits(rotate(t, i, at).page())
            &&& fits(rotate(t, i, at)->kids[i].page())
            &&& fits(rotate(t, i, at)->kids[i + 1].page())
        },
{
    let g = rotate(t, i, at);
    rotated(m, t, s, stock, weak, i, at);
    resize(g, s, Size::Loose, Size::Root, stock);
    page_ok(g, s, Size::Root, stock);
    let a = g->kids[i];
    let b = g->kids[i + 1];
    page_ok(a, kid_spot(s, g->Node_keys, g->kids, i), Size::Half, stock);
    page_ok(b, kid_spot(s, g->Node_keys, g->kids, i + 1), Size::Half, stock);
}

/// What is outside a node is outside its children.
proof fn outside(m: Map<u32, PageView>, m2: Map<u32, PageView>, t: Tree, s: Spot, stock: Stock, weak: int, i: int)
    requires
        lame(m, t, s, stock, weak),
        0 <= i,
        i + 1 < t->kids.len(),
        same_but(m, m2, t->kids[i].id(), t->kids[i + 1].id(), t.id()),
    ensures
        untouched(m, m2, t),
{
    let a = t->kids[i];
    let b = t->kids[i + 1];
    assert(owns(a, a.id()) && owns(b, b.id()));
    assert forall|x: u32| #[trigger] m.contains_key(x) && !owns(t, x) implies m2.contains_key(x) && m2[x] == m[x] by {
        node_owns(t.id(), t->Node_keys, t->kids, x);
        assert(!owns(t->kids[i], x) && !owns(t->kids[i + 1], x));
    }
}

/// Two neighbouring pages made into one.
fn merge_pages(left: Page, right: Page, sep: &Vec<u8>) -> (r: Option<Page>)
    ensures
        match (left@, right@) {
            (PageView::Leaf { keys: ka, values: va, .. }, PageView::Leaf { keys: kb, values: vb, next }) => {
                &&& r matches Some(p)
                &&& p@ == PageView::Leaf { keys: ka + kb, values: va + vb, next }
            },
            (PageView::Internal { keys: ka, children: ca }, PageView::Internal { keys: kb, children: cb }) => {
                &&& r matches Some(p)
                &&& p@ == PageView::Internal { keys: ka.push(sep@) + kb, children: ca + cb }
            },
            _ => r is None,
        },
{
    match (left, right) {
        (Page::Leaf(l), Page::Leaf(r)) => {
            let mut l = l;
            let mut r = r;
            let ghost (l0, r0) = (l, r);
            l.keys.append(&mut r.keys);
            l.values.append(&mut r.values);
            l.next = r.next;
            assert(strings(l.keys@) =~= strings(l0.keys@) + strings(r0.keys@));
            assert(strings(l.values@) =~= strings(l0.values@) + strings(r0.values@));
            Some(Page::Leaf(l))
        },
        (Page::Internal(l), Page::Internal(r)) => {
            let mut l = l;
            let mut r = r;
            let ghost (l0, r0) = (l, r);
            l.keys.push(copy(sep.as_slice()));
            l.keys.append(&mut r.keys);
            l.children.append(&mut r.children);
            assert(strings(l.keys@) =~= strings(l0.keys@).push(sep@) + strings(r0.keys@));
            assert(l.children@ =~= l0.children@ + r0.children@);
            Some(Page::Internal(l))
        },
        _ => None,
    }
}

/// The page of two joined nodes.
proof fn joined_page(a: Tree, sep: Seq<u8>, b: Tree)
    requires
        a is Leaf <==> b is Leaf,
    ensures
        match (a.page(), b.page()) {
            (PageView::Leaf { keys: ka, values: va, .. }, PageView::Leaf { keys: kb, values: vb, next }) => {
                join(a, sep, b).page() == (PageView::Leaf { keys: ka + kb, values: va + vb, next })
            },
            (PageView::Internal { keys: ka, children: ca }, PageView::Internal { keys: kb, children: cb }) => {
                join(a, sep, b).page() == (PageView::Internal { keys: ka.push(sep) + kb, children: ca + cb })
            },
            _ => false,
        },
{
    if a is Node {
        assert(numbers(a->kids + b->kids) =~= numbers(a->kids) + numbers(b->kids));
    }
}

/// Two neighbours, one of them short of a key.
pub open spec fn beside(t: Tree, i: int, weak: int) -> bool {
    &&& 0 <= i
    &&& i + 1 < t->kids.len()
    &&& weak == i || weak == i + 1
}

/// Two neighbours, one of them short of a key and the other without one to spare.
pub open spec fn lean(t: Tree, i: int, weak: int) -> bool {
    &&& beside(t, i, weak)
    &&& weak == i ==> no_spare(t->kids[i + 1])
    &&& weak == i + 1 ==> no_spare(t->kids[i])
}

/// The pages of a node that is mended by joining children can be written.
proof fn merge_ready(m: Map<u32, PageView>, t: Tree, s: Spot, stock: Stock, weak: int, i: int)
    requires
        lame(m, t, s, stock, weak),
        short_by_one(t->kids[weak]),
        t->Node_keys.len() <= MAX_KEYS_INTERNAL,
        lean(t, i, weak),
    ensures
        ({
            let c = join(t->kids[i], t->Node_keys[i], t->kids[i + 1]);
            let g = merge(t, i);
            &&& sized(c, Size::Half)
            &&& mended(t, g, s, stock)
            &&& g->kids[i] == c
            &&& whole(c.page())
            &&& whole(g.page())
            &&& roomy(stock) ==> fits(c.page()) && fits(g.page())
            &&& g.page() == PageView::Internal {
                keys: t->Node_keys.remove(i),
                children: numbers(t->kids).remove(i + 1),
            }
        }),
{
    family(m, t, s, stock, weak, i);
    let c = join(t->kids[i], t->Node_keys[i], t->kids[i + 1]);
    let g = merge(t, i);
    merged(m, t, s, stock, weak, i);
    assert(g->kids[i] == c);
    page_ok(c, kid_spot(s, g->Node_keys, g->kids, i), Size::Half, stock);
    resize(g, s, Size::Loose, Size::Root, stock);
    page_ok(g, s, Size::Root, stock);
    assert(numbers(g->kids) =~= numbers(t->kids).remove(i + 1));
}

/// Join child `i + 1` to child `i` and free its page.
fn merge_at(
    pager: &mut Pager,
    parent_id: u32,
    i: usize,
    Ghost(t): Ghost<Tree>,
    Ghost(s): Ghost<Spot>,
    Ghost(stock): Ghost<Stock>,
    Ghost(weak): Ghost<int>,
) -> (r: Result<(bool, Ghost<Tree>), StorageError>)
    ensures
        limping(*old(pager), t, s, stock, parent_id, weak) && beside(t, i as int, weak) ==> {
            &&& r matches Ok((done, g)) ==> done && joined_right(t, g@, i as int) && merged_to(
                *old(pager),
                *final(pager),
                t,
                g@,
                i as int,
            )
            &&& lean(t, i as int, weak) ==> mend_result(*old(pager), *final(pager), t, s, stock, r)
        },
{
    let ghost near = limping(*pager, t, s, stock, parent_id, weak) && beside(t, i as int, weak);
    let ghost good = limping(*pager, t, s, stock, parent_id, weak) && lean(t, i as int, weak);
    let ghost was = *pager;
    let ghost m = pager@;
    let mut node = match load(pager, parent_id) {
        Err(e) => {
            return Err(e);
        },
        Ok(Page::Internal(p)) => p,
        Ok(_) => {
            return Err(StorageError::Corrupt);
        },
    };
    proof {
        if near {
            family(m, t, s, stock, weak, i as int);
        }
    }
    if i >= node.keys.len() || i >= node.children.len() || i == node.children.len() - 1 {
        return Err(StorageError::Corrupt);
    }
    let left_id: u32 = node.children[i];
    let right_id: u32 = node.children[i + 1];
    let left = match load(pager, left_id) {
        Err(e) => {
            return Err(e);
        },
        Ok(p) => p,
    };
    let right = match load(pager, right_id) {
        Err(e) => {
            return Err(e);
        },
        Ok(p) => p,
    };
    let merged_page = match merge_pages(left, right, &node.keys[i]) {
        None => {
            return Err(StorageError::Corrupt);
        },
        Some(p) => p,
    };
    node.keys.remove(i);
    node.children.remove(i + 1);
    let ghost g = merge(t, i as int);
    proof {
        if near {
            joined_page(t->kids[i as int], t->Node_keys[i as int], t->kids[i + 1]);
            assert(strings(node.keys@) =~= g->Node_keys);
            assert(numbers(g->kids) =~= numbers(t->kids).remove(i + 1));
            assert(node@ == g.page());
            assert(joined_right(t, g, i as int));
        }
        if good {
            merge_ready(m, t, s, stock, weak, i as int);
        }
    }
    match pager.set_page(left_id, merged_page) {
        Err(e) => {
            return Err(e);
        },
        Ok(_) => {},
    }
    match pager.set_page(parent_id, Page::Internal(node)) {
        Err(e) => {
            proof {
                if good {
                    outside(m, pager@, t, s, stock, weak, i as int);
                }
            }
            return Err(e);
        },
        Ok(_) => {},
    }
    pager.free_page(right_id);
    proof {
        if good {
            merged_stored(m, pager@, t, s, stock, weak, i as int);
        }
    }
    Ok((true, Ghost(g)))
}

/// Merge a child with its sibling on the right, if there is one.
fn try_merge_right(
    pager: &mut Pager,
    parent_id: u32,
    child_idx: usize,
    Ghost(t): Ghost<Tree>,
    Ghost(s): Ghost<Spot>,
    Ghost(stock): Ghost<Stock>,
) -> (r: Result<(bool, Ghost<Tree>), StorageError>)
    ensures
        limping(*old(pager), t, s, stock, parent_id, child_idx as int) ==> {
            let i = child_idx as int;
            &&& r matches Ok((done, g)) ==> {
                &&& done == (i + 1 < t->kids.len())
                &&& done ==> joined_right(t, g@, i) && merged_to(*old(pager), *final(pager), t, g@, i)
                &&& !done ==> same_pages(*old(pager), *final(pager))
            }
            &&& (i + 1 < t->kids.len() ==> no_spare(t->kids[i + 1])) ==> mend_result(
                *old(pager),
                *final(pager),
                t,
                s,
                stock,
                r,
            )
        },
{
    let children: usize = match pager.get_page(parent_id) {
        Err(e) => {
            return Err(e);
        },
        Ok(Page::Internal(p)) => p.children.len(),
        Ok(_) => {
            return Err(StorageError::Corrupt);
        },
    };
    if child_idx >= children {
        return Err(StorageError::Corrupt);
    }
    if child_idx == children - 1 {
        return Ok((false, Ghost(t)));
    }
    merge_at(pager, parent_id, child_idx, Ghost(t), Ghost(s), Ghost(stock), Ghost(child_idx as int))
}

/// Merge a child into its sibling on the left.
fn do_merge_left(
    pager: &mut Pager,
    parent_id: u32,
    child_idx: usize,
    Ghost(t): Ghost<Tree>,
    Ghost(s): Ghost<Spot>,
    Ghost(stock): Ghost<Stock>,
) -> (r: Result<(bool, Ghost<Tree>), StorageError>)
    ensures
        limping(*old(pager), t, s, stock, parent_id, child_idx as int) && child_idx > 0 ==> {
            let i = child_idx - 1;
            &&& r matches Ok((done, g)) ==> done && joined_right(t, g@, i) && merged_to(
                *old(pager),
                *final(pager),
                t,
                g@,
                i,
            )
            &&& no_spare(t->kids[i]) ==> mend_result(*old(pager), *final(pager), t, s, stock, r)
        },
{
    if child_idx == 0 {
        return Err(StorageError::Corrupt);
    }
    merge_at(pager, parent_id, child_idx - 1, Ghost(t), Ghost(s), Ghost(stock), Ghost(child_idx as int))
}

/// The node after child `i`, which is short of a key, has got one from the right or else from the left, or
/// else has been joined with the sibling on the right or, if there is none, on the left.
pub open spec fn rebalanced(t: Tree, i: int) -> Tree {
    if i + 1 < t->kids.len() && !no_spare(t->kids[i + 1]) {
        rotate(t, i, t->kids[i].top_keys().len() as int + 1)
    } else if i > 0 && !no_spare(t->kids[i - 1]) {
        rotate(t, i - 1, t->kids[i - 1].top_keys().len() - 1)
    } else if i + 1 < t->kids.len() {
        merge(t, i)
    } else {
        merge(t, i - 1)
    }
}

/// The pages of the node have been written accordingly.
pub open spec fn rebalanced_to(before: Pager, after: Pager, t: Tree, g: Tree, i: int) -> bool {
    if i + 1 < t->kids.len() && !no_spare(t->kids[i + 1]) {
        rotated_to(before, after, t, g, i, t->kids[i].top_keys().len() as int + 1)
    } else if i > 0 && !no_spare(t->kids[i - 1]) {
        rotated_to(before, after, t, g, i - 1, t->kids[i - 1].top_keys().len() - 1)
    } else if i + 1 < t->kids.len() {
        merged_to(before, after, t, g, i)
    } else {
        merged_to(before, after, t, g, i - 1)
    }
}

proof fn rebalanced_tidy(before: Pager, after: Pager, t: Tree, s: Spot, stock: Stock, id: u32, g: Tree, i: int)
    requires
        limping(before, t, s, stock, id, i),
        t->kids.len() >= 2,
        rebalanced_to(before, after, t, g, i),
    ensures
        tidy(before@, after@, t, g, g),
{
    let m = before@;
    let m2 = after@;
    let right = i + 1 < t->kids.len();
    let from_right = right && !no_spare(t->kids[i + 1]);
    let from_left = !from_right && i > 0 && !no_spare(t->kids[i - 1]);
    let l = if from_right || (!from_left && right) {
        i
    } else {
        i - 1
    };
    family(m, t, s, stock, i, l);
    let a = t->kids[l];
    let b = t->kids[l + 1];
    let at = if from_right {
        a.top_keys().len() as int + 1
    } else {
        a.top_keys().len() - 1
    };
    assert(owns(a, a.id()) && owns(b, b.id()));
    assert forall|x: u32| #[trigger] m2.contains_key(x) implies owns(g, x) || (m.contains_key(x) && !owns(t, x)) by {
        if m.contains_key(x) && owns(t, x) {
            if from_right || from_left {
                if a is Node {
                    assert(numbers(a->kids).len() == a->Node_keys.len() + 1);
                    assert(numbers(b->kids).len() == b->Node_keys.len() + 1);
                }
                rotate_owns(t, l, at, x);
            } else {
                merge_owns(t, l, x);
            }
        }
    }
}

/// Bring a child up to half of a page again, with the help of its siblings.
fn rebalance(
    pager: &mut Pager,
    parent_id: u32,
    child_idx: usize,
    Ghost(t): Ghost<Tree>,
    Ghost(s): Ghost<Spot>,
    Ghost(stock): Ghost<Stock>,
) -> (r: Result<(bool, Ghost<Tree>), StorageError>)
    ensures
        limping(*old(pager), t, s, stock, parent_id, child_idx as int) && t->kids.len() >= 2 ==> {
            &&& mend_result(*old(pager), *final(pager), t, s, stock, r)
            &&& r matches Ok((done, g)) ==> {
                &&& done
                &&& g@ == rebalanced(t, child_idx as int)
                &&& rebalanced_to(*old(pager), *final(pager), t, g@, child_idx as int)
                &&& tidy(old(pager)@, final(pager)@, t, g@, g@)
            }
        },
{
    let ghost was = *pager;
    let ghost good = limping(was, t, s, stock, parent_id, child_idx as int) && t->kids.len() >= 2;
    match try_borrow_right(pager, parent_id, child_idx, Ghost(t), Ghost(s), Ghost(stock)) {
        Err(e) => {
            return Err(e);
        },
        Ok((true, g)) => {
            proof {
                if good {
                    rebalanced_tidy(was, *pager, t, s, stock, parent_id, g@, child_idx as int);
                }
            }
            return Ok((true, g));
        },
        Ok((false, _)) => {},
    }
    match try_borrow_left(pager, parent_id, child_idx, Ghost(t), Ghost(s), Ghost(stock)) {
        Err(e) => {
            return Err(e);
        },
        Ok((true, g)) => {
            proof {
                if good {
                    rebalanced_tidy(was, *pager, t, s, stock, parent_id, g@, child_idx as int);
                }
            }
            return Ok((true, g));
        },
        Ok((false, _)) => {},
    }
    match try_merge_right(pager, parent_id, child_idx, Ghost(t), Ghost(s), Ghost(stock)) {
        Err(e) => {
            return Err(e);
        },
        Ok((true, g)) => {
            proof {
                if good {
                    rebalanced_tidy(was, *pager, t, s, stock, parent_id, g@, child_idx as int);
                }
            }
            return Ok((true, g));
        },
        Ok((false, _)) => {},
    }
    let r = do_merge_left(pager, parent_id, child_idx, Ghost(t), Ghost(s), Ghost(stock));
    proof {
        if good && r is Ok {
            rebalanced_tidy(was, *pager, t, s, stock, parent_id, r->Ok_0.1@, child_idx as int);
        }
    }
    r
}

/// What becomes of the tree below a page when a key is removed.
pub open spec fn removed_below(after: Pager, t: Tree, g: Tree, s: Spot, stock: Stock, k: Seq<u8>) -> bool {
    &&& g.id() == t.id()
    &&& first(g) == first(t)
    &&& stored(g, after@)
    &&& ok(g, s, Size::Loose, stock)
    &&& g.top_keys().len() <= t.top_keys().len() <= g.top_keys().len() + 1
    &&& g is Leaf <==> t is Leaf
    &&& forall|x: u32| #[trigger] owns(g, x) ==> owns(t, x)
    &&& removed(entries(t), entries(g), k)
}

/// A key is to be removed from the tree below page `id`.
pub open spec fn removing(now: Pager, id: u32, t: Tree, s: Spot, size: Size, stock: Stock, k: Seq<u8>) -> bool {
    &&& holds(now, t, s, size, stock)
    &&& t.id() == id
    &&& size !is Loose
    &&& within(s, k)
    &&& t is Node ==> t.top_keys().len() >= 1
}

/// What a removal leaves, and what its results say: whether the key was there, and whether the page
/// now has too few keys.
pub open spec fn removal_result(
    before: Pager,
    after: Pager,
    t: Tree,
    s: Spot,
    size: Size,
    stock: Stock,
    k: Seq<u8>,
    r: Result<(bool, bool, Ghost<Tree>), StorageError>,
) -> bool {
    &&& after.wf()
    &&& untouched(before@, after@, t)
    &&& r matches Ok((found, short, g)) ==> {
        &&& removed_below(after, t, g@, s, stock, k)
        &&& found <==> exists|v: Seq<u8>| #[trigger] entries(t).contains((k, v))
        &&& size is Half ==> (short <==> !sized(g@, Size::Half))
        &&& after.pages_left() >= before.pages_left()
        &&& tidy(before@, after@, t, g@, g@)
    }
    &&& roomy(stock) && before.all_fit() ==> r is Ok && after.all_fit()
}

/// Remove a key from a leaf.
fn remove_leaf(
    pager: &mut Pager,
    id: u32,
    leaf: LeafPage,
    key: &[u8],
    Ghost(t): Ghost<Tree>,
    Ghost(s): Ghost<Spot>,
    Ghost(size): Ghost<Size>,
    Ghost(stock): Ghost<Stock>,
) -> (r: Result<(bool, bool, Ghost<Tree>), StorageError>)
    ensures
        removing(*old(pager), id, t, s, size, stock, key@) && leaf@ == t.page() ==> removal_result(
            *old(pager),
            *final(pager),
            t,
            s,
            size,
            stock,
            key@,
            r,
        ),
{
    let ghost good = removing(*pager, id, t, s, size, stock, key@) && leaf@ == t.page();
    let mut p = leaf;
    let ghost keys = strings(p.keys@);
    let ghost values = strings(p.values@);
    let ghost next = p.next;
    proof {
        if good {
            node_counts(t, s, size, stock);
            assert(t == Tree::Leaf { id, keys, values, next });
        }
    }
    if p.keys.len() != p.values.len() {
        return Err(StorageError::Corrupt);
    }
    let (found, pos) = search(&p.keys, key);
    if !found {
        proof {
            if good {
                leaf_misses(t, s, size, stock, key@, pos as int);
                resize(t, s, size, Size::Loose, stock);
            }
        }
        return Ok((false, p.keys.len() < MIN_KEYS_LEAF, Ghost(t)));
    }
    p.keys.remove(pos);
    p.values.remove(pos);
    let short = p.keys.len() < MIN_KEYS_LEAF;
    let ghost g = Tree::Leaf { id, keys: keys.remove(pos as int), values: values.remove(pos as int), next };
    proof {
        if good {
            leaf_removed(id, keys, values, next, s, size, stock, pos as int);
            leaf_entries(id, keys, values, next);
            assert(entries(t)[pos as int] == (key@, values[pos as int]));
            assert(entries(t).contains((key@, values[pos as int])));
            assert(strings(p.keys@) =~= keys.remove(pos as int));
            assert(strings(p.values@) =~= values.remove(pos as int));
            resize(g, s, Size::Loose, Size::Root, stock);
            page_ok(g, s, Size::Root, stock);
        }
    }
    match pager.set_page(id, Page::Leaf(p)) {
        Err(e) => Err(e),
        Ok(_) => Ok((true, short, Ghost(g))),
    }
}

/// A key has been removed below child `i` of a node, which is `g` now.
pub open spec fn kid_shrunk(
    orig: Pager,
    now: Pager,
    id: u32,
    t: Tree,
    s: Spot,
    size: Size,
    stock: Stock,
    k: Seq<u8>,
    i: int,
    found: bool,
    short: bool,
    g: Tree,
) -> bool {
    &&& removing(orig, id, t, s, size, stock, k)
    &&& t is Node
    &&& 0 <= i < t->kids.len()
    &&& within(kid_spot(s, t->Node_keys, t->kids, i), k)
    &&& now.wf()
    &&& untouched(orig@, now@, t->kids[i])
    &&& removed_below(now, t->kids[i], g, kid_spot(s, t->Node_keys, t->kids, i), stock, k)
    &&& found <==> exists|v: Seq<u8>| #[trigger] entries(t->kids[i]).contains((k, v))
    &&& short <==> !sized(g, Size::Half)
    &&& now.pages_left() >= orig.pages_left()
    &&& tidy(orig@, now@, t->kids[i], g, g)
}

/// Mend a node after a key has been removed below one of its children.
fn settle(
    pager: &mut Pager,
    id: u32,
    i: usize,
    count: usize,
    found: bool,
    short: bool,
    Ghost(orig): Ghost<Pager>,
    Ghost(t): Ghost<Tree>,
    Ghost(s): Ghost<Spot>,
    Ghost(size): Ghost<Size>,
    Ghost(stock): Ghost<Stock>,
    Ghost(k): Ghost<Seq<u8>>,
    Ghost(g): Ghost<Tree>,
) -> (r: Result<(bool, bool, Ghost<Tree>), StorageError>)
    ensures
        kid_shrunk(orig, *old(pager), id, t, s, size, stock, k, i as int, found, short, g) && count
            == t.top_keys().len() && (roomy(stock) && orig.all_fit() ==> old(pager).all_fit()) ==> removal_result(
            orig,
            *final(pager),
            t,
            s,
            size,
            stock,
            k,
            r,
        ),
{
    let ghost good = kid_shrunk(orig, *pager, id, t, s, size, stock, k, i as int, found, short, g) && count
        == t.top_keys().len() && (roomy(stock) && orig.all_fit() ==> pager.all_fit());
    let ghost keys = t->Node_keys;
    let ghost kids = t->kids;
    let ghost kids2 = kids.update(i as int, g);
    let ghost t2 = Tree::Node { id, keys, kids: kids2 };
    let ghost mid = *pager;
    proof {
        if good {
            assert(t == Tree::Node { id, keys, kids });
            node_kids(id, keys, kids, s, size, stock);
            node_counts(t, s, size, stock);
            removed_kid(orig, *pager, id, keys, kids, s, size, stock, i as int, g, k);
            let kid = kids[i as int];
            node_counts(kid, kid_spot(s, keys, kids, i as int), Size::Half, stock);
            tidy_kid(orig@, mid@, id, keys, kids, i as int, g);
            assert(found <==> exists|v: Seq<u8>| #[trigger] entries(t).contains((k, v))) by {
                if found {
                    let v = choose|v: Seq<u8>| #[trigger] entries(kids[i as int]).contains((k, v));
                    assert(entries(t).contains((k, v)));
                }
            }
        }
    }
    if !short {
        proof {
            if good {
                firm(keys, kids2, s, stock, i as int);
                node_ok(id, keys, kids2, s, Size::Loose, stock);
            }
        }
        return Ok((found, count < MIN_KEYS_INTERNAL, Ghost(t2)));
    }
    proof {
        if good {
            let kid2 = kids2[i as int];
            node_counts(kid2, kid_spot(s, keys, kids2, i as int), Size::Loose, stock);
            assert(short_by_one(kid2));
        }
    }
    match rebalance(pager, id, i, Ghost(t2), Ghost(s), Ghost(stock)) {
        Err(e) => {
            proof {
                if good {
                    carried(orig@, mid@, pager@, t, t2);
                }
            }
            Err(e)
        },
        Ok((_, g2)) => {
            proof {
                if good {
                    tidy_twice(orig@, mid@, pager@, t, t2, g2@, g2@);
                    carried(orig@, mid@, pager@, t, t2);
                }
            }
            let count2: usize = match pager.get_page(id) {
                Err(e) => {
                    return Err(e);
                },
                Ok(Page::Internal(p)) => p.keys.len(),
                Ok(_) => {
                    return Err(StorageError::Corrupt);
                },
            };
            Ok((found, count2 < MIN_KEYS_INTERNAL, g2))
        },
    }
}

/// Remove a key from the tree below page `id`. The results say whether it was there, and whether
/// the page now has too few keys.
fn remove_from(
    pager: &mut Pager,
    id: u32,
    key: &[u8],
    fuel: u32,
    Ghost(t): Ghost<Tree>,
    Ghost(s): Ghost<Spot>,
    Ghost(size): Ghost<Size>,
    Ghost(stock): Ghost<Stock>,
) -> (r: Result<(bool, bool, Ghost<Tree>), StorageError>)
    ensures
        removing(*old(pager), id, t, s, size, stock, key@) && s.level < fuel ==> removal_result(
            *old(pager),
            *final(pager),
            t,
            s,
            size,
            stock,
            key@,
            r,
        ),
    decreases fuel,
{
    let ghost orig = *pager;
    let ghost good = removing(orig, id, t, s, size, stock, key@) && s.level < fuel;
    if fuel == 0 {
        return Err(StorageError::Corrupt);
    }
    proof {
        if good {
            node_counts(t, s, size, stock);
        }
    }
    let page = match load(pager, id) {
        Err(e) => {
            return Err(e);
        },
        Ok(p) => p,
    };
    match page {
        Page::Leaf(p) => remove_leaf(pager, id, p, key, Ghost(t), Ghost(s), Ghost(size), Ghost(stock)),
        Page::Internal(p) => {
            let i = child_index(&p.keys, key);
            if i >= p.children.len() {
                return Err(StorageError::Corrupt);
            }
            let child: u32 = p.children[i];
            let ghost keys = t->Node_keys;
            let ghost kids = t->kids;
            let ghost kid = kids[i as int];
            let ghost ks = kid_spot(s, keys, kids, i as int);
            proof {
                if good {
                    node_kids(id, keys, kids, s, size, stock);
                    chosen_kid(keys, kids, s, stock, i as int, key@);
                    node_counts(kid, ks, Size::Half, stock);
                }
            }
            match remove_from(pager, child, key, fuel - 1, Ghost(kid), Ghost(ks), Ghost(Size::Half), Ghost(stock)) {
                Err(e) => {
                    proof {
                        if good {
                            assert forall|x: u32| #[trigger]
                                orig@.contains_key(x) && !owns(t, x) implies pager@.contains_key(x) && pager@[x]
                                == orig@[x] by {
                                if owns(kid, x) {
                                    node_owns(id, keys, kids, x);
                                }
                            }
                        }
                    }
                    Err(e)
                },
                Ok((found, short, g)) => settle(
                    pager,
                    id,
                    i,
                    p.keys.len(),
                    found,
                    short,
                    Ghost(orig),
                    Ghost(t),
                    Ghost(s),
                    Ghost(size),
                    Ghost(stock),
                    Ghost(key@),
                    Ghost(g@),
                ),
            }
        },
        Page::Header(_) => Err(StorageError::Corrupt),
    }
}

/// A key that is not among those of a leaf has no entry there.
proof fn leaf_misses(t: Tree, s: Spot, size: Size, stock: Stock, k: Seq<u8>, pos: int)
    requires
        t is Leaf,
        ok(t, s, size, stock),
        places(t.top_keys(), k, false, pos),
    ensures
        forall|v: Seq<u8>| !(#[trigger] entries(t).contains((k, v))),
        removed(entries(t), entries(t), k),
{
    broadcast use group_order;

    leaf_entries(t.id(), t->Leaf_keys, t->values, t->next);
    let keys = t.top_keys();
    assert forall|v: Seq<u8>| !(#[trigger] entries(t).contains((k, v))) by {
        if entries(t).contains((k, v)) {
            let j = choose|j: int| 0 <= j < entries(t).len() && entries(t)[j] == (k, v);
            assert(keys[j] == k);
            if j < pos {
                assert(lt(keys[j], k));
            } else {
                assert(lt(k, keys[j]));
            }
        }
    }
}

/// What lies outside a node lies outside what it has become.
proof fn carried(m: Map<u32, PageView>, m1: Map<u32, PageView>, m2: Map<u32, PageView>, t: Tree, t2: Tree)
    requires
        untouched(m, m1, t),
        untouched(m1, m2, t2),
        forall|x: u32| #[trigger] owns(t2, x) ==> owns(t, x),
    ensures
        untouched(m, m2, t),
{
    assert forall|x: u32| #[trigger] m.contains_key(x) && !owns(t, x) implies m2.contains_key(x) && m2[x] == m[x] by {
        assert(m1.contains_key(x) && !owns(t2, x));
    }
}

/// The node above a child from which a key has been removed.
proof fn removed_kid(
    orig: Pager,
    now: Pager,
    id: u32,
    keys: Seq<Seq<u8>>,
    kids: Seq<Tree>,
    s: Spot,
    size: Size,
    stock: Stock,
    i: int,
    g: Tree,
    k: Seq<u8>,
)
    requires
        holds(orig, Tree::Node { id, keys, kids }, s, size, stock),
        0 <= i < kids.len(),
        within(kid_spot(s, keys, kids, i), k),
        untouched(orig@, now@, kids[i]),
        removed_below(now, kids[i], g, kid_spot(s, keys, kids, i), stock, k),
    ensures
        ({
            let t = Tree::Node { id, keys, kids };
            let kids2 = kids.update(i, g);
            let t2 = Tree::Node { id, keys, kids: kids2 };
            &&& lame(now@, t2, s, stock, i)
            &&& first(t2) == first(t)
            &&& untouched(orig@, now@, t)
            &&& forall|x: u32| #[trigger] owns(t2, x) ==> owns(t, x)
            &&& removed(entries(t), entries(t2), k)
            &&& forall|v: Seq<u8>| #[trigger] entries(t).contains((k, v)) <==> entries(kids[i]).contains((k, v))
        }),
{
    let t = Tree::Node { id, keys, kids };
    let kids2 = kids.update(i, g);
    let t2 = Tree::Node { id, keys, kids: kids2 };
    node_kids(id, keys, kids, s, size, stock);
    kid_replaced(orig@, now@, id, keys, kids, s, size, stock, i, g, i);
    node_stored(id, keys, kids2, now@);
    node_entries(id, keys, kids);
    node_entries(id, keys, kids2);
    around_kid(keys, kids, s, stock, -1, i, k);
    flat_around(kids, i);
    descend(keys, kids, s, stock, i, k);
    removed_around(flat(kids.take(i)), entries(kids[i]), entries(g), flat(kids.skip(i + 1)), k);
    assert forall|x: u32| #[trigger] owns(t2, x) implies owns(t, x) by {
        node_owns(id, keys, kids2, x);
        node_owns(id, keys, kids, x);
        if x != id {
            let j = choose|j: int| 0 <= j < kids2.len() && owns(#[trigger] kids2[j], x);
            if j == i {
                assert(owns(kids[i], x));
            } else {
                assert(owns(kids[j], x));
            }
        }
    }
}

/// Key-value pairs by their views.
pub open spec fn pairs_view(v: Seq<(Vec<u8>, Vec<u8>)>) -> Seq<(Seq<u8>, Seq<u8>)> {
    Seq::new(v.len(), |i: int| (v[i].0@, v[i].1@))
}

/// The upper end of a range by its view.
pub open spec fn end_view(end: Option<&[u8]>) -> Option<Seq<u8>> {
    match end {
        None => None,
        Some(e) => Some(e@),
    }
}

/// Of the first `n` entries, those in the range have been collected.
pub open spec fn collected(
    all: Seq<(Seq<u8>, Seq<u8>)>,
    n: int,
    part: Seq<(Seq<u8>, Seq<u8>)>,
    lo: Seq<u8>,
    hi: Option<Seq<u8>>,
) -> bool {
    &&& 0 <= n <= all.len()
    &&& ranged(all.take(n), part, lo, hi)
}

proof fn collect_one(
    all: Seq<(Seq<u8>, Seq<u8>)>,
    n: int,
    part: Seq<(Seq<u8>, Seq<u8>)>,
    lo: Seq<u8>,
    hi: Option<Seq<u8>>,
)
    requires
        sorted(all),
        collected(all, n, part, lo, hi),
        n < all.len(),
    ensures
        in_range(all[n].0, lo, hi) ==> collected(all, n + 1, part.push(all[n]), lo, hi),
        !in_range(all[n].0, lo, hi) ==> collected(all, n + 1, part, lo, hi),
{
    let e = all[n];
    let part2 = part.push(e);
    assert forall|x: (Seq<u8>, Seq<u8>)| #[trigger] all.take(n + 1).contains(x) <==> all.take(n).contains(x) || x
        == e by {
        if all.take(n).contains(x) {
            let i = choose|i: int| 0 <= i < n && all.take(n)[i] == x;
            assert(all.take(n + 1)[i] == x);
        }
        if x == e {
            assert(all.take(n + 1)[n] == x);
        }
        if all.take(n + 1).contains(x) && x != e {
            let more = all.take(n + 1);
            let i = choose|i: int| 0 <= i < more.len() && more[i] == x;
            assert(all.take(n)[i] == x);
        }
    }
    assert forall|x: (Seq<u8>, Seq<u8>)| #[trigger] part2.contains(x) <==> part.contains(x) || x == e by {
        if part.contains(x) {
            let i = choose|i: int| 0 <= i < part.len() && part[i] == x;
            assert(part2[i] == x);
        }
        if x == e {
            assert(part2[part.len() as int] == x);
        }
    }
    assert(sorted(part2)) by {
        assert forall|i: int, j: int| 0 <= i < j < part2.len() implies lt(
            #[trigger] part2[i].0,
            #[trigger] part2[j].0,
        ) by {
            if j == part.len() {
                assert(part.contains(part[i]));
                let p = choose|p: int| 0 <= p < n && all.take(n)[p] == part[i];
                assert(lt(all[p].0, all[n].0));
            } else {
                assert(lt(part[i].0, part[j].0));
            }
        }
    }
}

/// From an entry at or after the end of the range on, nothing is in it.
proof fn collect_rest(
    all: Seq<(Seq<u8>, Seq<u8>)>,
    n: int,
    part: Seq<(Seq<u8>, Seq<u8>)>,
    lo: Seq<u8>,
    hi: Option<Seq<u8>>,
)
    requires
        sorted(all),
        collected(all, n, part, lo, hi),
        n == all.len() || (hi is Some && !lt(all[n].0, hi->Some_0)),
    ensures
        ranged(all, part, lo, hi),
{
    broadcast use group_order;

    assert forall|e: (Seq<u8>, Seq<u8>)| #[trigger] part.contains(e) <==> all.contains(e) && in_range(
        e.0,
        lo,
        hi,
    ) by {
        if all.take(n).contains(e) {
            let i = choose|i: int| 0 <= i < n && all.take(n)[i] == e;
            assert(all[i] == e);
        }
        if all.contains(e) && in_range(e.0, lo, hi) {
            let i = choose|i: int| 0 <= i < all.len() && all[i] == e;
            if i < n {
                assert(all.take(n)[i] == e);
            } else if i > n {
                assert(lt(all[n].0, all[i].0));
            }
        }
    }
}

/// The entries of a leaf are to be collected, which stand at `base` among all entries.
pub open spec fn collecting(
    page: LeafPage,
    part: Seq<(Seq<u8>, Seq<u8>)>,
    lo: Seq<u8>,
    hi: Option<Seq<u8>>,
    all: Seq<(Seq<u8>, Seq<u8>)>,
    base: int,
) -> bool {
    &&& sorted(all)
    &&& collected(all, base, part, lo, hi)
    &&& base + page.keys@.len() <= all.len()
    &&& forall|j: int| 0 <= j < page.keys@.len() ==> #[trigger] all[base + j] == (page.keys@[j]@, page.values@[j]@)
}

/// Collect the entries of a leaf whose keys are in the range, until one lies behind it. The result
/// says whether one did.
fn collect_leaf(
    page: &LeafPage,
    start: &[u8],
    end: Option<&[u8]>,
    result: &mut Vec<(Vec<u8>, Vec<u8>)>,
    Ghost(all): Ghost<Seq<(Seq<u8>, Seq<u8>)>>,
    Ghost(base): Ghost<int>,
) -> (r: Option<bool>)
    ensures
        r is None <==> page.keys@.len() != page.values@.len(),
        r is Some && collecting(*page, pairs_view(old(result)@), start@, end_view(end), all, base) ==> if r == Some(
            true,
        ) {
            ranged(all, pairs_view(final(result)@), start@, end_view(end))
        } else {
            collected(all, base + page.keys@.len(), pairs_view(final(result)@), start@, end_view(end))
        },
{
    if page.keys.len() != page.values.len() {
        return None;
    }
    let ghost lo = start@;
    let ghost hi = end_view(end);
    let ghost good = collecting(*page, pairs_view(result@), start@, end_view(end), all, base);
    let mut i: usize = 0;
    while i < page.keys.len()
        invariant
            i <= page.keys@.len() == page.values@.len(),
            lo == start@,
            hi == end_view(end),
            good == collecting(*page, pairs_view(old(result)@), start@, end_view(end), all, base),
            good ==> {
                &&& sorted(all)
                &&& base + page.keys@.len() <= all.len()
                &&& collected(all, base + i, pairs_view(result@), lo, hi)
                &&& forall|j: int|
                    0 <= j < page.keys@.len() ==> #[trigger] all[base + j] == (page.keys@[j]@, page.values@[j]@)
            },
        decreases page.keys@.len() - i,
    {
        let key = page.keys[i].as_slice();
        proof {
            if good {
                assert(all[base + i] == (page.keys@[i as int]@, page.values@[i as int]@));
                collect_one(all, base + i, pairs_view(result@), lo, hi);
            }
        }
        let behind: bool = match end {
            Some(e) => match compare(key, e) {
                Standing::Before => false,
                _ => true,
            },
            None => false,
        };
        if behind {
            proof {
                if good {
                    broadcast use group_order;

                    collect_rest(all, base + i, pairs_view(result@), lo, hi);
                }
            }
            return Some(true);
        }
        let outside: bool = match compare(start, key) {
            Standing::After => true,
            _ => false,
        };
        if !outside {
            let ghost before = pairs_view(result@);
            result.push((copy(key), copy(page.values[i].as_slice())));
            assert(pairs_view(result@) =~= before.push((page.keys@[i as int]@, page.values@[i as int]@)));
        }
        proof {
            broadcast use group_order;

            if good {
                assert(in_range(all[base + i].0, lo, hi) <==> !outside);
            }
        }
        i += 1;
    }
    Some(false)
}

/// The leaves of a tree, of which the first ones hold only keys before `start`.
pub open spec fn walkable(now: Pager, leaf: u32, start: Seq<u8>, ls: Seq<Tree>, skipped: int) -> bool {
    &&& now.wf()
    &&& chain(ls, 0, now@)
    &&& ls.len() < now.page_count()
    &&& sorted(flat(ls))
    &&& 0 <= skipped < ls.len()
    &&& leaf == ls[skipped].id()
    &&& forall|e: (Seq<u8>, Seq<u8>)| #[trigger] flat(ls.take(skipped)).contains(e) ==> lt(e.0, start)
}

/// Walk along the leaves from page `leaf` on and collect the entries whose keys are in the range.
fn walk(
    pager: &mut Pager,
    leaf: u32,
    start: &[u8],
    end: Option<&[u8]>,
    Ghost(ls): Ghost<Seq<Tree>>,
    Ghost(skipped): Ghost<int>,
) -> (r: Result<Vec<(Vec<u8>, Vec<u8>)>, StorageError>)
    ensures
        walkable(*old(pager), leaf, start@, ls, skipped) ==> {
            &&& same_pages(*old(pager), *final(pager))
            &&& match r {
                Ok(v) => ranged(flat(ls), pairs_view(v@), start@, end_view(end)),
                Err(e) => e == StorageError::Page(PageError::Overflow) && !old(pager).all_fit(),
            }
        },
{
    let ghost was = *pager;
    let ghost lo = start@;
    let ghost hi = end_view(end);
    let ghost all = flat(ls);
    let ghost good = walkable(was, leaf, start@, ls, skipped);
    let mut result: Vec<(Vec<u8>, Vec<u8>)> = Vec::new();
    let mut current: u32 = leaf;
    let mut fuel: u32 = pager.num_pages();
    let ghost mut p = skipped;
    let ghost mut n = flat(ls.take(skipped)).len() as int;
    proof {
        was.numbers_bounded();
        if good {
            broadcast use group_order;

            assert(pairs_view(result@) =~= Seq::empty());
            assert(ls =~= ls.take(p) + ls.skip(p));
            flat_append(ls.take(p), ls.skip(p));
            assert(all.take(n) =~= flat(ls.take(p)));
            assert(collected(all, n, pairs_view(result@), lo, hi));
        }
    }
    while fuel > 0
        invariant
            was == *old(pager),
            lo == start@,
            hi == end_view(end),
            all == flat(ls),
            forall|id: u32| #[trigger] was@.contains_key(id) ==> 0 < id < was.page_count(),
            good == walkable(was, leaf, start@, ls, skipped),
            good ==> {
                &&& same_pages(was, *pager)
                &&& 0 <= p <= ls.len()
                &&& current == if p < ls.len() {
                    ls[p].id()
                } else {
                    0
                }
                &&& ls.len() - p < fuel
                &&& n == flat(ls.take(p)).len()
                &&& collected(all, n, pairs_view(result@), lo, hi)
            },
        decreases fuel,
    {
        if current == 0 {
            proof {
                if good {
                    if p < ls.len() {
                        assert(stored(ls[p], was@));
                        assert(was@.contains_key(ls[p].id()));
                    }
                    assert(ls.take(p) =~= ls);
                    assert(all.take(n) =~= all);
                }
            }
            return Ok(result);
        }
        let ghost l = ls[p];
        proof {
            if good {
                walk_step(was, ls, p);
            }
        }
        match pager.get_page(current) {
            Err(e) => {
                return Err(e);
            },
            Ok(Page::Leaf(page)) => {
                proof {
                    if good {
                        assert forall|j: int| 0 <= j < page.keys@.len() implies #[trigger] all[n + j] == (
                            page.keys@[j]@,
                            page.values@[j]@,
                        ) by {
                            assert(strings(page.keys@)[j] == l->Leaf_keys[j]);
                            assert(strings(page.values@)[j] == l->values[j]);
                        }
                    }
                }
                match collect_leaf(page, start, end, &mut result, Ghost(all), Ghost(n)) {
                    None => {
                        return Err(StorageError::Corrupt);
                    },
                    Some(true) => {
                        return Ok(result);
                    },
                    Some(false) => {},
                }
                current = page.next;
                proof {
                    if good {
                        assert(current == l->next);
                        n = n + l->Leaf_keys.len();
                        p = p + 1;
                    }
                }
            },
            Ok(_) => {
                return Err(StorageError::Corrupt);
            },
        }
        fuel -= 1;
    }
    Err(StorageError::Corrupt)
}

/// One leaf of a chain, and where its entries stand among all of them.
proof fn walk_step(now: Pager, ls: Seq<Tree>, p: int)
    requires
        chain(ls, 0, now@),
        0 <= p < ls.len(),
    ensures
        now@.contains_key(ls[p].id()),
        now@[ls[p].id()] == ls[p].page(),
        ls[p] is Leaf,
        ls[p]->Leaf_keys.len() == ls[p]->values.len(),
        ls[p]->next == if p + 1 < ls.len() {
            ls[p + 1].id()
        } else {
            0
        },
        flat(ls.take(p + 1)).len() == flat(ls.take(p)).len() + ls[p]->Leaf_keys.len(),
        flat(ls.take(p + 1)).len() <= flat(ls).len(),
        forall|j: int|
            0 <= j < ls[p]->Leaf_keys.len() ==> #[trigger] flat(ls)[flat(ls.take(p)).len() + j] == (
                ls[p]->Leaf_keys[j],
                ls[p]->values[j],
            ),
{
    let l = ls[p];
    assert(stored(ls[p], now@));
    assert(ls[p]->next == if p + 1 < ls.len() {
        ls[p + 1].id()
    } else {
        0
    });
    leaf_entries(l.id(), l->Leaf_keys, l->values, l->next);
    assert(ls.take(p + 1).drop_last() =~= ls.take(p));
    assert(flat(ls.take(p + 1)) == flat(ls.take(p)) + entries(l));
    assert(ls =~= ls.take(p + 1) + ls.skip(p + 1));
    flat_append(ls.take(p + 1), ls.skip(p + 1));
    let base = flat(ls.take(p)).len() as int;
    assert forall|j: int| 0 <= j < l->Leaf_keys.len() implies #[trigger] flat(ls)[base + j] == (
        l->Leaf_keys[j],
        l->values[j],
    ) by {
        assert(flat(ls)[base + j] == flat(ls.take(p + 1))[base + j]);
        assert(flat(ls.take(p + 1))[base + j] == entries(l)[j]);
    }
}

/// A tree that a root page can stand for: in order, and with at least two children if it has any.
pub open spec fn rooted(t: Tree, stock: Stock) -> bool {
    &&& ok(t, top(height(t)), Size::Root, stock)
    &&& t is Node ==> t.top_keys().len() >= 1
}

/// The tree stands below page `root`.
pub open spec fn planted(pager: Pager, root: u32, t: Tree, stock: Stock) -> bool {
    &&& pager.wf()
    &&& stored(t, pager@)
    &&& rooted(t, stock)
    &&& t.id() == root
}

/// Find the leaf where the keys from `start` on begin. The ghost result is its place among the
/// leaves.
fn seek(pager: &mut Pager, root: u32, start: &[u8], Ghost(t): Ghost<Tree>, Ghost(stock): Ghost<Stock>) -> (r: Result<
    (u32, Ghost<int>),
    StorageError,
>)
    ensures
        planted(*old(pager), root, t, stock) ==> {
            &&& same_pages(*old(pager), *final(pager))
            &&& match r {
                Ok((leaf, skipped)) => {
                    &&& 0 <= skipped@ < leaves(t).len()
                    &&& leaf == leaves(t)[skipped@].id()
                    &&& forall|e: (Seq<u8>, Seq<u8>)| #[trigger]
                        flat(leaves(t).take(skipped@)).contains(e) ==> lt(e.0, start@)
                },
                Err(e) => e == StorageError::Page(PageError::Overflow) && !old(pager).all_fit(),
            }
        },
{
    let ghost good = planted(*pager, root, t, stock);
    let ghost was = *pager;
    let mut fuel: u32 = pager.num_pages();
    let mut current: u32 = root;
    let ghost mut cur = t;
    let ghost mut s = top(height(t));
    let ghost mut size = Size::Root;
    let ghost mut pre: Seq<Tree> = Seq::empty();
    let ghost mut post: Seq<Tree> = Seq::empty();
    proof {
        if good {
            pager.numbers_bounded();
            height_bounded(t, s, size, stock, pager@, fuel);
            assert(leaves(t) =~= pre + leaves(cur) + post);
        }
    }
    while fuel > 0
        invariant
            was == *old(pager),
            good == planted(was, root, t, stock),
            good ==> {
                &&& same_pages(was, *pager)
                &&& holds(*pager, cur, s, size, stock)
                &&& cur.id() == current
                &&& s.level < fuel
                &&& leaves(t) == pre + leaves(cur) + post
                &&& forall|e: (Seq<u8>, Seq<u8>)| #[trigger] flat(pre).contains(e) ==> lt(e.0, start@)
            },
        decreases fuel,
    {
        proof {
            if good {
                node_counts(cur, s, size, stock);
            }
        }
        match pager.get_page(current) {
            Err(e) => {
                return Err(e);
            },
            Ok(Page::Internal(p)) => {
                let i = lower_bound(&p.keys, start);
                if i >= p.children.len() {
                    return Err(StorageError::Corrupt);
                }
                current = p.children[i];
                proof {
                    if good {
                        let keys = cur->Node_keys;
                        let kids = cur->kids;
                        let id = cur.id();
                        assert(cur == Tree::Node { id, keys, kids });
                        seek_step(id, keys, kids, s, size, stock, i as int, start@, pager@);
                        let front = all_leaves(kids.take(i as int));
                        let back = all_leaves(kids.skip(i + 1));
                        let kid = kids[i as int];
                        assert(pre + (front + leaves(kid) + back) + post =~= (pre + front) + leaves(kid) + (back
                            + post));
                        flat_append(pre, front);
                        concat_before(flat(pre), flat(front), start@);
                        pre = pre + front;
                        post = back + post;
                        s = kid_spot(s, keys, kids, i as int);
                        size = Size::Half;
                        cur = kid;
                    }
                }
            },
            Ok(Page::Leaf(_)) => {
                proof {
                    if good {
                        leaf_leaves(cur);
                        assert(leaves(t)[pre.len() as int] == cur);
                        assert(leaves(t).take(pre.len() as int) =~= pre);
                    }
                }
                return Ok((current, Ghost(pre.len() as int)));
            },
            Ok(_) => {
                return Err(StorageError::Corrupt);
            },
        }
        fuel -= 1;
    }
    Err(StorageError::Corrupt)
}

/// One step down to the child where the keys from `start` on begin.
proof fn seek_step(
    id: u32,
    keys: Seq<Seq<u8>>,
    kids: Seq<Tree>,
    s: Spot,
    size: Size,
    stock: Stock,
    i: int,
    start: Seq<u8>,
    m: Map<u32, PageView>,
)
    requires
        ok(Tree::Node { id, keys, kids }, s, size, stock),
        stored(Tree::Node { id, keys, kids }, m),
        0 <= i <= keys.len(),
        forall|j: int| 0 <= j < i ==> lt(#[trigger] keys[j], start),
    ensures
        kids.len() == keys.len() + 1,
        ok(kids[i], kid_spot(s, keys, kids, i), Size::Half, stock),
        stored(kids[i], m),
        leaves(Tree::Node { id, keys, kids }) == all_leaves(kids.take(i)) + leaves(kids[i]) + all_leaves(
            kids.skip(i + 1),
        ),
        forall|e: (Seq<u8>, Seq<u8>)| #[trigger] flat(all_leaves(kids.take(i))).contains(e) ==> lt(e.0, start),
{
    broadcast use group_order;

    node_kids(id, keys, kids, s, size, stock);
    node_leaves(id, keys, kids);
    all_leaves_around(kids, i);
    let front = kids.take(i);
    assert(stored(kids[i], m));
    assert forall|j: int| 0 <= j < front.len() implies flat(leaves(#[trigger] front[j])) == entries(front[j]) by {
        let kid = kids[j];
        assert(stored(kids[j], m));
        leaves_chained(kid, kid_spot(s, keys, kids, j), Size::Half, stock, m);
    }
    flat_of_leaves(front);
    assert forall|e: (Seq<u8>, Seq<u8>)| #[trigger] flat(all_leaves(front)).contains(e) implies lt(e.0, start) by {
        flat_contains(front, e);
        let j = choose|j: int| 0 <= j < front.len() && entries(#[trigger] front[j]).contains(e);
        let kid = kids[j];
        entries_within(kid, kid_spot(s, keys, kids, j), Size::Half, stock, e);
        assert(lt(keys[j], start));
    }
}

proof fn concat_before(a: Seq<(Seq<u8>, Seq<u8>)>, b: Seq<(Seq<u8>, Seq<u8>)>, k: Seq<u8>)
    requires
        forall|e: (Seq<u8>, Seq<u8>)| #[trigger] a.contains(e) ==> lt(e.0, k),
        forall|e: (Seq<u8>, Seq<u8>)| #[trigger] b.contains(e) ==> lt(e.0, k),
    ensures
        forall|e: (Seq<u8>, Seq<u8>)| #[trigger] (a + b).contains(e) ==> lt(e.0, k),
{
    assert forall|e: (Seq<u8>, Seq<u8>)| #[trigger] (a + b).contains(e) implies lt(e.0, k) by {
        let i = choose|i: int| 0 <= i < (a + b).len() && (a + b)[i] == e;
        if i < a.len() {
            assert(a[i] == e);
            assert(a.contains(e));
        } else {
            assert(b[i - a.len()] == e);
            assert(b.contains(e));
        }
    }
}

/// The entries with keys from `start` on, up to but without `end`, in order.
pub fn range_below(
    pager: &mut Pager,
    root: u32,
    start: &[u8],
    end: Option<&[u8]>,
    Ghost(t): Ghost<Tree>,
    Ghost(stock): Ghost<Stock>,
) -> (r: Result<Vec<(Vec<u8>, Vec<u8>)>, StorageError>)
    ensures
        planted(*old(pager), root, t, stock) ==> {
            &&& same_pages(*old(pager), *final(pager))
            &&& match r {
                Ok(v) => ranged(entries(t), pairs_view(v@), start@, end_view(end)),
                Err(e) => e == StorageError::Page(PageError::Overflow) && !old(pager).all_fit(),
            }
        },
{
    let ghost good = planted(*pager, root, t, stock);
    match seek(pager, root, start, Ghost(t), Ghost(stock)) {
        Err(e) => Err(e),
        Ok((leaf, skipped)) => {
            proof {
                if good {
                    let s = top(height(t));
                    pager.numbers_bounded();
                    leaves_chained(t, s, Size::Root, stock, pager@);
                    leaves_bounded(t, s, Size::Root, stock, pager@, pager.page_count());
                    entries_sorted(t, s, Size::Root, stock);
                }
            }
            walk(pager, leaf, start, end, Ghost(leaves(t)), skipped)
        },
    }
}

/// What setting or removing a key at the root leaves: a tree below a root page, and the pages
/// outside the old tree as they were.
pub open spec fn replanted(before: Pager, after: Pager, t: Tree, root: u32, g: Tree, stock: Stock) -> bool {
    &&& planted(after, root, g, stock)
    &&& taken_from(before@, t, g)
}

proof fn new_root(a: Tree, sep: Seq<u8>, b: Tree, h: nat, rid: u32, stock: Stock)
    requires
        ok(a, left_spot(top(h), sep, first(b)), Size::Half, stock),
        ok(b, right_spot(top(h), sep), Size::Half, stock),
        stock.keys.contains(sep),
        disjoint(a, b),
        !owns(a, rid),
        !owns(b, rid),
    ensures
        ({
            let g = Tree::Node { id: rid, keys: seq![sep], kids: seq![a, b] };
            &&& rooted(g, stock)
            &&& entries(g) == entries(a) + entries(b)
            &&& forall|x: u32| #[trigger] owns(g, x) ==> x == rid || owns(a, x) || owns(b, x)
        }),
{
    let keys = seq![sep];
    let kids = seq![a, b];
    let g = Tree::Node { id: rid, keys, kids };
    let s = top(h + 1);
    assert(kid_spot(s, keys, kids, 0) == left_spot(top(h), sep, first(b)));
    assert(kid_spot(s, keys, kids, 1) == right_spot(top(h), sep));
    assert forall|j: int, l: int, x: u32| 0 <= j < l < kids.len() implies !(#[trigger] owns(kids[j], x)
        && #[trigger] owns(kids[l], x)) by {
        assert(kids[j] == a && kids[l] == b);
    }
    assert forall|j: int| 0 <= j < kids.len() implies ok(
        #[trigger] kids[j],
        kid_spot(s, keys, kids, j),
        Size::Half,
        stock,
    ) && !owns(kids[j], rid) by {
        if j == 0 {
            assert(kids[j] == a);
        } else {
            assert(kids[j] == b);
        }
    }
    assert(kids_ok(keys, kids, s, stock, -1));
    node_ok(rid, keys, kids, s, Size::Root, stock);
    level_is_height(g, s, Size::Root, stock);
    node_entries(rid, keys, kids);
    assert(kids =~= seq![a] + seq![b]);
    flat_append(seq![a], seq![b]);
    flat_one(a);
    flat_one(b);
    assert forall|x: u32| #[trigger] owns(g, x) implies x == rid || owns(a, x) || owns(b, x) by {
        node_owns(rid, keys, kids, x);
        if x != rid {
            let j = choose|j: int| 0 <= j < kids.len() && owns(#[trigger] kids[j], x);
            assert(kids[j] == a || kids[j] == b);
        }
    }
}

/// Set the value of a key below page `root`. The result is the root page from then on.
pub fn put_below_root(
    pager: &mut Pager,
    root: u32,
    key: &[u8],
    value: &[u8],
    Ghost(t): Ghost<Tree>,
    Ghost(stock): Ghost<Stock>,
) -> (r: Result<(u32, Ghost<Tree>), StorageError>)
    ensures
        planted(*old(pager), root, t, stock) && stock.keys.contains(key@) && stock.pairs.contains((key@, value@)) ==> {
            &&& final(pager).wf()
            &&& untouched(old(pager)@, final(pager)@, t)
            &&& r matches Ok((root2, g)) ==> {
                &&& replanted(*old(pager), *final(pager), t, root2, g@, stock)
                &&& inserted(entries(t), entries(g@), key@, value@)
                &&& t is Leaf && entries(g@).len() <= MAX_KEYS_LEAF ==> root2 == root && g@ is Leaf
                &&& tidy(old(pager)@, final(pager)@, t, g@, g@)
            }
            &&& within_pages(
                *old(pager),
                *final(pager),
                if has_key(entries(t), key@) {
                    0
                } else {
                    height(t) as int + 2
                },
                r,
            )
            &&& roomy(stock) && old(pager).all_fit() ==> match r {
                Ok(_) => final(pager).all_fit(),
                Err(e) => e == StorageError::Full,
            }
        },
{
    let ghost good = planted(*pager, root, t, stock) && stock.keys.contains(key@) && stock.pairs.contains(
        (key@, value@),
    );
    let ghost orig = *pager;
    let ghost h = height(t);
    let fuel: u32 = pager.num_pages();
    proof {
        if good {
            pager.numbers_bounded();
            height_bounded(t, top(h), Size::Root, stock, pager@, fuel);
        }
    }
    match put_into(pager, root, key, value, fuel, Ghost(t), Ghost(top(h)), Ghost(Size::Root), Ghost(stock)) {
        Err(e) => Err(e),
        Ok((None, g)) => {
            proof {
                if good {
                    put_keeps_root(t, g@.0, top(h), stock);
                }
            }
            Ok((root, Ghost(g@.0)))
        },
        Ok((Some((sep, rid)), g)) => {
            let ghost a = g@.0;
            let ghost b = g@.1;
            let ghost mid = *pager;
            let mut keys: Vec<Vec<u8>> = Vec::new();
            let ghost sepv = sep@;
            keys.push(sep);
            let children: Vec<u32> = vec![root, rid];
            let page = InternalPage { keys, children };
            let ghost pv = page@;
            proof {
                assert(strings(keys@) =~= seq![sepv]);
                assert(children@ =~= seq![root, rid]);
                if good && roomy(stock) {
                    assert forall|i: int| 0 <= i < seq![sepv].len() implies stock.keys.contains(
                        #[trigger] seq![sepv][i],
                    ) by {}
                    assert(ascending(seq![sepv]));
                    assert(fits(pv));
                }
            }
            match pager.new_page(Page::Internal(page)) {
                Err(e) => Err(e),
                Ok(root2) => {
                    let ghost g2 = Tree::Node { id: root2, keys: seq![sepv], kids: seq![a, b] };
                    proof {
                        if good {
                            if owns(a, root2) {
                                owned_stored(a, mid@, root2);
                            }
                            if owns(b, root2) {
                                owned_stored(b, mid@, root2);
                            }
                            new_root(a, sepv, b, h, root2, stock);
                            kept_stored(a, mid@, root2, pv);
                            kept_stored(b, mid@, root2, pv);
                            let kids = seq![a, b];
                            assert forall|j: int| 0 <= j < kids.len() implies stored(#[trigger] kids[j], pager@) by {
                                assert(kids[j] == a || kids[j] == b);
                            }
                            assert(numbers(kids) =~= seq![root, rid]);
                            assert(owns(kids[0], a.id()) && owns(kids[1], b.id()));
                            assert forall|x: u32| #[trigger] pager@.contains_key(x) implies owns(g2, x) || (
                            orig@.contains_key(x) && !owns(t, x)) by {
                                if x != root2 {
                                    assert(mid@.contains_key(x));
                                    if owns(a, x) {
                                        assert(owns(kids[0], x));
                                    } else if owns(b, x) {
                                        assert(owns(kids[1], x));
                                    }
                                }
                            }
                            node_stored(root2, seq![sepv], kids, pager@);
                            assert forall|x: u32| #[trigger] owns(g2, x) implies owns(t, x) || !orig@.contains_key(
                                x,
                            ) by {
                                if x == root2 {
                                    assert(!mid@.contains_key(x));
                                }
                            }
                        }
                    }
                    Ok((root2, Ghost(g2)))
                },
            }
        },
    }
}

proof fn put_keeps_root(t: Tree, g: Tree, s: Spot, stock: Stock)
    requires
        s == top(height(t)),
        ok(t, s, Size::Root, stock),
        ok(g, s, Size::Root, stock),
        t is Node ==> t.top_keys().len() >= 1,
        g is Node && t is Node ==> g.top_keys().len() >= t.top_keys().len(),
    ensures
        rooted(g, stock),
        t is Leaf ==> g is Leaf,
{
    node_counts(t, s, Size::Root, stock);
    node_counts(g, s, Size::Root, stock);
    level_is_height(g, s, Size::Root, stock);
    level_is_height(t, s, Size::Root, stock);
}

/// Replace a root that has a single child by that child, and free its page. A root without children does
/// not occur: a page always has one child more than it has keys.
fn check_root_shrink(pager: &mut Pager, root: u32, Ghost(t): Ghost<Tree>, Ghost(stock): Ghost<Stock>) -> (r: Result<
    (u32, Ghost<Tree>),
    StorageError,
>)
    ensures
        old(pager).wf() && old(pager)@.contains_key(root) ==> {
            &&& r matches Ok((root2, _)) ==> match old(pager)@[root] {
                PageView::Internal { children, .. } => if children.len() == 1 {
                    &&& root2 == children[0]
                    &&& final(pager)@ == old(pager)@.remove(root)
                    &&& final(pager).page_count() == old(pager).page_count()
                    &&& final(pager).free_pages() == seq![root] + old(pager).free_pages()
                } else {
                    root2 == root && same_pages(*old(pager), *final(pager))
                },
                _ => root2 == root && same_pages(*old(pager), *final(pager)),
            }
            &&& r matches Err(e) ==> e == StorageError::Page(PageError::Overflow) && !old(pager).all_fit()
        },
        old(pager).wf() && stored(t, old(pager)@) && ok(t, top(height(t)), Size::Root, stock) && t.id() == root ==> {
            &&& final(pager).wf()
            &&& untouched(old(pager)@, final(pager)@, t)
            &&& r matches Ok((root2, g)) ==> {
                &&& planted(*final(pager), root2, g@, stock)
                &&& forall|x: u32| #[trigger] owns(g@, x) ==> owns(t, x)
                &&& entries(g@) == entries(t)
                &&& g@ == if t is Node && t->kids.len() == 1 {
                    t->kids[0]
                } else {
                    t
                }
            }
            &&& old(pager).all_fit() ==> r is Ok && final(pager).all_fit()
        },
{
    let ghost good = pager.wf() && stored(t, pager@) && ok(t, top(height(t)), Size::Root, stock) && t.id() == root;
    proof {
        if good {
            node_counts(t, top(height(t)), Size::Root, stock);
        }
    }
    let child: Option<u32> = match pager.get_page(root) {
        Err(e) => {
            return Err(e);
        },
        Ok(Page::Internal(p)) => if p.children.len() == 1 {
            Some(p.children[0])
        } else {
            None
        },
        Ok(_) => None,
    };
    match child {
        None => Ok((root, Ghost(t))),
        Some(new_root) => {
            let ghost m = pager@;
            let ghost g = t->kids[0];
            pager.free_page(root);
            proof {
                if good {
                    let keys = t->Node_keys;
                    let kids = t->kids;
                    let s = top(height(t));
                    node_kids(root, keys, kids, s, Size::Root, stock);
                    let ks = kid_spot(s, keys, kids, 0);
                    level_is_height(g, ks, Size::Half, stock);
                    assert(ks == top(height(g)));
                    node_counts(g, ks, Size::Half, stock);
                    resize(g, ks, Size::Half, Size::Root, stock);
                    assert(stored(kids[0], m));
                    assert(!owns(kids[0], root));
                    assert forall|x: u32| #[trigger] owns(g, x) implies pager@.contains_key(x) && pager@[x] == m[x] by {
                        owned_stored(g, m, x);
                    }
                    stored_frame(g, m, pager@);
                    node_entries(root, keys, kids);
                    assert(kids =~= seq![g]);
                    flat_one(g);
                    assert forall|x: u32| #[trigger] owns(g, x) implies owns(t, x) by {
                        node_owns(root, keys, kids, x);
                        assert(owns(kids[0], x));
                    }
                }
            }
            Ok((new_root, Ghost(g)))
        },
    }
}

/// Remove a key below page `root`. The result is the root page from then on.
pub fn delete_below_root(
    pager: &mut Pager,
    root: u32,
    key: &[u8],
    Ghost(t): Ghost<Tree>,
    Ghost(stock): Ghost<Stock>,
) -> (r: Result<(u32, Ghost<Tree>), StorageError>)
    ensures
        planted(*old(pager), root, t, stock) ==> {
            &&& final(pager).wf()
            &&& untouched(old(pager)@, final(pager)@, t)
            &&& r matches Ok((root2, g)) ==> {
                &&& replanted(*old(pager), *final(pager), t, root2, g@, stock)
                &&& removed(entries(t), entries(g@), key@)
                &&& t is Leaf ==> root2 == root && g@ is Leaf
                &&& final(pager).pages_left() >= old(pager).pages_left()
                &&& tidy(old(pager)@, final(pager)@, t, g@, g@)
            }
            &&& roomy(stock) && old(pager).all_fit() ==> r is Ok && final(pager).all_fit()
        },
{
    let ghost good = planted(*pager, root, t, stock);
    let ghost orig = *pager;
    let ghost h = height(t);
    let fuel: u32 = pager.num_pages();
    proof {
        if good {
            pager.numbers_bounded();
            height_bounded(t, top(h), Size::Root, stock, pager@, fuel);
        }
    }
    match remove_from(pager, root, key, fuel, Ghost(t), Ghost(top(h)), Ghost(Size::Root), Ghost(stock)) {
        Err(e) => Err(e),
        Ok((_, _, g)) => {
            let ghost mid = *pager;
            proof {
                if good {
                    node_counts(t, top(h), Size::Root, stock);
                    node_counts(g@, top(h), Size::Loose, stock);
                    resize(g@, top(h), Size::Loose, Size::Root, stock);
                    level_is_height(g@, top(h), Size::Root, stock);
                    level_is_height(t, top(h), Size::Root, stock);
                }
            }
            let r = check_root_shrink(pager, root, g, Ghost(stock));
            proof {
                if good {
                    carried(orig@, mid@, pager@, t, g@);
                    if r is Ok {
                        let g2 = r->Ok_0.1@;
                        assert(tidy(mid@, pager@, g@, g2, g2)) by {
                            assert forall|x: u32| #[trigger] pager@.contains_key(x) implies owns(g2, x) || (
                            mid@.contains_key(x) && !owns(g@, x)) by {
                                if owns(g@, x) && g@ is Node && g@->kids.len() == 1 && x != root {
                                    let j = choose|j: int| 0 <= j < g@->kids.len() && owns(#[trigger] g@->kids[j], x);
                                    assert(j == 0);
                                }
                            }
                        }
                        tidy_twice(orig@, mid@, pager@, t, g@, g2, g2);
                    }
                }
            }
            r
        },
    }
}

/// The pages without those of a tree.
pub open spec fn felled(m: Map<u32, PageView>, m2: Map<u32, PageView>, t: Tree) -> bool {
    forall|x: u32|
        #![trigger m2.contains_key(x)]
        #![trigger m.contains_key(x)]
        (m2.contains_key(x) <==> m.contains_key(x) && !owns(t, x)) && (m2.contains_key(x) ==> m2[x] == m[x])
}

/// The pages without those of the first `n` trees.
pub open spec fn felled_upto(m: Map<u32, PageView>, m2: Map<u32, PageView>, kids: Seq<Tree>, n: int) -> bool {
    forall|x: u32|
        #![trigger m2.contains_key(x)]
        #![trigger m.contains_key(x)]
        (m2.contains_key(x) <==> m.contains_key(x) && clear(kids.take(n), x)) && (m2.contains_key(x) ==> m2[x] == m[x])
}

/// Free page `id` and every page below it.
pub fn drop_page(
    pager: &mut Pager,
    id: u32,
    fuel: u32,
    Ghost(t): Ghost<Tree>,
    Ghost(s): Ghost<Spot>,
    Ghost(size): Ghost<Size>,
    Ghost(stock): Ghost<Stock>,
) -> (r: Result<(), StorageError>)
    ensures
        holds(*old(pager), t, s, size, stock) && t.id() == id && s.level < fuel ==> {
            &&& final(pager).wf()
            &&& untouched(old(pager)@, final(pager)@, t)
            &&& r is Ok ==> felled(old(pager)@, final(pager)@, t) && final(pager).pages_left() >= old(
                pager,
            ).pages_left()
            &&& old(pager).all_fit() ==> r is Ok && final(pager).all_fit()
        },
    decreases fuel,
{
    let ghost orig = *pager;
    let ghost good = holds(orig, t, s, size, stock) && t.id() == id && s.level < fuel;
    if fuel == 0 {
        return Err(StorageError::Corrupt);
    }
    let children: Vec<u32> = match pager.get_page(id) {
        Err(e) => {
            return Err(e);
        },
        Ok(Page::Internal(p)) => copy_numbers(&p.children),
        Ok(_) => Vec::new(),
    };
    let ghost keys = t.top_keys();
    let ghost kids = if t is Node {
        t->kids
    } else {
        Seq::empty()
    };
    proof {
        if good {
            node_counts(t, s, size, stock);
            if t is Node {
                assert(t == Tree::Node { id, keys, kids });
                node_kids(id, keys, kids, s, size, stock);
            }
            assert(kids.take(0) =~= Seq::empty());
        }
    }
    let mut j: usize = 0;
    while j < children.len()
        invariant
            j <= children@.len(),
            fuel > 0,
            orig == *old(pager),
            good == (holds(orig, t, s, size, stock) && t.id() == id && s.level < fuel),
            keys == t.top_keys(),
            kids == if t is Node {
                t->kids
            } else {
                Seq::empty()
            },
            good ==> {
                &&& t is Node ==> t == (Tree::Node { id, keys, kids }) && kids_ok(keys, kids, s, stock, -1) && clear(
                    kids,
                    id,
                )
                &&& children@ == numbers(kids)
                &&& pager.wf()
                &&& felled_upto(orig@, pager@, kids, j as int)
                &&& pager.pages_left() >= orig.pages_left()
                &&& orig.all_fit() ==> pager.all_fit()
            },
        decreases children@.len() - j,
    {
        let ghost kid = kids[j as int];
        let ghost ks = kid_spot(s, keys, kids, j as int);
        let ghost mid = pager@;
        proof {
            if good {
                assert(stored(kids[j as int], orig@));
                kid_survives(orig@, mid, kids, j as int);
            }
        }
        let r = drop_page(pager, children[j], fuel - 1, Ghost(kid), Ghost(ks), Ghost(Size::Half), Ghost(stock));
        proof {
            if good {
                assert forall|x: u32| #[trigger] orig@.contains_key(x) && !owns(t, x) implies pager@.contains_key(x)
                    && pager@[x] == orig@[x] by {
                    node_owns(id, keys, kids, x);
                    assert forall|l: int| 0 <= l < kids.take(j as int).len() implies !owns(
                        #[trigger] kids.take(j as int)[l],
                        x,
                    ) by {
                        assert(!owns(kids[l], x));
                    }
                    assert(clear(kids.take(j as int), x));
                    assert(mid.contains_key(x));
                    assert(!owns(kids[j as int], x));
                }
            }
        }
        match r {
            Err(e) => {
                return Err(e);
            },
            Ok(_) => {
                proof {
                    if good {
                        felled_next(orig@, mid, pager@, kids, j as int);
                    }
                }
            },
        }
        j += 1;
    }
    let ghost mid = pager@;
    pager.free_page(id);
    proof {
        if good {
            assert(kids.take(j as int) =~= kids);
            assert(stored(t, orig@));
            assert(clear(kids, id));
            assert(mid.contains_key(id)) by {
                assert(orig@.contains_key(id));
            }
            assert forall|x: u32|
                #![trigger pager@.contains_key(x)]
                #![trigger orig@.contains_key(x)]
                (pager@.contains_key(x) <==> orig@.contains_key(x) && !owns(t, x)) && (pager@.contains_key(x)
                    ==> pager@[x] == orig@[x]) by {
                if t is Node {
                    node_owns(id, keys, kids, x);
                }
                assert(mid.contains_key(x) <==> orig@.contains_key(x) && clear(kids, x));
            }
        }
    }
    Ok(())
}

proof fn kid_survives(m: Map<u32, PageView>, m2: Map<u32, PageView>, kids: Seq<Tree>, j: int)
    requires
        apart(kids),
        0 <= j < kids.len(),
        stored(kids[j], m),
        felled_upto(m, m2, kids, j),
    ensures
        stored(kids[j], m2),
{
    assert forall|x: u32| #[trigger] owns(kids[j], x) implies m2.contains_key(x) && m2[x] == m[x] by {
        owned_stored(kids[j], m, x);
        assert(clear(kids.take(j), x)) by {
            assert forall|l: int| 0 <= l < kids.take(j).len() implies !owns(#[trigger] kids.take(j)[l], x) by {
                assert(!(owns(kids[l], x) && owns(kids[j], x)));
            }
        }
        assert(m.contains_key(x));
    }
    stored_frame(kids[j], m, m2);
}

proof fn felled_next(m: Map<u32, PageView>, m1: Map<u32, PageView>, m2: Map<u32, PageView>, kids: Seq<Tree>, j: int)
    requires
        0 <= j < kids.len(),
        felled_upto(m, m1, kids, j),
        felled(m1, m2, kids[j]),
    ensures
        felled_upto(m, m2, kids, j + 1),
{
    assert forall|x: u32|
        #![trigger m2.contains_key(x)]
        #![trigger m.contains_key(x)]
        (m2.contains_key(x) <==> m.contains_key(x) && clear(kids.take(j + 1), x)) && (m2.contains_key(x) ==> m2[x]
            == m[x]) by {
        assert(m1.contains_key(x) <==> m.contains_key(x) && clear(kids.take(j), x));
        assert(m2.contains_key(x) <==> m1.contains_key(x) && !owns(kids[j], x));
        assert(clear(kids.take(j + 1), x) <==> clear(kids.take(j), x) && !owns(kids[j], x)) by {
            if clear(kids.take(j + 1), x) {
                assert(!owns(kids.take(j + 1)[j], x));
                assert forall|l: int| 0 <= l < kids.take(j).len() implies !owns(#[trigger] kids.take(j)[l], x) by {
                    assert(!owns(kids.take(j + 1)[l], x));
                }
            }
            if clear(kids.take(j), x) && !owns(kids[j], x) {
                assert forall|l: int| 0 <= l < kids.take(j + 1).len() implies !owns(
                    #[trigger] kids.take(j + 1)[l],
                    x,
                ) by {
                    if l < j {
                        assert(!owns(kids.take(j)[l], x));
                    }
                }
            }
        }
    }
}

} // verus!
