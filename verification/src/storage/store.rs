//! A store of B+ trees that share one database file.
use vstd::prelude::*;

use crate::bytes::{copy, empty_is_least, strings};
use crate::ints::{from_le32, group_ints, le32, of_le32, to_le32};
use crate::storage::btree::{
    delete_below_root, drop_page, end_view, find, pairs_view, put_below_root, range_below, rooted,
};
use crate::storage::low::{tree_is_low, MAX_HEIGHT};
use crate::storage::page::{decode, fits, LeafPage, Page, PageError, PageView};
use crate::storage::pager::{
    empty_leaf, empty_leaf_fits, left_in, pages_of, sound, PageFile, Pager, StorageError,
};
use crate::storage::tree::{
    any_stock, disjoint, entries, entries_sorted, has_key, height, height_bounded, in_range,
    kept_stored, leaf_entries, map_inserted, map_of, map_of_len, map_of_sorted, map_removed, ok,
    other_stored, owned_stored, owns, restock, roomy, roomy_part, sorted, stock_of, stocked, stored,
    taken_from, tight, top, untouched, Size, Stock, Tree, MAX_KEYS_LEAF,
};

verus! {

/// Trees that stand in these pages, each under the number of its root page, and no two with a page
/// in common.
pub open spec fn standing(m: Map<u32, PageView>, trees: Map<u32, Tree>) -> bool {
    &&& forall|r: u32| #[trigger]
        trees.contains_key(r) ==> {
            &&& stored(trees[r], m)
            &&& rooted(trees[r], any_stock())
            &&& trees[r].id() == r
        }
    &&& forall|r: u32, q: u32|
        #![trigger trees.contains_key(r), trees.contains_key(q)]
        trees.contains_key(r) && trees.contains_key(q) && r != q ==> disjoint(trees[r], trees[q])
}

/// What the trees hold.
pub open spec fn contents_of(trees: Map<u32, Tree>) -> Map<u32, Map<Seq<u8>, Seq<u8>>> {
    Map::new(|r: u32| trees.contains_key(r), |r: u32| map_of(entries(trees[r])))
}

/// What the trees hold, separators included, comes from this stock.
pub open spec fn trees_within(trees: Map<u32, Tree>, stock: Stock) -> bool {
    forall|r: u32| #[trigger] trees.contains_key(r) ==> rooted(trees[r], stock)
}

/// The trees of one database file.
pub struct Store {
    pager: Pager,
    trees: Ghost<Map<u32, Tree>>,
}

impl View for Store {
    type V = Map<u32, Map<Seq<u8>, Seq<u8>>>;

    /// The contents of each tree, by root page.
    closed spec fn view(&self) -> Map<u32, Map<Seq<u8>, Seq<u8>>> {
        contents_of(self.trees@)
    }
}

/// A list of all entries of a map with keys in a range, in ascending order.
pub open spec fn lists(
    v: Seq<(Seq<u8>, Seq<u8>)>,
    m: Map<Seq<u8>, Seq<u8>>,
    lo: Seq<u8>,
    hi: Option<Seq<u8>>,
) -> bool {
    &&& sorted(v)
    &&& forall|k: Seq<u8>, x: Seq<u8>| #[trigger]
        v.contains((k, x)) <==> m.contains_key(k) && m[k] == x && in_range(k, lo, hi)
}

impl Store {
    /// The trees are in order and stand in the pages of the file.
    pub closed spec fn wf(&self) -> bool {
        &&& self.pager.wf()
        &&& standing(self.pager@, self.trees@)
    }

    /// Every page in use can be written.
    pub closed spec fn all_fit(&self) -> bool {
        self.pager.all_fit()
    }

    /// What the trees hold, separators included, comes from this stock.
    pub closed spec fn holds_in(&self, stock: Stock) -> bool {
        trees_within(self.trees@, stock)
    }

    /// The file holds everything.
    pub closed spec fn saved(&self) -> bool {
        self.pager.saved()
    }

    /// The pages in the file.
    pub closed spec fn on_file(&self) -> Map<u32, Seq<u8>> {
        self.pager.on_file()
    }

    /// How many pages can be taken into use.
    pub closed spec fn pages_left(&self) -> nat {
        self.pager.pages_left()
    }

    /// The pages in use.
    pub closed spec fn used(&self) -> Set<u32> {
        self.pager@.dom()
    }

    /// The trees with their pages.
    pub closed spec fn forest(&self) -> Map<u32, Tree> {
        self.trees@
    }
}

/// The outcome of an operation that changes the tree with root page `root`: on success it becomes
/// one with root page `root2` and content `content`; where a page overflows, the tree is lost and
/// the others stay.
pub open spec fn changed(
    before: Map<u32, Map<Seq<u8>, Seq<u8>>>,
    after: Map<u32, Map<Seq<u8>, Seq<u8>>>,
    root: u32,
    root2: u32,
    content: Map<Seq<u8>, Seq<u8>>,
    done: bool,
) -> bool {
    if done {
        &&& root2 == root || !before.contains_key(root2)
        &&& after == before.remove(root).insert(root2, content)
    } else {
        after == before.remove(root)
    }
}

proof fn replant(
    m: Map<u32, PageView>,
    m2: Map<u32, PageView>,
    trees: Map<u32, Tree>,
    root: u32,
    g: Tree,
)
    requires
        standing(m, trees),
        trees.contains_key(root),
        untouched(m, m2, trees[root]),
        stored(g, m2),
        rooted(g, any_stock()),
        taken_from(m, trees[root], g),
    ensures
        standing(m2, trees.remove(root).insert(g.id(), g)),
        g.id() == root || !trees.contains_key(g.id()),
{
    let trees2 = trees.remove(root).insert(g.id(), g);
    assert(owns(g, g.id()));
    assert forall|q: u32| trees.contains_key(q) && q != root implies disjoint(g, trees[q]) && q != g.id() by {
        assert(disjoint(trees[root], trees[q]));
        assert(owns(trees[q], q)) by {
            assert(trees[q].id() == q);
        }
        assert forall|x: u32| !(#[trigger] owns(g, x) && #[trigger] owns(trees[q], x)) by {
            if owns(g, x) && owns(trees[q], x) {
                owned_stored(trees[q], m, x);
            }
        }
    }
    assert forall|r: u32| #[trigger] trees2.contains_key(r) implies {
        &&& stored(trees2[r], m2)
        &&& rooted(trees2[r], any_stock())
        &&& trees2[r].id() == r
    } by {
        if r != g.id() {
            assert(trees.contains_key(r));
            other_stored(trees[root], trees[r], m, m2);
        }
    }
    assert forall|r: u32, q: u32|
        #![trigger trees2.contains_key(r), trees2.contains_key(q)]
        trees2.contains_key(r) && trees2.contains_key(q) && r != q implies disjoint(trees2[r], trees2[q]) by {
        if r != g.id() {
            assert(trees.contains_key(r) && r != root);
        }
        if q != g.id() {
            assert(trees.contains_key(q) && q != root);
        }
    }
}

proof fn uproot(m: Map<u32, PageView>, m2: Map<u32, PageView>, trees: Map<u32, Tree>, root: u32)
    requires
        standing(m, trees),
        trees.contains_key(root),
        untouched(m, m2, trees[root]),
    ensures
        standing(m2, trees.remove(root)),
{
    let trees2 = trees.remove(root);
    assert forall|r: u32| #[trigger] trees2.contains_key(r) implies {
        &&& stored(trees2[r], m2)
        &&& rooted(trees2[r], any_stock())
        &&& trees2[r].id() == r
    } by {
        assert(trees.contains_key(r) && r != root);
        assert(disjoint(trees[root], trees[r]));
        other_stored(trees[root], trees[r], m, m2);
    }
    assert forall|r: u32, q: u32|
        #![trigger trees2.contains_key(r), trees2.contains_key(q)]
        trees2.contains_key(r) && trees2.contains_key(q) && r != q implies disjoint(trees2[r], trees2[q]) by {
        assert(trees.contains_key(r) && trees.contains_key(q));
    }
}

/// A B+ tree in a store.
#[derive(Clone, Copy, Debug)]
pub struct BPlusTree {
    root_page: u32,
}

impl BPlusTree {
    /// The root page of the tree.
    pub closed spec fn root(&self) -> u32 {
        self.root_page
    }

    /// The root page of the tree.
    pub fn root_page(&self) -> (r: u32)
        ensures
            r == self.root(),
    {
        self.root_page
    }

    /// Look up the value of a key.
    pub fn get(&self, store: &mut Store, key: &[u8]) -> (r: Result<Option<Vec<u8>>, StorageError>)
        ensures
            old(store).wf() && old(store)@.contains_key(self.root()) ==> {
                let m = old(store)@[self.root()];
                &&& unchanged(*old(store), *final(store))
                &&& match r {
                    Ok(Some(v)) => m.contains_key(key@) && m[key@] == v@,
                    Ok(None) => !m.contains_key(key@),
                    Err(e) => overflow(e) && !old(store).all_fit(),
                }
            },
    {
        let ghost t = store.trees@[self.root_page];
        let ghost good = store.wf() && store@.contains_key(self.root());
        let r = find(&mut store.pager, self.root_page, key, Ghost(t), Ghost(any_stock()));
        proof {
            if good {
                entries_sorted(t, top(height(t)), Size::Root, any_stock());
                if r is Ok && r->Ok_0 is Some {
                    map_of_sorted(entries(t), key@, r->Ok_0->Some_0@);
                }
                if r is Ok && r->Ok_0 is None {
                    assert(!has_key(entries(t), key@));
                }
            }
        }
        r
    }

    /// Set the value of a key.
    pub fn put(&mut self, store: &mut Store, key: &[u8], value: &[u8]) -> (r: Result<(), StorageError>)
        ensures
            old(store).wf() && old(store)@.contains_key(old(self).root()) ==> {
                let m = old(store)@[old(self).root()];
                &&& final(store).wf()
                &&& changed(
                    old(store)@,
                    final(store)@,
                    old(self).root(),
                    final(self).root(),
                    m.insert(key@, value@),
                    r is Ok,
                )
                &&& others_same(*old(store), *final(store), old(self).root())
                &&& r is Err || (one_page(*old(store), old(self).root()) && m.insert(key@, value@).dom().len()
                    <= MAX_KEYS_LEAF) ==> final(self).root() == old(self).root() && one_page(
                    *final(store),
                    old(self).root(),
                )
                &&& forall|stock: Stock| #[trigger]
                    old(store).holds_in(stock) && stock.keys.contains(key@) && stock.pairs.contains((key@, value@))
                        ==> final(store).holds_in(stock) && (roomy(stock) && old(store).all_fit() ==> match r {
                        Ok(_) => final(store).all_fit(),
                        Err(e) => e == StorageError::Full,
                    })
                &&& put_need(*old(store), old(self).root(), key@) <= PUT_PAGES
                &&& match r {
                    Ok(_) => final(store).pages_left() + put_need(*old(store), old(self).root(), key@) >= old(
                        store,
                    ).pages_left() && pages_changed(*old(store), *final(store), old(self).root(), final(self).root()),
                    Err(e) => e == StorageError::Full ==> old(store).pages_left() < put_need(
                        *old(store),
                        old(self).root(),
                        key@,
                    ),
                }
            },
    {
        let ghost root = self.root_page;
        let ghost t = store.trees@[root];
        let ghost good = store.wf() && store@.contains_key(root);
        let ghost own = stocked(stock_of(t), key@, value@);
        let ghost was = *store;
        proof {
            if good {
                tight(t, top(height(t)), Size::Root, any_stock());
                restock(t, top(height(t)), Size::Root, stock_of(t), own);
                store.pager.numbers_bounded();
                tree_is_low(t, any_stock(), store.pager@, store.pager.page_count());
            }
        }
        match put_below_root(&mut store.pager, self.root_page, key, value, Ghost(t), Ghost(own)) {
            Err(e) => {
                store.trees = Ghost(was.trees@.remove(root));
                proof {
                    if good {
                        uproot(was.pager@, store.pager@, was.trees@, root);
                        assert(store@ =~= was@.remove(root));
                        assert forall|stock: Stock| #[trigger]
                            was.holds_in(stock) && stock.keys.contains(key@) && stock.pairs.contains(
                                (key@, value@),
                            ) implies store.holds_in(stock) && (roomy(stock) && was.all_fit() ==> e
                            == StorageError::Full) by {
                            tight(t, top(height(t)), Size::Root, stock);
                            if roomy(stock) {
                                roomy_part(own, stock);
                            }
                        }
                    }
                }
                Err(e)
            },
            Ok((root2, g)) => {
                self.root_page = root2;
                store.trees = Ghost(was.trees@.remove(root).insert(root2, g@));
                proof {
                    if good {
                        let gs = top(height(g@));
                        restock(g@, gs, Size::Root, own, any_stock());
                        replant(was.pager@, store.pager@, was.trees@, root, g@);
                        assert forall|x: u32|
                            #![trigger store.used().contains(x)]
                            #![trigger was.used().contains(x)]
                            store.used().contains(x) <==> owns(g@, x) || (was.used().contains(x) && !owns(t, x)) by {
                            if owns(g@, x) {
                                owned_stored(g@, store.pager@, x);
                            }
                            if store.used().contains(x) {
                                assert(store.pager@.contains_key(x));
                            }
                            if was.used().contains(x) {
                                assert(was.pager@.contains_key(x));
                            }
                        }
                        entries_sorted(t, top(height(t)), Size::Root, any_stock());
                        entries_sorted(g@, gs, Size::Root, any_stock());
                        map_inserted(entries(t), entries(g@), key@, value@);
                        map_of_len(entries(g@));
                        assert(store@ =~= was@.remove(root).insert(root2, was@[root].insert(key@, value@)));
                        assert forall|stock: Stock| #[trigger]
                            was.holds_in(stock) && stock.keys.contains(key@) && stock.pairs.contains(
                                (key@, value@),
                            ) implies store.holds_in(stock) && (roomy(stock) && was.all_fit()
                            ==> store.all_fit()) by {
                            tight(t, top(height(t)), Size::Root, stock);
                            restock(g@, gs, Size::Root, own, stock);
                            if roomy(stock) {
                                roomy_part(own, stock);
                            }
                        }
                    }
                }
                Ok(())
            },
        }
    }

    /// Remove a key, if it is there.
    pub fn delete(&mut self, store: &mut Store, key: &[u8]) -> (r: Result<(), StorageError>)
        ensures
            old(store).wf() && old(store)@.contains_key(old(self).root()) ==> {
                let m = old(store)@[old(self).root()];
                &&& final(store).wf()
                &&& changed(
                    old(store)@,
                    final(store)@,
                    old(self).root(),
                    final(self).root(),
                    m.remove(key@),
                    r is Ok,
                )
                &&& others_same(*old(store), *final(store), old(self).root())
                &&& r is Err || one_page(*old(store), old(self).root()) ==> final(self).root() == old(self).root()
                    && one_page(*final(store), old(self).root())
                &&& forall|stock: Stock| #[trigger]
                    old(store).holds_in(stock) ==> final(store).holds_in(stock) && (roomy(stock) && old(
                        store,
                    ).all_fit() ==> r is Ok && final(store).all_fit())
                &&& r is Ok ==> {
                    &&& final(store).pages_left() >= old(store).pages_left()
                    &&& pages_changed(*old(store), *final(store), old(self).root(), final(self).root())
                }
            },
    {
        let ghost root = self.root_page;
        let ghost t = store.trees@[root];
        let ghost good = store.wf() && store@.contains_key(root);
        let ghost own = stock_of(t);
        let ghost was = *store;
        proof {
            if good {
                tight(t, top(height(t)), Size::Root, any_stock());
            }
        }
        match delete_below_root(&mut store.pager, self.root_page, key, Ghost(t), Ghost(own)) {
            Err(e) => {
                store.trees = Ghost(was.trees@.remove(root));
                proof {
                    if good {
                        uproot(was.pager@, store.pager@, was.trees@, root);
                        assert(store@ =~= was@.remove(root));
                        assert forall|stock: Stock| #[trigger] was.holds_in(stock) implies store.holds_in(stock) && !(
                        roomy(stock) && was.all_fit()) by {
                            tight(t, top(height(t)), Size::Root, stock);
                            if roomy(stock) {
                                roomy_part(own, stock);
                            }
                        }
                    }
                }
                Err(e)
            },
            Ok((root2, g)) => {
                self.root_page = root2;
                store.trees = Ghost(was.trees@.remove(root).insert(root2, g@));
                proof {
                    if good {
                        let gs = top(height(g@));
                        restock(g@, gs, Size::Root, own, any_stock());
                        replant(was.pager@, store.pager@, was.trees@, root, g@);
                        assert forall|x: u32|
                            #![trigger store.used().contains(x)]
                            #![trigger was.used().contains(x)]
                            store.used().contains(x) <==> owns(g@, x) || (was.used().contains(x) && !owns(t, x)) by {
                            if owns(g@, x) {
                                owned_stored(g@, store.pager@, x);
                            }
                            if store.used().contains(x) {
                                assert(store.pager@.contains_key(x));
                            }
                            if was.used().contains(x) {
                                assert(was.pager@.contains_key(x));
                            }
                        }
                        entries_sorted(t, top(height(t)), Size::Root, any_stock());
                        entries_sorted(g@, gs, Size::Root, any_stock());
                        map_removed(entries(t), entries(g@), key@);
                        assert(store@ =~= was@.remove(root).insert(root2, was@[root].remove(key@)));
                        assert forall|stock: Stock| #[trigger] was.holds_in(stock) implies store.holds_in(stock) && (
                        roomy(stock) && was.all_fit() ==> store.all_fit()) by {
                            tight(t, top(height(t)), Size::Root, stock);
                            restock(g@, gs, Size::Root, own, stock);
                            if roomy(stock) {
                                roomy_part(own, stock);
                            }
                        }
                    }
                }
                Ok(())
            },
        }
    }

    /// The entries with keys from `start` on, up to but without `end`, in ascending order.
    pub fn range_scan(&self, store: &mut Store, start: &[u8], end: Option<&[u8]>) -> (r: Result<
        Vec<(Vec<u8>, Vec<u8>)>,
        StorageError,
    >)
        ensures
            old(store).wf() && old(store)@.contains_key(self.root()) ==> {
                &&& unchanged(*old(store), *final(store))
                &&& match r {
                    Ok(v) => lists(pairs_view(v@), old(store)@[self.root()], start@, end_view(end)),
                    Err(e) => overflow(e) && !old(store).all_fit(),
                }
            },
    {
        let ghost t = store.trees@[self.root_page];
        let ghost good = store.wf() && store@.contains_key(self.root());
        let r = range_below(&mut store.pager, self.root_page, start, end, Ghost(t), Ghost(any_stock()));
        proof {
            if good {
                entries_sorted(t, top(height(t)), Size::Root, any_stock());
                if r is Ok {
                    let p = pairs_view(r->Ok_0@);
                    let m = map_of(entries(t));
                    assert forall|k: Seq<u8>, x: Seq<u8>| #[trigger]
                        p.contains((k, x)) <==> m.contains_key(k) && m[k] == x && in_range(
                            k,
                            start@,
                            end_view(end),
                        ) by {
                        map_of_sorted(entries(t), k, x);
                    }
                }
            }
        }
        r
    }

    /// All entries, in ascending order.
    pub fn scan(&self, store: &mut Store) -> (r: Result<Vec<(Vec<u8>, Vec<u8>)>, StorageError>)
        ensures
            old(store).wf() && old(store)@.contains_key(self.root()) ==> {
                &&& unchanged(*old(store), *final(store))
                &&& match r {
                    Ok(v) => lists_all(pairs_view(v@), old(store)@[self.root()]),
                    Err(e) => overflow(e) && !old(store).all_fit(),
                }
            },
    {
        let start: Vec<u8> = Vec::new();
        let r = self.range_scan(store, start.as_slice(), None);
        proof {
            assert(start@ =~= Seq::empty());
            assert forall|k: Seq<u8>| in_range(k, start@, None) by {
                empty_is_least(k);
                crate::bytes::lt_total(start@, k);
            }
        }
        r
    }
}

/// A list of all entries of a map, in ascending order.
pub open spec fn lists_all(v: Seq<(Seq<u8>, Seq<u8>)>, m: Map<Seq<u8>, Seq<u8>>) -> bool {
    &&& sorted(v)
    &&& forall|k: Seq<u8>, x: Seq<u8>| #[trigger] v.contains((k, x)) <==> m.contains_key(k) && m[k] == x
}

/// The error says that a page takes more bytes than there are.
pub open spec fn overflow(e: StorageError) -> bool {
    e == StorageError::Page(PageError::Overflow)
}

/// Reading has left the store as it was.
pub open spec fn unchanged(a: Store, b: Store) -> bool {
    &&& b.wf()
    &&& b@ == a@
    &&& b.forest() == a.forest()
    &&& b.pages_left() == a.pages_left()
    &&& b.used() == a.used()
    &&& b.all_fit() == a.all_fit()
    &&& forall|stock: Stock|
        #![trigger b.holds_in(stock)]
        #![trigger a.holds_in(stock)]
        b.holds_in(stock) == a.holds_in(stock)
}

/// The pages in use are those of the tree as it is now, and those that were in use and did not belong to
/// it: it leaves no page behind and touches no other.
pub open spec fn pages_changed(a: Store, b: Store, root: u32, root2: u32) -> bool {
    forall|x: u32|
        #![trigger b.used().contains(x)]
        #![trigger a.used().contains(x)]
        b.used().contains(x) <==> owns(b.forest()[root2], x) || (a.used().contains(x) && !owns(a.forest()[root], x))
}

/// The pages in use are those of the catalog as it is now, and those that were in use and belonged neither
/// to the catalog nor to a tree that it led to.
pub open spec fn pages_dropped(a: Store, b: Store, root: u32, root2: u32, gone: Tree) -> bool {
    forall|x: u32|
        #![trigger b.used().contains(x)]
        #![trigger a.used().contains(x)]
        b.used().contains(x) <==> owns(b.forest()[root2], x) || (a.used().contains(x) && !owns(a.forest()[root], x)
            && !owns(gone, x))
}

/// The number of pages that setting a key takes at most.
pub const PUT_PAGES: usize = 7;

/// How many pages setting a key in the tree with this root page can take: none if the key is there, and
/// else one for each level and one for a new root.
pub open spec fn put_need(s: Store, root: u32, key: Seq<u8>) -> nat {
    if s@[root].contains_key(key) {
        0
    } else {
        height(s.forest()[root]) + 2
    }
}

/// The tree with this root page, if there is one, is a single page.
pub open spec fn one_page(s: Store, root: u32) -> bool {
    s.forest().contains_key(root) ==> s.forest()[root] is Leaf
}

/// The trees other than the one with this root page are single pages as they were.
pub open spec fn others_same(a: Store, b: Store, root: u32) -> bool {
    forall|q: u32| q != root && a@.contains_key(q) ==> #[trigger] one_page(b, q) == one_page(a, q)
}

/// What a catalog holds for a name: metadata, and a tree.
pub ghost struct Shelf {
    pub meta: Seq<u8>,
    pub data: Map<Seq<u8>, Seq<u8>>,
}

/// The root page that stands at the front of a catalog value.
pub open spec fn entry_root(v: Seq<u8>) -> u32 {
    of_le32(v.subrange(0, 4))
}

/// The metadata that follows the root page.
pub open spec fn entry_meta(v: Seq<u8>) -> Seq<u8> {
    v.subrange(4, v.len() as int)
}

/// The catalog value of a tree and its metadata.
pub open spec fn entry_value(root: u32, meta: Seq<u8>) -> Seq<u8> {
    le32(root) + meta
}

/// The tree with root page `c` is a catalog: each value starts with the root page of a tree of the
/// store, another one for each key.
pub open spec fn is_catalog(m: Map<u32, Map<Seq<u8>, Seq<u8>>>, c: u32) -> bool {
    &&& m.contains_key(c)
    &&& forall|k: Seq<u8>| #[trigger]
        m[c].contains_key(k) ==> m[c][k].len() >= 4 && m.contains_key(entry_root(m[c][k])) && entry_root(m[c][k]) != c
    &&& forall|k: Seq<u8>, l: Seq<u8>|
        #![trigger m[c].contains_key(k), m[c].contains_key(l)]
        m[c].contains_key(k) && m[c].contains_key(l) && k != l ==> entry_root(m[c][k]) != entry_root(m[c][l])
}

/// What a catalog says.
pub open spec fn shelves(m: Map<u32, Map<Seq<u8>, Seq<u8>>>, c: u32) -> Map<Seq<u8>, Shelf> {
    Map::new(
        |k: Seq<u8>| m[c].contains_key(k),
        |k: Seq<u8>| Shelf { meta: entry_meta(m[c][k]), data: m[entry_root(m[c][k])] },
    )
}

/// The stock has room for the catalog value of this key, whatever the root page.
pub open spec fn admits_entry(stock: Stock, key: Seq<u8>, meta: Seq<u8>) -> bool {
    &&& stock.keys.contains(key)
    &&& forall|r: u32| stock.pairs.contains((key, #[trigger] entry_value(r, meta)))
}

/// Why a catalog entry could not be dropped.
#[derive(Clone, Copy, PartialEq, Eq, Structural, Debug)]
pub enum EntryError {
    /// There is no such entry.
    NotFound,
    /// The storage layer failed.
    Storage(StorageError),
}

/// The parts of a catalog value.
pub proof fn entry_parts(root: u32, meta: Seq<u8>)
    ensures
        entry_value(root, meta).len() >= 4,
        entry_root(entry_value(root, meta)) == root,
        entry_meta(entry_value(root, meta)) == meta,
{
    broadcast use group_ints;

    assert(entry_value(root, meta).subrange(0, 4) =~= le32(root));
    assert(entry_meta(entry_value(root, meta)) =~= meta);
}

/// The tree with root page `c` is a catalog but for the entry of one key, and no other entry uses
/// the tree with root page `root`.
pub open spec fn catalog_but(m: Map<u32, Map<Seq<u8>, Seq<u8>>>, c: u32, key: Seq<u8>, root: u32) -> bool {
    &&& m.contains_key(c)
    &&& m.contains_key(root)
    &&& root != c
    &&& forall|k: Seq<u8>| #[trigger]
        m[c].contains_key(k) && k != key ==> m[c][k].len() >= 4 && m.contains_key(entry_root(m[c][k])) && entry_root(
            m[c][k],
        ) != c && entry_root(m[c][k]) != root
    &&& forall|k: Seq<u8>, l: Seq<u8>|
        #![trigger m[c].contains_key(k), m[c].contains_key(l)]
        m[c].contains_key(k) && m[c].contains_key(l) && k != l && k != key && l != key ==> entry_root(m[c][k])
            != entry_root(m[c][l])
}

/// Setting the entry of a key in a catalog, with a tree that no other entry uses.
pub proof fn entry_set(
    m: Map<u32, Map<Seq<u8>, Seq<u8>>>,
    m2: Map<u32, Map<Seq<u8>, Seq<u8>>>,
    c: u32,
    c2: u32,
    key: Seq<u8>,
    root: u32,
    meta: Seq<u8>,
)
    requires
        catalog_but(m, c, key, root),
        changed(m, m2, c, c2, m[c].insert(key, entry_value(root, meta)), true),
    ensures
        is_catalog(m2, c2),
        m2[root] == m[root],
        shelves(m2, c2) == shelves(m, c).insert(key, (Shelf { meta, data: m[root] })),
{
    entry_parts(root, meta);
    let a = m[c];
    let b = m2[c2];
    assert(b == a.insert(key, entry_value(root, meta)));
    assert forall|k: Seq<u8>| #[trigger] b.contains_key(k) implies b[k].len() >= 4 && m2.contains_key(entry_root(b[k]))
        && entry_root(b[k]) != c2 && m2[entry_root(b[k])] == m[entry_root(b[k])] by {
        if k != key {
            assert(a.contains_key(k));
        }
    }
    assert forall|k: Seq<u8>, l: Seq<u8>|
        #![trigger b.contains_key(k), b.contains_key(l)]
        b.contains_key(k) && b.contains_key(l) && k != l implies entry_root(b[k]) != entry_root(b[l]) by {
        if k != key {
            assert(a.contains_key(k));
        }
        if l != key {
            assert(a.contains_key(l));
        }
    }
    assert(shelves(m2, c2) =~= shelves(m, c).insert(key, Shelf { meta, data: m[root] })) by {
        assert forall|k: Seq<u8>| #[trigger] b.contains_key(k) implies shelves(m2, c2)[k] == shelves(m, c).insert(
            key,
            Shelf { meta, data: m[root] },
        )[k] by {
            if k != key {
                assert(a.contains_key(k));
            }
        }
    }
}

impl Store {
    /// A tree without entries.
    pub fn new_tree(&mut self) -> (r: Result<BPlusTree, StorageError>)
        ensures
            old(self).wf() ==> {
                &&& final(self).wf()
                &&& match r {
                    Ok(t) => {
                        &&& !old(self)@.contains_key(t.root())
                        &&& final(self)@ == old(self)@.insert(t.root(), Map::empty())
                        &&& !old(self).used().contains(t.root())
                        &&& final(self).used() == old(self).used().insert(t.root())
                        &&& final(self).pages_left() == old(self).pages_left() - 1
                    },
                    Err(e) => {
                        &&& final(self)@ == old(self)@
                        &&& final(self).used() == old(self).used()
                        &&& final(self).pages_left() == old(self).pages_left()
                        &&& e == StorageError::Full ==> old(self).pages_left() == 0
                    },
                }
                &&& forall|q: u32| old(self)@.contains_key(q) ==> #[trigger] one_page(*final(self), q) == one_page(
                    *old(self),
                    q,
                )
                &&& forall|stock: Stock| #[trigger] old(self).holds_in(stock) ==> final(self).holds_in(stock)
                &&& old(self).all_fit() ==> match r {
                    Ok(_) => final(self).all_fit(),
                    Err(e) => e == StorageError::Full,
                }
            },
    {
        let ghost was = *self;
        let ghost good = self.wf();
        let leaf = LeafPage { keys: Vec::new(), values: Vec::new(), next: 0 };
        proof {
            assert(strings(leaf.keys@) =~= Seq::empty());
            assert(strings(leaf.values@) =~= Seq::empty());
            empty_leaf_fits();
        }
        match self.pager.new_page(Page::Leaf(leaf)) {
            Err(e) => Err(e),
            Ok(id) => {
                let ghost t = empty_tree(id);
                self.trees = Ghost(was.trees@.insert(id, t));
                proof {
                    if good {
                        let m = was.pager@;
                        let m2 = self.pager@;
                        let trees = was.trees@;
                        let trees2 = self.trees@;
                        assert forall|q: u32| trees.contains_key(q) implies q != id && disjoint(t, trees[q]) && disjoint(
                            trees[q],
                            t,
                        ) && stored(trees[q], m2) by {
                            assert(trees[q].id() == q);
                            assert(owns(trees[q], q));
                            if owns(trees[q], id) {
                                owned_stored(trees[q], m, id);
                            }
                            owned_stored(trees[q], m, q);
                            kept_stored(trees[q], m, id, empty_leaf());
                        }
                        empty_tree_rooted(id, any_stock());
                        assert forall|q: u32| #[trigger] trees2.contains_key(q) implies {
                            &&& stored(trees2[q], m2)
                            &&& rooted(trees2[q], any_stock())
                            &&& trees2[q].id() == q
                        } by {
                            if q != id {
                                assert(trees.contains_key(q));
                            }
                        }
                        assert forall|r: u32, q: u32|
                            #![trigger trees2.contains_key(r), trees2.contains_key(q)]
                            trees2.contains_key(r) && trees2.contains_key(q) && r != q implies disjoint(
                            trees2[r],
                            trees2[q],
                        ) by {
                            if r != id {
                                assert(trees.contains_key(r));
                            }
                            if q != id {
                                assert(trees.contains_key(q));
                            }
                        }
                        assert(!trees.contains_key(id));
                        assert(map_of(entries(t)) =~= Map::empty());
                        assert(self@ =~= was@.insert(id, Map::empty()));
                        assert forall|stock: Stock| #[trigger] was.holds_in(stock) implies self.holds_in(stock) by {
                            empty_tree_rooted(id, stock);
                        }
                    }
                }
                Ok(BPlusTree { root_page: id })
            },
        }
    }

    /// Free the pages of a tree.
    pub fn drop_tree(&mut self, tree: BPlusTree) -> (r: Result<(), StorageError>)
        ensures
            old(self).wf() && old(self)@.contains_key(tree.root()) ==> {
                &&& final(self).wf()
                &&& final(self)@ == old(self)@.remove(tree.root())
                &&& others_same(*old(self), *final(self), tree.root())
                &&& final(self).forest() == old(self).forest().remove(tree.root())
                &&& r is Ok ==> {
                    &&& forall|x: u32|
                        #![trigger final(self).used().contains(x)]
                        #![trigger old(self).used().contains(x)]
                        final(self).used().contains(x) <==> old(self).used().contains(x) && !owns(
                            old(self).forest()[tree.root()],
                            x,
                        )
                    &&& final(self).pages_left() >= old(self).pages_left()
                }
                &&& forall|stock: Stock| #[trigger] old(self).holds_in(stock) ==> final(self).holds_in(stock)
                &&& old(self).all_fit() ==> r is Ok && final(self).all_fit()
            },
    {
        let ghost was = *self;
        let ghost root = tree.root_page;
        let ghost t = self.trees@[root];
        let ghost s = top(height(t));
        let ghost good = self.wf() && self@.contains_key(root);
        let fuel: u32 = self.pager.num_pages();
        proof {
            if good {
                self.pager.numbers_bounded();
                height_bounded(t, s, Size::Root, any_stock(), self.pager@, fuel);
            }
        }
        let r = drop_page(
            &mut self.pager,
            tree.root_page,
            fuel,
            Ghost(t),
            Ghost(s),
            Ghost(Size::Root),
            Ghost(any_stock()),
        );
        self.trees = Ghost(was.trees@.remove(root));
        proof {
            if good {
                uproot(was.pager@, self.pager@, was.trees@, root);
                assert(self@ =~= was@.remove(root));
            }
        }
        r
    }

    /// Write everything to the file.
    pub fn flush(&mut self) -> (r: Result<(), StorageError>)
        ensures
            old(self).wf() ==> {
                &&& unchanged(*old(self), *final(self))
                &&& match r {
                    Ok(_) => final(self).saved(),
                    Err(e) => overflow(e) && !old(self).all_fit(),
                }
            },
    {
        self.pager.flush()
    }

    /// Gives up the store for its file.
    pub fn into_file(self) -> (r: PageFile)
        ensures
            r@ == self.on_file(),
    {
        self.pager.into_file()
    }

    /// The trees of a saved store stand in what was saved.
    pub proof fn saved_trees(&self)
        requires
            self.wf(),
            self.saved(),
        ensures
            sound(self.on_file()),
            standing(pages_of(self.on_file()), self.forest()),
            contents_of(self.forest()) == self@,
            forall|stock: Stock| #[trigger] trees_within(self.forest(), stock) == self.holds_in(stock),
            pages_fit(pages_of(self.on_file())) == self.all_fit(),
            left_in(self.on_file()) == self.pages_left(),
    {
        self.pager.reopening_gives_same_pages();
    }

    /// A tree of the store stands in its pages.
    pub(crate) proof fn tree_stands(&self, root: u32)
        requires
            self.wf(),
            self@.contains_key(root),
        ensures
            self.forest().contains_key(root),
            self.forest()[root].id() == root,
            rooted(self.forest()[root], any_stock()),
            map_of(entries(self.forest()[root])) == self@[root],
            height(self.forest()[root]) <= MAX_HEIGHT,
            exists|m: Map<u32, PageView>| #[trigger] stored(self.forest()[root], m) && m.dom() == self.used(),
    {
        let t = self.trees@[root];
        self.pager.numbers_bounded();
        tree_is_low(t, any_stock(), self.pager@, self.pager.page_count());
        assert(stored(t, self.pager@));
    }

    /// A tree of a single page has no more entries than the page.
    pub proof fn one_page_len(&self, root: u32)
        requires
            self.wf(),
            self@.contains_key(root),
            one_page(*self, root),
        ensures
            self@[root].dom().len() <= MAX_KEYS_LEAF,
    {
        let t = self.trees@[root];
        reveal(ok);
        entries_sorted(t, top(height(t)), Size::Root, any_stock());
        map_of_len(entries(t));
        match t {
            Tree::Leaf { id, keys, values, next } => {
                leaf_entries(id, keys, values, next);
            },
            _ => {},
        }
    }

    /// Opens a file in which these trees stand.
    pub fn reopen(file: PageFile, Ghost(trees): Ghost<Map<u32, Tree>>) -> (r: Result<Store, StorageError>)
        ensures
            sound(file@) && standing(pages_of(file@), trees) ==> {
                &&& r matches Ok(s)
                &&& s.wf()
                &&& s@ == contents_of(trees)
                &&& s.forest() == trees
                &&& s.all_fit() == pages_fit(pages_of(file@))
                &&& s.pages_left() == left_in(file@)
                &&& forall|stock: Stock| #[trigger] s.holds_in(stock) == trees_within(trees, stock)
            },
            file@.contains_key(0) && decode(file@[0]) is Ok && decode(file@[0])->Ok_0 is Header <==> r is Ok,
    {
        match Pager::open(Some(file)) {
            Err(e) => Err(e),
            Ok(pager) => Ok(Store { pager, trees: Ghost(trees) }),
        }
    }
}

/// Every one of the pages can be written.
pub open spec fn pages_fit(m: Map<u32, PageView>) -> bool {
    forall|id: u32| #[trigger] m.contains_key(id) ==> fits(m[id])
}

/// A tree without entries.
pub open spec fn empty_tree(id: u32) -> Tree {
    Tree::Leaf { id, keys: Seq::empty(), values: Seq::empty(), next: 0 }
}

/// A tree without entries is in order, and holds nothing.
pub proof fn empty_tree_rooted(id: u32, stock: Stock)
    ensures
        rooted(empty_tree(id), stock),
        entries(empty_tree(id)) == Seq::<(Seq<u8>, Seq<u8>)>::empty(),
        forall|x: u32| #[trigger] owns(empty_tree(id), x) <==> x == id,
        empty_tree(id).page() == empty_leaf(),
{
    reveal(ok);
    leaf_entries(id, Seq::empty(), Seq::empty(), 0);
    assert(entries(empty_tree(id)) =~= Seq::<(Seq<u8>, Seq<u8>)>::empty());
}

/// The tree with root page 1 of a file, if one stands there.
pub open spec fn first_tree(m: Map<u32, PageView>) -> Map<u32, Tree> {
    if exists|t: Tree| stored(t, m) && rooted(t, any_stock()) && #[trigger] t.id() == 1 {
        Map::empty().insert(1, choose|t: Tree| stored(t, m) && rooted(t, any_stock()) && #[trigger] t.id() == 1)
    } else {
        Map::empty()
    }
}

impl BPlusTree {
    /// Open the tree with root page 1 of a file, or of a new one if there is none.
    pub fn open(file: Option<PageFile>) -> (r: Result<(Store, BPlusTree), StorageError>)
        ensures
            match file {
                None => {
                    &&& r matches Ok((store, tree))
                    &&& tree.root() == 1
                    &&& store.wf()
                    &&& store.all_fit()
                    &&& store@ == Map::<u32, Map<Seq<u8>, Seq<u8>>>::empty().insert(1, Map::empty())
                    &&& one_page(store, 1)
                    &&& store.pages_left() == u32::MAX - 2
                    &&& forall|stock: Stock| #[trigger] store.holds_in(stock)
                },
                Some(f) => {
                    &&& r matches Ok((store, tree)) ==> {
                        &&& tree.root() == 1
                        &&& sound(f@) ==> {
                            &&& store.wf()
                            &&& store@ == contents_of(first_tree(pages_of(f@)))
                            &&& store.forest() == first_tree(pages_of(f@))
                            &&& store.pages_left() == left_in(f@)
                            &&& store.all_fit() == pages_fit(pages_of(f@))
                        }
                    }
                    &&& sound(f@) ==> r is Ok
                    &&& f@.contains_key(0) && decode(f@[0]) is Ok && decode(f@[0])->Ok_0 is Header <==> r is Ok
                },
            },
    {
        let ghost f = file;
        match Pager::open(file) {
            Err(e) => Err(e),
            Ok(pager) => {
                let ghost trees = if f is None {
                    Map::empty().insert(1u32, empty_tree(1))
                } else {
                    first_tree(pager@)
                };
                let store = Store { pager, trees: Ghost(trees) };
                proof {
                    if f is None {
                        empty_tree_rooted(1, any_stock());
                        assert(map_of(entries(empty_tree(1))) =~= Map::empty());
                        assert(store@ =~= Map::<u32, Map<Seq<u8>, Seq<u8>>>::empty().insert(1, Map::empty()));
                        assert forall|stock: Stock| #[trigger] store.holds_in(stock) by {
                            empty_tree_rooted(1, stock);
                        }
                    }
                }
                Ok((store, BPlusTree { root_page: 1 }))
            },
        }
    }

    /// A tree by its root page.
    pub fn with_root(root_page: u32) -> (r: Self)
        ensures
            r.root() == root_page,
    {
        BPlusTree { root_page }
    }

    /// Create a catalog entry: a new tree, and the metadata.
    pub fn create_entry(&mut self, store: &mut Store, key: &[u8], metadata: &[u8]) -> (r: Result<(), StorageError>)
        ensures
            old(store).wf() && is_catalog(old(store)@, old(self).root()) ==> {
                &&& final(store).wf()
                &&& r is Ok ==> is_catalog(final(store)@, final(self).root()) && shelves(
                    final(store)@,
                    final(self).root(),
                ) == shelves(old(store)@, old(self).root()).insert(
                    key@,
                    (Shelf { meta: metadata@, data: Map::empty() }),
                )
                &&& one_page(*old(store), old(self).root()) && shelves(old(store)@, old(self).root()).dom().insert(
                    key@,
                ).len() <= MAX_KEYS_LEAF ==> final(self).root() == old(self).root() && one_page(
                    *final(store),
                    old(self).root(),
                )
                &&& forall|stock: Stock| #[trigger]
                    old(store).holds_in(stock) && admits_entry(stock, key@, metadata@) ==> final(store).holds_in(stock)
                        && (roomy(stock) && old(store).all_fit() ==> match r {
                        Ok(_) => final(store).all_fit(),
                        Err(e) => e == StorageError::Full,
                    })
                &&& match r {
                    Ok(_) => final(store).pages_left() + PUT_PAGES + 1 >= old(store).pages_left(),
                    Err(e) => e == StorageError::Full ==> old(store).pages_left() < PUT_PAGES + 1,
                }
            },
    {
        let ghost m0 = store@;
        let ghost c = self.root();
        let ghost good = store.wf() && is_catalog(m0, c);
        match store.new_tree() {
            Err(e) => Err(e),
            Ok(tree) => {
                let ghost m1 = store@;
                let mut value: Vec<u8> = to_le32(tree.root_page);
                value.extend_from_slice(metadata);
                proof {
                    assert(value@ =~= entry_value(tree.root(), metadata@));
                    if good {
                        assert(m1[c] == m0[c]);
                        assert(m0[c].insert(key@, value@).dom() =~= shelves(m0, c).dom().insert(key@));
                    }
                }
                match self.put(store, key, value.as_slice()) {
                    Err(e) => Err(e),
                    Ok(_) => {
                        proof {
                            if good {
                                entry_set(m1, store@, c, self.root(), key@, tree.root(), metadata@);
                                assert(shelves(m1, c) =~= shelves(m0, c)) by {
                                    assert forall|k: Seq<u8>| #[trigger] m0[c].contains_key(k) implies shelves(
                                        m1,
                                        c,
                                    )[k] == shelves(m0, c)[k] by {}
                                }
                            }
                        }
                        Ok(())
                    },
                }
            },
        }
    }

    /// Look up a catalog entry: its tree, and the metadata.
    pub fn get_entry(&self, store: &mut Store, key: &[u8]) -> (r: Result<Option<(BPlusTree, Vec<u8>)>, StorageError>)
        ensures
            old(store).wf() && is_catalog(old(store)@, self.root()) ==> {
                let c = old(store)@[self.root()];
                &&& unchanged(*old(store), *final(store))
                &&& match r {
                    Ok(Some((tree, metadata))) => {
                        &&& c.contains_key(key@)
                        &&& tree.root() == entry_root(c[key@])
                        &&& metadata@ == entry_meta(c[key@])
                    },
                    Ok(None) => !c.contains_key(key@),
                    Err(e) => overflow(e) && !old(store).all_fit(),
                }
            },
    {
        match self.get(store, key) {
            Err(e) => Err(e),
            Ok(None) => Ok(None),
            Ok(Some(value)) => {
                if value.len() < 4 {
                    return Err(StorageError::Corrupt);
                }
                let root_page: u32 = from_le32(vstd::slice::slice_subrange(value.as_slice(), 0, 4));
                let metadata = copy(vstd::slice::slice_subrange(value.as_slice(), 4, value.len()));
                Ok(Some((BPlusTree { root_page }, metadata)))
            },
        }
    }

    /// Drop a catalog entry and its tree.
    pub fn drop_entry(&mut self, store: &mut Store, key: &[u8]) -> (r: Result<(), EntryError>)
        ensures
            old(store).wf() && is_catalog(old(store)@, old(self).root()) ==> {
                let shelf = shelves(old(store)@, old(self).root());
                &&& final(store).wf()
                &&& match r {
                    Ok(_) => {
                        &&& shelf.contains_key(key@)
                        &&& is_catalog(final(store)@, final(self).root())
                        &&& shelves(final(store)@, final(self).root()) == shelf.remove(key@)
                    },
                    Err(EntryError::NotFound) => {
                        &&& !shelf.contains_key(key@)
                        &&& unchanged(*old(store), *final(store))
                        &&& final(self).root() == old(self).root()
                    },
                    Err(_) => true,
                }
                &&& one_page(*old(store), old(self).root()) ==> final(self).root() == old(self).root() && one_page(
                    *final(store),
                    old(self).root(),
                )
                &&& forall|stock: Stock| #[trigger]
                    old(store).holds_in(stock) ==> final(store).holds_in(stock) && (roomy(stock) && old(
                        store,
                    ).all_fit() ==> match r {
                        Ok(_) => final(store).all_fit(),
                        Err(e) => e == EntryError::NotFound,
                    })
                &&& r is Ok ==> {
                    &&& final(store).pages_left() >= old(store).pages_left()
                    &&& pages_dropped(
                        *old(store),
                        *final(store),
                        old(self).root(),
                        final(self).root(),
                        old(store).forest()[entry_root(old(store)@[old(self).root()][key@])],
                    )
                }
            },
    {
        let ghost m0 = store@;
        let ghost c = self.root();
        let ghost good = store.wf() && is_catalog(m0, c);
        match self.get_entry(store, key) {
            Err(e) => Err(EntryError::Storage(e)),
            Ok(None) => Err(EntryError::NotFound),
            Ok(Some((tree, _))) => {
                match store.drop_tree(tree) {
                    Err(e) => {
                        return Err(EntryError::Storage(e));
                    },
                    Ok(_) => {},
                }
                let ghost m1 = store@;
                match self.delete(store, key) {
                    Err(e) => Err(EntryError::Storage(e)),
                    Ok(_) => {
                        proof {
                            if good {
                                entry_removed(m0, m1, store@, c, self.root(), key@);
                            }
                        }
                        Ok(())
                    },
                }
            },
        }
    }
}

proof fn entry_removed(
    m: Map<u32, Map<Seq<u8>, Seq<u8>>>,
    m1: Map<u32, Map<Seq<u8>, Seq<u8>>>,
    m2: Map<u32, Map<Seq<u8>, Seq<u8>>>,
    c: u32,
    c2: u32,
    key: Seq<u8>,
)
    requires
        is_catalog(m, c),
        m[c].contains_key(key),
        m1 == m.remove(entry_root(m[c][key])),
        changed(m1, m2, c, c2, m1[c].remove(key), true),
    ensures
        is_catalog(m2, c2),
        shelves(m2, c2) == shelves(m, c).remove(key),
{
    let a = m[c];
    let b = m2[c2];
    assert(m1[c] == a);
    assert(b == a.remove(key));
    assert forall|k: Seq<u8>| #[trigger] b.contains_key(k) implies b[k].len() >= 4 && m2.contains_key(entry_root(b[k]))
        && entry_root(b[k]) != c2 && m2[entry_root(b[k])] == m[entry_root(b[k])] by {
        assert(a.contains_key(k));
        assert(m1.contains_key(entry_root(a[k])));
    }
    assert forall|k: Seq<u8>, l: Seq<u8>|
        #![trigger b.contains_key(k), b.contains_key(l)]
        b.contains_key(k) && b.contains_key(l) && k != l implies entry_root(b[k]) != entry_root(b[l]) by {
        assert(a.contains_key(k) && a.contains_key(l));
    }
    assert(shelves(m2, c2) =~= shelves(m, c).remove(key)) by {
        assert forall|k: Seq<u8>| #[trigger] b.contains_key(k) implies shelves(m2, c2)[k] == shelves(m, c)[k] by {
            assert(a.contains_key(k));
        }
    }
}

} // verus!
