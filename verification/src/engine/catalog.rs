//! The catalog of a database: named trees with metadata.
use vstd::prelude::*;

use crate::ints::to_le32;
use crate::storage::btree::{end_view, pairs_view};
use crate::storage::page::decode;
use crate::storage::pager::{left_in, pages_of, sound, PageFile, StorageError};
use crate::storage::store::{
    admits_entry, catalog_but, changed, contents_of, entry_meta, entry_root, entry_set, entry_value,
    is_catalog, lists, lists_all, one_page, overflow, pages_fit, shelves, standing, trees_within,
    BPlusTree, EntryError, Shelf, Store, PUT_PAGES,
};
use crate::storage::tree::{in_range, owns, roomy, sorted, Stock, Tree, MAX_KEYS_LEAF};

verus! {

/// The catalog of one database file.
pub struct Catalog {
    store: Store,
    tree: BPlusTree,
}

impl View for Catalog {
    type V = Map<Seq<u8>, Shelf>;

    /// Metadata and contents by name.
    closed spec fn view(&self) -> Map<Seq<u8>, Shelf> {
        shelves(self.store@, self.tree.root())
    }
}

impl Catalog {
    /// The trees are in order, and the catalog refers to each by its root page.
    pub closed spec fn wf(&self) -> bool {
        self.store.wf() && is_catalog(self.store@, self.tree.root())
    }

    /// Every page in use can be written.
    pub closed spec fn all_fit(&self) -> bool {
        self.store.all_fit()
    }

    /// What the trees hold comes from this stock.
    pub closed spec fn holds_in(&self, stock: Stock) -> bool {
        &&& self.store.holds_in(stock)
        &&& stock.few ==> self.tree.root() == 1 && one_page(self.store, 1)
    }

    /// How many pages can be taken into use.
    pub closed spec fn pages_left(&self) -> nat {
        self.store.pages_left()
    }

    /// A catalog of a single page is where it is looked for when the file is opened again.
    pub proof fn few_rooted_first(&self, stock: Stock)
        requires
            self.holds_in(stock),
            stock.few,
        ensures
            self.rooted_first(),
    {
    }
}

/// Reading has left the catalog as it was.
pub open spec fn kept_catalog(a: Catalog, b: Catalog) -> bool {
    &&& b.wf()
    &&& b@ == a@
    &&& b.pages_left() == a.pages_left()
    &&& b.used() == a.used()
    &&& b.names_tree() == a.names_tree()
    &&& forall|key: Seq<u8>| #[trigger] b.tree_of(key) == a.tree_of(key)
    &&& b.all_fit() == a.all_fit()
    &&& forall|stock: Stock|
        #![trigger b.holds_in(stock)]
        #![trigger a.holds_in(stock)]
        b.holds_in(stock) == a.holds_in(stock)
}

/// A name has been dropped, and its tree with it: the pages in use are those of the catalog itself as it is
/// now, and those that were in use and belonged neither to it nor to the tree of the name.
pub open spec fn pages_freed(a: Catalog, b: Catalog, key: Seq<u8>) -> bool {
    forall|x: u32|
        #![trigger b.used().contains(x)]
        #![trigger a.used().contains(x)]
        b.used().contains(x) <==> owns(b.names_tree(), x) || (a.used().contains(x) && !owns(a.names_tree(), x) && !owns(
            a.tree_of(key),
            x,
        ))
}

/// The error of a result, if it is one.
pub open spec fn failure<T>(r: Result<T, StorageError>) -> Option<StorageError> {
    match r {
        Ok(_) => None,
        Err(e) => Some(e),
    }
}

/// With one more name the catalog is a single page still, if that is asked for.
pub open spec fn one_more(stock: Stock, shelf: Map<Seq<u8>, Shelf>, key: Seq<u8>) -> bool {
    stock.few ==> shelf.dom().insert(key).len() <= MAX_KEYS_LEAF
}

/// What the trees of a file hold comes from this stock.
pub open spec fn file_within(trees: Map<u32, Tree>, stock: Stock) -> bool {
    &&& trees_within(trees, stock)
    &&& stock.few ==> trees[1] is Leaf
}

/// Writing what the stock admits keeps within it, and takes at most so many pages. If the stock has room,
/// it fails only if there are fewer pages left.
pub open spec fn written_in(a: Catalog, b: Catalog, stock: Stock, most: nat, failed: Option<StorageError>) -> bool {
    &&& b.holds_in(stock)
    &&& failed is None ==> b.pages_left() + most >= a.pages_left()
    &&& roomy(stock) && a.all_fit() ==> match failed {
        None => b.all_fit(),
        Some(e) => e == StorageError::Full && a.pages_left() < most,
    }
}

/// How many pages setting a key in the tree of a name can take.
pub open spec fn put_pages_in(shelf: Map<Seq<u8>, Shelf>, key: Seq<u8>, k: Seq<u8>) -> nat {
    if shelf[key].data.contains_key(k) {
        0
    } else {
        PUT_PAGES as nat
    }
}

proof fn relinked(
    m: Map<u32, Map<Seq<u8>, Seq<u8>>>,
    m1: Map<u32, Map<Seq<u8>, Seq<u8>>>,
    c: u32,
    key: Seq<u8>,
    root2: u32,
    data: Map<Seq<u8>, Seq<u8>>,
)
    requires
        is_catalog(m, c),
        m[c].contains_key(key),
        changed(m, m1, entry_root(m[c][key]), root2, data, true),
    ensures
        m1[c] == m[c],
        m1[root2] == data,
        catalog_but(m1, c, key, root2),
        shelves(m1, c).remove(key) == shelves(m, c).remove(key),
        root2 == entry_root(m[c][key]) ==> is_catalog(m1, c) && shelves(m1, c) == shelves(m, c).insert(
            key,
            (Shelf { meta: entry_meta(m[c][key]), data }),
        ),
{
    let r = entry_root(m[c][key]);
    assert forall|k: Seq<u8>| #[trigger] m[c].contains_key(k) && k != key implies entry_root(m[c][k]) != root2
        && m1.contains_key(entry_root(m[c][k])) && m1[entry_root(m[c][k])] == m[entry_root(m[c][k])] by {
        assert(m[c].contains_key(key));
    }
    assert forall|k: Seq<u8>, l: Seq<u8>|
        #![trigger m1[c].contains_key(k), m1[c].contains_key(l)]
        m1[c].contains_key(k) && m1[c].contains_key(l) && k != l implies entry_root(m1[c][k]) != entry_root(
        m1[c][l],
    ) by {
        assert(m[c].contains_key(k) && m[c].contains_key(l));
    }
    assert(shelves(m1, c).remove(key) =~= shelves(m, c).remove(key));
    if root2 == r {
        assert forall|k: Seq<u8>, l: Seq<u8>|
            #![trigger m1[c].contains_key(k), m1[c].contains_key(l)]
            m1[c].contains_key(k) && m1[c].contains_key(l) && k != l implies entry_root(m1[c][k]) != entry_root(
            m1[c][l],
        ) by {
            assert(m[c].contains_key(k) && m[c].contains_key(l));
        }
        assert(shelves(m1, c) =~= shelves(m, c).insert(key, Shelf { meta: entry_meta(m[c][key]), data }));
    }
}

/// The catalog still has the root page that a tree had before.
spec fn unsynced(cat: Catalog, key: Seq<u8>, before: u32, after: u32, meta: Seq<u8>) -> bool {
    let m = cat.store@;
    let c = cat.tree.root();
    &&& cat.store.wf()
    &&& catalog_but(m, c, key, after)
    &&& m[c].contains_key(key)
    &&& m[c][key].len() >= 4
    &&& entry_root(m[c][key]) == before
    &&& meta == entry_meta(m[c][key])
    &&& after == before ==> is_catalog(m, c)
}

/// A file in which these trees stand, the first of them a catalog that says this.
pub open spec fn catalog_file(m: Map<u32, Seq<u8>>, trees: Map<u32, Tree>, shelf: Map<Seq<u8>, Shelf>) -> bool {
    &&& sound(m)
    &&& standing(pages_of(m), trees)
    &&& pages_fit(pages_of(m))
    &&& is_catalog(contents_of(trees), 1)
    &&& shelves(contents_of(trees), 1) == shelf
}

impl Catalog {
    /// The root of the catalog is where it is looked for when the file is opened again.
    pub closed spec fn rooted_first(&self) -> bool {
        self.tree.root() == 1
    }

    /// The pages in use.
    pub closed spec fn used(&self) -> Set<u32> {
        self.store.used()
    }

    /// The tree of the catalog itself.
    pub closed spec fn names_tree(&self) -> Tree {
        self.store.forest()[self.tree.root()]
    }

    /// The tree of a name.
    pub closed spec fn tree_of(&self, key: Seq<u8>) -> Tree {
        self.store.forest()[entry_root(self.store@[self.tree.root()][key])]
    }

    /// The pages in the file.
    pub closed spec fn on_file(&self) -> Map<u32, Seq<u8>> {
        self.store.on_file()
    }

    /// The trees with their pages.
    pub closed spec fn forest(&self) -> Map<u32, Tree> {
        self.store.forest()
    }

    /// The catalog of a new database file.
    pub fn create() -> (r: Result<Catalog, StorageError>)
        ensures
            r matches Ok(c) && c.wf() && c.all_fit() && c.rooted_first() && c.pages_left() == u32::MAX - 2 && c@ == Map::<
                Seq<u8>,
                Shelf,
            >::empty() && (
            forall|stock: Stock| #[trigger] c.holds_in(stock)),
    {
        match BPlusTree::open(None) {
            Err(e) => Err(e),
            Ok((store, tree)) => {
                let c = Catalog { store, tree };
                assert(c@ =~= Map::<Seq<u8>, Shelf>::empty());
                Ok(c)
            },
        }
    }

    /// Write everything to the file and give it up. What cannot be written is lost.
    pub fn close(self) -> (r: (PageFile, Ghost<Map<u32, Tree>>))
        ensures
            self.wf() && self.all_fit() && self.rooted_first() ==> {
                &&& catalog_file(r.0@, r.1@, self@)
                &&& left_in(r.0@) == self.pages_left()
                &&& forall|stock: Stock| #[trigger] self.holds_in(stock) ==> file_within(r.1@, stock)
            },
    {
        let mut c = self;
        let ghost good = c.wf() && c.all_fit() && c.rooted_first();
        let ghost trees = c.store.forest();
        let _ = c.store.flush();
        proof {
            if good {
                c.store.saved_trees();
            }
        }
        (c.store.into_file(), Ghost(trees))
    }

    /// Write everything to the file: the trees then stand in its pages, and it is a file of the catalog
    /// if the catalog is where it is looked for.
    pub fn flush(&mut self) -> (r: Result<(), StorageError>)
        ensures
            old(self).wf() ==> {
                &&& kept_catalog(*old(self), *final(self))
                &&& final(self).rooted_first() == old(self).rooted_first()
                &&& final(self).forest() == old(self).forest()
                &&& match r {
                    Ok(_) => {
                        &&& sound(final(self).on_file())
                        &&& standing(pages_of(final(self).on_file()), final(self).forest())
                        &&& pages_fit(pages_of(final(self).on_file())) == final(self).all_fit()
                        &&& left_in(final(self).on_file()) == final(self).pages_left()
                        &&& final(self).all_fit() && final(self).rooted_first() ==> {
                            &&& catalog_file(final(self).on_file(), final(self).forest(), final(self)@)
                            &&& forall|stock: Stock| #[trigger]
                                final(self).holds_in(stock) ==> file_within(final(self).forest(), stock)
                        }
                    },
                    Err(e) => overflow(e) && !old(self).all_fit(),
                }
            },
    {
        let ghost good = self.wf();
        let r = self.store.flush();
        proof {
            if good && r is Ok {
                self.store.saved_trees();
            }
        }
        r
    }

    /// Open the catalog of a file.
    pub fn reopen(file: PageFile, Ghost(trees): Ghost<Map<u32, Tree>>) -> (r: Result<Catalog, StorageError>)
        ensures
            forall|shelf: Map<Seq<u8>, Shelf>| #[trigger]
                catalog_file(file@, trees, shelf) ==> {
                    &&& r matches Ok(c)
                    &&& c.wf()
                    &&& c.all_fit()
                    &&& c.rooted_first()
                    &&& c@ == shelf
                    &&& c.pages_left() == left_in(file@)
                    &&& forall|stock: Stock| #[trigger] file_within(trees, stock) ==> c.holds_in(stock)
                },
            file@.contains_key(0) && decode(file@[0]) is Ok && decode(file@[0])->Ok_0 is Header <==> r is Ok,
    {
        match Store::reopen(file, Ghost(trees)) {
            Err(e) => Err(e),
            Ok(store) => Ok(Catalog { store, tree: BPlusTree::with_root(1) }),
        }
    }
}

impl Catalog {
    /// The metadata of a name.
    pub fn lookup(&mut self, key: &[u8]) -> (r: Result<Option<Vec<u8>>, StorageError>)
        ensures
            old(self).wf() ==> {
                &&& kept_catalog(*old(self), *final(self))
                &&& match r {
                    Ok(Some(meta)) => old(self)@.contains_key(key@) && old(self)@[key@].meta == meta@,
                    Ok(None) => !old(self)@.contains_key(key@),
                    Err(e) => overflow(e) && !old(self).all_fit(),
                }
            },
    {
        match self.tree.get_entry(&mut self.store, key) {
            Err(e) => Err(e),
            Ok(None) => Ok(None),
            Ok(Some((_, meta))) => Ok(Some(meta)),
        }
    }

    /// Add a name with metadata and an empty tree.
    pub fn create_entry(&mut self, key: &[u8], meta: &[u8]) -> (r: Result<(), StorageError>)
        ensures
            old(self).wf() ==> {
                &&& r is Ok ==> final(self).wf() && final(self)@ == old(self)@.insert(
                    key@,
                    (Shelf { meta: meta@, data: Map::empty() }),
                )
                &&& forall|stock: Stock| #[trigger]
                    old(self).holds_in(stock) && admits_entry(stock, key@, meta@) && one_more(stock, old(self)@, key@)
                        ==> written_in(*old(self), *final(self), stock, (PUT_PAGES + 1) as nat, failure(r))
            },
    {
        self.tree.create_entry(&mut self.store, key, meta)
    }

    /// Remove a name and its tree.
    pub fn drop_entry(&mut self, key: &[u8]) -> (r: Result<(), EntryError>)
        ensures
            old(self).wf() ==> {
                &&& match r {
                    Ok(_) => {
                        &&& old(self)@.contains_key(key@)
                        &&& final(self).wf()
                        &&& final(self)@ == old(self)@.remove(key@)
                    },
                    Err(EntryError::NotFound) => !old(self)@.contains_key(key@) && kept_catalog(
                        *old(self),
                        *final(self),
                    ),
                    Err(_) => true,
                }
                &&& forall|stock: Stock| #[trigger]
                    old(self).holds_in(stock) ==> final(self).holds_in(stock) && (roomy(stock) && old(self).all_fit()
                        ==> match r {
                        Ok(_) => final(self).all_fit(),
                        Err(e) => e == EntryError::NotFound,
                    })
                &&& r is Ok ==> final(self).pages_left() >= old(self).pages_left() && pages_freed(
                    *old(self),
                    *final(self),
                    key@,
                )
            },
    {
        self.tree.drop_entry(&mut self.store, key)
    }

    /// The value of a key in the tree of a name.
    pub fn get_in(&mut self, key: &[u8], k: &[u8]) -> (r: Result<Option<Vec<u8>>, StorageError>)
        ensures
            old(self).wf() ==> {
                &&& kept_catalog(*old(self), *final(self))
                &&& match r {
                    Ok(Some(v)) => {
                        &&& old(self)@.contains_key(key@)
                        &&& old(self)@[key@].data.contains_key(k@)
                        &&& old(self)@[key@].data[k@] == v@
                    },
                    Ok(None) => old(self)@.contains_key(key@) ==> !old(self)@[key@].data.contains_key(k@),
                    Err(e) => overflow(e) && !old(self).all_fit(),
                }
            },
    {
        match self.tree.get_entry(&mut self.store, key) {
            Err(e) => Err(e),
            Ok(None) => Ok(None),
            Ok(Some((tree, _))) => tree.get(&mut self.store, k),
        }
    }

    /// The entries of the tree of a name with keys from `start` on, up to but without `end`.
    pub fn range_in(&mut self, key: &[u8], start: &[u8], end: Option<&[u8]>) -> (r: Result<
        Vec<(Vec<u8>, Vec<u8>)>,
        StorageError,
    >)
        ensures
            old(self).wf() ==> {
                &&& kept_catalog(*old(self), *final(self))
                &&& match r {
                    Ok(v) => {
                        &&& old(self)@.contains_key(key@) ==> lists(
                            pairs_view(v@),
                            old(self)@[key@].data,
                            start@,
                            end_view(end),
                        )
                        &&& !old(self)@.contains_key(key@) ==> v@.len() == 0
                    },
                    Err(e) => overflow(e) && !old(self).all_fit(),
                }
            },
    {
        match self.tree.get_entry(&mut self.store, key) {
            Err(e) => Err(e),
            Ok(None) => Ok(Vec::new()),
            Ok(Some((tree, _))) => tree.range_scan(&mut self.store, start, end),
        }
    }

    /// All entries of the tree of a name.
    pub fn scan_in(&mut self, key: &[u8]) -> (r: Result<Vec<(Vec<u8>, Vec<u8>)>, StorageError>)
        ensures
            old(self).wf() ==> {
                &&& kept_catalog(*old(self), *final(self))
                &&& match r {
                    Ok(v) => {
                        &&& old(self)@.contains_key(key@) ==> lists_all(pairs_view(v@), old(self)@[key@].data)
                        &&& !old(self)@.contains_key(key@) ==> v@.len() == 0
                    },
                    Err(e) => overflow(e) && !old(self).all_fit(),
                }
            },
    {
        match self.tree.get_entry(&mut self.store, key) {
            Err(e) => Err(e),
            Ok(None) => Ok(Vec::new()),
            Ok(Some((tree, _))) => tree.scan(&mut self.store),
        }
    }

    /// The names from `start` on with the values the catalog has for them.
    pub fn names_from(&mut self, start: &[u8]) -> (r: Result<Vec<(Vec<u8>, Vec<u8>)>, StorageError>)
        ensures
            old(self).wf() ==> {
                &&& kept_catalog(*old(self), *final(self))
                &&& match r {
                    Ok(v) => names_listed(pairs_view(v@), old(self)@, start@),
                    Err(e) => overflow(e) && !old(self).all_fit(),
                }
            },
    {
        let ghost m = self.store@[self.tree.root()];
        let ghost was = self@;
        let ghost good = self.wf();
        let r = self.tree.range_scan(&mut self.store, start, None);
        proof {
            if good && r is Ok {
                let v = pairs_view(r->Ok_0@);
                assert forall|i: int| 0 <= i < v.len() implies {
                    &&& was.contains_key((#[trigger] v[i]).0)
                    &&& v[i].1.len() >= 4
                    &&& entry_meta(v[i].1) == was[v[i].0].meta
                    &&& in_range(v[i].0, start@, None)
                } by {
                    assert(v.contains((v[i].0, v[i].1)));
                    assert(m.contains_key(v[i].0));
                }
                assert forall|k: Seq<u8>| #[trigger] was.contains_key(k) && in_range(k, start@, None) implies exists|
                    i: int,
                | 0 <= i < v.len() && (#[trigger] v[i]).0 == k by {
                    assert(v.contains((k, m[k])));
                    let i = choose|i: int| 0 <= i < v.len() && v[i] == (k, m[k]);
                    assert(v[i].0 == k);
                }
            }
        }
        r
    }

    /// Point the catalog to the root page that a tree has now.
    fn sync_root(&mut self, key: &[u8], before: BPlusTree, after: BPlusTree, meta: &Vec<u8>) -> (r: Result<
        (),
        StorageError,
    >)
        ensures
            ({
                let m = old(self).store@;
                let c = old(self).tree.root();
                unsynced(*old(self), key@, before.root(), after.root(), meta@) ==> {
                    &&& r is Ok ==> final(self).wf() && final(self)@ == old(self)@.insert(
                        key@,
                        (Shelf { meta: meta@, data: m[after.root()] }),
                    )
                    &&& forall|stock: Stock| #[trigger]
                        old(self).holds_in(stock) && admits_entry(stock, key@, meta@) ==> written_in(
                            *old(self),
                            *final(self),
                            stock,
                            0,
                            failure(r),
                        )
                }
            }),
    {
        let ghost m = self.store@;
        let ghost c = self.tree.root();
        let ghost good = unsynced(*self, key@, before.root(), after.root(), meta@);
        if before.root_page() == after.root_page() {
            proof {
                if good {
                    assert(self@.insert(key@, Shelf { meta: meta@, data: m[after.root()] }) =~= self@);
                }
            }
            return Ok(());
        }
        let mut value: Vec<u8> = to_le32(after.root_page());
        value.extend_from_slice(meta.as_slice());
        proof {
            assert(value@ =~= entry_value(after.root(), meta@));
            if good {
                assert(m[c].insert(key@, value@).dom() =~= m[c].dom());
                if one_page(self.store, c) {
                    self.store.one_page_len(c);
                }
            }
        }
        match self.tree.put(&mut self.store, key, value.as_slice()) {
            Err(e) => Err(e),
            Ok(_) => {
                proof {
                    if good {
                        entry_set(m, self.store@, c, self.tree.root(), key@, after.root(), meta@);
                    }
                }
                Ok(())
            },
        }
    }

    /// Set the value of a key in the tree of a name. The result says whether there is such a name.
    pub fn put_in(&mut self, key: &[u8], k: &[u8], v: &[u8]) -> (r: Result<bool, StorageError>)
        ensures
            old(self).wf() ==> {
                let was = old(self)@;
                &&& match r {
                    Ok(true) => {
                        &&& was.contains_key(key@)
                        &&& final(self).wf()
                        &&& final(self)@ == was.insert(
                            key@,
                            (Shelf { meta: was[key@].meta, data: was[key@].data.insert(k@, v@) }),
                        )
                    },
                    Ok(false) => !was.contains_key(key@) && kept_catalog(*old(self), *final(self)),
                    Err(_) => true,
                }
                &&& forall|stock: Stock| #[trigger]
                    old(self).holds_in(stock) && stock.keys.contains(k@) && stock.pairs.contains((k@, v@)) && (
                    was.contains_key(key@) ==> admits_entry(stock, key@, was[key@].meta)) ==> written_in(
                        *old(self),
                        *final(self),
                        stock,
                        put_pages_in(was, key@, k@),
                        failure(r),
                    )
            },
    {
        let ghost m = self.store@;
        let ghost c = self.tree.root();
        let ghost was = *self;
        let ghost good = self.wf();
        match self.tree.get_entry(&mut self.store, key) {
            Err(e) => Err(e),
            Ok(None) => Ok(false),
            Ok(Some((tree, meta))) => {
                let mut tree2 = tree;
                match tree2.put(&mut self.store, k, v) {
                    Err(e) => Err(e),
                    Ok(_) => {
                        proof {
                            if good {
                                relinked(m, self.store@, c, key@, tree2.root(), m[tree.root()].insert(k@, v@));
                            }
                        }
                        let ghost mid = *self;
                        proof {
                            if good {
                                assert forall|stock: Stock| #[trigger]
                                    was.holds_in(stock) && stock.keys.contains(k@) && stock.pairs.contains((k@, v@)) implies mid.holds_in(stock) && (roomy(stock) && was.all_fit()
                                    ==> mid.all_fit()) by {}
                                assert(mid.pages_left() + put_pages_in(was@, key@, k@) >= was.pages_left());
                            }
                        }
                        match self.sync_root(key, tree, tree2, &meta) {
                            Err(e) => Err(e),
                            Ok(_) => {
                                proof {
                                    if good {
                                        synced(
                                            mid@,
                                            shelves(m, c),
                                            key@,
                                            Shelf { meta: meta@, data: m[tree.root()].insert(k@, v@) },
                                        );
                                    }
                                }
                                Ok(true)
                            },
                        }
                    },
                }
            },
        }
    }

    /// Remove a key from the tree of a name.
    pub fn delete_in(&mut self, key: &[u8], k: &[u8]) -> (r: Result<bool, StorageError>)
        ensures
            old(self).wf() ==> {
                let was = old(self)@;
                &&& match r {
                    Ok(true) => {
                        &&& was.contains_key(key@)
                        &&& final(self).wf()
                        &&& final(self)@ == was.insert(
                            key@,
                            (Shelf { meta: was[key@].meta, data: was[key@].data.remove(k@) }),
                        )
                    },
                    Ok(false) => !was.contains_key(key@) && kept_catalog(*old(self), *final(self)),
                    Err(_) => true,
                }
                &&& forall|stock: Stock| #[trigger]
                    old(self).holds_in(stock) && (was.contains_key(key@) ==> admits_entry(
                        stock,
                        key@,
                        was[key@].meta,
                    )) ==> written_in(*old(self), *final(self), stock, 0, failure(r))
            },
    {
        let ghost m = self.store@;
        let ghost c = self.tree.root();
        let ghost was = *self;
        let ghost good = self.wf();
        match self.tree.get_entry(&mut self.store, key) {
            Err(e) => Err(e),
            Ok(None) => Ok(false),
            Ok(Some((tree, meta))) => {
                let mut tree2 = tree;
                match tree2.delete(&mut self.store, k) {
                    Err(e) => Err(e),
                    Ok(_) => {
                        proof {
                            if good {
                                relinked(m, self.store@, c, key@, tree2.root(), m[tree.root()].remove(k@));
                            }
                        }
                        let ghost mid = *self;
                        proof {
                            if good {
                                assert forall|stock: Stock| #[trigger]
                                    was.holds_in(stock) implies mid.holds_in(stock) && (roomy(stock) && was.all_fit()
                                    ==> mid.all_fit()) by {}
                            }
                        }
                        match self.sync_root(key, tree, tree2, &meta) {
                            Err(e) => Err(e),
                            Ok(_) => {
                                proof {
                                    if good {
                                        synced(
                                            mid@,
                                            shelves(m, c),
                                            key@,
                                            Shelf { meta: meta@, data: m[tree.root()].remove(k@) },
                                        );
                                    }
                                }
                                Ok(true)
                            },
                        }
                    },
                }
            },
        }
    }

    /// Replace the metadata of a name.
    pub fn set_meta(&mut self, key: &[u8], meta: &[u8]) -> (r: Result<bool, StorageError>)
        ensures
            old(self).wf() ==> {
                let was = old(self)@;
                &&& match r {
                    Ok(true) => {
                        &&& was.contains_key(key@)
                        &&& final(self).wf()
                        &&& final(self)@ == was.insert(key@, (Shelf { meta: meta@, data: was[key@].data }))
                    },
                    Ok(false) => !was.contains_key(key@) && kept_catalog(*old(self), *final(self)),
                    Err(_) => true,
                }
                &&& forall|stock: Stock| #[trigger]
                    old(self).holds_in(stock) && admits_entry(stock, key@, meta@) ==> written_in(
                        *old(self),
                        *final(self),
                        stock,
                        0,
                        failure(r),
                    )
            },
    {
        let ghost m = self.store@;
        let ghost c = self.tree.root();
        let ghost good = self.wf();
        match self.tree.get_entry(&mut self.store, key) {
            Err(e) => Err(e),
            Ok(None) => Ok(false),
            Ok(Some((tree, _))) => {
                let mut value: Vec<u8> = to_le32(tree.root_page());
                value.extend_from_slice(meta);
                proof {
                    assert(value@ =~= entry_value(tree.root(), meta@));
                    if good {
                        assert(m[c].insert(key@, value@).dom() =~= m[c].dom());
                        if one_page(self.store, c) {
                            self.store.one_page_len(c);
                        }
                    }
                }
                match self.tree.put(&mut self.store, key, value.as_slice()) {
                    Err(e) => Err(e),
                    Ok(_) => {
                        proof {
                            if good {
                                assert forall|k: Seq<u8>| #[trigger]
                                    m[c].contains_key(k) && k != key@ implies entry_root(m[c][k]) != tree.root() by {
                                    assert(m[c].contains_key(key@));
                                }
                                entry_set(m, self.store@, c, self.tree.root(), key@, tree.root(), meta@);
                            }
                        }
                        Ok(true)
                    },
                }
            },
        }
    }
}

proof fn synced(mid: Map<Seq<u8>, Shelf>, was: Map<Seq<u8>, Shelf>, key: Seq<u8>, shelf: Shelf)
    requires
        mid.remove(key) == was.remove(key),
    ensures
        mid.insert(key, shelf) == was.insert(key, shelf),
{
    assert(mid.insert(key, shelf) =~= mid.remove(key).insert(key, shelf));
    assert(was.insert(key, shelf) =~= was.remove(key).insert(key, shelf));
}

/// A list of the names of a catalog from `start` on, in ascending order, with their metadata behind
/// the root page.
pub open spec fn names_listed(v: Seq<(Seq<u8>, Seq<u8>)>, shelf: Map<Seq<u8>, Shelf>, start: Seq<u8>) -> bool {
    &&& sorted(v)
    &&& forall|i: int|
        0 <= i < v.len() ==> {
            &&& shelf.contains_key((#[trigger] v[i]).0)
            &&& v[i].1.len() >= 4
            &&& entry_meta(v[i].1) == shelf[v[i].0].meta
            &&& in_range(v[i].0, start, None)
        }
    &&& forall|k: Seq<u8>| #[trigger]
        shelf.contains_key(k) && in_range(k, start, None) ==> exists|i: int|
            0 <= i < v.len() && (#[trigger] v[i]).0 == k
}

} // verus!
