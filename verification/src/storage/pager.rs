//! The pager: an LRU cache of pages over a page file, with a list of free pages for reuse.
use std::collections::{HashMap, HashSet};

use vstd::prelude::*;
use vstd::std_specs::hash::group_hash_axioms;

use crate::ints::{from_le32, group_ints, le32, of_le32, to_le32};
use crate::storage::page::{
    decode, decoded_is_whole, deserialize_undoes_serialize, encoding, fits, image, whole,
    HeaderPage, LeafPage, Page, PageError, PageView, MAGIC, PAGE_SIZE, VERSION,
};

verus! {

/// The number of pages that the cache holds at most, the header included.
pub const MAX_CACHE: usize = 64;

/// Why the storage layer could not do what it was asked for.
#[derive(Clone, Copy, PartialEq, Eq, Structural, Debug)]
pub enum StorageError {
    /// A page could not be written as bytes or read from them.
    Page(PageError),
    /// The file has no such page.
    MissingPage(u32),
    /// Page 0 is not a header page.
    NotHeader,
    /// Every page number is in use.
    Full,
    /// The pages do not form a tree.
    Corrupt,
}

/// The contents of a database file, page by page.
pub struct PageFile {
    pages: HashMap<u32, [u8; PAGE_SIZE]>,
}

impl View for PageFile {
    type V = Map<u32, Seq<u8>>;

    closed spec fn view(&self) -> Map<u32, Seq<u8>> {
        Map::new(|id: u32| self.pages@.contains_key(id), |id: u32| self.pages@[id]@)
    }
}

impl PageFile {
    /// A file without pages.
    pub fn new() -> (r: Self)
        ensures
            r@ == Map::<u32, Seq<u8>>::empty(),
    {
        broadcast use group_hash_axioms;

        let r = PageFile { pages: HashMap::new() };
        assert(r@ =~= Map::<u32, Seq<u8>>::empty());
        r
    }

    /// The bytes of a page.
    pub fn read(&self, id: u32) -> (r: Option<[u8; PAGE_SIZE]>)
        ensures
            match r {
                Some(data) => self@.contains_key(id) && data@ == self@[id],
                None => !self@.contains_key(id),
            },
    {
        broadcast use group_hash_axioms;

        match self.pages.get(&id) {
            Some(data) => Some(*data),
            None => None,
        }
    }

    /// Puts the bytes of a page in place.
    pub fn write(&mut self, id: u32, data: [u8; PAGE_SIZE])
        ensures
            final(self)@ == old(self)@.insert(id, data@),
    {
        broadcast use group_hash_axioms;

        self.pages.insert(id, data);
        assert(self@ =~= old(self)@.insert(id, data@));
    }

    /// The numbers of all pages, each once, in no set order.
    pub fn page_numbers(&self) -> (r: Vec<u32>)
        ensures
            r@.no_duplicates(),
            forall|id: u32| #[trigger] r@.contains(id) <==> self@.contains_key(id),
    {
        broadcast use group_hash_axioms;

        let mut r: Vec<u32> = Vec::new();
        for id in keys: self.pages.keys()
            invariant
                keys.seq().unref().to_set() == self.pages@.dom(),
                keys.seq().no_duplicates(),
                keys.seq().len() == self.pages@.dom().len(),
                r@ == keys.seq().unref().take(keys.index()),
                keys.index() == keys.seq().len() ==> r@ == keys.seq().unref(),
        {
            r.push(*id);
            assert(r@ =~= keys.seq().unref().take(keys.index() + 1));
            assert(keys.seq().unref() =~= keys.seq().unref().take(keys.seq().len() as int));
        }
        proof {
            assert forall|id: u32| #[trigger] r@.contains(id) <==> self@.contains_key(id) by {
                assert(r@.to_set().contains(id) <==> self.pages@.dom().contains(id));
            }
        }
        r
    }
}

/// The page numbers `free`, in this order, are the free list that starts at `head`: the first
/// four bytes of each free page are the number of the next one, and those of the last are 0.
pub open spec fn chained(file: Map<u32, Seq<u8>>, num_pages: u32, head: u32, free: Seq<u32>) -> bool {
    &&& num_pages >= 1
    &&& head == link(free, 0)
    &&& free.no_duplicates()
    &&& forall|i: int| 0 <= i < free.len() ==> 1 <= #[trigger] free[i] < num_pages
    &&& forall|i: int|
        0 <= i < free.len() ==> file.contains_key(#[trigger] free[i]) && file[free[i]].len() == PAGE_SIZE && of_le32(
            file[free[i]].subrange(0, 4),
        ) == link(free, i + 1)
}

/// The `i`-th page of a free list, 0 after the last.
pub open spec fn link(free: Seq<u32>, i: int) -> u32 {
    if 0 <= i < free.len() {
        free[i]
    } else {
        0
    }
}

/// The page numbers in use.
pub open spec fn allocated(num_pages: u32, free: Seq<u32>, id: u32) -> bool {
    1 <= id < num_pages && !free.contains(id)
}

/// The header that belongs to a state of the pager.
pub open spec fn header_view(num_pages: u32, free_list: u32) -> PageView {
    PageView::Header { magic: MAGIC, version: VERSION, num_pages, free_list }
}

/// The pages in use that a file holds.
pub open spec fn stored_pages(file: Map<u32, Seq<u8>>, num_pages: u32, free: Seq<u32>) -> Map<u32, PageView> {
    Map::new(
        |id: u32| allocated(num_pages, free, id) && file.contains_key(id) && decode(file[id]) is Ok,
        |id: u32| decode(file[id])->Ok_0,
    )
}

/// A file that a database can be opened from: a header, and a free list that is in order.
pub open spec fn sound(file: Map<u32, Seq<u8>>) -> bool {
    &&& file.contains_key(0)
    &&& decode(file[0]) matches Ok(PageView::Header { num_pages, free_list, .. })
    &&& exists|free: Seq<u32>| chained(file, num_pages, free_list, free)
}

/// The free list of a sound file.
pub open spec fn free_list_of(file: Map<u32, Seq<u8>>) -> Seq<u32> {
    let header = decode(file[0])->Ok_0;
    choose|free: Seq<u32>| chained(file, header->num_pages, header->free_list, free)
}

/// How many pages a database can take into use that is opened from a sound file.
pub open spec fn left_in(file: Map<u32, Seq<u8>>) -> nat {
    (free_list_of(file).len() + (u32::MAX - decode(file[0])->Ok_0->num_pages)) as nat
}

/// The pages in use of a sound file.
pub open spec fn pages_of(file: Map<u32, Seq<u8>>) -> Map<u32, PageView> {
    stored_pages(file, decode(file[0])->Ok_0->num_pages, free_list_of(file))
}

proof fn chains_agree(file: Map<u32, Seq<u8>>, num_pages: u32, head: u32, a: Seq<u32>, b: Seq<u32>, i: int)
    requires
        chained(file, num_pages, head, a),
        chained(file, num_pages, head, b),
        0 <= i,
    ensures
        link(a, i) == link(b, i),
        i <= a.len() <==> i <= b.len(),
    decreases i,
{
    if i > 0 {
        chains_agree(file, num_pages, head, a, b, i - 1);
    }
}

/// A free list is determined by the file.
proof fn chain_unique(file: Map<u32, Seq<u8>>, num_pages: u32, head: u32, a: Seq<u32>, b: Seq<u32>)
    requires
        chained(file, num_pages, head, a),
        chained(file, num_pages, head, b),
    ensures
        a == b,
{
    chains_agree(file, num_pages, head, a, b, a.len() as int);
    chains_agree(file, num_pages, head, a, b, b.len() as int);
    assert forall|i: int| 0 <= i < a.len() implies a[i] == b[i] by {
        chains_agree(file, num_pages, head, a, b, i);
    }
    assert(a =~= b);
}

/// The order of use, the least recently used page first, after a page has been used: it comes last, and
/// if it is new to a full cache, the first one leaves.
pub open spec fn used(order: Seq<u32>, id: u32) -> Seq<u32> {
    if order.contains(id) {
        order.remove(order.index_of(id)).push(id)
    } else if order.len() >= MAX_CACHE - 1 {
        order.skip(1).push(id)
    } else {
        order.push(id)
    }
}

/// The pages, their number and the free pages are as they were.
pub open spec fn kept_pages(a: Pager, b: Pager) -> bool {
    &&& b.wf()
    &&& b@ == a@
    &&& b.page_count() == a.page_count()
    &&& b.free_pages() == a.free_pages()
}

/// Page manager with an LRU cache.
pub struct Pager {
    file: PageFile,
    /// The cached pages.
    cache: HashMap<u32, Page>,
    /// The cached pages other than the header, the least recently used first.
    order: Vec<u32>,
    /// The pages that differ from the file.
    dirty: HashSet<u32>,
    num_pages: u32,
    free_list: u32,
    free: Ghost<Seq<u32>>,
}

impl View for Pager {
    type V = Map<u32, PageView>;

    /// The pages in use, by number, wherever they are kept.
    closed spec fn view(&self) -> Map<u32, PageView> {
        Map::new(|id: u32| self.live(id), |id: u32| self.page(id))
    }
}

impl Pager {
    spec fn live(&self, id: u32) -> bool {
        &&& allocated(self.num_pages, self.free@, id)
        &&& self.cache@.contains_key(id) || (self.file@.contains_key(id) && decode(self.file@[id]) is Ok)
    }

    spec fn page(&self, id: u32) -> PageView {
        if self.cache@.contains_key(id) {
            self.cache@[id]@
        } else {
            decode(self.file@[id])->Ok_0
        }
    }

    /// The contents of the file.
    pub closed spec fn on_file(&self) -> Map<u32, Seq<u8>> {
        self.file@
    }

    /// The number of pages, those on the free list and the header included.
    pub closed spec fn page_count(&self) -> u32 {
        self.num_pages
    }

    /// The free pages, the next one to be used first.
    pub closed spec fn free_pages(&self) -> Seq<u32> {
        self.free@
    }

    /// How many pages can be taken into use: the free ones, and the numbers not given out yet.
    pub open spec fn pages_left(&self) -> nat {
        (self.free_pages().len() + (u32::MAX - self.page_count())) as nat
    }

    /// Neither the cache nor the file has such a page.
    pub open spec fn absent(&self, id: u32) -> bool {
        id != 0 && !self.recent().contains(id) && !self.on_file().contains_key(id)
    }

    /// The pages in the cache other than the header, the least recently used first.
    pub closed spec fn recent(&self) -> Seq<u32> {
        self.order@
    }

    /// The number of pages in the cache.
    pub closed spec fn cache_len(&self) -> nat {
        self.cache@.dom().len()
    }

    /// Every page in use can be written.
    pub open spec fn all_fit(&self) -> bool {
        forall|id: u32| #[trigger] self@.contains_key(id) ==> fits(self@[id])
    }

    /// The file holds every page as it is.
    pub closed spec fn saved(&self) -> bool {
        &&& self.dirty@ == Set::<u32>::empty()
        &&& self.file@.contains_key(0)
        &&& decode(self.file@[0]) == Ok::<PageView, PageError>(header_view(self.num_pages, self.free_list))
    }

    /// The order of use lists the cached pages other than the header, each once.
    spec fn cache_wf(&self) -> bool {
        &&& self.order@.no_duplicates()
        &&& self.order@.len() < MAX_CACHE
        &&& !self.order@.contains(0)
        &&& forall|id: u32|
            #![trigger self.cache@.contains_key(id)]
            #![trigger self.order@.contains(id)]
            id != 0 ==> (self.cache@.contains_key(id) <==> self.order@.contains(id))
        &&& forall|id: u32| #[trigger]
            self.cache@.contains_key(id) && id != 0 ==> allocated(self.num_pages, self.free@, id) && whole(
                self.cache@[id]@,
            )
        &&& forall|id: u32| #[trigger] self.dirty@.contains(id) ==> self.cache@.contains_key(id)
        &&& forall|id: u32| #[trigger]
            self.cache@.contains_key(id) && !self.dirty@.contains(id) && id != 0 ==> self.file@.contains_key(id)
                && decode(self.file@[id]) == Ok::<PageView, PageError>(self.cache@[id]@)
    }

    /// The state is in order: what the cache and the file hold fits together, and the free list is
    /// in the file.
    pub closed spec fn wf(&self) -> bool {
        &&& self.cache_wf()
        &&& chained(self.file@, self.num_pages, self.free_list, self.free@)
    }

    /// Pages in use have numbers from 1 to below the number of pages.
    pub proof fn numbers_bounded(&self)
        ensures
            forall|id: u32| #[trigger] self@.contains_key(id) ==> 0 < id < self.page_count(),
    {
    }

    /// The cache stays within its bound.
    pub proof fn cache_bounded(&self)
        requires
            self.wf(),
        ensures
            self.cache_len() <= MAX_CACHE,
    {
        let s = self.order@.push(0u32);
        pushed(self.order@, 0);
        s.unique_seq_to_set();
        vstd::seq_lib::seq_to_set_is_finite(s);
        assert forall|id: u32| self.cache@.dom().contains(id) implies s.to_set().contains(id) by {
            assert(self.cache@.contains_key(id));
        }
        vstd::set_lib::lemma_len_subset(self.cache@.dom(), s.to_set());
    }

    /// Opening what was saved gives the same pages.
    pub proof fn reopening_gives_same_pages(&self)
        requires
            self.wf(),
            self.saved(),
        ensures
            sound(self.on_file()),
            pages_of(self.on_file()) == self@,
            free_list_of(self.on_file()) == self.free_pages(),
            decode(self.on_file()[0]) matches Ok(PageView::Header { num_pages, .. }) && num_pages == self.page_count(),
            left_in(self.on_file()) == self.pages_left(),
    {
        let free = free_list_of(self.file@);
        assert(chained(self.file@, self.num_pages, self.free_list, self.free@));
        chain_unique(self.file@, self.num_pages, self.free_list, self.free@, free);
        assert(pages_of(self.file@) =~= self@);
    }

    /// Open a database file, or create one if there is none.
    pub fn open(file: Option<PageFile>) -> (r: Result<Self, StorageError>)
        ensures
            match file {
                None => {
                    &&& r matches Ok(p)
                    &&& p.wf()
                    &&& p.page_count() == 2
                    &&& p.free_pages() == Seq::<u32>::empty()
                    &&& p.recent() == Seq::<u32>::empty()
                    &&& p@ == Map::<u32, PageView>::empty().insert(1, empty_leaf())
                    &&& p.all_fit()
                },
                Some(f) => match r {
                    Ok(p) => {
                        &&& f@.contains_key(0)
                        &&& decode(f@[0]) matches Ok(PageView::Header { num_pages, .. })
                        &&& p.page_count() == num_pages
                        &&& p.on_file() == f@
                        &&& p.recent() == Seq::<u32>::empty()
                        &&& sound(f@) ==> p.wf() && p@ == pages_of(f@) && p.free_pages() == free_list_of(f@)
                    },
                    Err(StorageError::MissingPage(id)) => id == 0 && !f@.contains_key(0),
                    Err(StorageError::Page(e)) => f@.contains_key(0) && decode(f@[0]) == Err::<PageView, PageError>(e),
                    Err(e) => e == StorageError::NotHeader && f@.contains_key(0) && decode(f@[0]) is Ok && !(decode(
                        f@[0],
                    )->Ok_0 is Header),
                },
            },
    {
        broadcast use {group_hash_axioms, group_ints};

        match file {
            None => {
                let root_leaf = Page::Leaf(LeafPage { keys: Vec::new(), values: Vec::new(), next: 0 });
                let mut p = Pager {
                    file: PageFile::new(),
                    cache: HashMap::new(),
                    order: Vec::new(),
                    dirty: HashSet::new(),
                    num_pages: 2,
                    free_list: 0,
                    free: Ghost(Seq::empty()),
                };
                p.write_header();
                proof {
                    assert(root_leaf@->Leaf_keys =~= Seq::empty());
                    assert(root_leaf@->Leaf_values =~= Seq::empty());
                    assert(root_leaf@ == empty_leaf());
                    empty_leaf_fits();
                }
                match root_leaf.serialize() {
                    Err(e) => Err(StorageError::Page(e)),
                    Ok(data) => {
                        p.file.write(1, data);
                        proof {
                            deserialize_undoes_serialize(empty_leaf());
                            assert(p@ =~= Map::<u32, PageView>::empty().insert(1, empty_leaf()));
                        }
                        Ok(p)
                    },
                }
            },
            Some(f) => {
                let mut p = Pager {
                    file: f,
                    cache: HashMap::new(),
                    order: Vec::new(),
                    dirty: HashSet::new(),
                    num_pages: 0,
                    free_list: 0,
                    free: Ghost(Seq::empty()),
                };
                let data = match p.read_raw_page(0) {
                    Err(e) => {
                        return Err(e);
                    },
                    Ok(data) => data,
                };
                let header = match Self::parse_header(&data) {
                    Err(e) => {
                        return Err(e);
                    },
                    Ok(header) => header,
                };
                p.num_pages = header.num_pages;
                p.free_list = header.free_list;
                p.free = Ghost(free_list_of(f@));
                assert(sound(f@) ==> p@ =~= pages_of(f@));
                Ok(p)
            },
        }
    }

    /// Whether a file can be opened.
    pub fn check(file: &PageFile) -> (r: Result<(), StorageError>)
        ensures
            match r {
                Ok(_) => file@.contains_key(0) && decode(file@[0]) is Ok && decode(file@[0])->Ok_0 is Header,
                Err(StorageError::MissingPage(id)) => id == 0 && !file@.contains_key(0),
                Err(StorageError::Page(e)) => file@.contains_key(0) && decode(file@[0]) == Err::<PageView, PageError>(
                    e,
                ),
                Err(e) => e == StorageError::NotHeader && file@.contains_key(0) && decode(file@[0]) is Ok && !(decode(
                    file@[0],
                )->Ok_0 is Header),
            },
    {
        match file.read(0) {
            None => Err(StorageError::MissingPage(0)),
            Some(data) => match Self::parse_header(&data) {
                Err(e) => Err(e),
                Ok(_) => Ok(()),
            },
        }
    }

    /// Read the bytes of a page from the file.
    fn read_raw_page(&self, id: u32) -> (r: Result<[u8; PAGE_SIZE], StorageError>)
        ensures
            match r {
                Ok(data) => self.file@.contains_key(id) && data@ == self.file@[id],
                Err(e) => e == StorageError::MissingPage(id) && !self.file@.contains_key(id),
            },
    {
        match self.file.read(id) {
            Some(data) => Ok(data),
            None => Err(StorageError::MissingPage(id)),
        }
    }

    /// Read the bytes of page 0 as a header.
    fn parse_header(data: &[u8; PAGE_SIZE]) -> (r: Result<HeaderPage, StorageError>)
        ensures
            match r {
                Ok(h) => decode(data@) == Ok::<PageView, PageError>(h@),
                Err(StorageError::Page(e)) => decode(data@) == Err::<PageView, PageError>(e),
                Err(e) => e == StorageError::NotHeader && decode(data@) is Ok && !(decode(data@)->Ok_0 is Header),
            },
    {
        match Page::deserialize(data) {
            Err(e) => Err(StorageError::Page(e)),
            Ok(Page::Header(h)) => Ok(h),
            Ok(_) => Err(StorageError::NotHeader),
        }
    }

    /// Write the header to the file.
    fn write_header(&mut self)
        ensures
            final(self).cache@ == old(self).cache@,
            final(self).order@ == old(self).order@,
            final(self).dirty@ == old(self).dirty@,
            final(self).num_pages == old(self).num_pages,
            final(self).free_list == old(self).free_list,
            final(self).free@ == old(self).free@,
            final(self).file@ == old(self).file@.insert(
                0,
                image(header_view(old(self).num_pages, old(self).free_list)),
            ),
            decode(final(self).file@[0]) == Ok::<PageView, PageError>(
                header_view(old(self).num_pages, old(self).free_list),
            ),
    {
        broadcast use group_ints;

        let header = Page::Header(
            HeaderPage {
                magic: MAGIC,
                version: VERSION,
                num_pages: self.num_pages,
                free_list: self.free_list,
            },
        );
        assert(header@ == header_view(self.num_pages, self.free_list));
        assert(encoding(header@).len() == 16);
        proof {
            deserialize_undoes_serialize(header@);
        }
        match header.serialize() {
            Ok(data) => {
                self.file.write(0, data);
            },
            Err(_) => {
                assert(false);
            },
        }
    }

    /// The place of a page in the order of use.
    fn position(&self, id: u32) -> (r: Option<usize>)
        ensures
            match r {
                Some(i) => i < self.order@.len() && self.order@[i as int] == id,
                None => !self.order@.contains(id),
            },
    {
        let mut i: usize = 0;
        while i < self.order.len()
            invariant
                i <= self.order@.len(),
                forall|j: int| 0 <= j < i ==> self.order@[j] != id,
            decreases self.order@.len() - i,
        {
            if self.order[i] == id {
                return Some(i);
            }
            i += 1;
        }
        None
    }

    /// Evict the least recently used page from the cache, writing it to the file if it differs.
    fn evict_one(&mut self) -> (r: Result<(), StorageError>)
        ensures
            old(self).wf() ==> {
                &&& final(self).wf()
                &&& final(self)@ == old(self)@
                &&& final(self).num_pages == old(self).num_pages
                &&& final(self).free_list == old(self).free_list
                &&& final(self).free@ == old(self).free@
                &&& match r {
                    Ok(_) => {
                        &&& final(self).order@ == old(self).order@.skip(1) || old(self).order@.len() == 0
                        &&& final(self).order@.len() + 1 < MAX_CACHE
                        &&& forall|id: u32| #[trigger]
                            final(self).file@.contains_key(id) ==> old(self).file@.contains_key(id) || old(
                                self,
                            ).order@.contains(id)
                        &&& forall|id: u32| #[trigger]
                            final(self).order@.contains(id) ==> old(self).order@.contains(id)
                    },
                    Err(e) => e == StorageError::Page(PageError::Overflow) && !old(self).all_fit(),
                }
            },
    {
        broadcast use group_hash_axioms;

        if self.order.len() == 0 {
            return Ok(());
        }
        let id: u32 = self.order[0];
        proof {
            if self.wf() {
                assert(self.order@.contains(id));
                assert(self@.contains_key(id));
            }
        }
        if self.dirty.contains(&id) {
            match self.cache.get(&id) {
                Some(page) => {
                    match page.serialize() {
                        Ok(data) => {
                            proof {
                                if old(self).wf() {
                                    deserialize_undoes_serialize(page@);
                                }
                            }
                            self.file.write(id, data);
                        },
                        Err(e) => {
                            proof {
                                if old(self).wf() {
                                    assert(!fits(old(self)@[id]));
                                }
                            }
                            return Err(StorageError::Page(e));
                        },
                    }
                },
                None => {},
            }
            self.dirty.remove(&id);
        }
        self.cache.remove(&id);
        self.order.remove(0);
        proof {
            if old(self).wf() {
                removed(old(self).order@, 0);
                assert(self.order@ =~= old(self).order@.skip(1));
                assert(chained(self.file@, self.num_pages, self.free_list, self.free@)) by {
                    assert forall|i: int| 0 <= i < self.free@.len() implies self.free@[i] != id by {
                        assert(self.free@.contains(self.free@[i]));
                    }
                }
                assert(self@ =~= old(self)@);
            }
        }
        Ok(())
    }

    /// Bring a page into the cache and mark it as the most recently used one.
    fn touch(&mut self, id: u32) -> (r: Result<(), StorageError>)
        ensures
            old(self).wf() && old(self)@.contains_key(id) ==> {
                &&& final(self).wf()
                &&& final(self)@ == old(self)@
                &&& final(self).num_pages == old(self).num_pages
                &&& final(self).free_list == old(self).free_list
                &&& final(self).free@ == old(self).free@
                &&& match r {
                    Ok(_) => final(self).cache@.contains_key(id) && final(self).order@ == used(old(self).order@, id),
                    Err(e) => e == StorageError::Page(PageError::Overflow) && !old(self).all_fit(),
                }
            },
            old(self).wf() && old(self).absent(id) ==> kept_pages(*old(self), *final(self)) && match r {
                Ok(_) => false,
                Err(e) => e == StorageError::MissingPage(id) || (e == StorageError::Page(PageError::Overflow) && !old(
                    self,
                ).all_fit()),
            },
    {
        broadcast use group_hash_axioms;

        match self.position(id) {
            Some(pos) => {
                let ghost before = self.order@;
                self.order.remove(pos);
                self.order.push(id);
                proof {
                    if old(self).wf() {
                        assert(before.contains(id));
                        assert(before.index_of(id) == pos);
                        removed(before, pos as int);
                        pushed(before.remove(pos as int), id);
                        assert(self@ =~= old(self)@);
                    }
                }
                Ok(())
            },
            None => {
                if self.order.len() >= MAX_CACHE - 1 {
                    match self.evict_one() {
                        Err(e) => {
                            return Err(e);
                        },
                        Ok(_) => {},
                    }
                }
                let ghost mid = *self;
                proof {
                    if old(self).wf() && old(self)@.contains_key(id) {
                        assert(mid@.contains_key(id));
                        assert(!mid.order@.contains(id));
                        assert(!mid.cache@.contains_key(id));
                    }
                }
                let data = match self.read_raw_page(id) {
                    Err(e) => {
                        return Err(e);
                    },
                    Ok(data) => data,
                };
                let page = match Page::deserialize(&data) {
                    Err(e) => {
                        return Err(StorageError::Page(e));
                    },
                    Ok(page) => page,
                };
                self.cache.insert(id, page);
                self.order.push(id);
                proof {
                    if old(self).wf() && old(self)@.contains_key(id) {
                        decoded_is_whole(data@);
                        pushed(mid.order@, id);
                        assert(self@ =~= mid@);
                    }
                }
                Ok(())
            },
        }
    }

    /// The page with the given number.
    pub fn get_page(&mut self, id: u32) -> (r: Result<&Page, StorageError>)
        ensures
            old(self).wf() && old(self)@.contains_key(id) ==> {
                &&& final(self).wf()
                &&& final(self)@ == old(self)@
                &&& final(self).page_count() == old(self).page_count()
                &&& final(self).free_pages() == old(self).free_pages()
                &&& match r {
                    Ok(p) => p@ == old(self)@[id] && final(self).recent() == used(old(self).recent(), id),
                    Err(e) => e == StorageError::Page(PageError::Overflow) && !old(self).all_fit(),
                }
            },
            old(self).wf() && old(self).absent(id) ==> kept_pages(*old(self), *final(self)) && match r {
                Ok(_) => false,
                Err(e) => e == StorageError::MissingPage(id) || (e == StorageError::Page(PageError::Overflow) && !old(
                    self,
                ).all_fit()),
            },
    {
        broadcast use group_hash_axioms;

        match self.touch(id) {
            Err(e) => Err(e),
            Ok(_) => match self.cache.get(&id) {
                Some(page) => {
                    proof {
                        if old(self).wf() && old(self)@.contains_key(id) {
                            assert(self@[id] == page@);
                        }
                    }
                    Ok(page)
                },
                None => Err(StorageError::MissingPage(id)),
            },
        }
    }

    /// Mark a cached page as different from the file.
    fn mark_dirty(&mut self, id: u32)
        ensures
            final(self).file@ == old(self).file@,
            final(self).cache@ == old(self).cache@,
            final(self).order@ == old(self).order@,
            final(self).num_pages == old(self).num_pages,
            final(self).free_list == old(self).free_list,
            final(self).free@ == old(self).free@,
            final(self).dirty@ == old(self).dirty@.insert(id),
    {
        broadcast use group_hash_axioms;

        self.dirty.insert(id);
    }

    /// Replace the page with the given number.
    pub fn set_page(&mut self, id: u32, page: Page) -> (r: Result<(), StorageError>)
        ensures
            old(self).wf() && old(self)@.contains_key(id) && whole(page@) ==> {
                &&& final(self).wf()
                &&& final(self).page_count() == old(self).page_count()
                &&& final(self).free_pages() == old(self).free_pages()
                &&& match r {
                    Ok(_) => final(self)@ == old(self)@.insert(id, page@) && final(self).recent() == used(
                        old(self).recent(),
                        id,
                    ),
                    Err(e) => e == StorageError::Page(PageError::Overflow) && !old(self).all_fit() && final(self)@
                        == old(self)@,
                }
            },
            old(self).wf() && old(self).absent(id) ==> kept_pages(*old(self), *final(self)) && match r {
                Ok(_) => false,
                Err(e) => e == StorageError::MissingPage(id) || (e == StorageError::Page(PageError::Overflow) && !old(
                    self,
                ).all_fit()),
            },
    {
        broadcast use group_hash_axioms;

        match self.touch(id) {
            Err(e) => Err(e),
            Ok(_) => {
                let ghost mid = *self;
                self.mark_dirty(id);
                self.cache.insert(id, page);
                proof {
                    if old(self).wf() && old(self)@.contains_key(id) && whole(page@) {
                        assert(mid.cache@.contains_key(id));
                        assert(mid@.contains_key(id));
                        assert(self@ =~= old(self)@.insert(id, page@));
                    }
                }
                Ok(())
            },
        }
    }

    /// Keep the cached header in step, marked as different from the file.
    fn mark_header_dirty(&mut self)
        ensures
            final(self).file@ == old(self).file@,
            final(self).order@ == old(self).order@,
            final(self).num_pages == old(self).num_pages,
            final(self).free_list == old(self).free_list,
            final(self).free@ == old(self).free@,
            final(self).dirty@ == old(self).dirty@.insert(0),
            final(self).cache@.dom() == old(self).cache@.dom().insert(0),
            forall|id: u32| id != 0 ==> #[trigger] final(self).cache@[id] == old(self).cache@[id],
    {
        broadcast use group_hash_axioms;

        let header = HeaderPage {
            magic: MAGIC,
            version: VERSION,
            num_pages: self.num_pages,
            free_list: self.free_list,
        };
        self.mark_dirty(0);
        self.cache.insert(0, Page::Header(header));
    }

    /// Take a page number into use, a free one if there is any, and put the page there.
    pub fn new_page(&mut self, page: Page) -> (r: Result<u32, StorageError>)
        ensures
            old(self).wf() && whole(page@) ==> {
                &&& final(self).wf()
                &&& match r {
                    Ok(id) => {
                        &&& id > 0
                        &&& !old(self)@.contains_key(id)
                        &&& final(self)@ == old(self)@.insert(id, page@)
                        &&& fits(page@)
                        &&& final(self).recent() == used(old(self).recent(), id)
                        &&& if old(self).free_pages().len() > 0 {
                            &&& id == old(self).free_pages()[0]
                            &&& final(self).free_pages() == old(self).free_pages().skip(1)
                            &&& final(self).page_count() == old(self).page_count()
                        } else {
                            &&& id == old(self).page_count()
                            &&& final(self).free_pages() == old(self).free_pages()
                            &&& final(self).page_count() == old(self).page_count() + 1
                        }
                    },
                    Err(e) => {
                        &&& final(self)@ == old(self)@
                        &&& final(self).page_count() == old(self).page_count()
                        &&& final(self).free_pages() == old(self).free_pages()
                        &&& if e == StorageError::Full {
                            old(self).page_count() == u32::MAX && old(self).free_pages().len() == 0
                        } else {
                            e == StorageError::Page(PageError::Overflow) && (!fits(page@) || !old(self).all_fit())
                        }
                    },
                }
            },
    {
        broadcast use group_hash_axioms;

        let data = match page.serialize() {
            Err(e) => {
                return Err(StorageError::Page(e));
            },
            Ok(data) => data,
        };
        if self.order.len() >= MAX_CACHE - 1 {
            match self.evict_one() {
                Err(e) => {
                    return Err(e);
                },
                Ok(_) => {},
            }
        }
        let ghost mid = *self;
        let id: u32;
        if self.free_list != 0 {
            id = self.free_list;
            proof {
                if old(self).wf() {
                    assert(mid.free@[0] == id);
                }
            }
            let next_data = match self.read_raw_page(id) {
                Err(e) => {
                    return Err(e);
                },
                Ok(next_data) => next_data,
            };
            self.free_list = from_le32(&next_data[0..4]);
            self.free = Ghost(mid.free@.skip(1));
        } else {
            id = self.num_pages;
            if id == u32::MAX {
                return Err(StorageError::Full);
            }
            self.num_pages = id + 1;
        }
        self.file.write(id, data);
        self.cache.insert(id, page);
        self.order.push(id);
        self.mark_dirty(id);
        self.mark_header_dirty();
        proof {
            if old(self).wf() && whole(page@) {
                mid.placed(*self, id, page);
                if old(self).order@.contains(id) {
                    assert(old(self).cache@.contains_key(id));
                    assert(old(self)@.contains_key(id));
                }
            }
        }
        Ok(id)
    }

    proof fn placed(self, after: Self, id: u32, page: Page)
        requires
            self.wf(),
            self.order@.len() + 1 < MAX_CACHE,
            whole(page@),
            fits(page@),
            if self.free_list != 0 {
                &&& id == self.free_list
                &&& after.free_list == of_le32(self.file@[id].subrange(0, 4))
                &&& after.free@ == self.free@.skip(1)
                &&& after.num_pages == self.num_pages
            } else {
                &&& id == self.num_pages
                &&& id < u32::MAX
                &&& after.free_list == self.free_list
                &&& after.free@ == self.free@
                &&& after.num_pages == self.num_pages + 1
            },
            after.file@ == self.file@.insert(id, image(page@)),
            after.cache@.dom() == self.cache@.dom().insert(id).insert(0),
            forall|k: u32| k != 0 ==> #[trigger] after.cache@[k] == self.cache@.insert(id, page)[k],
            after.order@ == self.order@.push(id),
            after.dirty@ == self.dirty@.insert(id).insert(0),
        ensures
            after.wf(),
            id > 0,
            !self@.contains_key(id),
            after@ == self@.insert(id, page@),
            self.free_list != 0 ==> self.free@.len() > 0 && self.free@[0] == id,
            self.free_list == 0 ==> self.free@.len() == 0,
    {
        let free = self.free@;
        let free2 = after.free@;
        if self.free_list != 0 {
            assert(free[0] == id);
            assert(free.contains(free[0]));
            assert forall|k: u32| #![trigger free2.contains(k)] free2.contains(k) <==> free.contains(k) && k != id by {
                if free.contains(k) && k != id {
                    let i = choose|i: int| 0 <= i < free.len() && free[i] == k;
                    assert(free2[i - 1] == k);
                }
                if free2.contains(k) {
                    let i = choose|i: int| 0 <= i < free2.len() && free2[i] == k;
                    assert(free[i + 1] == k);
                }
            }
            assert(chained(after.file@, after.num_pages, after.free_list, free2)) by {
                assert forall|i: int| 0 <= i < free2.len() implies 1 <= #[trigger] free2[i] < after.num_pages
                    && after.file@.contains_key(free2[i]) && after.file@[free2[i]].len() == PAGE_SIZE && of_le32(
                    after.file@[free2[i]].subrange(0, 4),
                ) == link(free2, i + 1) by {
                    assert(free2[i] == free[i + 1]);
                    assert(free[i + 1] != free[0]);
                    assert(link(free2, i + 1) == link(free, i + 2));
                }
                assert(link(free2, 0) == link(free, 1));
            }
        } else {
            if free.len() > 0 {
                assert(free[0] >= 1);
            }
            assert(free =~= Seq::empty());
        }
        assert(!self.cache@.contains_key(id));
        assert forall|k: u32| #![trigger allocated(after.num_pages, free2, k)]
            allocated(after.num_pages, free2, k) <==> allocated(self.num_pages, free, k) || k == id by {}
        assert(!self.order@.contains(id));
        pushed(self.order@, id);
        assert(after@ =~= self@.insert(id, page@)) by {
            assert forall|k: u32| after@.contains_key(k) <==> self@.insert(id, page@).contains_key(k) by {
                assert(allocated(after.num_pages, free2, k) <==> allocated(self.num_pages, free, k) || k == id);
            }
        }
    }

    /// Put a page number on the free list.
    pub fn free_page(&mut self, id: u32)
        ensures
            old(self).wf() && old(self)@.contains_key(id) ==> {
                &&& final(self).wf()
                &&& final(self)@ == old(self)@.remove(id)
                &&& final(self).page_count() == old(self).page_count()
                &&& final(self).free_pages() == seq![id] + old(self).free_pages()
                &&& final(self).recent() == if old(self).recent().contains(id) {
                    old(self).recent().remove(old(self).recent().index_of(id))
                } else {
                    old(self).recent()
                }
            },
    {
        broadcast use {group_hash_axioms, group_ints};

        self.cache.remove(&id);
        self.dirty.remove(&id);
        let ghost before = self.order@;
        let pos = self.position(id);
        match pos {
            Some(pos) => {
                self.order.remove(pos);
            },
            None => {},
        }
        let next = to_le32(self.free_list);
        let mut data = [0u8;PAGE_SIZE];
        data[0] = next[0];
        data[1] = next[1];
        data[2] = next[2];
        data[3] = next[3];
        assert(data@.subrange(0, 4) =~= le32(self.free_list));
        self.file.write(id, data);
        self.free_list = id;
        self.free = Ghost(seq![id] + self.free@);
        let ghost mid = *self;
        self.mark_header_dirty();
        proof {
            let was = *old(self);
            if was.wf() && was@.contains_key(id) {
                let free = was.free@;
                let free2 = self.free@;
                assert forall|k: u32| #![trigger free2.contains(k)] free2.contains(k) <==> free.contains(k) || k == id by {
                    if free.contains(k) {
                        let i = choose|i: int| 0 <= i < free.len() && free[i] == k;
                        assert(free2[i + 1] == k);
                    }
                    if k == id {
                        assert(free2[0] == k);
                    }
                }
                assert(chained(self.file@, self.num_pages, self.free_list, free2)) by {
                    assert forall|i: int| 0 <= i < free2.len() implies 1 <= #[trigger] free2[i] < self.num_pages
                        && self.file@.contains_key(free2[i]) && self.file@[free2[i]].len() == PAGE_SIZE && of_le32(
                        self.file@[free2[i]].subrange(0, 4),
                    ) == link(free2, i + 1) by {
                        if i > 0 {
                            assert(free2[i] == free[i - 1]);
                            assert(free.contains(free[i - 1]));
                            assert(link(free2, i + 1) == link(free, i));
                        } else {
                            assert(link(free2, 1) == link(free, 0));
                        }
                    }
                    assert(free2.no_duplicates()) by {
                        assert forall|i: int| 0 <= i < free.len() implies free[i] != id by {
                            assert(free.contains(free[i]));
                        }
                    }
                }
                match pos {
                    Some(p) => {
                        removed(before, p as int);
                    },
                    None => {},
                }
                assert forall|k: u32| #[trigger] self.cache@.contains_key(k) && k != 0 implies allocated(
                    self.num_pages,
                    free2,
                    k,
                ) && whole(self.cache@[k]@) by {
                    assert(was.cache@.contains_key(k));
                }
                assert(self@ =~= was@.remove(id)) by {
                    assert forall|k: u32| self@.contains_key(k) <==> was@.remove(id).contains_key(k) by {
                        assert(free2.contains(k) <==> free.contains(k) || k == id);
                    }
                }
            }
        }
    }

    /// Write every page that differs, and the header, to the file.
    pub fn flush(&mut self) -> (r: Result<(), StorageError>)
        ensures
            old(self).wf() ==> {
                &&& final(self).wf()
                &&& final(self)@ == old(self)@
                &&& final(self).page_count() == old(self).page_count()
                &&& final(self).free_pages() == old(self).free_pages()
                &&& final(self).recent() == old(self).recent()
                &&& match r {
                    Ok(_) => final(self).saved(),
                    Err(e) => e == StorageError::Page(PageError::Overflow) && !old(self).all_fit(),
                }
            },
    {
        broadcast use group_hash_axioms;

        let ghost was = *self;
        let mut i: usize = 0;
        while i < self.order.len()
            invariant
                i <= self.order@.len(),
                was == *old(self),
                was.wf() ==> {
                    &&& self.wf()
                    &&& self.order@ == was.order@
                    &&& self@ == was@
                    &&& self.num_pages == was.num_pages
                    &&& self.free@ == was.free@
                    &&& forall|j: int|
                        0 <= j < i ==> self.file@.contains_key(#[trigger] self.order@[j]) && decode(
                            self.file@[self.order@[j]],
                        ) == Ok::<PageView, PageError>(self.cache@[self.order@[j]]@)
                },
            decreases self.order@.len() - i,
        {
            let id: u32 = self.order[i];
            let ghost mid = *self;
            proof {
                if was.wf() {
                    assert(self.order@.contains(id));
                }
            }
            if self.dirty.contains(&id) {
                match self.cache.get(&id) {
                    Some(page) => match page.serialize() {
                        Ok(data) => {
                            proof {
                                if was.wf() {
                                    deserialize_undoes_serialize(page@);
                                }
                            }
                            self.file.write(id, data);
                            proof {
                                if was.wf() {
                                    assert(chained(self.file@, self.num_pages, self.free_list, self.free@)) by {
                                        assert forall|j: int| 0 <= j < self.free@.len() implies self.free@[j] != id by {
                                            assert(self.free@.contains(self.free@[j]));
                                        }
                                    }
                                    assert(self@ =~= mid@);
                                }
                            }
                        },
                        Err(e) => {
                            proof {
                                if was.wf() {
                                    assert(was@.contains_key(id));
                                    assert(!fits(was@[id]));
                                }
                            }
                            return Err(StorageError::Page(e));
                        },
                    },
                    None => {},
                }
            }
            i += 1;
        }
        let ghost mid = *self;
        self.dirty.clear();
        self.write_header();
        proof {
            if was.wf() {
                assert forall|k: u32| #[trigger] self.cache@.contains_key(k) && !self.dirty@.contains(k) && k
                    != 0 implies self.file@.contains_key(k) && decode(self.file@[k]) == Ok::<PageView, PageError>(
                    self.cache@[k]@,
                ) by {
                    assert(mid.cache@.contains_key(k));
                    let j = choose|j: int| 0 <= j < mid.order@.len() && mid.order@[j] == k;
                    assert(mid.order@[j] == k);
                }
                assert(chained(self.file@, self.num_pages, self.free_list, self.free@));
                assert(self.dirty@ =~= Set::empty());
                assert(self@ =~= mid@);
            }
        }
        Ok(())
    }

    /// The number of pages, those on the free list and the header included.
    pub fn num_pages(&self) -> (r: u32)
        ensures
            r == self.page_count(),
    {
        self.num_pages
    }

    /// The head of the free list, 0 if no page is free.
    pub fn free_list(&self) -> (r: u32)
        ensures
            self.wf() ==> r == link(self.free_pages(), 0),
    {
        self.free_list
    }

    /// The number of pages in the cache.
    pub fn cached(&self) -> (r: usize)
        ensures
            r == self.cache_len(),
    {
        broadcast use group_hash_axioms;

        self.cache.len()
    }

    /// Gives up the pager for its file.
    pub fn into_file(self) -> (r: PageFile)
        ensures
            r@ == self.on_file(),
    {
        self.file
    }
}

proof fn pushed(s: Seq<u32>, x: u32)
    ensures
        forall|k: u32| #[trigger] s.push(x).contains(k) <==> s.contains(k) || k == x,
        s.no_duplicates() && !s.contains(x) ==> s.push(x).no_duplicates(),
{
    let t = s.push(x);
    assert forall|k: u32| #[trigger] t.contains(k) <==> s.contains(k) || k == x by {
        if s.contains(k) {
            let i = choose|i: int| 0 <= i < s.len() && s[i] == k;
            assert(t[i] == k);
        }
        if k == x {
            assert(t[s.len() as int] == k);
        }
    }
}

proof fn removed(s: Seq<u32>, pos: int)
    requires
        0 <= pos < s.len(),
        s.no_duplicates(),
    ensures
        forall|k: u32| #[trigger] s.remove(pos).contains(k) <==> s.contains(k) && k != s[pos],
        s.remove(pos).no_duplicates(),
        s.contains(s[pos]),
{
    let t = s.remove(pos);
    assert forall|k: u32| #[trigger] t.contains(k) <==> s.contains(k) && k != s[pos] by {
        if s.contains(k) && k != s[pos] {
            let i = choose|i: int| 0 <= i < s.len() && s[i] == k;
            if i < pos {
                assert(t[i] == k);
            } else {
                assert(t[i - 1] == k);
            }
        }
        if t.contains(k) {
            let i = choose|i: int| 0 <= i < t.len() && t[i] == k;
            if i < pos {
                assert(s[i] == k);
            } else {
                assert(s[i + 1] == k);
            }
        }
    }
}

/// The page of a new tree.
pub open spec fn empty_leaf() -> PageView {
    PageView::Leaf { keys: Seq::empty(), values: Seq::empty(), next: 0 }
}

/// The page of a new tree can be written.
pub proof fn empty_leaf_fits()
    ensures
        fits(empty_leaf()),
        whole(empty_leaf()),
{
    broadcast use group_ints;

}

} // verus!
