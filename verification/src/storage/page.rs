//! The page codec: header, internal and leaf pages as blocks of 4096 bytes.
use vstd::prelude::*;

use crate::bytes::{copy, strings};
use crate::ints::{
    from_le16, from_le32, group_ints, le16, le32, le32_first, le32_onto, of_le16, of_le32, to_le16,
    to_le32,
};

verus! {

/// The size of a page in bytes.
pub const PAGE_SIZE: usize = 4096;

/// The first four bytes of a database file, "SAKU".
pub const MAGIC: u32 = 0x53414B55;

/// The version of the page format.
pub const VERSION: u32 = 1;

/// Header page.
///
/// ```text
/// [0, 4]   - magic number (0x53414B55 for "SAKU")
/// [4, 8]   - version number (currently 1)
/// [8, 12]  - total number of pages in the file
/// [12, 16] - page number of the head of the free list (0 if no free pages)
/// ```
///
/// The rest of the page is reserved and zero.
#[derive(Debug)]
pub struct HeaderPage {
    /// The magic number.
    pub magic: u32,
    /// The version number of the page format.
    pub version: u32,
    /// The total number of pages in the file, including the header page.
    pub num_pages: u32,
    /// The head of the free list, or 0 if there are no free pages.
    pub free_list: u32,
}

/// Internal page.
///
/// ```text
/// [0]      - page type byte (0x01)
/// [1, 3]   - number of keys (u16)
/// [3, ...] - each key as a length (u32) followed by its bytes,
///            then each child as a page number (u32)
/// ```
#[derive(Debug)]
pub struct InternalPage {
    /// The separators: key `i` is the least key that child `i + 1` may hold.
    pub keys: Vec<Vec<u8>>,
    /// The page numbers of the children, one more than there are keys.
    pub children: Vec<u32>,
}

/// Leaf page.
///
/// ```text
/// [0]      - page type byte (0x02)
/// [1, 3]   - number of keys (u16)
/// [3, 7]   - page number of the next leaf (u32, 0 if this is the last leaf)
/// [7, ...] - each pair as key length (u32), key, value length (u32), value
/// ```
#[derive(Debug)]
pub struct LeafPage {
    /// The keys.
    pub keys: Vec<Vec<u8>>,
    /// The value of each key.
    pub values: Vec<Vec<u8>>,
    /// The next leaf, or 0.
    pub next: u32,
}

/// A page of a database file.
#[derive(Debug)]
pub enum Page {
    /// The header page.
    Header(HeaderPage),
    /// An internal node of a B+ tree.
    Internal(InternalPage),
    /// A leaf of a B+ tree.
    Leaf(LeafPage),
}

/// Why a page could not be written as bytes or read from them.
#[derive(Clone, Copy, PartialEq, Eq, Structural, Debug)]
pub enum PageError {
    /// The content takes more than a page.
    Overflow,
    /// A leaf has a key without a value.
    MissingValue,
    /// The bytes end before the content does.
    Truncated,
    /// The first byte is that of no page type.
    UnknownType(u8),
    /// A header with another magic number.
    BadMagic(u32),
}

/// What a page says, free of its representation.
pub ghost enum PageView {
    Header { magic: u32, version: u32, num_pages: u32, free_list: u32 },
    Internal { keys: Seq<Seq<u8>>, children: Seq<u32> },
    Leaf { keys: Seq<Seq<u8>>, values: Seq<Seq<u8>>, next: u32 },
}

impl View for HeaderPage {
    type V = PageView;

    open spec fn view(&self) -> PageView {
        PageView::Header {
            magic: self.magic,
            version: self.version,
            num_pages: self.num_pages,
            free_list: self.free_list,
        }
    }
}

impl View for InternalPage {
    type V = PageView;

    open spec fn view(&self) -> PageView {
        PageView::Internal { keys: strings(self.keys@), children: self.children@ }
    }
}

impl View for LeafPage {
    type V = PageView;

    open spec fn view(&self) -> PageView {
        PageView::Leaf {
            keys: strings(self.keys@),
            values: strings(self.values@),
            next: self.next,
        }
    }
}

impl View for Page {
    type V = PageView;

    open spec fn view(&self) -> PageView {
        match *self {
            Page::Header(p) => p@,
            Page::Internal(p) => p@,
            Page::Leaf(p) => p@,
        }
    }
}

/// A byte string with its length in front.
pub open spec fn block(s: Seq<u8>) -> Seq<u8> {
    le32(s.len() as u32) + s
}

/// Byte strings one after the other, each with its length in front.
pub open spec fn blocks(s: Seq<Seq<u8>>) -> Seq<u8>
    decreases s.len(),
{
    if s.len() == 0 {
        Seq::empty()
    } else {
        blocks(s.drop_last()) + block(s.last())
    }
}

/// Page numbers one after the other.
pub open spec fn words(s: Seq<u32>) -> Seq<u8>
    decreases s.len(),
{
    if s.len() == 0 {
        Seq::empty()
    } else {
        words(s.drop_last()) + le32(s.last())
    }
}

/// The first `n` keys and values in turn, each with its length in front.
pub open spec fn pairs(keys: Seq<Seq<u8>>, values: Seq<Seq<u8>>, n: nat) -> Seq<u8>
    decreases n,
{
    if n == 0 {
        Seq::empty()
    } else {
        pairs(keys, values, (n - 1) as nat) + block(keys[n - 1]) + block(values[n - 1])
    }
}

/// The bytes of a page, without the zeros that fill it up.
pub open spec fn encoding(p: PageView) -> Seq<u8> {
    match p {
        PageView::Header { magic, version, num_pages, free_list } => {
            le32(magic) + le32(version) + le32(num_pages)
                + le32(free_list)
        },
        PageView::Internal { keys, children } => {
            seq![1u8] + le16(keys.len() as u16) + blocks(keys) + words(children)
        },
        PageView::Leaf { keys, values, next } => {
            seq![2u8] + le16(keys.len() as u16) + le32(next) + pairs(
                keys,
                values,
                keys.len(),
            )
        },
    }
}

/// A leaf has a value for every key.
pub open spec fn paired(p: PageView) -> bool {
    p matches PageView::Leaf { keys, values, .. } ==> keys.len() <= values.len()
}

/// The page can be written.
pub open spec fn fits(p: PageView) -> bool {
    paired(p) && encoding(p).len() <= PAGE_SIZE
}

/// `s` followed by zeros up to the size of a page.
pub open spec fn padded(s: Seq<u8>) -> Seq<u8> {
    s + Seq::new((PAGE_SIZE - s.len()) as nat, |i: int| 0u8)
}

/// The page as it stands in a file.
pub open spec fn image(p: PageView) -> Seq<u8> {
    padded(encoding(p))
}

/// The block that starts at `at`, and where it ends.
pub open spec fn block_at(data: Seq<u8>, at: int) -> Option<(Seq<u8>, int)> {
    if at + 4 > data.len() {
        None
    } else {
        let n = of_le32(data.subrange(at, at + 4));
        if at + 4 + n > data.len() {
            None
        } else {
            Some((data.subrange(at + 4, at + 4 + n), at + 4 + n))
        }
    }
}

/// The `n` blocks that start at `at`, and where they end.
pub open spec fn blocks_at(data: Seq<u8>, at: int, n: nat) -> Option<(Seq<Seq<u8>>, int)>
    decreases n,
{
    if n == 0 {
        Some((Seq::empty(), at))
    } else {
        match blocks_at(data, at, (n - 1) as nat) {
            None => None,
            Some((s, mid)) => match block_at(data, mid) {
                None => None,
                Some((b, end)) => Some((s.push(b), end)),
            },
        }
    }
}

/// The `n` page numbers that start at `at`.
pub open spec fn words_at(data: Seq<u8>, at: int, n: nat) -> Option<Seq<u32>> {
    if at + 4 * n > data.len() {
        None
    } else {
        Some(Seq::new(n, |i: int| of_le32(data.subrange(at + 4 * i, at + 4 * i + 4))))
    }
}

/// The `n` pairs that start at `at`, and where they end.
pub open spec fn pairs_at(data: Seq<u8>, at: int, n: nat) -> Option<(Seq<Seq<u8>>, Seq<Seq<u8>>, int)>
    decreases n,
{
    if n == 0 {
        Some((Seq::empty(), Seq::empty(), at))
    } else {
        match pairs_at(data, at, (n - 1) as nat) {
            None => None,
            Some((keys, values, mid)) => match block_at(data, mid) {
                None => None,
                Some((key, mid2)) => match block_at(data, mid2) {
                    None => None,
                    Some((value, end)) => Some((keys.push(key), values.push(value), end)),
                },
            },
        }
    }
}

/// What a block of bytes says as a header.
pub open spec fn decode_header(data: Seq<u8>) -> Result<PageView, PageError> {
    let magic = of_le32(data.subrange(0, 4));
    if magic != MAGIC {
        Err(PageError::BadMagic(magic))
    } else {
        Ok(
            PageView::Header {
                magic,
                version: of_le32(data.subrange(4, 8)),
                num_pages: of_le32(data.subrange(8, 12)),
                free_list: of_le32(data.subrange(12, 16)),
            },
        )
    }
}

/// What a block of bytes says as an internal page.
pub open spec fn decode_internal(data: Seq<u8>) -> Result<PageView, PageError> {
    let n = of_le16(data.subrange(1, 3)) as nat;
    match blocks_at(data, 3, n) {
        None => Err(PageError::Truncated),
        Some((keys, end)) => match words_at(data, end, n + 1) {
            None => Err(PageError::Truncated),
            Some(children) => Ok(PageView::Internal { keys, children }),
        },
    }
}

/// What a block of bytes says as a leaf.
pub open spec fn decode_leaf(data: Seq<u8>) -> Result<PageView, PageError> {
    let n = of_le16(data.subrange(1, 3)) as nat;
    match pairs_at(data, 7, n) {
        None => Err(PageError::Truncated),
        Some((keys, values, _)) => Ok(
            PageView::Leaf { keys, values, next: of_le32(data.subrange(3, 7)) },
        ),
    }
}

/// What a block of bytes says as a page.
pub open spec fn decode(data: Seq<u8>) -> Result<PageView, PageError> {
    if data.subrange(0, 4) == le32(MAGIC) {
        decode_header(data)
    } else if data[0] == 1 {
        decode_internal(data)
    } else if data[0] == 2 {
        decode_leaf(data)
    } else {
        Err(PageError::UnknownType(data[0]))
    }
}

proof fn blocks_extend(s: Seq<Seq<u8>>, i: int)
    requires
        0 <= i < s.len(),
    ensures
        blocks(s.take(i + 1)) == blocks(s.take(i)) + block(s[i]),
{
    assert(s.take(i + 1).drop_last() =~= s.take(i));
}

proof fn blocks_longer(s: Seq<Seq<u8>>, i: int)
    requires
        0 <= i <= s.len(),
    ensures
        blocks(s.take(i)).len() <= blocks(s).len(),
    decreases s.len() - i,
{
    if i == s.len() {
        assert(s.take(i) =~= s);
    } else {
        blocks_extend(s, i);
        blocks_longer(s, i + 1);
    }
}

proof fn words_length(s: Seq<u32>)
    ensures
        words(s).len() == 4 * s.len(),
    decreases s.len(),
{
    broadcast use group_ints;

    if s.len() > 0 {
        words_length(s.drop_last());
    }
}

proof fn pairs_longer(keys: Seq<Seq<u8>>, values: Seq<Seq<u8>>, i: nat, n: nat)
    requires
        i <= n,
    ensures
        pairs(keys, values, i).len() <= pairs(keys, values, n).len(),
    decreases n,
{
    if i < n {
        pairs_longer(keys, values, i, (n - 1) as nat);
    }
}

/// Appends a byte string with its length in front, unless the page would overflow.
fn push_block(out: &mut Vec<u8>, s: &Vec<u8>) -> (r: Result<(), PageError>)
    requires
        old(out)@.len() <= PAGE_SIZE,
    ensures
        match r {
            Ok(_) => final(out)@ == old(out)@ + block(s@) && final(out)@.len() <= PAGE_SIZE,
            Err(e) => e == PageError::Overflow && old(out)@.len() + block(s@).len() > PAGE_SIZE,
        },
{
    broadcast use group_ints;

    if 4 > PAGE_SIZE - out.len() {
        return Err(PageError::Overflow);
    }
    if s.len() > PAGE_SIZE - out.len() - 4 {
        return Err(PageError::Overflow);
    }
    let len = to_le32(s.len() as u32);
    out.extend_from_slice(len.as_slice());
    out.extend_from_slice(s.as_slice());
    assert(out@ =~= old(out)@ + block(s@));
    Ok(())
}

/// Fills up with zeros to the size of a page.
fn fill(out: &Vec<u8>) -> (data: [u8; PAGE_SIZE])
    requires
        out@.len() <= PAGE_SIZE,
    ensures
        data@ == padded(out@),
{
    let mut data = [0u8;PAGE_SIZE];
    let mut i: usize = 0;
    while i < out.len()
        invariant
            i <= out@.len() <= PAGE_SIZE,
            data@.len() == PAGE_SIZE,
            forall|j: int| 0 <= j < i ==> data@[j] == out@[j],
            forall|j: int| i <= j < PAGE_SIZE ==> data@[j] == 0,
        decreases out@.len() - i,
    {
        data[i] = out[i];
        i += 1;
    }
    assert(data@ =~= padded(out@));
    data
}

/// Serialize a header page.
fn serialize_header(header: &HeaderPage) -> (r: Result<[u8; PAGE_SIZE], PageError>)
    ensures
        r matches Ok(data) && data@ == image(header@),
{
    broadcast use group_ints;

    let mut out: Vec<u8> = to_le32(header.magic);
    let version = to_le32(header.version);
    let num_pages = to_le32(header.num_pages);
    let free_list = to_le32(header.free_list);
    out.extend_from_slice(version.as_slice());
    out.extend_from_slice(num_pages.as_slice());
    out.extend_from_slice(free_list.as_slice());
    assert(out@ =~= encoding(header@));
    Ok(fill(&out))
}

/// Serialize an internal page.
fn serialize_internal(page: &InternalPage) -> (r: Result<[u8; PAGE_SIZE], PageError>)
    ensures
        match r {
            Ok(data) => fits(page@) && data@ == image(page@),
            Err(e) => !fits(page@) && e == PageError::Overflow,
        },
{
    broadcast use group_ints;

    let ghost keys = strings(page.keys@);
    let mut out: Vec<u8> = Vec::new();
    out.push(1);
    let n = to_le16(#[verifier::truncate] (page.keys.len() as u16));
    out.extend_from_slice(n.as_slice());
    let ghost head = out@;
    assert(head =~= seq![1u8] + le16(keys.len() as u16));
    assert(keys.take(0) =~= Seq::empty());
    assert(head + blocks(keys.take(0)) =~= head);
    let mut i: usize = 0;
    while i < page.keys.len()
        invariant
            i <= page.keys@.len(),
            keys == strings(page.keys@),
            head.len() == 3,
            head == seq![1u8] + le16(keys.len() as u16),
            out@ == head + blocks(keys.take(i as int)),
            out@.len() <= PAGE_SIZE,
        decreases page.keys@.len() - i,
    {
        proof {
            blocks_extend(keys, i as int);
            blocks_longer(keys, i + 1);
        }
        match push_block(&mut out, &page.keys[i]) {
            Ok(_) => {},
            Err(e) => {
                return Err(e);
            },
        }
        assert(out@ =~= head + blocks(keys.take(i + 1)));
        i += 1;
    }
    assert(keys.take(i as int) =~= keys);
    let ghost body = out@;
    assert(page.children@.take(0) =~= Seq::empty());
    assert(body + words(page.children@.take(0)) =~= body);
    let mut c: usize = 0;
    while c < page.children.len()
        invariant
            c <= page.children@.len(),
            keys == strings(page.keys@),
            head == seq![1u8] + le16(keys.len() as u16),
            body == head + blocks(keys),
            out@ == body + words(page.children@.take(c as int)),
            out@.len() <= PAGE_SIZE,
        decreases page.children@.len() - c,
    {
        let ghost cs = page.children@;
        proof {
            assert(cs.take(c + 1).drop_last() =~= cs.take(c as int));
            words_length(cs);
            words_length(cs.take(c as int));
            words_length(cs.take(c + 1));
        }
        if 4 > PAGE_SIZE - out.len() {
            return Err(PageError::Overflow);
        }
        let w = to_le32(page.children[c]);
        assert(w@.len() == 4);
        out.extend_from_slice(w.as_slice());
        assert(out@ =~= body + words(cs.take(c + 1)));
        c += 1;
    }
    assert(page.children@.take(c as int) =~= page.children@);
    Ok(fill(&out))
}

/// Serialize a leaf page.
fn serialize_leaf(page: &LeafPage) -> (r: Result<[u8; PAGE_SIZE], PageError>)
    ensures
        match r {
            Ok(data) => fits(page@) && data@ == image(page@),
            Err(PageError::Overflow) => paired(page@) && !fits(page@),
            Err(e) => e == PageError::MissingValue && !paired(page@),
        },
{
    broadcast use group_ints;

    if page.values.len() < page.keys.len() {
        return Err(PageError::MissingValue);
    }
    let ghost keys = strings(page.keys@);
    let ghost values = strings(page.values@);
    let mut out: Vec<u8> = Vec::new();
    out.push(2);
    let n = to_le16(#[verifier::truncate] (page.keys.len() as u16));
    out.extend_from_slice(n.as_slice());
    let next = to_le32(page.next);
    out.extend_from_slice(next.as_slice());
    let ghost head = out@;
    assert(head =~= seq![2u8] + le16(keys.len() as u16) + le32(page.next));
    assert(head + pairs(keys, values, 0) =~= head);
    let mut i: usize = 0;
    while i < page.keys.len()
        invariant
            i <= page.keys@.len() <= page.values@.len(),
            keys == strings(page.keys@),
            values == strings(page.values@),
            head.len() == 7,
            head == seq![2u8] + le16(keys.len() as u16) + le32(page.next),
            out@ == head + pairs(keys, values, i as nat),
            out@.len() <= PAGE_SIZE,
        decreases page.keys@.len() - i,
    {
        proof {
            pairs_longer(keys, values, (i + 1) as nat, keys.len());
        }
        match push_block(&mut out, &page.keys[i]) {
            Ok(_) => {},
            Err(e) => {
                return Err(e);
            },
        }
        match push_block(&mut out, &page.values[i]) {
            Ok(_) => {},
            Err(e) => {
                return Err(e);
            },
        }
        assert(out@ =~= head + pairs(keys, values, (i + 1) as nat));
        i += 1;
    }
    Ok(fill(&out))
}

proof fn blocks_at_missing(data: Seq<u8>, at: int, i: nat, n: nat)
    requires
        i <= n,
        blocks_at(data, at, i) is None,
    ensures
        blocks_at(data, at, n) is None,
    decreases n,
{
    if i < n {
        blocks_at_missing(data, at, i, (n - 1) as nat);
    }
}

proof fn pairs_at_missing(data: Seq<u8>, at: int, i: nat, n: nat)
    requires
        i <= n,
        pairs_at(data, at, i) is None,
    ensures
        pairs_at(data, at, n) is None,
    decreases n,
{
    if i < n {
        pairs_at_missing(data, at, i, (n - 1) as nat);
    }
}

/// The block that starts at `at`, and where it ends.
fn read_block(data: &[u8; PAGE_SIZE], at: usize) -> (r: Option<(Vec<u8>, usize)>)
    requires
        at <= PAGE_SIZE,
    ensures
        match r {
            Some((s, end)) => block_at(data@, at as int) == Some((s@, end as int)) && end <= PAGE_SIZE,
            None => block_at(data@, at as int) is None,
        },
{
    if 4 > PAGE_SIZE - at {
        return None;
    }
    let n: usize = from_le32(&data[at..at + 4]) as usize;
    if n > PAGE_SIZE - at - 4 {
        return None;
    }
    Some((copy(&data[at + 4..at + 4 + n]), at + 4 + n))
}

/// Deserialize a header page.
fn deserialize_header(data: &[u8; PAGE_SIZE]) -> (r: Result<HeaderPage, PageError>)
    ensures
        match r {
            Ok(p) => decode_header(data@) == Ok::<PageView, PageError>(p@),
            Err(e) => decode_header(data@) == Err::<PageView, PageError>(e),
        },
{
    let magic: u32 = from_le32(&data[0..4]);
    if magic != MAGIC {
        return Err(PageError::BadMagic(magic));
    }
    Ok(
        HeaderPage {
            magic,
            version: from_le32(&data[4..8]),
            num_pages: from_le32(&data[8..12]),
            free_list: from_le32(&data[12..16]),
        },
    )
}

/// Deserialize an internal page.
fn deserialize_internal(data: &[u8; PAGE_SIZE]) -> (r: Result<InternalPage, PageError>)
    ensures
        match r {
            Ok(p) => decode_internal(data@) == Ok::<PageView, PageError>(p@),
            Err(e) => decode_internal(data@) == Err::<PageView, PageError>(e),
        },
{
    let n: usize = from_le16(&data[1..3]) as usize;
    let mut keys: Vec<Vec<u8>> = Vec::new();
    let mut at: usize = 3;
    let mut i: usize = 0;
    assert(strings(keys@) =~= Seq::<Seq<u8>>::empty());
    while i < n
        invariant
            i <= n,
            n == of_le16(data@.subrange(1, 3)),
            at <= PAGE_SIZE,
            blocks_at(data@, 3, i as nat) == Some((strings(keys@), at as int)),
        decreases n - i,
    {
        match read_block(data, at) {
            None => {
                proof {
                    assert(blocks_at(data@, 3, (i + 1) as nat) is None);
                    blocks_at_missing(data@, 3, (i + 1) as nat, n as nat);
                }
                return Err(PageError::Truncated);
            },
            Some((key, end)) => {
                let ghost before = strings(keys@);
                keys.push(key);
                assert(strings(keys@) =~= before.push(key@));
                at = end;
            },
        }
        i += 1;
    }
    let ghost start = at as int;
    let mut children: Vec<u32> = Vec::new();
    let mut c: usize = 0;
    while c <= n
        invariant
            c <= n + 1,
            n <= u16::MAX,
            n == of_le16(data@.subrange(1, 3)),
            blocks_at(data@, 3, n as nat) == Some((strings(keys@), start)),
            0 <= start,
            at == start + 4 * c,
            at <= PAGE_SIZE,
            children@.len() == c,
            forall|j: int|
                0 <= j < c ==> children@[j] == of_le32(
                    data@.subrange(start + 4 * j, start + 4 * j + 4),
                ),
        decreases n + 1 - c,
    {
        if 4 > PAGE_SIZE - at {
            return Err(PageError::Truncated);
        }
        children.push(from_le32(&data[at..at + 4]));
        at += 4;
        c += 1;
    }
    assert(children@ =~= words_at(data@, start, (n + 1) as nat)->Some_0);
    Ok(InternalPage { keys, children })
}

/// Deserialize a leaf page.
fn deserialize_leaf(data: &[u8; PAGE_SIZE]) -> (r: Result<LeafPage, PageError>)
    ensures
        match r {
            Ok(p) => decode_leaf(data@) == Ok::<PageView, PageError>(p@),
            Err(e) => decode_leaf(data@) == Err::<PageView, PageError>(e),
        },
{
    let n: usize = from_le16(&data[1..3]) as usize;
    let next: u32 = from_le32(&data[3..7]);
    let mut keys: Vec<Vec<u8>> = Vec::new();
    let mut values: Vec<Vec<u8>> = Vec::new();
    let mut at: usize = 7;
    let mut i: usize = 0;
    assert(strings(keys@) =~= Seq::<Seq<u8>>::empty());
    assert(strings(values@) =~= Seq::<Seq<u8>>::empty());
    while i < n
        invariant
            i <= n,
            n == of_le16(data@.subrange(1, 3)),
            at <= PAGE_SIZE,
            pairs_at(data@, 7, i as nat) == Some((strings(keys@), strings(values@), at as int)),
        decreases n - i,
    {
        match read_block(data, at) {
            None => {
                proof {
                    assert(pairs_at(data@, 7, (i + 1) as nat) is None);
                    pairs_at_missing(data@, 7, (i + 1) as nat, n as nat);
                }
                return Err(PageError::Truncated);
            },
            Some((key, mid)) => match read_block(data, mid) {
                None => {
                    proof {
                        assert(pairs_at(data@, 7, (i + 1) as nat) is None);
                        pairs_at_missing(data@, 7, (i + 1) as nat, n as nat);
                    }
                    return Err(PageError::Truncated);
                },
                Some((value, end)) => {
                    let ghost k = strings(keys@);
                    let ghost v = strings(values@);
                    keys.push(key);
                    values.push(value);
                    assert(strings(keys@) =~= k.push(key@));
                    assert(strings(values@) =~= v.push(value@));
                    at = end;
                },
            },
        }
        i += 1;
    }
    Ok(LeafPage { keys, values, next })
}

impl Page {
    /// Serialize the page into 4096 bytes.
    pub fn serialize(&self) -> (r: Result<[u8; PAGE_SIZE], PageError>)
        ensures
            match r {
                Ok(data) => fits(self@) && data@ == image(self@),
                Err(PageError::Overflow) => paired(self@) && !fits(self@),
                Err(e) => e == PageError::MissingValue && !paired(self@),
            },
    {
        broadcast use group_ints;

        match self {
            Page::Header(p) => serialize_header(p),
            Page::Internal(p) => serialize_internal(p),
            Page::Leaf(p) => serialize_leaf(p),
        }
    }

    /// Read a page from 4096 bytes.
    pub fn deserialize(data: &[u8; PAGE_SIZE]) -> (r: Result<Self, PageError>)
        ensures
            match r {
                Ok(p) => decode(data@) == Ok::<PageView, PageError>(p@),
                Err(e) => decode(data@) == Err::<PageView, PageError>(e),
            },
    {
        proof {
            magic_bytes(data@);
        }
        let magic: u32 = from_le32(&data[0..4]);
        if magic == MAGIC {
            match deserialize_header(data) {
                Ok(p) => Ok(Page::Header(p)),
                Err(e) => Err(e),
            }
        } else if data[0] == 1 {
            match deserialize_internal(data) {
                Ok(p) => Ok(Page::Internal(p)),
                Err(e) => Err(e),
            }
        } else if data[0] == 2 {
            match deserialize_leaf(data) {
                Ok(p) => Ok(Page::Leaf(p)),
                Err(e) => Err(e),
            }
        } else {
            Err(PageError::UnknownType(data[0]))
        }
    }
}

proof fn magic_bytes(data: Seq<u8>)
    requires
        data.len() >= 4,
    ensures
        data.subrange(0, 4) == le32(MAGIC) <==> of_le32(data.subrange(0, 4)) == MAGIC,
{
    broadcast use group_ints;

    le32_onto(data.subrange(0, 4));
}

proof fn block_found(data: Seq<u8>, at: int, s: Seq<u8>)
    requires
        0 <= at,
        s.len() <= u32::MAX,
        at + block(s).len() <= data.len(),
        data.subrange(at, at + block(s).len()) == block(s),
    ensures
        block_at(data, at) == Some((s, at + block(s).len())),
{
    broadcast use group_ints;

    let b = data.subrange(at, at + block(s).len());
    assert(data.subrange(at, at + 4) =~= b.subrange(0, 4));
    assert(b.subrange(0, 4) =~= le32(s.len() as u32));
    assert(data.subrange(at + 4, at + 4 + s.len()) =~= b.subrange(4, (4 + s.len()) as int));
    assert(b.subrange(4, (4 + s.len()) as int) =~= s);
}

proof fn blocks_found(data: Seq<u8>, at: int, s: Seq<Seq<u8>>)
    requires
        0 <= at,
        data.len() <= u32::MAX,
        at + blocks(s).len() <= data.len(),
        data.subrange(at, at + blocks(s).len()) == blocks(s),
    ensures
        blocks_at(data, at, s.len()) == Some((s, at + blocks(s).len())),
    decreases s.len(),
{
    if s.len() > 0 {
        let front = s.drop_last();
        let all = data.subrange(at, at + blocks(s).len());
        let mid = at + blocks(front).len();
        assert(data.subrange(at, mid) =~= all.subrange(0, blocks(front).len() as int));
        assert(all.subrange(0, blocks(front).len() as int) =~= blocks(front));
        blocks_found(data, at, front);
        assert(data.subrange(mid, mid + block(s.last()).len()) =~= all.subrange(
            blocks(front).len() as int,
            blocks(s).len() as int,
        ));
        assert(all.subrange(blocks(front).len() as int, blocks(s).len() as int) =~= block(s.last()));
        block_found(data, mid, s.last());
        assert(front.push(s.last()) =~= s);
    } else {
        assert(s =~= Seq::empty());
    }
}

proof fn words_found(data: Seq<u8>, at: int, s: Seq<u32>)
    requires
        0 <= at,
        at + words(s).len() <= data.len(),
        data.subrange(at, at + words(s).len()) == words(s),
    ensures
        words_at(data, at, s.len()) == Some(s),
    decreases s.len(),
{
    broadcast use group_ints;

    words_length(s);
    if s.len() > 0 {
        let front = s.drop_last();
        words_length(front);
        let all = data.subrange(at, at + words(s).len());
        let mid = at + words(front).len();
        assert(data.subrange(at, mid) =~= all.subrange(0, words(front).len() as int));
        assert(all.subrange(0, words(front).len() as int) =~= words(front));
        words_found(data, at, front);
        assert(data.subrange(mid, mid + 4) =~= all.subrange(words(front).len() as int, words(s).len() as int));
        assert(all.subrange(words(front).len() as int, words(s).len() as int) =~= le32(s.last()));
        let found = words_at(data, at, s.len())->Some_0;
        let before = words_at(data, at, front.len())->Some_0;
        assert forall|i: int| 0 <= i < s.len() implies found[i] == s[i] by {
            if i < front.len() {
                assert(found[i] == before[i]);
            }
        }
        assert(found =~= s);
    } else {
        assert(words_at(data, at, s.len())->Some_0 =~= s);
    }
}

proof fn pairs_found(data: Seq<u8>, at: int, keys: Seq<Seq<u8>>, values: Seq<Seq<u8>>, n: nat)
    requires
        0 <= at,
        n <= keys.len(),
        n <= values.len(),
        data.len() <= u32::MAX,
        at + pairs(keys, values, n).len() <= data.len(),
        data.subrange(at, at + pairs(keys, values, n).len()) == pairs(keys, values, n),
    ensures
        pairs_at(data, at, n) == Some((keys.take(n as int), values.take(n as int), at + pairs(keys, values, n).len())),
    decreases n,
{
    if n > 0 {
        let m = (n - 1) as nat;
        let front = pairs(keys, values, m);
        let all = pairs(keys, values, n);
        let k = block(keys[n - 1]);
        let v = block(values[n - 1]);
        let mid = at + front.len();
        assert(data.subrange(at, mid) =~= data.subrange(at, at + all.len()).subrange(0, front.len() as int));
        assert(all.subrange(0, front.len() as int) =~= front);
        pairs_found(data, at, keys, values, m);
        assert(data.subrange(mid, mid + k.len()) =~= data.subrange(at, at + all.len()).subrange(
            front.len() as int,
            (front.len() + k.len()) as int,
        ));
        assert(all.subrange(front.len() as int, (front.len() + k.len()) as int) =~= k);
        block_found(data, mid, keys[n - 1]);
        let end = mid + k.len();
        assert(data.subrange(end, end + v.len()) =~= data.subrange(at, at + all.len()).subrange(
            (front.len() + k.len()) as int,
            all.len() as int,
        ));
        assert(all.subrange((front.len() + k.len()) as int, all.len() as int) =~= v);
        block_found(data, end, values[n - 1]);
        assert(keys.take(m as int).push(keys[n - 1]) =~= keys.take(n as int));
        assert(values.take(m as int).push(values[n - 1]) =~= values.take(n as int));
    } else {
        assert(keys.take(0) =~= Seq::empty());
        assert(values.take(0) =~= Seq::empty());
    }
}

/// A page that a file can hold: the header has the magic number, an internal page one child more
/// than it has keys, a leaf as many values as keys.
pub open spec fn whole(p: PageView) -> bool {
    match p {
        PageView::Header { magic, .. } => magic == MAGIC,
        PageView::Internal { keys, children } => children.len() == keys.len() + 1,
        PageView::Leaf { keys, values, .. } => keys.len() == values.len(),
    }
}

proof fn blocks_at_least(s: Seq<Seq<u8>>)
    ensures
        blocks(s).len() >= 4 * s.len(),
    decreases s.len(),
{
    broadcast use group_ints;

    if s.len() > 0 {
        blocks_at_least(s.drop_last());
    }
}

proof fn pairs_at_least(keys: Seq<Seq<u8>>, values: Seq<Seq<u8>>, n: nat)
    ensures
        pairs(keys, values, n).len() >= 8 * n,
    decreases n,
{
    broadcast use group_ints;

    if n > 0 {
        pairs_at_least(keys, values, (n - 1) as nat);
    }
}

/// Reading the bytes of a page gives back the page.
pub proof fn deserialize_undoes_serialize(p: PageView)
    requires
        whole(p),
        fits(p),
    ensures
        decode(image(p)) == Ok::<PageView, PageError>(p),
{
    broadcast use group_ints;

    let data = image(p);
    let e = encoding(p);
    magic_bytes(data);
    assert(data.subrange(0, e.len() as int) =~= e);
    match p {
        PageView::Header { magic, version, num_pages, free_list } => {
            assert(data.subrange(0, 4) =~= le32(magic));
            assert(data.subrange(4, 8) =~= le32(version));
            assert(data.subrange(8, 12) =~= le32(num_pages));
            assert(data.subrange(12, 16) =~= le32(free_list));
        },
        PageView::Internal { keys, children } => {
            le32_first(MAGIC);
            assert(data[0] == 1);
            assert(data.subrange(0, 4)[0] == 1);
            blocks_at_least(keys);
            assert(data.subrange(1, 3) =~= le16(keys.len() as u16));
            let end = (3 + blocks(keys).len()) as int;
            assert(data.subrange(3, end) =~= blocks(keys));
            blocks_found(data, 3, keys);
            assert(data.subrange(end, end + words(children).len()) =~= words(children));
            words_found(data, end, children);
        },
        PageView::Leaf { keys, values, next } => {
            le32_first(MAGIC);
            assert(data[0] == 2);
            assert(data.subrange(0, 4)[0] == 2);
            pairs_at_least(keys, values, keys.len());
            assert(data.subrange(1, 3) =~= le16(keys.len() as u16));
            assert(data.subrange(3, 7) =~= le32(next));
            assert(data.subrange(7, (7 + pairs(keys, values, keys.len()).len()) as int) =~= pairs(keys, values, keys.len()));
            pairs_found(data, 7, keys, values, keys.len());
            assert(keys.take(keys.len() as int) =~= keys);
            assert(values.take(keys.len() as int) =~= values);
        },
    }
}

proof fn blocks_counted(data: Seq<u8>, at: int, n: nat)
    ensures
        blocks_at(data, at, n) matches Some((s, _)) ==> s.len() == n,
    decreases n,
{
    if n > 0 {
        blocks_counted(data, at, (n - 1) as nat);
    }
}

proof fn pairs_counted(data: Seq<u8>, at: int, n: nat)
    ensures
        pairs_at(data, at, n) matches Some((k, v, _)) ==> k.len() == n && v.len() == n,
    decreases n,
{
    if n > 0 {
        pairs_counted(data, at, (n - 1) as nat);
    }
}

/// What is read from bytes is a whole page.
pub proof fn decoded_is_whole(data: Seq<u8>)
    ensures
        decode(data) matches Ok(p) ==> whole(p),
{
    let n = of_le16(data.subrange(1, 3)) as nat;
    blocks_counted(data, 3, n);
    pairs_counted(data, 7, n);
}

} // verus!
