//! How numbers and pages are laid out as bytes, and the order of use of cached pages.
use vstd::prelude::*;

use crate::ints::{be64, le16, le32, le32_onto, le32_roundtrip, le64, of_le32};
use crate::storage::page::{
    block, blocks, decode, encoding, fits, image, pairs, words, PageError, PageView, MAGIC,
    PAGE_SIZE, VERSION,
};
use crate::storage::pager::{used, MAX_CACHE};
use crate::storage::tree::{MAX_KEYS_INTERNAL, MAX_KEYS_LEAF, MIN_KEYS_INTERNAL, MIN_KEYS_LEAF};

verus! {

/// The number that bytes stand for, the first of which counts least.
pub open spec fn number_of(s: Seq<u8>) -> int
    decreases s.len(),
{
    if s.len() == 0 {
        0
    } else {
        s[0] + 256 * number_of(s.drop_first())
    }
}

/// Numbers of two, four and eight bytes have the byte that counts least first.
pub proof fn least_byte_first(x: u16, y: u32, z: u64)
    ensures
        le16(x).len() == 2 && number_of(le16(x)) == x,
        le32(y).len() == 4 && number_of(le32(y)) == y,
        le64(z).len() == 8 && number_of(le64(z)) == z,
{
    reveal_with_fuel(number_of, 10);
    assert(x == (x & 0xff) + ((x >> 8) & 0xff) * 256) by (bit_vector);
    assert(x as u8 == x & 0xff) by (bit_vector);
    assert((x >> 8) as u8 == (x >> 8) & 0xff) by (bit_vector);
    let s = le16(x);
    assert(s.drop_first() =~= seq![s[1]]);
    assert(s.drop_first().drop_first() =~= Seq::empty());
    assert(y == (y & 0xff) + ((y >> 8) & 0xff) * 0x100 + ((y >> 16) & 0xff) * 0x1_0000 + ((y >> 24) & 0xff) * 0x100_0000)
        by (bit_vector);
    assert(y as u8 == y & 0xff && (y >> 8) as u8 == (y >> 8) & 0xff && (y >> 16) as u8 == (y >> 16) & 0xff && (y >> 24) as u8
        == (y >> 24) & 0xff) by (bit_vector);
    let s = le32(y);
    assert(s.drop_first() =~= seq![s[1], s[2], s[3]]);
    assert(s.drop_first().drop_first() =~= seq![s[2], s[3]]);
    assert(s.drop_first().drop_first().drop_first() =~= seq![s[3]]);
    assert(s.drop_first().drop_first().drop_first().drop_first() =~= Seq::empty());
    assert(z == (z & 0xff) + ((z >> 8) & 0xff) * 0x100 + ((z >> 16) & 0xff) * 0x1_0000 + ((z >> 24) & 0xff) * 0x100_0000 + (
    (z >> 32) & 0xff) * 0x1_0000_0000 + ((z >> 40) & 0xff) * 0x100_0000_0000 + ((z >> 48) & 0xff) * 0x1_0000_0000_0000 + (
    (z >> 56) & 0xff) * 0x100_0000_0000_0000) by (bit_vector);
    assert(z as u8 == z & 0xff && (z >> 8) as u8 == (z >> 8) & 0xff && (z >> 16) as u8 == (z >> 16) & 0xff && (z >> 24) as u8
        == (z >> 24) & 0xff && (z >> 32) as u8 == (z >> 32) & 0xff && (z >> 40) as u8 == (z >> 40) & 0xff && (z >> 48) as u8
        == (z >> 48) & 0xff && (z >> 56) as u8 == (z >> 56) & 0xff) by (bit_vector);
    let s = le64(z);
    let s1 = s.drop_first();
    let s2 = s1.drop_first();
    let s3 = s2.drop_first();
    let s4 = s3.drop_first();
    let s5 = s4.drop_first();
    let s6 = s5.drop_first();
    let s7 = s6.drop_first();
    assert(s7.drop_first() =~= Seq::empty());
    assert(number_of(s7) == s[7]);
    assert(number_of(s6) == s[6] + 256 * number_of(s7));
    assert(number_of(s5) == s[5] + 256 * number_of(s6));
    assert(number_of(s4) == s[4] + 256 * number_of(s5));
    assert(number_of(s3) == s[3] + 256 * number_of(s4));
    assert(number_of(s2) == s[2] + 256 * number_of(s3));
    assert(number_of(s1) == s[1] + 256 * number_of(s2));
    assert(number_of(s) == s[0] + 256 * number_of(s1));
}

/// Where the byte that counts most is to be first, the bytes of a number are the same in reverse.
pub proof fn most_byte_first(z: u64)
    ensures
        be64(z) == le64(z).reverse(),
{
    assert(be64(z) =~= le64(z).reverse());
}

/// A page takes so many bytes, and so many of them are kept in memory; a leaf takes so many keys, and a
/// node above the leaves so many, and both at least half of that.
pub proof fn sizes()
    ensures
        PAGE_SIZE == 4096,
        MAX_CACHE == 64,
        MAX_KEYS_LEAF == 100,
        MAX_KEYS_INTERNAL == 200,
        2 * MIN_KEYS_LEAF == MAX_KEYS_LEAF,
        2 * MIN_KEYS_INTERNAL == MAX_KEYS_INTERNAL,
{
}

/// A page that fits takes a whole page: its contents, and then zeros.
pub proof fn pages_are_filled_with_zeros(p: PageView, i: int)
    requires
        fits(p),
    ensures
        image(p).len() == 4096,
        0 <= i < encoding(p).len() ==> image(p)[i] == encoding(p)[i],
        encoding(p).len() <= i < 4096 ==> image(p)[i] == 0,
{
}

/// The header: a number that tells the kind of file, the version, the number of pages and the first free
/// page, of four bytes each.
pub proof fn header_layout(magic: u32, version: u32, num_pages: u32, free_list: u32)
    ensures
        ({
            let s = encoding(PageView::Header { magic, version, num_pages, free_list });
            &&& s.len() == 16
            &&& number_of(s.subrange(0, 4)) == magic
            &&& number_of(s.subrange(4, 8)) == version
            &&& number_of(s.subrange(8, 12)) == num_pages
            &&& number_of(s.subrange(12, 16)) == free_list
        }),
        MAGIC == 0x53414B55,
        VERSION == 1,
{
    let s = encoding(PageView::Header { magic, version, num_pages, free_list });
    least_byte_first(0, magic, 0);
    least_byte_first(0, version, 0);
    least_byte_first(0, num_pages, 0);
    least_byte_first(0, free_list, 0);
    assert(s.subrange(0, 4) =~= le32(magic));
    assert(s.subrange(4, 8) =~= le32(version));
    assert(s.subrange(8, 12) =~= le32(num_pages));
    assert(s.subrange(12, 16) =~= le32(free_list));
}

/// A leaf: the byte 2, the number of keys in two bytes, the next leaf in four, and then the keys and values
/// in turn.
pub proof fn leaf_layout(keys: Seq<Seq<u8>>, values: Seq<Seq<u8>>, next: u32)
    requires
        keys.len() <= u16::MAX,
    ensures
        ({
            let s = encoding(PageView::Leaf { keys, values, next });
            &&& s.len() >= 7
            &&& s[0] == 2
            &&& number_of(s.subrange(1, 3)) == keys.len()
            &&& number_of(s.subrange(3, 7)) == next
            &&& s.skip(7) == pairs(keys, values, keys.len())
        }),
{
    let s = encoding(PageView::Leaf { keys, values, next });
    least_byte_first(keys.len() as u16, next, 0);
    assert(s.subrange(1, 3) =~= le16(keys.len() as u16));
    assert(s.subrange(3, 7) =~= le32(next));
    assert(s.skip(7) =~= pairs(keys, values, keys.len()));
}

/// A node above the leaves: the byte 1, the number of keys in two bytes, the keys, and the pages of the
/// children in four bytes each.
pub proof fn node_layout(keys: Seq<Seq<u8>>, children: Seq<u32>)
    requires
        keys.len() <= u16::MAX,
    ensures
        ({
            let s = encoding(PageView::Internal { keys, children });
            &&& s.len() >= 3
            &&& s[0] == 1
            &&& number_of(s.subrange(1, 3)) == keys.len()
            &&& s.skip(3) == blocks(keys) + words(children)
        }),
{
    let s = encoding(PageView::Internal { keys, children });
    least_byte_first(keys.len() as u16, 0, 0);
    assert(s.subrange(1, 3) =~= le16(keys.len() as u16));
    assert(s.skip(3) =~= blocks(keys) + words(children));
}

/// Keys, values and page numbers stand one behind the other, keys and values with their lengths in front
/// in four bytes.
pub proof fn items_in_turn(
    keys: Seq<Seq<u8>>,
    values: Seq<Seq<u8>>,
    more: Seq<Seq<u8>>,
    ids: Seq<u32>,
    others: Seq<u32>,
    n: nat,
)
    requires
        n < keys.len(),
        n < values.len(),
        keys[n as int].len() <= u32::MAX,
        values[n as int].len() <= u32::MAX,
    ensures
        ({
            let k = keys[n as int];
            let v = values[n as int];
            let b = pairs(keys, values, n + 1);
            let at = pairs(keys, values, n).len() as int;
            &&& pairs(keys, values, 0).len() == 0
            &&& b.len() == at + 8 + k.len() + v.len()
            &&& b.take(at) == pairs(keys, values, n)
            &&& number_of(b.subrange(at, at + 4)) == k.len()
            &&& b.subrange(at + 4, at + 4 + k.len()) == k
            &&& number_of(b.subrange(at + 4 + k.len(), at + 8 + k.len())) == v.len()
            &&& b.skip(at + 8 + k.len()) == v
        }),
        blocks(keys + more) == blocks(keys) + blocks(more),
        words(ids + others) == words(ids) + words(others),
{
    let k = keys[n as int];
    let v = values[n as int];
    let b = pairs(keys, values, n + 1);
    let at = pairs(keys, values, n).len() as int;
    least_byte_first(0, k.len() as u32, 0);
    least_byte_first(0, v.len() as u32, 0);
    assert(b =~= pairs(keys, values, n) + (le32(k.len() as u32) + k) + (le32(v.len() as u32) + v));
    assert(b.take(at) =~= pairs(keys, values, n));
    assert(b.subrange(at, at + 4) =~= le32(k.len() as u32));
    assert(b.subrange(at + 4, at + 4 + k.len()) =~= k);
    assert(b.subrange(at + 4 + k.len(), at + 8 + k.len()) =~= le32(v.len() as u32));
    assert(b.skip(at + 8 + k.len()) =~= v);
    blocks_joined(keys, more);
    words_joined(ids, others);
}

proof fn blocks_joined(a: Seq<Seq<u8>>, b: Seq<Seq<u8>>)
    ensures
        blocks(a + b) == blocks(a) + blocks(b),
    decreases b.len(),
{
    if b.len() == 0 {
        assert(a + b =~= a);
        assert(blocks(a) + blocks(b) =~= blocks(a));
    } else {
        blocks_joined(a, b.drop_last());
        assert((a + b).drop_last() =~= a + b.drop_last());
        assert(blocks(a + b) =~= blocks(a) + blocks(b));
    }
}

proof fn words_joined(a: Seq<u32>, b: Seq<u32>)
    ensures
        words(a + b) == words(a) + words(b),
    decreases b.len(),
{
    if b.len() == 0 {
        assert(a + b =~= a);
        assert(words(a) + words(b) =~= words(a));
    } else {
        words_joined(a, b.drop_last());
        assert((a + b).drop_last() =~= a + b.drop_last());
        assert(words(a + b) =~= words(a) + words(b));
    }
}

/// A single key, and a single page number, as they stand among others.
pub proof fn single_items(k: Seq<u8>, id: u32)
    requires
        k.len() <= u32::MAX,
    ensures
        blocks(seq![k]).len() == 4 + k.len(),
        number_of(blocks(seq![k]).take(4)) == k.len(),
        blocks(seq![k]).skip(4) == k,
        words(seq![id]).len() == 4,
        number_of(words(seq![id])) == id,
        blocks(Seq::empty()).len() == 0,
        words(Seq::empty()).len() == 0,
{
    least_byte_first(0, k.len() as u32, 0);
    least_byte_first(0, id, 0);
    assert(seq![k].drop_last() =~= Seq::<Seq<u8>>::empty());
    assert(seq![id].drop_last() =~= Seq::<u32>::empty());
    assert(blocks(Seq::empty()) =~= Seq::<u8>::empty());
    assert(words(Seq::empty()) =~= Seq::<u8>::empty());
    assert(blocks(seq![k]) == blocks(seq![k].drop_last()) + block(k));
    assert(words(seq![id]) == words(seq![id].drop_last()) + le32(id));
    assert(blocks(seq![k]) =~= le32(k.len() as u32) + k);
    assert(blocks(seq![k]).take(4) =~= le32(k.len() as u32));
    assert(blocks(seq![k]).skip(4) =~= k);
    assert(words(seq![id]) =~= le32(id));
}

/// A page that is used is the most recently used one, and the others keep their order. A page leaves only
/// if the cache is full and the page that is used is not in it, and then it is the one that was used
/// longest ago.
pub proof fn least_recently_used_leaves(order: Seq<u32>, id: u32)
    requires
        order.no_duplicates(),
        order.len() < MAX_CACHE,
    ensures
        ({
            let after = used(order, id);
            &&& after.len() > 0
            &&& after.last() == id
            &&& after.no_duplicates()
            &&& after.len() < MAX_CACHE
            &&& forall|x: u32| #[trigger] after.contains(x) ==> x == id || order.contains(x)
            &&& forall|x: u32| #[trigger]
                order.contains(x) && !after.contains(x) ==> x == order[0] && !order.contains(id) && order.len()
                    == MAX_CACHE - 1
            &&& forall|i: int, j: int|
                0 <= i < j < after.len() - 1 ==> order.index_of(#[trigger] after[i]) < order.index_of(#[trigger] after[j])
        }),
{
    let after = used(order, id);
    if order.contains(id) {
        let p = order.index_of(id);
        assert(order[p] == id);
        let rest = order.remove(p);
        assert forall|i: int| 0 <= i < rest.len() implies #[trigger] rest[i] == order[if i < p {
            i
        } else {
            i + 1
        }] by {}
        assert forall|x: u32| order.contains(x) implies #[trigger] after.contains(x) by {
            let k = order.index_of(x);
            if k < p {
                assert(after[k] == x);
            } else if k > p {
                assert(after[k - 1] == x);
            } else {
                assert(after[rest.len() as int] == x);
            }
        }
        assert forall|i: int| 0 <= i < rest.len() implies order.index_of(#[trigger] after[i]) == if i < p {
            i
        } else {
            i + 1
        } by {
            let q = if i < p {
                i
            } else {
                i + 1
            };
            assert(after[i] == order[q]);
            assert(order.contains(order[q]));
        }
    } else if order.len() >= MAX_CACHE - 1 {
        let rest = order.skip(1);
        assert forall|x: u32| order.contains(x) && x != order[0] implies #[trigger] after.contains(x) by {
            let k = order.index_of(x);
            assert(after[k - 1] == x);
        }
        assert forall|i: int| 0 <= i < rest.len() implies order.index_of(#[trigger] after[i]) == i + 1 by {
            assert(after[i] == order[i + 1]);
            assert(order.contains(order[i + 1]));
        }
    } else {
        assert forall|x: u32| order.contains(x) implies #[trigger] after.contains(x) by {
            let k = order.index_of(x);
            assert(after[k] == x);
        }
        assert forall|i: int| 0 <= i < order.len() implies order.index_of(#[trigger] after[i]) == i by {
            assert(after[i] == order[i]);
            assert(order.contains(order[i]));
        }
    }
    assert forall|x: u32| #[trigger] after.contains(x) implies x == id || order.contains(x) by {
        let k = after.index_of(x);
        if k < after.len() - 1 {
            if order.contains(id) {
                let p = order.index_of(id);
                assert(after[k] == order[if k < p {
                    k
                } else {
                    k + 1
                }]);
            } else if order.len() >= MAX_CACHE - 1 {
                assert(after[k] == order[k + 1]);
            } else {
                assert(after[k] == order[k]);
            }
        }
    }
    assert forall|i: int, j: int| 0 <= i < j < after.len() implies after[i] != after[j] by {
        if j < after.len() - 1 {
            assert(order.index_of(after[i]) < order.index_of(after[j]));
        } else if order.contains(id) {
            let p = order.index_of(id);
            let q = if i < p {
                i
            } else {
                i + 1
            };
            assert(after[i] == order[q] && order[q] != order[p]);
        } else {
            let q = if order.len() >= MAX_CACHE - 1 {
                i + 1
            } else {
                i
            };
            assert(after[i] == order[q]);
            assert(order.contains(order[q]));
        }
    }
}

/// What a block of bytes is read as is told by its first bytes: a header by its first four, a node above
/// the leaves by a 1, a leaf by a 2; all else is refused with its first byte.
pub proof fn pages_are_told_by_their_first_bytes(data: Seq<u8>)
    requires
        data.len() == 4096,
    ensures
        number_of(data.take(4)) == MAGIC ==> (decode(data) matches Ok(p) && p == (PageView::Header {
            magic: MAGIC,
            version: of_le32(data.subrange(4, 8)),
            num_pages: of_le32(data.subrange(8, 12)),
            free_list: of_le32(data.subrange(12, 16)),
        })),
        number_of(data.take(4)) != MAGIC ==> match decode(data) {
            Ok(p) => !(p is Header) && (p is Internal <==> data[0] == 1) && (p is Leaf <==> data[0] == 2),
            Err(e) => if data[0] == 1 || data[0] == 2 {
                e == PageError::Truncated
            } else {
                e == PageError::UnknownType(data[0])
            },
        },
{
    let w = data.take(4);
    assert(data.subrange(0, 4) =~= w);
    le32_onto(w);
    least_byte_first(0, MAGIC, 0);
    least_byte_first(0, of_le32(w), 0);
    le32_roundtrip(MAGIC);
    if number_of(w) == MAGIC {
        assert(of_le32(w) == MAGIC);
        assert(w == le32(MAGIC));
    }
}

} // verus!
