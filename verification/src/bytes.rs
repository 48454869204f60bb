//! Byte strings: their lexicographic order, and the searches that rest on it.
use vstd::prelude::*;

verus! {

/// The place where `a` and `b` part, with `a` the smaller of the two: either `a` ends there
/// and `b` goes on, or both go on and the byte of `a` is the smaller one.
pub closed spec fn parts_at(a: Seq<u8>, b: Seq<u8>, i: int) -> bool {
    &&& 0 <= i <= a.len()
    &&& i < b.len()
    &&& forall|j: int| 0 <= j < i ==> a[j] == b[j]
    &&& i == a.len() || a[i] < b[i]
}

/// `a` comes strictly before `b` in lexicographic order.
pub closed spec fn lt(a: Seq<u8>, b: Seq<u8>) -> bool {
    exists|i: int| parts_at(a, b, i)
}

/// `a` comes before `b` or is equal to it.
pub open spec fn le(a: Seq<u8>, b: Seq<u8>) -> bool {
    a == b || lt(a, b)
}

/// Strictly ascending, hence free of repetitions.
pub open spec fn ascending(s: Seq<Seq<u8>>) -> bool {
    forall|i: int, j: int| 0 <= i < j < s.len() ==> lt(#[trigger] s[i], #[trigger] s[j])
}

/// No byte string comes before itself.
pub broadcast proof fn lt_irreflexive(a: Seq<u8>)
    ensures
        !(#[trigger] lt(a, a)),
{
}

/// The order is transitive.
pub broadcast proof fn lt_transitive(a: Seq<u8>, b: Seq<u8>, c: Seq<u8>)
    requires
        #[trigger] lt(a, b),
        #[trigger] lt(b, c),
    ensures
        lt(a, c),
{
    let i = choose|i: int| parts_at(a, b, i);
    let j = choose|j: int| parts_at(b, c, j);
    let k = if i < j { i } else { j };
    assert(parts_at(a, c, k));
}

/// Of two byte strings at most one comes before the other.
pub broadcast proof fn lt_asymmetric(a: Seq<u8>, b: Seq<u8>)
    requires
        #[trigger] lt(a, b),
    ensures
        !lt(b, a),
{
    if lt(b, a) {
        lt_transitive(a, b, a);
    }
}

proof fn first_difference(a: Seq<u8>, b: Seq<u8>, i: int)
    requires
        0 <= i <= a.len(),
        i <= b.len(),
        forall|j: int| 0 <= j < i ==> a[j] == b[j],
    ensures
        a == b || lt(a, b) || lt(b, a),
    decreases a.len() - i,
{
    if i == a.len() && i == b.len() {
        assert(a =~= b);
    } else if i == a.len() {
        assert(parts_at(a, b, i));
    } else if i == b.len() {
        assert(parts_at(b, a, i));
    } else if a[i] < b[i] {
        assert(parts_at(a, b, i));
    } else if b[i] < a[i] {
        assert(parts_at(b, a, i));
    } else {
        first_difference(a, b, i + 1);
    }
}

/// Any two byte strings are equal or one of them comes before the other.
pub broadcast proof fn lt_total(a: Seq<u8>, b: Seq<u8>)
    ensures
        #![trigger lt(a, b)]
        a == b || lt(a, b) || lt(b, a),
{
    first_difference(a, b, 0);
}

pub broadcast group group_order {
    lt_irreflexive,
    lt_transitive,
    lt_asymmetric,
    lt_total,
}

/// The empty string comes before every other one.
pub proof fn empty_is_least(a: Seq<u8>)
    ensures
        !lt(a, Seq::empty()),
{
}

/// A string comes before any extension of it.
pub proof fn prefix_before(a: Seq<u8>, b: Seq<u8>)
    requires
        b.len() > 0,
    ensures
        lt(a, a + b),
{
    assert(parts_at(a, a + b, a.len() as int));
}

/// Strings of the same length that part keep their order when both are extended.
pub proof fn extension_keeps_order(a: Seq<u8>, b: Seq<u8>, x: Seq<u8>, y: Seq<u8>)
    requires
        a.len() == b.len(),
        lt(a, b),
    ensures
        lt(a + x, b + y),
{
    let i = choose|i: int| parts_at(a, b, i);
    assert(parts_at(a + x, b + y, i));
}

/// A string that differs from `a` at an earlier byte, and is the smaller one there, comes before
/// every extension of `a`.
pub proof fn order_by_first_difference(a: Seq<u8>, b: Seq<u8>, i: int)
    requires
        0 <= i < a.len(),
        i < b.len(),
        forall|j: int| 0 <= j < i ==> a[j] == b[j],
        a[i] < b[i],
    ensures
        lt(a, b),
{
    assert(parts_at(a, b, i));
}

/// Strings with a common prefix are ordered as what follows it.
pub proof fn same_prefix_order(p: Seq<u8>, a: Seq<u8>, b: Seq<u8>)
    requires
        lt(p + a, p + b),
    ensures
        lt(a, b),
{
    let i = choose|i: int| parts_at(p + a, p + b, i);
    if i < p.len() {
        assert((p + a)[i] == (p + b)[i]);
    } else {
        assert forall|j: int| 0 <= j < i - p.len() implies a[j] == b[j] by {
            assert((p + a)[p.len() + j] == (p + b)[p.len() + j]);
        }
        assert(parts_at(a, b, i - p.len()));
    }
}

/// How two byte strings stand to each other.
#[derive(Clone, Copy, PartialEq, Eq, Structural, Debug)]
pub enum Standing {
    Before,
    Same,
    After,
}

/// How `a` stands to `b` in the order.
pub open spec fn standing_of(a: Seq<u8>, b: Seq<u8>) -> Standing {
    if a == b {
        Standing::Same
    } else if lt(a, b) {
        Standing::Before
    } else {
        Standing::After
    }
}

/// Compare two byte strings.
pub fn compare(a: &[u8], b: &[u8]) -> (r: Standing)
    ensures
        r == standing_of(a@, b@),
        r == Standing::After <==> lt(b@, a@),
{
    broadcast use group_order;

    let mut i: usize = 0;
    while i < a.len() && i < b.len()
        invariant
            i <= a.len(),
            i <= b.len(),
            forall|j: int| 0 <= j < i ==> a@[j] == b@[j],
        decreases a.len() - i,
    {
        if a[i] < b[i] {
            proof {
                assert(parts_at(a@, b@, i as int));
                lt_asymmetric(a@, b@);
            }
            return Standing::Before;
        }
        if b[i] < a[i] {
            proof {
                assert(parts_at(b@, a@, i as int));
                lt_asymmetric(b@, a@);
            }
            return Standing::After;
        }
        i += 1;
    }
    if i < b.len() {
        proof {
            assert(parts_at(a@, b@, i as int));
            lt_asymmetric(a@, b@);
        }
        Standing::Before
    } else if i < a.len() {
        proof {
            assert(parts_at(b@, a@, i as int));
            lt_asymmetric(b@, a@);
        }
        Standing::After
    } else {
        assert(a@ =~= b@);
        Standing::Same
    }
}

/// A copy of a byte slice.
pub fn copy(a: &[u8]) -> (r: Vec<u8>)
    ensures
        r@ == a@,
{
    vstd::slice::slice_to_vec(a)
}

/// The byte strings of a vector.
pub open spec fn strings(v: Seq<Vec<u8>>) -> Seq<Seq<u8>> {
    Seq::new(v.len(), |i: int| v[i]@)
}

/// Whether `pos` is where `key` stands in `keys`, or, if it is not there, where it belongs.
pub open spec fn places(keys: Seq<Seq<u8>>, key: Seq<u8>, found: bool, pos: int) -> bool {
    &&& 0 <= pos <= keys.len()
    &&& found ==> pos < keys.len() && keys[pos] == key
    &&& forall|j: int| 0 <= j < pos ==> lt(#[trigger] keys[j], key)
    &&& !found ==> forall|j: int| pos <= j < keys.len() ==> lt(key, #[trigger] keys[j])
}

/// Binary search: whether `key` occurs in ascending `keys`, and its place there.
pub fn search(keys: &Vec<Vec<u8>>, key: &[u8]) -> (r: (bool, usize))
    ensures
        r.1 <= keys@.len(),
        r.0 ==> r.1 < keys@.len() && keys@[r.1 as int]@ == key@,
        ascending(strings(keys@)) ==> places(strings(keys@), key@, r.0, r.1 as int),
{
    let ghost ks = strings(keys@);
    let ghost sorted = ascending(ks);
    let mut lo: usize = 0;
    let mut hi: usize = keys.len();
    while lo < hi
        invariant
            ks == strings(keys@),
            sorted == ascending(ks),
            lo <= hi <= keys@.len(),
            sorted ==> forall|j: int| 0 <= j < lo ==> lt(#[trigger] ks[j], key@),
            sorted ==> forall|j: int| hi <= j < ks.len() ==> lt(key@, #[trigger] ks[j]),
        decreases hi - lo,
    {
        let mid = lo + (hi - lo) / 2;
        let ghost m = ks[mid as int];
        match compare(keys[mid].as_slice(), key) {
            Standing::Same => {
                assert(sorted ==> forall|j: int| 0 <= j < mid ==> lt(#[trigger] ks[j], ks[mid as int]));
                return (true, mid);
            },
            Standing::Before => {
                proof {
                    assert(lt(m, key@));
                    assert forall|j: int| sorted && 0 <= j < mid + 1 implies lt(#[trigger] ks[j], key@) by {
                        if j < mid {
                            lt_transitive(ks[j], m, key@);
                        }
                    }
                }
                lo = mid + 1;
            },
            Standing::After => {
                proof {
                    assert(lt(key@, m));
                    assert forall|j: int| sorted && mid <= j < ks.len() implies lt(key@, #[trigger] ks[j]) by {
                        if j > mid {
                            lt_transitive(key@, m, ks[j]);
                        }
                    }
                }
                hi = mid;
            },
        }
    }
    (false, lo)
}

/// The number of leading strings that come before `key`.
pub fn lower_bound(keys: &Vec<Vec<u8>>, key: &[u8]) -> (r: usize)
    ensures
        r <= keys@.len(),
        ascending(strings(keys@)) ==> {
            &&& forall|j: int| 0 <= j < r ==> lt(#[trigger] strings(keys@)[j], key@)
            &&& forall|j: int| r <= j < keys@.len() ==> !lt(#[trigger] strings(keys@)[j], key@)
        },
{
    broadcast use group_order;

    let (_, pos) = search(keys, key);
    proof {
        let ks = strings(keys@);
        if ascending(ks) {
            assert forall|j: int| pos <= j < ks.len() implies !lt(#[trigger] ks[j], key@) by {
                if ks[pos as int] == key@ && j > pos {
                    assert(lt(ks[pos as int], ks[j]));
                }
            }
        }
    }
    pos
}

} // verus!
