//! Integers as bytes, least significant byte first, and most significant byte first where the
//! order of the bytes must be the order of the numbers.
use vstd::prelude::*;

use crate::bytes::{lt, order_by_first_difference};

verus! {

/// The two bytes of `x`, least significant first.
pub open spec fn le16(x: u16) -> Seq<u8> {
    seq![x as u8, (x >> 8) as u8]
}

/// The number that two bytes stand for.
pub open spec fn of_le16(s: Seq<u8>) -> u16 {
    (s[0] as u16) | ((s[1] as u16) << 8)
}

/// The four bytes of `x`, least significant first.
pub open spec fn le32(x: u32) -> Seq<u8> {
    seq![x as u8, (x >> 8) as u8, (x >> 16) as u8, (x >> 24) as u8]
}

/// The number that four bytes stand for.
pub open spec fn of_le32(s: Seq<u8>) -> u32 {
    (s[0] as u32) | ((s[1] as u32) << 8) | ((s[2] as u32) << 16) | ((s[3] as u32) << 24)
}

/// The eight bytes of `x`, least significant first.
pub open spec fn le64(x: u64) -> Seq<u8> {
    seq![
        x as u8,
        (x >> 8) as u8,
        (x >> 16) as u8,
        (x >> 24) as u8,
        (x >> 32) as u8,
        (x >> 40) as u8,
        (x >> 48) as u8,
        (x >> 56) as u8,
    ]
}

/// The number that eight bytes stand for.
pub open spec fn of_le64(s: Seq<u8>) -> u64 {
    (s[0] as u64) | ((s[1] as u64) << 8) | ((s[2] as u64) << 16) | ((s[3] as u64) << 24) | ((s[4] as u64) << 32) | ((
    s[5] as u64) << 40) | ((s[6] as u64) << 48) | ((s[7] as u64) << 56)
}

/// The eight bytes of `x`, most significant first.
pub open spec fn be64(x: u64) -> Seq<u8> {
    seq![
        (x >> 56) as u8,
        (x >> 48) as u8,
        (x >> 40) as u8,
        (x >> 32) as u8,
        (x >> 24) as u8,
        (x >> 16) as u8,
        (x >> 8) as u8,
        x as u8,
    ]
}

/// The number that eight bytes stand for, most significant first.
pub open spec fn of_be64(s: Seq<u8>) -> u64 {
    (s[7] as u64) | ((s[6] as u64) << 8) | ((s[5] as u64) << 16) | ((s[4] as u64) << 24) | ((s[3] as u64) << 32) | ((
    s[2] as u64) << 40) | ((s[1] as u64) << 48) | ((s[0] as u64) << 56)
}

pub broadcast proof fn le16_roundtrip(x: u16)
    ensures
        #![trigger le16(x)]
        le16(x).len() == 2,
        of_le16(le16(x)) == x,
{
    assert(((x as u8) as u16) | ((((x >> 8) as u8) as u16) << 8) == x) by (bit_vector);
}

pub broadcast proof fn le32_roundtrip(x: u32)
    ensures
        #![trigger le32(x)]
        le32(x).len() == 4,
        of_le32(le32(x)) == x,
{
    assert(((x as u8) as u32) | ((((x >> 8) as u8) as u32) << 8) | ((((x >> 16) as u8) as u32) << 16) | ((((x
        >> 24) as u8) as u32) << 24) == x) by (bit_vector);
}

/// Four bytes are those of the number they stand for.
pub proof fn le32_onto(s: Seq<u8>)
    requires
        s.len() == 4,
    ensures
        le32(of_le32(s)) == s,
{
    let a = s[0];
    let b = s[1];
    let c = s[2];
    let d = s[3];
    let x = of_le32(s);
    assert(x as u8 == a && (x >> 8) as u8 == b && (x >> 16) as u8 == c && (x >> 24) as u8 == d) by (bit_vector)
        requires
            x == (a as u32) | ((b as u32) << 8) | ((c as u32) << 16) | ((d as u32) << 24),
    ;
    assert(le32(x) =~= s);
}

/// The first byte of a number is its value modulo 256.
pub proof fn le32_first(x: u32)
    ensures
        le32(x)[0] == x % 256,
{
    assert(x as u8 == x % 256) by (bit_vector);
}

pub broadcast proof fn le64_roundtrip(x: u64)
    ensures
        #![trigger le64(x)]
        le64(x).len() == 8,
        of_le64(le64(x)) == x,
{
    assert(((x as u8) as u64) | ((((x >> 8) as u8) as u64) << 8) | ((((x >> 16) as u8) as u64) << 16) | ((((x
        >> 24) as u8) as u64) << 24) | ((((x >> 32) as u8) as u64) << 32) | ((((x >> 40) as u8) as u64) << 40) | ((((x
        >> 48) as u8) as u64) << 48) | ((((x >> 56) as u8) as u64) << 56) == x) by (bit_vector);
}

pub broadcast proof fn be64_roundtrip(x: u64)
    ensures
        #![trigger be64(x)]
        be64(x).len() == 8,
        of_be64(be64(x)) == x,
{
    assert(((x as u8) as u64) | ((((x >> 8) as u8) as u64) << 8) | ((((x >> 16) as u8) as u64) << 16) | ((((x
        >> 24) as u8) as u64) << 24) | ((((x >> 32) as u8) as u64) << 32) | ((((x >> 40) as u8) as u64) << 40) | ((((x
        >> 48) as u8) as u64) << 48) | ((((x >> 56) as u8) as u64) << 56) == x) by (bit_vector);
}

pub broadcast group group_ints {
    le16_roundtrip,
    le32_roundtrip,
    le64_roundtrip,
    be64_roundtrip,
}

/// Most significant byte first keeps the order of the numbers.
pub proof fn be64_keeps_order(x: u64, y: u64)
    requires
        x < y,
    ensures
        lt(be64(x), be64(y)),
{
    let a = be64(x);
    let b = be64(y);
    if x >> 56 < y >> 56 {
        assert(((x >> 56) as u8) < (y >> 56) as u8) by (bit_vector)
            requires
                x >> 56 < y >> 56,
        ;
        order_by_first_difference(a, b, 0);
    } else if x >> 48 < y >> 48 {
        assert((x >> 56) as u8 == (y >> 56) as u8 && ((x >> 48) as u8) < (y >> 48) as u8) by (bit_vector)
            requires
                x < y,
                !(x >> 56 < y >> 56),
                x >> 48 < y >> 48,
        ;
        order_by_first_difference(a, b, 1);
    } else if x >> 40 < y >> 40 {
        assert((x >> 56) as u8 == (y >> 56) as u8 && (x >> 48) as u8 == (y >> 48) as u8 && ((x >> 40) as u8) < (y
            >> 40) as u8) by (bit_vector)
            requires
                x < y,
                !(x >> 48 < y >> 48),
                x >> 40 < y >> 40,
        ;
        order_by_first_difference(a, b, 2);
    } else if x >> 32 < y >> 32 {
        assert((x >> 56) as u8 == (y >> 56) as u8 && (x >> 48) as u8 == (y >> 48) as u8 && (x >> 40) as u8 == (y
            >> 40) as u8 && ((x >> 32) as u8) < (y >> 32) as u8) by (bit_vector)
            requires
                x < y,
                !(x >> 40 < y >> 40),
                x >> 32 < y >> 32,
        ;
        order_by_first_difference(a, b, 3);
    } else if x >> 24 < y >> 24 {
        assert((x >> 56) as u8 == (y >> 56) as u8 && (x >> 48) as u8 == (y >> 48) as u8 && (x >> 40) as u8 == (y
            >> 40) as u8 && (x >> 32) as u8 == (y >> 32) as u8 && ((x >> 24) as u8) < (y >> 24) as u8) by (bit_vector)
            requires
                x < y,
                !(x >> 32 < y >> 32),
                x >> 24 < y >> 24,
        ;
        order_by_first_difference(a, b, 4);
    } else if x >> 16 < y >> 16 {
        assert((x >> 56) as u8 == (y >> 56) as u8 && (x >> 48) as u8 == (y >> 48) as u8 && (x >> 40) as u8 == (y
            >> 40) as u8 && (x >> 32) as u8 == (y >> 32) as u8 && (x >> 24) as u8 == (y >> 24) as u8 && ((x >> 16) as u8)
            < (y >> 16) as u8) by (bit_vector)
            requires
                x < y,
                !(x >> 24 < y >> 24),
                x >> 16 < y >> 16,
        ;
        order_by_first_difference(a, b, 5);
    } else if x >> 8 < y >> 8 {
        assert((x >> 56) as u8 == (y >> 56) as u8 && (x >> 48) as u8 == (y >> 48) as u8 && (x >> 40) as u8 == (y
            >> 40) as u8 && (x >> 32) as u8 == (y >> 32) as u8 && (x >> 24) as u8 == (y >> 24) as u8 && (x >> 16) as u8
            == (y >> 16) as u8 && ((x >> 8) as u8) < (y >> 8) as u8) by (bit_vector)
            requires
                x < y,
                !(x >> 16 < y >> 16),
                x >> 8 < y >> 8,
        ;
        order_by_first_difference(a, b, 6);
    } else {
        assert((x >> 56) as u8 == (y >> 56) as u8 && (x >> 48) as u8 == (y >> 48) as u8 && (x >> 40) as u8 == (y
            >> 40) as u8 && (x >> 32) as u8 == (y >> 32) as u8 && (x >> 24) as u8 == (y >> 24) as u8 && (x >> 16) as u8
            == (y >> 16) as u8 && (x >> 8) as u8 == (y >> 8) as u8 && (x as u8) < (y as u8)) by (bit_vector)
            requires
                x < y,
                !(x >> 8 < y >> 8),
        ;
        order_by_first_difference(a, b, 7);
    }
}

/// The two bytes of `x`, least significant first.
pub fn to_le16(x: u16) -> (r: Vec<u8>)
    ensures
        r@ == le16(x),
{
    let r: Vec<u8> = vec![#[verifier::truncate] (x as u8), #[verifier::truncate] ((x >> 8) as u8)];
    assert(r@ =~= le16(x));
    r
}

/// The number that two bytes stand for.
pub fn from_le16(s: &[u8]) -> (r: u16)
    requires
        s@.len() == 2,
    ensures
        r == of_le16(s@),
{
    (s[0] as u16) | ((s[1] as u16) << 8)
}

/// The four bytes of `x`, least significant first.
pub fn to_le32(x: u32) -> (r: Vec<u8>)
    ensures
        r@ == le32(x),
{
    let r: Vec<u8> = vec![
        #[verifier::truncate] (x as u8),
        #[verifier::truncate] ((x >> 8) as u8),
        #[verifier::truncate] ((x >> 16) as u8),
        #[verifier::truncate] ((x >> 24) as u8),
    ];
    assert(r@ =~= le32(x));
    r
}

/// The number that four bytes stand for.
pub fn from_le32(s: &[u8]) -> (r: u32)
    requires
        s@.len() == 4,
    ensures
        r == of_le32(s@),
{
    (s[0] as u32) | ((s[1] as u32) << 8) | ((s[2] as u32) << 16) | ((s[3] as u32) << 24)
}

/// The eight bytes of `x`, least significant first.
pub fn to_le64(x: u64) -> (r: Vec<u8>)
    ensures
        r@ == le64(x),
{
    let r: Vec<u8> = vec![
        #[verifier::truncate] (x as u8),
        #[verifier::truncate] ((x >> 8) as u8),
        #[verifier::truncate] ((x >> 16) as u8),
        #[verifier::truncate] ((x >> 24) as u8),
        #[verifier::truncate] ((x >> 32) as u8),
        #[verifier::truncate] ((x >> 40) as u8),
        #[verifier::truncate] ((x >> 48) as u8),
        #[verifier::truncate] ((x >> 56) as u8),
    ];
    assert(r@ =~= le64(x));
    r
}

/// The number that eight bytes stand for.
pub fn from_le64(s: &[u8]) -> (r: u64)
    requires
        s@.len() == 8,
    ensures
        r == of_le64(s@),
{
    (s[0] as u64) | ((s[1] as u64) << 8) | ((s[2] as u64) << 16) | ((s[3] as u64) << 24) | ((s[4] as u64) << 32) | ((
    s[5] as u64) << 40) | ((s[6] as u64) << 48) | ((s[7] as u64) << 56)
}

/// The eight bytes of `x`, most significant first.
pub fn to_be64(x: u64) -> (r: Vec<u8>)
    ensures
        r@ == be64(x),
{
    let r: Vec<u8> = vec![
        #[verifier::truncate] ((x >> 56) as u8),
        #[verifier::truncate] ((x >> 48) as u8),
        #[verifier::truncate] ((x >> 40) as u8),
        #[verifier::truncate] ((x >> 32) as u8),
        #[verifier::truncate] ((x >> 24) as u8),
        #[verifier::truncate] ((x >> 16) as u8),
        #[verifier::truncate] ((x >> 8) as u8),
        #[verifier::truncate] (x as u8),
    ];
    assert(r@ =~= be64(x));
    r
}

/// The number that eight bytes stand for, most significant first.
pub fn from_be64(s: &[u8]) -> (r: u64)
    requires
        s@.len() == 8,
    ensures
        r == of_be64(s@),
{
    (s[7] as u64) | ((s[6] as u64) << 8) | ((s[5] as u64) << 16) | ((s[4] as u64) << 24) | ((s[3] as u64) << 32) | ((
    s[2] as u64) << 40) | ((s[1] as u64) << 48) | ((s[0] as u64) << 56)
}

} // verus!
