use vstd::prelude::*;
use vstd::bytes::{spec_u16_from_le_bytes, spec_u16_to_le_bytes, spec_u32_from_le_bytes, spec_u32_to_le_bytes};
use vstd::endian::{endianness, Endian};

verus! {

/// The lowest bit of each of the eight 5-bit corner fields.
pub const CORNER_ONES: u64 = 0x842108421;

/// The two orientation bits of each of the eight 5-bit corner fields.
pub const CORNER_ORI_MASK: u64 = 0x18c6318c63;

/// The lowest bit of each of the twelve 5-bit edge fields.
pub const EDGE_ONES: u64 = 0x84210842108421;

/// The `count` bits of `w` that start at bit `pos`.
pub open spec fn bits_at(w: u64, pos: u64, count: u64) -> u64 {
    (w >> pos) & (((1u64 << count) - 1u64) as u64)
}

/// The bounds of the values of fields of 1 to 4 bits.
pub(crate) proof fn lemma_bits_at_bounds(w: u64, s: u64)
    by (bit_vector)
    ensures
        bits_at(w, s, 1) < 2,
        bits_at(w, s, 2) < 4,
        bits_at(w, s, 3) < 8,
        bits_at(w, s, 4) < 16,
        bits_at(w, s, 4) == (w >> s) & 15u64,
        bits_at(w, s, 3) == (w >> s) & 7u64,
        bits_at(w, s, 2) == (w >> s) & 3u64,
        bits_at(w, s, 1) == (w >> s) & 1u64,
{
}

/// The two low bits of the 5-bit field `i` of `w`.
pub open spec fn ori2(w: u64, i: u64) -> u64 {
    (w >> ((5 * i) as u64)) & 3u64
}

/// Sum of two 2-bit orientation values as computed field by field: exactly
/// `(x + y) % 3` whenever both operands are at most 2.
pub open spec fn add3(x: u64, y: u64) -> u64 {
    if x + y < 3 {
        (x + y) as u64
    } else {
        ((x + y + 1) % 2) as u64
    }
}

/// Negation of a 2-bit orientation value modulo 3, computed by swapping its
/// two bits: 0 stays 0, 1 becomes 2, 2 becomes 1 (and 3 stays 3).
pub open spec fn inv3(x: u64) -> u64 {
    ((x >> 1u64) & 1u64) | ((x & 1u64) << 1u64)
}

/// Facts on a mask of `c` low bits.
proof fn lemma_low_mask(w: u64, p: u64, c: u64)
    by (bit_vector)
    requires
        c < 64,
    ensures
        1u64 << c >= 1,
        (w >> p) & (((1u64 << c) - 1u64) as u64) < (1u64 << c),
        c == 1 ==> (w >> p) & (((1u64 << c) - 1u64) as u64) == (w >> p) & 1u64,
        c == 2 ==> (w >> p) & (((1u64 << c) - 1u64) as u64) == (w >> p) & 3u64,
        c == 3 ==> (w >> p) & (((1u64 << c) - 1u64) as u64) == (w >> p) & 7u64,
        c == 4 ==> (w >> p) & (((1u64 << c) - 1u64) as u64) == (w >> p) & 15u64,
        c == 5 ==> (w >> p) & (((1u64 << c) - 1u64) as u64) == (w >> p) & 31u64,
{
}

/// Extracts `count` bits of `bitfield`, starting at bit `pos`.
pub fn get(bitfield: u64, pos: u8, count: u8) -> (r: u64)
    requires
        pos < 64,
        count < 64,
    ensures
        r == bits_at(bitfield, pos as u64, count as u64),
        r < (1u64 << count),
        count == 1 ==> r == (bitfield >> (pos as u64)) & 1u64,
        count == 2 ==> r == (bitfield >> (pos as u64)) & 3u64,
        count == 3 ==> r == (bitfield >> (pos as u64)) & 7u64,
        count == 4 ==> r == (bitfield >> (pos as u64)) & 15u64,
        count == 5 ==> r == (bitfield >> (pos as u64)) & 31u64,
{
    let one: u64 = 1;
    let c = count as u64;
    let p = pos as u64;
    proof {
        lemma_low_mask(bitfield, p, c);
    }
    let mask = (one << c) - one;
    (bitfield >> p) & mask
}

/// Adds the twelve edge orientations of `b` to those of `a`, modulo 2.
pub fn bitwise_add_mod_2(a: &mut u64, b: u64)
    ensures
        *final(a) == *old(a) ^ (b & EDGE_ONES),
{
    let one: u64 = 0b_00001_00001_00001_00001_00001_00001_00001_00001_00001_00001_00001_00001;
    *a ^= b & one;
}

/// The field-wise sum of orientations, as computed by `bitwise_add_mod_3`.
proof fn lemma_add_mod_3_bits(a: u64, b: u64, i: u64)
    by (bit_vector)
    requires
        i < 8,
    ensures
        (a & 0x18c6318c63u64) + (b & 0x18c6318c63u64) + 0x842108421u64 <= u64::MAX,
        ({
            let sum = ((a & 0x18c6318c63u64) + (b & 0x18c6318c63u64)) as u64;
            let sum1 = (sum + 0x842108421u64) as u64;
            let ovfl = sum1 & (0x842108421u64 << 2u64);
            let not_ovfl = ovfl ^ (0x842108421u64 << 2u64);
            let mask = (not_ovfl >> 1u64) | (not_ovfl >> 2u64);
            let r = ((a & !0x18c6318c63u64) | (sum & mask)) | ((ovfl >> 2u64) & sum1);
            let x = (a >> (5 * i)) & 3u64;
            let y = (b >> (5 * i)) & 3u64;
            &&& (r >> (5 * i)) & 3u64 == (if x + y < 3 { x + y } else { (x + y + 1) % 2 })
            &&& r & !0x18c6318c63u64 == a & !0x18c6318c63u64
        }),
{
}

/// Adds the eight corner orientations of `b` to those of `a`, field by field
/// (modulo 3 for orientations up to 2). The other bits of `a` stay as they are.
pub fn bitwise_add_mod_3(a: &mut u64, b: u64)
    ensures
        forall|i: u64|
            i < 8 ==> #[trigger] ori2(*final(a), i) == add3(ori2(*old(a), i), ori2(b, i)),
        *final(a) & !CORNER_ORI_MASK == *old(a) & !CORNER_ORI_MASK,
{
    let one: u64 = 0b_00001_00001_00001_00001_00001_00001_00001_00001;
    let input_mask: u64 = 0b_00011_00011_00011_00011_00011_00011_00011_00011;
    let a0 = *a;
    proof {
        lemma_add_mod_3_bits(a0, b, 0);
    }
    let ai = a0 & input_mask;
    let bi = b & input_mask;
    let sum = ai + bi;
    let sum1 = sum + one;
    let ovfl = sum1 & (one << 2);
    let not_ovfl = ovfl ^ (one << 2);
    let mask = (not_ovfl >> 1) | (not_ovfl >> 2);
    let r = ((a0 & !input_mask) | (sum & mask)) | ((ovfl >> 2) & sum1);
    assert forall|i: u64| i < 8 implies #[trigger] ori2(r, i) == add3(ori2(a0, i), ori2(b, i)) by {
        lemma_add_mod_3_bits(a0, b, i);
    }
    *a &= !input_mask;
    *a |= sum & mask;
    *a |= (ovfl >> 2) & sum1;
}

/// The word with the two orientation bits of each corner field swapped, which
/// negates each orientation modulo 3.
pub open spec fn neg_oris(w: u64) -> u64 {
    let ai = w & 0x18c6318c63u64;
    ((w & !0x18c6318c63u64) | ((ai >> 1u64) & 0x842108421u64)) | ((ai & 0x842108421u64) << 1u64)
}

/// The field-wise negation of orientations, as computed by `bitwise_inv_mod_3`.
pub proof fn lemma_inv_mod_3_bits(a: u64, i: u64)
    by (bit_vector)
    requires
        i < 8,
    ensures
        ({
            let ai = a & 0x18c6318c63u64;
            let r = ((a & !0x18c6318c63u64) | ((ai >> 1u64) & 0x842108421u64)) | ((ai
                & 0x842108421u64) << 1u64);
            let x = (a >> (5 * i)) & 3u64;
            &&& (r >> (5 * i)) & 3u64 == (((x >> 1u64) & 1u64) | ((x & 1u64) << 1u64))
            &&& r & !0x18c6318c63u64 == a & !0x18c6318c63u64
        }),
{
}

/// Negates the eight corner orientations of `a` modulo 3, field by field.
/// The other bits of `a` stay as they are.
pub fn bitwise_inv_mod_3(a: &mut u64)
    ensures
        *final(a) == neg_oris(*old(a)),
        forall|i: u64| i < 8 ==> #[trigger] ori2(*final(a), i) == inv3(ori2(*old(a), i)),
        *final(a) & !CORNER_ORI_MASK == *old(a) & !CORNER_ORI_MASK,
{
    let one: u64 = 0b_00001_00001_00001_00001_00001_00001_00001_00001;
    let input_mask: u64 = 0b_00011_00011_00011_00011_00011_00011_00011_00011;
    let a0 = *a;
    let ai = a0 & input_mask;
    let r = ((a0 & !input_mask) | ((ai >> 1) & one)) | ((ai & one) << 1);
    assert forall|i: u64| i < 8 implies #[trigger] ori2(r, i) == inv3(ori2(a0, i)) by {
        lemma_inv_mod_3_bits(a0, i);
    }
    proof {
        lemma_inv_mod_3_bits(a0, 0);
    }
    *a &= !input_mask;
    *a |= (ai >> 1) & one;
    *a |= (ai & one) << 1;
}

/// The 5-bit field `i` of `w`.
pub open spec fn field5(w: u64, i: u64) -> u64 {
    (w >> ((5 * i) as u64)) & 31u64
}

/// The parts of a 5-bit field: its top three and top four bits, its two and
/// one low bits.
pub proof fn lemma_field_parts(w: u64, i: u64)
    by (bit_vector)
    requires
        i < 16,
    ensures
        (w >> ((5 * i) as u64)) & 31u64 < 32,
        ((w >> ((5 * i) as u64)) & 31u64) >> 2u64 < 8,
        ((w >> ((5 * i) as u64)) & 31u64) >> 1u64 < 16,
        ((w >> ((5 * i) as u64)) & 31u64) & 3u64 < 4,
        ((w >> ((5 * i) as u64)) & 31u64) & 1u64 < 2,
        i < 13 ==> (w >> ((5 * i + 2) as u64)) & 7u64 == ((w >> ((5 * i) as u64)) & 31u64) >> 2u64,
        (w >> ((5 * i) as u64)) & 3u64 == ((w >> ((5 * i) as u64)) & 31u64) & 3u64,
        i < 13 ==> (w >> ((5 * i + 1) as u64)) & 15u64 == ((w >> ((5 * i) as u64)) & 31u64) >> 1u64,
        (w >> ((5 * i) as u64)) & 1u64 == ((w >> ((5 * i) as u64)) & 31u64) & 1u64,
{
}

/// Adding edge orientations modulo 2 flips the low bit of each of the twelve
/// fields and keeps the rest.
pub proof fn lemma_xor_edge_ones(x: u64, y: u64, i: u64)
    by (bit_vector)
    requires
        i < 12,
    ensures
        ((x ^ (y & 0x84210842108421u64)) >> ((5 * i) as u64)) & 31u64 == ((x >> ((5 * i) as u64)) & 31u64) ^ (((y >> ((5 * i) as u64)) & 31u64) & 1u64),
        (x ^ (y & 0x84210842108421u64)) >> 60u64 == x >> 60u64,
{
}

/// Outside the orientation bits, a word that agrees with another keeps its
/// fields' top bits and its bits from 40 on.
pub proof fn lemma_ori_masked(r: u64, c: u64, i: u64)
    by (bit_vector)
    requires
        r & !0x18c6318c63u64 == c & !0x18c6318c63u64,
        i < 8,
    ensures
        (r >> ((5 * i) as u64)) & 31u64 == (((c >> ((5 * i) as u64)) & 31u64) & 28u64) | ((r >> ((5 * i) as u64)) & 3u64),
        r >> 40u64 == c >> 40u64,
{
}

/// The word whose first `n` 5-bit fields are `f(0), .., f(n - 1)`, and whose
/// other bits are zero.
pub open spec fn pack5(f: spec_fn(u64) -> u64, n: nat) -> u64
    decreases n,
{
    if n == 0 {
        0
    } else {
        pack5(f, (n - 1) as nat) | (f((n - 1) as u64) << ((5 * (n - 1)) as u64))
    }
}

/// Writing a 5-bit value into an empty field sets that field and leaves the
/// lower fields as they were.
pub proof fn lemma_or_field(w: u64, v: u64, k: u64, j: u64)
    by (bit_vector)
    requires
        k < 12,
        v < 32,
        w >> ((5 * k) as u64) == 0,
    ensures
        (w | (v << ((5 * k) as u64))) >> ((5 * k + 5) as u64) == 0,
        ((w | (v << ((5 * k) as u64))) >> ((5 * k) as u64)) & 31u64 == v,
        j < k ==> ((w | (v << ((5 * k) as u64))) >> ((5 * j) as u64)) & 31u64 == (w >> ((5 * j) as u64)) & 31u64,
{
}

/// Small facts on the parts of a 5-bit field and on orientations.
pub proof fn lemma_small_fields(x: u64, y: u64)
    by (bit_vector)
    ensures
        0u64 >> 0u64 == 0,
        0u64 | x == x,
        0u64 >> 60u64 == 0 && 0u64 >> 40u64 == 0,
        x < 32 ==> x & 28u64 == (x >> 2u64) << 2u64,
        x < 32 ==> ((x >> 2u64) << 2u64) | (x & 3u64) == x,
        x < 32 ==> ((x >> 1u64) << 1u64) | (x & 1u64) == x,
        x < 32 && y < 4 ==> ((x & 28u64) | y) & 28u64 == x & 28u64,
        x < 32 && y < 2 ==> x ^ y == ((x >> 1u64) << 1u64) | ((x & 1u64) ^ y),
        x < 8 && y < 4 ==> (x << 2u64) | y < 32,
        x < 16 && y < 2 ==> (x << 1u64) | y < 32,
        x < 8 && y < 4 ==> ((x << 2u64) | y) >> 2u64 == x && ((x << 2u64) | y) & 3u64 == y,
        x < 16 && y < 2 ==> ((x << 1u64) | y) >> 1u64 == x && ((x << 1u64) | y) & 1u64 == y,
        x < 2 && y < 2 ==> x ^ y < 2,
        x < 2 ==> x ^ x == 0 && x ^ 0u64 == x && 0u64 ^ x == x,
        x < 3 ==> ((x >> 1u64) & 1u64) | ((x & 1u64) << 1u64) == (if x == 0 { 0 } else { 3 - x }),
        x < 2 && y < 2 ==> x ^ y == (if x == y { 0u64 } else { 1u64 }),
        ((x >> 1u64) & 1u64) | ((x & 1u64) << 1u64) < 4,
        x < 8 ==> (x << 2u64) >> 2u64 == x && (x << 2u64) & 3u64 == 0,
        x < 16 ==> (x << 1u64) >> 1u64 == x && (x << 1u64) & 1u64 == 0,
{
}

/// Facts on a word whose only bit above 40 may be the top one.
pub proof fn lemma_top_bit(m: u64, w: u64, k: u64, sm: u64, rm: u64)
    by (bit_vector)
    ensures
        (sm & (1u64 << 63u64)) ^ (rm & (1u64 << 63u64)) == (if ((sm >> 63u64) != 0) != ((rm
            >> 63u64) != 0) {
            0x8000000000000000u64
        } else {
            0u64
        }),
        sm & (1u64 << 63u64) == (if (sm >> 63u64) != 0 { 0x8000000000000000u64 } else { 0u64 }),
        sm & (1u64 << 63u64) == sm & 0x8000000000000000u64,
        (m == 0x8000000000000000u64 || m == 0) && k < 8 ==> ((m | w) >> ((5 * k) as u64)) & 31u64
            == (w >> ((5 * k) as u64)) & 31u64,
        (m == 0x8000000000000000u64 || m == 0) && w >> 40u64 == 0 ==> (m | w) >> 40u64 == m >> 40u64,
        m == 0x8000000000000000u64 ==> m >> 40u64 == 0x800000u64,
        m == 0 ==> m >> 40u64 == 0,
        (sm >> 40u64 == 0 || sm >> 40u64 == 0x800000u64) ==> (sm & 0x8000000000000000u64) >> 40u64 == sm >> 40u64,
        (m == 0x8000000000000000u64 || m == 0) && k < 12 ==> (m >> ((5 * k) as u64)) & 31u64 == 0,
        (w >> 40u64 == 0 || w >> 40u64 == 0x800000u64) ==> ((w >> 63u64 != 0) <==> (w >> 40u64
            == 0x800000u64)),
        sm & 0x8000000000000000u64 == (if (sm >> 63u64) != 0 { 0x8000000000000000u64 } else { 0u64 }),
        w >> 40u64 == 0 && (m == 0x8000000000000000u64 || m == 0) ==> ((m | w) >> 40u64 == 0 || (m
            | w) >> 40u64 == 0x800000u64),
{
}

/// Writing a corner and its orientation into the field `p`.
pub proof fn lemma_or_corner(w: u64, k: u64, o: u64, p: u64, q: u64)
    by (bit_vector)
    requires
        k < 8,
        o < 4,
        p < 8,
        q < 8,
    ensures
        p == q ==> (((w | (k << ((5 * p + 2) as u64))) | (o << ((5 * p) as u64))) >> ((5 * q) as u64)) & 31u64
            == ((w >> ((5 * q) as u64)) & 31u64) | ((k << 2u64) | o),
        p != q ==> (((w | (k << ((5 * p + 2) as u64))) | (o << ((5 * p) as u64))) >> ((5 * q) as u64)) & 31u64
            == (w >> ((5 * q) as u64)) & 31u64,
        ((w | (k << ((5 * p + 2) as u64))) | (o << ((5 * p) as u64))) >> 40u64 == w >> 40u64,
{
}

/// Writing an edge and its orientation into the field `p`.
pub proof fn lemma_or_edge(w: u64, k: u64, o: u64, p: u64, q: u64)
    by (bit_vector)
    requires
        k < 16,
        o < 2,
        p < 12,
        q < 12,
    ensures
        p == q ==> (((w | (k << ((5 * p + 1) as u64))) | (o << ((5 * p) as u64))) >> ((5 * q) as u64)) & 31u64
            == ((w >> ((5 * q) as u64)) & 31u64) | ((k << 1u64) | o),
        p != q ==> (((w | (k << ((5 * p + 1) as u64))) | (o << ((5 * p) as u64))) >> ((5 * q) as u64)) & 31u64
            == (w >> ((5 * q) as u64)) & 31u64,
        ((w | (k << ((5 * p + 1) as u64))) | (o << ((5 * p) as u64))) >> 60u64 == w >> 60u64,
{
}

/// The fields of a packed word are the packed values.
pub proof fn lemma_pack5(f: spec_fn(u64) -> u64, n: nat)
    requires
        n <= 12,
        forall|i: u64| i < n ==> #[trigger] f(i) < 32,
    ensures
        pack5(f, n) >> ((5 * n) as u64) == 0,
        forall|j: u64| j < n ==> #[trigger] field5(pack5(f, n), j) == f(j),
    decreases n,
{
    if n == 0 {
        lemma_small_fields(0, 0);
    } else {
        let k = (n - 1) as u64;
        lemma_pack5(f, (n - 1) as nat);
        let w = pack5(f, (n - 1) as nat);
        assert(f(k) < 32);
        lemma_or_field(w, f(k), k, 0);
        assert forall|j: u64| j < n implies #[trigger] field5(pack5(f, n), j) == f(j) by {
            lemma_or_field(w, f(k), k, j);
            if j < k {
                assert(field5(w, j) == f(j));
            }
        }
    }
}

/// Two words of corners are equal when their eight fields and their bits
/// from 40 on are.
pub proof fn lemma_corner_words_eq(a: u64, b: u64)
    requires
        forall|i: u64| i < 8 ==> #[trigger] field5(a, i) == field5(b, i),
        a >> 40u64 == b >> 40u64,
    ensures
        a == b,
{
    assert(field5(a, 0) == field5(b, 0));
    assert(field5(a, 1) == field5(b, 1));
    assert(field5(a, 2) == field5(b, 2));
    assert(field5(a, 3) == field5(b, 3));
    assert(field5(a, 4) == field5(b, 4));
    assert(field5(a, 5) == field5(b, 5));
    assert(field5(a, 6) == field5(b, 6));
    assert(field5(a, 7) == field5(b, 7));
    assert(a == b) by (bit_vector)
        requires
            (a >> 0u64) & 31u64 == (b >> 0u64) & 31u64,
            (a >> 5u64) & 31u64 == (b >> 5u64) & 31u64,
            (a >> 10u64) & 31u64 == (b >> 10u64) & 31u64,
            (a >> 15u64) & 31u64 == (b >> 15u64) & 31u64,
            (a >> 20u64) & 31u64 == (b >> 20u64) & 31u64,
            (a >> 25u64) & 31u64 == (b >> 25u64) & 31u64,
            (a >> 30u64) & 31u64 == (b >> 30u64) & 31u64,
            (a >> 35u64) & 31u64 == (b >> 35u64) & 31u64,
            a >> 40u64 == b >> 40u64,
    ;
}

/// Two words of edges are equal when their twelve fields and their bits
/// from 60 on are.
pub proof fn lemma_edge_words_eq(a: u64, b: u64)
    requires
        forall|i: u64| i < 12 ==> #[trigger] field5(a, i) == field5(b, i),
        a >> 60u64 == b >> 60u64,
    ensures
        a == b,
{
    assert(field5(a, 0) == field5(b, 0));
    assert(field5(a, 1) == field5(b, 1));
    assert(field5(a, 2) == field5(b, 2));
    assert(field5(a, 3) == field5(b, 3));
    assert(field5(a, 4) == field5(b, 4));
    assert(field5(a, 5) == field5(b, 5));
    assert(field5(a, 6) == field5(b, 6));
    assert(field5(a, 7) == field5(b, 7));
    assert(field5(a, 8) == field5(b, 8));
    assert(field5(a, 9) == field5(b, 9));
    assert(field5(a, 10) == field5(b, 10));
    assert(field5(a, 11) == field5(b, 11));
    assert(a == b) by (bit_vector)
        requires
            (a >> 0u64) & 31u64 == (b >> 0u64) & 31u64,
            (a >> 5u64) & 31u64 == (b >> 5u64) & 31u64,
            (a >> 10u64) & 31u64 == (b >> 10u64) & 31u64,
            (a >> 15u64) & 31u64 == (b >> 15u64) & 31u64,
            (a >> 20u64) & 31u64 == (b >> 20u64) & 31u64,
            (a >> 25u64) & 31u64 == (b >> 25u64) & 31u64,
            (a >> 30u64) & 31u64 == (b >> 30u64) & 31u64,
            (a >> 35u64) & 31u64 == (b >> 35u64) & 31u64,
            (a >> 40u64) & 31u64 == (b >> 40u64) & 31u64,
            (a >> 45u64) & 31u64 == (b >> 45u64) & 31u64,
            (a >> 50u64) & 31u64 == (b >> 50u64) & 31u64,
            (a >> 55u64) & 31u64 == (b >> 55u64) & 31u64,
            a >> 60u64 == b >> 60u64,
    ;
}

/// The memory representation of `x` in the byte order of the machine.
pub open spec fn native_bytes(x: u32) -> Seq<u8> {
    match endianness() {
        Endian::Little => spec_u32_to_le_bytes(x),
        Endian::Big => spec_u32_to_le_bytes(x).reverse(),
    }
}

/// The integer whose memory representation, in the byte order of the
/// machine, is `s`.
pub open spec fn from_native_bytes(s: Seq<u8>) -> u32 {
    match endianness() {
        Endian::Little => spec_u32_from_le_bytes(s),
        Endian::Big => spec_u32_from_le_bytes(s.reverse()),
    }
}

/// `u32::to_ne_bytes`: the memory representation of `x` as bytes in native
/// byte order (little-endian or big-endian, as the machine is).
#[verifier::external_body]
fn u32_to_ne_bytes(x: u32) -> (r: [u8; 4])
    ensures
        r@ == native_bytes(x),
{
    x.to_ne_bytes()
}

/// `u32::from_ne_bytes`: the integer whose native byte order representation
/// is `b`.
#[verifier::external_body]
fn u32_from_ne_bytes(b: [u8; 4]) -> (r: u32)
    ensures
        r == from_native_bytes(b@),
{
    u32::from_ne_bytes(b)
}

/// The concatenation of the native byte representations of the elements of `s`.
pub open spec fn serialized(s: Seq<u32>) -> Seq<u8>
    decreases s.len(),
{
    if s.len() == 0 {
        Seq::empty()
    } else {
        serialized(s.drop_last()) + native_bytes(s.last())
    }
}

/// Serializes an array of integers to bytes, in native byte order.
pub fn serialize_array(array: &[u32]) -> (buffer: Vec<u8>)
    ensures
        buffer@ == serialized(array@),
{
    let mut buffer: Vec<u8> = Vec::new();
    let mut i: usize = 0;
    while i < array.len()
        invariant
            i <= array.len(),
            buffer@ == serialized(array@.subrange(0, i as int)),
        decreases array.len() - i,
    {
        let bytes = u32_to_ne_bytes(array[i]);
        buffer.push(bytes[0]);
        buffer.push(bytes[1]);
        buffer.push(bytes[2]);
        buffer.push(bytes[3]);
        proof {
            let s = array@.subrange(0, i + 1);
            assert(s.drop_last() == array@.subrange(0, i as int));
            assert(bytes@ =~= seq![bytes[0], bytes[1], bytes[2], bytes[3]]);
        }
        i = i + 1;
    }
    assert(array@.subrange(0, array.len() as int) == array@);
    buffer
}

/// Deserializes the integers that `buffer` holds in native byte order; trailing
/// bytes that do not fill a whole integer are ignored.
pub fn deserialize_array(buffer: &[u8]) -> (array: Vec<u32>)
    ensures
        array.len() == buffer.len() / 4,
        forall|k: int|
            0 <= k < array.len() ==> #[trigger] array[k] == from_native_bytes(
                buffer@.subrange(4 * k, 4 * k + 4),
            ),
{
    let mut array: Vec<u32> = Vec::new();
    let n = buffer.len() / 4;
    let mut i: usize = 0;
    while i < n
        invariant
            n == buffer.len() / 4,
            i <= n,
            array.len() == i,
            forall|k: int|
                0 <= k < i ==> #[trigger] array[k] == from_native_bytes(
                    buffer@.subrange(4 * k, 4 * k + 4),
                ),
        decreases n - i,
    {
        let b = [buffer[4 * i], buffer[4 * i + 1], buffer[4 * i + 2], buffer[4 * i + 3]];
        assert(b@ =~= buffer@.subrange(4 * i as int, 4 * i as int + 4));
        array.push(u32_from_ne_bytes(b));
        i = i + 1;
    }
    array
}

/// Deserializing what was serialized gives back the original array.
pub proof fn lemma_serialize_roundtrip(s: Seq<u32>)
    ensures
        serialized(s).len() == 4 * s.len(),
        forall|k: int|
            0 <= k < s.len() ==> #[trigger] from_native_bytes(
                serialized(s).subrange(4 * k, 4 * k + 4),
            ) == s[k],
    decreases s.len(),
{
    vstd::bytes::lemma_auto_spec_u32_to_from_le_bytes();
    if s.len() > 0 {
        let p = s.drop_last();
        lemma_serialize_roundtrip(p);
        let whole = serialized(s);
        assert forall|k: int| 0 <= k < s.len() implies #[trigger] from_native_bytes(
            whole.subrange(4 * k, 4 * k + 4),
        ) == s[k] by {
            if k < p.len() {
                assert(whole.subrange(4 * k, 4 * k + 4) =~= serialized(p).subrange(
                    4 * k,
                    4 * k + 4,
                ));
                assert(p[k] == s[k]);
            } else {
                assert(whole.subrange(4 * k, 4 * k + 4) =~= native_bytes(s.last()));
                let le = spec_u32_to_le_bytes(s.last());
                assert(le.reverse().reverse() =~= le);
            }
        }
    }
}

/// The memory representation of the 16-bit `x` in the byte order of the
/// machine.
pub open spec fn native_bytes16(x: u16) -> Seq<u8> {
    match endianness() {
        Endian::Little => spec_u16_to_le_bytes(x),
        Endian::Big => spec_u16_to_le_bytes(x).reverse(),
    }
}

/// The 16-bit integer whose memory representation, in the byte order of the
/// machine, is `s`.
pub open spec fn from_native_bytes16(s: Seq<u8>) -> u16 {
    match endianness() {
        Endian::Little => spec_u16_from_le_bytes(s),
        Endian::Big => spec_u16_from_le_bytes(s.reverse()),
    }
}

/// `u16::to_ne_bytes`: the memory representation of `x` as bytes in native
/// byte order (little-endian or big-endian, as the machine is).
#[verifier::external_body]
fn u16_to_ne_bytes(x: u16) -> (r: [u8; 2])
    ensures
        r@ == native_bytes16(x),
{
    x.to_ne_bytes()
}

/// `u16::from_ne_bytes`: the integer whose native byte order representation
/// is `b`.
#[verifier::external_body]
fn u16_from_ne_bytes(b: [u8; 2]) -> (r: u16)
    ensures
        r == from_native_bytes16(b@),
{
    u16::from_ne_bytes(b)
}

/// The concatenation of the native byte representations of the 16-bit
/// elements of `s`.
pub open spec fn serialized16(s: Seq<u16>) -> Seq<u8>
    decreases s.len(),
{
    if s.len() == 0 {
        Seq::empty()
    } else {
        serialized16(s.drop_last()) + native_bytes16(s.last())
    }
}

/// Serializes an array of 16-bit integers to bytes, in native byte order.
pub fn serialize_array16(array: &[u16]) -> (buffer: Vec<u8>)
    ensures
        buffer@ == serialized16(array@),
{
    let mut buffer: Vec<u8> = Vec::new();
    let mut i: usize = 0;
    while i < array.len()
        invariant
            i <= array.len(),
            buffer@ == serialized16(array@.subrange(0, i as int)),
        decreases array.len() - i,
    {
        let bytes = u16_to_ne_bytes(array[i]);
        buffer.push(bytes[0]);
        buffer.push(bytes[1]);
        proof {
            let s = array@.subrange(0, i + 1);
            assert(s.drop_last() == array@.subrange(0, i as int));
            assert(bytes@ =~= seq![bytes[0], bytes[1]]);
        }
        i = i + 1;
    }
    assert(array@.subrange(0, array.len() as int) == array@);
    buffer
}

/// Deserializes the 16-bit integers that `buffer` holds in native byte
/// order; a trailing byte that does not fill a whole integer is ignored.
pub fn deserialize_array16(buffer: &[u8]) -> (array: Vec<u16>)
    ensures
        array.len() == buffer.len() / 2,
        forall|k: int|
            0 <= k < array.len() ==> #[trigger] array[k] == from_native_bytes16(
                buffer@.subrange(2 * k, 2 * k + 2),
            ),
{
    let mut array: Vec<u16> = Vec::new();
    let n = buffer.len() / 2;
    let mut i: usize = 0;
    while i < n
        invariant
            n == buffer.len() / 2,
            i <= n,
            array.len() == i,
            forall|k: int|
                0 <= k < i ==> #[trigger] array[k] == from_native_bytes16(
                    buffer@.subrange(2 * k, 2 * k + 2),
                ),
        decreases n - i,
    {
        let b = [buffer[2 * i], buffer[2 * i + 1]];
        assert(b@ =~= buffer@.subrange(2 * i as int, 2 * i as int + 2));
        array.push(u16_from_ne_bytes(b));
        i = i + 1;
    }
    array
}

/// Deserializing what was serialized gives back the original 16-bit array.
pub proof fn lemma_serialize16_roundtrip(s: Seq<u16>)
    ensures
        serialized16(s).len() == 2 * s.len(),
        forall|k: int|
            0 <= k < s.len() ==> #[trigger] from_native_bytes16(
                serialized16(s).subrange(2 * k, 2 * k + 2),
            ) == s[k],
    decreases s.len(),
{
    vstd::bytes::lemma_auto_spec_u16_to_from_le_bytes();
    if s.len() > 0 {
        let p = s.drop_last();
        lemma_serialize16_roundtrip(p);
        let whole = serialized16(s);
        assert forall|k: int| 0 <= k < s.len() implies #[trigger] from_native_bytes16(
            whole.subrange(2 * k, 2 * k + 2),
        ) == s[k] by {
            if k < p.len() {
                assert(whole.subrange(2 * k, 2 * k + 2) =~= serialized16(p).subrange(
                    2 * k,
                    2 * k + 2,
                ));
                assert(p[k] == s[k]);
            } else {
                assert(whole.subrange(2 * k, 2 * k + 2) =~= native_bytes16(s.last()));
                let le = spec_u16_to_le_bytes(s.last());
                assert(le.reverse().reverse() =~= le);
            }
        }
    }
}

} // verus!
