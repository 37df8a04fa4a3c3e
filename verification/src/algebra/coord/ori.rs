use vstd::prelude::*;
use vstd::arithmetic::div_mod::lemma_div_denominator;
use crate::cube_core::bits::{field5, pack5};
use crate::cube_core::state::{lemma_id_piece, sum_co, sum_eo, State};
use crate::permutation::{is_perm, lemma_sorted_inversions};

verus! {

/// `3` to the power `i`.
pub open spec fn pow3(i: nat) -> nat
    decreases i,
{
    if i == 0 {
        1
    } else {
        3 * pow3((i - 1) as nat)
    }
}

/// The orientations of the corners `i .. 7` of `s`, read as a number in base
/// 3 whose lowest digit is the orientation of corner `i`.
pub open spec fn co_value(s: State, i: nat) -> int
    decreases 7 - i,
{
    if i >= 7 {
        0
    } else {
        s.spec_co(i as u64) + 3 * co_value(s, i + 1)
    }
}

/// Digit `i` of `c` in base 3.
pub open spec fn co_digit(c: nat, i: nat) -> nat {
    (c / pow3(i)) % 3
}

/// The sum of the first `i` digits of `c` in base 3.
pub open spec fn co_digit_sum(c: nat, i: nat) -> nat
    decreases i,
{
    if i == 0 {
        0
    } else {
        co_digit_sum(c, (i - 1) as nat) + co_digit(c, (i - 1) as nat)
    }
}

/// The orientations that the code `c` gives to the first seven corners, one
/// 5-bit field each.
pub open spec fn co_fields(c: nat) -> u64 {
    pack5(|i: u64| co_digit(c, i as nat) as u64, 7)
}

/// The state whose corner orientations the code `c` gives: the first seven
/// are its digits in base 3, and the last one makes their sum a multiple of
/// 3; every piece is at its own place.
pub open spec fn co_sample(c: nat) -> State {
    State {
        corners: (State::spec_id().corners | co_fields(c)) | ((((300 - co_digit_sum(c, 7)) % 3) as u64)
            << 35u64),
        edges: State::spec_id().edges,
    }
}

/// The corner orientation coordinate: the orientations of the first seven
/// corners, in base 3 (the last one follows from them in a valid state).
#[derive(Debug, PartialEq, Eq, Clone, Copy, Structural)]
pub struct CO {
    coord: u16,
}

impl View for CO {
    type V = u16;

    closed spec fn view(&self) -> u16 {
        self.coord
    }
}

impl CO {
    /// The number of values of the coordinate, `3^7`.
    pub const NUM_RAW: u16 = 2187;

    /// The corner orientation coordinate of a state.
    pub fn from_state(state: &State) -> (r: Self)
        ensures
            r@ == co_value(*state, 0),
    {
        let mut coord: u16 = 0;
        let mut i: u8 = 7;
        while i > 0
            invariant
                i <= 7,
                coord == co_value(*state, i as nat),
                coord + 4 <= 4 * pow3((7 - i) as nat),
            decreases i,
        {
            i -= 1;
            let o = state.co(i);
            proof {
                assert(pow3((7 - i) as nat) == 3 * pow3((6 - i) as nat));
                assert(pow3(7) == 2187) by {
                    reveal_with_fuel(pow3, 8);
                }
                lemma_pow3_mono((6 - i) as nat, 6);
                assert(pow3(6) == 729) by {
                    reveal_with_fuel(pow3, 7);
                }
            }
            coord = coord * 3 + o as u16;
        }
        Self { coord }
    }

    /// The coordinate of value `repr`.
    pub fn from_coord(repr: u16) -> (r: Self)
        ensures
            r@ == repr,
    {
        Self { coord: repr }
    }

    /// The value of the coordinate.
    pub fn coord(&self) -> (r: u16)
        ensures
            r == self@,
    {
        self.coord
    }

    /// A state of this coordinate: its corner orientations are the digits of
    /// the coordinate in base 3, the last one making their sum a multiple of
    /// 3, and its pieces are in place.
    pub fn sample_state(&self) -> (r: State)
        ensures
            r == co_sample(self@ as nat),
            r.spec_valid(),
            self@ < 2187 ==> co_value(r, 0) == self@,
    {
        proof {
            lemma_co_sample_valid(self@ as nat);
            if self@ < 2187 {
                lemma_co_roundtrip(self@ as nat);
            }
        }
        let ghost c = self.coord as nat;
        let ghost f = |i: u64| co_digit(c, i as nat) as u64;
        let mut coord = self.coord;
        let mut oris: u64 = 0;
        let mut last_ori: u16 = 0;
        let mut i: u64 = 0;
        assert(c / pow3(0) == c) by {
            assert(pow3(0) == 1);
            vstd::arithmetic::div_mod::lemma_div_basics_2(c as int);
        }
        while i < 7
            invariant
                i <= 7,
                coord == c / pow3(i as nat),
                f == (|i: u64| co_digit(c, i as nat) as u64),
                oris == pack5(f, i as nat),
                last_ori == co_digit_sum(c, i as nat),
                last_ori <= 2 * i,
            decreases 7 - i,
        {
            let ori = coord % 3;
            proof {
                lemma_pow3_pos(i as nat);
                lemma_div_denominator(c as int, pow3(i as nat) as int, 3);
                assert(pow3(i as nat) * 3 == pow3((i + 1) as nat));
                assert(f(i) == ori);
            }
            oris |= (ori as u64) << (5 * i);
            last_ori += ori;
            coord /= 3;
            i += 1;
        }
        let corners = (State::ID().corners | oris) | ((((300 - last_ori) % 3) as u64) << 35);
        State { corners, edges: State::ID().edges }
    }
}

/// Powers of 3 are positive.
proof fn lemma_pow3_pos(i: nat)
    ensures
        pow3(i) > 0,
    decreases i,
{
    if i > 0 {
        lemma_pow3_pos((i - 1) as nat);
    }
}

/// Powers of 3 grow with the exponent.
proof fn lemma_pow3_mono(i: nat, j: nat)
    requires
        i <= j,
    ensures
        pow3(i) <= pow3(j),
    decreases j,
{
    if i < j {
        lemma_pow3_mono(i, (j - 1) as nat);
    }
}

/// The fields of a sample state: the orientation bits of its first seven
/// corners come from `b`, those of the last from `x`, and positions from `a`.
proof fn lemma_sample_corner_field(a: u64, b: u64, x: u64, i: u64)
    by (bit_vector)
    requires
        i < 8,
        x < 4,
        b >> 35u64 == 0,
        i < 7 ==> (b >> ((5 * i) as u64)) & 31u64 < 4,
        ((a >> ((5 * i) as u64)) & 31u64) & 3u64 == 0,
    ensures
        i < 7 ==> ((((a | b) | (x << 35u64)) >> ((5 * i) as u64)) & 31u64) & 3u64 == (b >> ((5 * i)
            as u64)) & 31u64,
        i == 7 ==> ((((a | b) | (x << 35u64)) >> ((5 * i) as u64)) & 31u64) & 3u64 == x,
        ((((a | b) | (x << 35u64)) >> ((5 * i) as u64)) & 31u64) >> 2u64 == ((a >> ((5 * i) as u64))
            & 31u64) >> 2u64,
        i == 7 ==> (b >> ((5 * i) as u64)) & 31u64 == 0,
{
}

/// The pieces of the sample state of the code `c`: the corners are in place,
/// with the digits of `c` as orientations, then the one that completes their
/// sum to a multiple of 3.
pub proof fn lemma_co_sample_pieces(c: nat)
    ensures
        forall|i: u64| i < 7 ==> #[trigger] co_sample(c).spec_co(i) == co_digit(c, i as nat),
        co_sample(c).spec_co(7) == (300 - co_digit_sum(c, 7)) % 3,
        forall|i: u64| i < 8 ==> #[trigger] co_sample(c).spec_cp(i) == i,
        co_sample(c).edges == State::spec_id().edges,
{
    let f = |i: u64| co_digit(c, i as nat) as u64;
    let s = co_sample(c);
    lemma_co_digit_sum_bound(c, 7);
    let x = ((300 - co_digit_sum(c, 7)) % 3) as u64;
    assert forall|j: u64| j < 7 implies #[trigger] f(j) < 32 by {
    }
    crate::cube_core::bits::lemma_pack5(f, 7);
    assert forall|i: u64| #![trigger s.spec_co(i)] #![trigger s.spec_cp(i)] i < 8 implies s.spec_co(i) == (if i < 7 {
        co_digit(c, i as nat) as u64
    } else {
        x
    }) && s.spec_cp(i) == i by {
        lemma_id_piece(i);
        if i < 7 {
            assert(field5(co_fields(c), i) == f(i));
        }
        lemma_sample_corner_field(State::spec_id().corners, co_fields(c), x, i);
    }
}

/// The digit sums stay small.
proof fn lemma_co_digit_sum_bound(c: nat, i: nat)
    ensures
        co_digit_sum(c, i) <= 2 * i,
    decreases i,
{
    if i > 0 {
        lemma_co_digit_sum_bound(c, (i - 1) as nat);
    }
}

/// Reading the digits back in base 3 from corner `i` on gives the code
/// divided by `3^i`.
proof fn lemma_co_value_sample(c: nat, i: nat)
    requires
        c < 2187,
        i <= 7,
    ensures
        co_value(co_sample(c), i) == c / pow3(i),
    decreases 7 - i,
{
    lemma_pow3_pos(i);
    if i == 7 {
        assert(pow3(7) == 2187) by {
            reveal_with_fuel(pow3, 8);
        }
        vstd::arithmetic::div_mod::lemma_basic_div(c as int, 2187);
    } else {
        lemma_co_value_sample(c, i + 1);
        lemma_co_sample_pieces(c);
        assert(co_sample(c).spec_co(i as u64) == co_digit(c, i));
        lemma_div_denominator(c as int, pow3(i) as int, 3);
        assert(pow3(i) * 3 == pow3(i + 1));
        let x = c / pow3(i);
        vstd::arithmetic::div_mod::lemma_fundamental_div_mod(x as int, 3);
    }
}

/// The coordinate of the sample state of a code is that code, for each of
/// the `3^7` codes.
pub proof fn lemma_co_roundtrip(c: nat)
    requires
        c < 2187,
    ensures
        co_value(co_sample(c), 0) == c,
{
    lemma_co_value_sample(c, 0);
    assert(pow3(0) == 1);
    vstd::arithmetic::div_mod::lemma_div_basics_2(c as int);
}

/// The coordinate stays below `3^7` when the corner orientations are at most
/// 2: from corner `i` on, it is below `3^(7 - i)`.
pub proof fn lemma_co_value_bound(s: State, i: nat)
    requires
        forall|j: u64| j < 7 ==> #[trigger] s.spec_co(j) <= 2,
        i <= 7,
    ensures
        0 <= co_value(s, i) < pow3((7 - i) as nat),
    decreases 7 - i,
{
    if i < 7 {
        lemma_co_value_bound(s, i + 1);
        assert(pow3((7 - i) as nat) == 3 * pow3((7 - (i + 1)) as nat));
    }
}

/// A state whose pieces are all in place, whose corner orientations are at
/// most 2 and sum up to a multiple of 3, and whose edge orientations sum up
/// to an even number, is valid.
pub proof fn lemma_in_place_valid(s: State)
    requires
        forall|i: u64| i < 8 ==> #[trigger] s.spec_cp(i) == i,
        forall|i: u64| i < 12 ==> #[trigger] s.spec_ep(i) == i,
        forall|i: u64| i < 8 ==> #[trigger] s.spec_co(i) <= 2,
        sum_co(s, 8) % 3 == 0,
        sum_eo(s, 12) % 2 == 0,
    ensures
        s.spec_valid(),
{
    let cp = s.corner_perm();
    let ep = s.edge_perm();
    assert forall|t: int| 0 <= t < cp.len() implies cp[t] == t by {
        assert(s.spec_cp(t as u64) == t);
    }
    assert forall|t: int| 0 <= t < ep.len() implies ep[t] == t by {
        assert(s.spec_ep(t as u64) == t);
    }
    lemma_sorted_inversions(cp);
    lemma_sorted_inversions(ep);
}

/// The sum of the first `n` edge orientations of a state whose edges are
/// those of the solved cube is 0.
pub proof fn lemma_id_edges_sum(s: State, n: nat)
    requires
        s.edges == State::spec_id().edges,
        n <= 12,
    ensures
        sum_eo(s, n) == 0,
        forall|i: u64| i < 12 ==> #[trigger] s.spec_ep(i) == i,
    decreases n,
{
    assert forall|i: u64| i < 12 implies #[trigger] s.spec_ep(i) == i by {
        lemma_id_piece(i);
    }
    if n > 0 {
        lemma_id_edges_sum(s, (n - 1) as nat);
        lemma_id_piece((n - 1) as u64);
    }
}

/// The sum of the first `i` corner orientations of a sample state is the sum
/// of the first `i` digits of its code.
proof fn lemma_co_sample_sum(c: nat, i: nat)
    requires
        i <= 7,
    ensures
        sum_co(co_sample(c), i) == co_digit_sum(c, i),
    decreases i,
{
    if i > 0 {
        lemma_co_sample_sum(c, (i - 1) as nat);
        lemma_co_sample_pieces(c);
        assert(co_sample(c).spec_co((i - 1) as u64) == co_digit(c, (i - 1) as nat));
    }
}

/// The sample state of every code is valid.
pub proof fn lemma_co_sample_valid(c: nat)
    ensures
        co_sample(c).spec_valid(),
{
    let s = co_sample(c);
    lemma_co_sample_pieces(c);
    lemma_co_sample_sum(c, 7);
    lemma_co_digit_sum_bound(c, 7);
    lemma_id_edges_sum(s, 12);
    let t = co_digit_sum(c, 7);
    assert(sum_co(s, 8) == t + (300 - t) % 3);
    assert((t + (300 - t) % 3) % 3 == 0) by (nonlinear_arith)
        requires
            t <= 14,
    ;
    assert forall|i: u64| i < 8 implies #[trigger] s.spec_co(i) <= 2 by {
        if i < 7 {
            assert(s.spec_co(i) == co_digit(c, i as nat));
        }
    }
    lemma_in_place_valid(s);
}

/// The orientations of the first `n` edges of `s`, as the low `n` bits of a
/// number, edge `i` in bit `i`.
pub open spec fn eo_bits(s: State, n: nat) -> u16
    decreases n,
{
    if n == 0 {
        0
    } else {
        eo_bits(s, (n - 1) as nat) | (((s.spec_eo((n - 1) as u64) as u16) << ((n - 1) as u16)) as u16)
    }
}

/// Bit `i` of `c`.
pub open spec fn eo_digit(c: u16, i: nat) -> u16 {
    (c >> (i as u16)) & 1u16
}

/// The exclusive or of the first `n` bits of `c`.
pub open spec fn eo_parity(c: u16, n: nat) -> u16
    decreases n,
{
    if n == 0 {
        0
    } else {
        eo_parity(c, (n - 1) as nat) ^ eo_digit(c, (n - 1) as nat)
    }
}

/// The orientations that the code `c` gives to the first eleven edges, one
/// 5-bit field each.
pub open spec fn eo_fields(c: u16) -> u64 {
    pack5(|i: u64| eo_digit(c, i as nat) as u64, 11)
}

/// The state whose edge orientations the code `c` gives: the first eleven are
/// its bits, and the last one makes their sum even; every piece is in place.
pub open spec fn eo_sample(c: u16) -> State {
    State {
        corners: State::spec_id().corners,
        edges: (State::spec_id().edges | eo_fields(c)) | ((eo_parity(c, 11) as u64) << 55u64),
    }
}

/// The edge orientation coordinate: the orientations of the first eleven
/// edges, one bit each (the last one follows from them in a valid state).
#[derive(Debug, PartialEq, Eq, Clone, Copy, Structural)]
pub struct EO {
    coord: u16,
}

impl View for EO {
    type V = u16;

    closed spec fn view(&self) -> u16 {
        self.coord
    }
}

impl EO {
    /// The number of values of the coordinate, `2^11`.
    pub const NUM_RAW: u16 = 2048;

    /// The edge orientation coordinate of a state.
    pub fn from_state(state: &State) -> (r: Self)
        ensures
            r@ == eo_bits(*state, 11),
    {
        let mut coord: u16 = 0;
        let mut i: u8 = 0;
        while i < 11
            invariant
                i <= 11,
                coord == eo_bits(*state, i as nat),
            decreases 11 - i,
        {
            coord |= (state.eo(i) as u16) << (i as u16);
            i += 1;
        }
        Self { coord }
    }

    /// The coordinate of value `repr`.
    pub fn from_coord(repr: u16) -> (r: Self)
        ensures
            r@ == repr,
    {
        Self { coord: repr }
    }

    /// The value of the coordinate.
    pub fn coord(&self) -> (r: u16)
        ensures
            r == self@,
    {
        self.coord
    }

    /// A state of this coordinate: its edge orientations are the bits of the
    /// coordinate, the last one making their sum even, and its pieces are in
    /// place.
    pub fn sample_state(&self) -> (r: State)
        ensures
            r == eo_sample(self@),
            r.spec_valid(),
            self@ < 2048 ==> eo_bits(r, 11) == self@,
    {
        proof {
            lemma_eo_sample_valid(self@);
            if self@ < 2048 {
                lemma_eo_roundtrip(self@);
            }
        }
        let ghost f = |i: u64| eo_digit(self.coord, i as nat) as u64;
        let mut flips: u64 = 0;
        let mut last_ori: u16 = 0;
        let mut i: u64 = 0;
        while i < 11
            invariant
                i <= 11,
                f == (|i: u64| eo_digit(self.coord, i as nat) as u64),
                flips == pack5(f, i as nat),
                last_ori == eo_parity(self.coord, i as nat),
            decreases 11 - i,
        {
            let ori = (self.coord >> (i as u16)) & 1;
            proof {
                assert(f(i) == ori);
            }
            flips |= (ori as u64) << (5 * i);
            last_ori ^= ori;
            i += 1;
        }
        let edges = (State::ID().edges | flips) | ((last_ori as u64) << 55);
        State { corners: State::ID().corners, edges }
    }
}

/// Facts on bits of 16-bit numbers.
proof fn lemma_bits16(c: u16, x: u16, b: u16, n: u16)
    by (bit_vector)
    requires
        n < 11,
    ensures
        (c >> n) & 1u16 < 2,
        x < 2 && b < 2 ==> x ^ b < 2,
        x < 2 && b < 2 ==> x ^ b == (if x == b { 0u16 } else { 1u16 }),
        (c & (((1u16 << n) - 1u16) as u16)) | ((((c >> n) & 1u16) << n) as u16) == c & (((1u16 << ((n
            + 1) as u16)) - 1u16) as u16),
        c < 2048 ==> c & (((1u16 << 11u16) - 1u16) as u16) == c,
        c & (((1u16 << 0u16) - 1u16) as u16) == 0,
        x < (1u16 << n) && b < 2 ==> x | ((b << n) as u16) < (1u16 << ((n + 1) as u16)),
        0u16 < (1u16 << 0u16),
{
}

/// The fields of a sample state: the orientation bits of its first eleven
/// edges come from `b`, that of the last from `x`, and positions from `a`.
proof fn lemma_sample_edge_field(a: u64, b: u64, x: u64, i: u64)
    by (bit_vector)
    requires
        i < 12,
        x < 2,
        b >> 55u64 == 0,
        i < 11 ==> (b >> ((5 * i) as u64)) & 31u64 < 2,
        ((a >> ((5 * i) as u64)) & 31u64) & 1u64 == 0,
    ensures
        i < 11 ==> ((((a | b) | (x << 55u64)) >> ((5 * i) as u64)) & 31u64) & 1u64 == (b >> ((5 * i)
            as u64)) & 31u64,
        i == 11 ==> ((((a | b) | (x << 55u64)) >> ((5 * i) as u64)) & 31u64) & 1u64 == x,
        ((((a | b) | (x << 55u64)) >> ((5 * i) as u64)) & 31u64) >> 1u64 == ((a >> ((5 * i) as u64))
            & 31u64) >> 1u64,
{
}

/// The pieces of the sample state of the code `c`: the edges are in place,
/// with the bits of `c` as orientations, then the one that makes their sum
/// even; the corners are those of the solved cube.
pub proof fn lemma_eo_sample_pieces(c: u16)
    ensures
        forall|i: u64| i < 11 ==> #[trigger] eo_sample(c).spec_eo(i) == eo_digit(c, i as nat),
        eo_sample(c).spec_eo(11) == eo_parity(c, 11),
        forall|i: u64| i < 12 ==> #[trigger] eo_sample(c).spec_ep(i) == i,
        eo_sample(c).corners == State::spec_id().corners,
{
    let f = |i: u64| eo_digit(c, i as nat) as u64;
    let s = eo_sample(c);
    lemma_eo_parity_bit(c, 11);
    let x = eo_parity(c, 11) as u64;
    assert forall|j: u64| j < 11 implies #[trigger] f(j) < 32 by {
        lemma_bits16(c, 0, 0, j as u16);
    }
    crate::cube_core::bits::lemma_pack5(f, 11);
    assert forall|i: u64| #![trigger s.spec_eo(i)] #![trigger s.spec_ep(i)] i < 12 implies s.spec_eo(i)
        == (if i < 11 {
        eo_digit(c, i as nat) as u64
    } else {
        x
    }) && s.spec_ep(i) == i by {
        lemma_id_piece(i);
        if i < 11 {
            assert(field5(eo_fields(c), i) == f(i));
            lemma_bits16(c, 0, 0, i as u16);
        }
        lemma_sample_edge_field(State::spec_id().edges, eo_fields(c), x, i);
    }
}

/// The parity of the bits is a bit.
proof fn lemma_eo_parity_bit(c: u16, n: nat)
    requires
        n <= 11,
    ensures
        eo_parity(c, n) < 2,
    decreases n,
{
    if n > 0 {
        lemma_eo_parity_bit(c, (n - 1) as nat);
        lemma_bits16(c, eo_parity(c, (n - 1) as nat), eo_digit(c, (n - 1) as nat), (n - 1) as u16);
    }
}

/// Reading the bits back: the first `n` edge orientations of the sample state
/// of `c` are the low `n` bits of `c`.
proof fn lemma_eo_bits_sample(c: u16, n: nat)
    requires
        n <= 11,
    ensures
        eo_bits(eo_sample(c), n) == c & (((1u16 << (n as u16)) - 1u16) as u16),
    decreases n,
{
    if n == 0 {
        lemma_bits16(c, 0, 0, 0);
    } else {
        let k = (n - 1) as nat;
        lemma_eo_bits_sample(c, k);
        lemma_eo_sample_pieces(c);
        assert(eo_sample(c).spec_eo(k as u64) == eo_digit(c, k));
        lemma_bits16(c, 0, 0, k as u16);
    }
}

/// The coordinate of the sample state of a code is that code, for each of
/// the `2^11` codes.
pub proof fn lemma_eo_roundtrip(c: u16)
    requires
        c < 2048,
    ensures
        eo_bits(eo_sample(c), 11) == c,
{
    lemma_eo_bits_sample(c, 11);
    lemma_bits16(c, 0, 0, 0);
}

/// The coordinate of any state is below `2^11`: the first `n` bits are below
/// `2^n`.
pub proof fn lemma_eo_bits_bound(s: State, n: nat)
    requires
        n <= 11,
    ensures
        eo_bits(s, n) < (1u16 << (n as u16)),
    decreases n,
{
    if n == 0 {
        lemma_bits16(0, 0, 0, 0);
    } else {
        let k = (n - 1) as nat;
        lemma_eo_bits_bound(s, k);
        crate::cube_core::bits::lemma_field_parts(s.edges, k as u64);
        lemma_bits16(0, eo_bits(s, k), s.spec_eo(k as u64) as u16, k as u16);
    }
}

/// The sum of the first `n` edge orientations of the sample state of `c` has
/// the parity of its first `n` bits.
proof fn lemma_eo_sample_sum(c: u16, n: nat)
    requires
        n <= 11,
    ensures
        sum_eo(eo_sample(c), n) % 2 == eo_parity(c, n),
    decreases n,
{
    if n > 0 {
        let k = (n - 1) as nat;
        lemma_eo_sample_sum(c, k);
        lemma_eo_sample_pieces(c);
        lemma_eo_parity_bit(c, k);
        lemma_bits16(c, eo_parity(c, k), eo_digit(c, k), k as u16);
        assert(eo_sample(c).spec_eo(k as u64) == eo_digit(c, k));
    }
}

/// The sum of the first `n` corner orientations of a state whose corners are
/// those of the solved cube is 0.
pub proof fn lemma_id_corners_sum(s: State, n: nat)
    requires
        s.corners == State::spec_id().corners,
        n <= 8,
    ensures
        sum_co(s, n) == 0,
        forall|i: u64| i < 8 ==> #[trigger] s.spec_cp(i) == i,
        forall|i: u64| i < 8 ==> #[trigger] s.spec_co(i) == 0,
    decreases n,
{
    assert forall|i: u64| #![trigger s.spec_cp(i)] #![trigger s.spec_co(i)] i < 8 implies s.spec_cp(i) == i && s.spec_co(i) == 0 by {
        lemma_id_piece(i);
    }
    if n > 0 {
        lemma_id_corners_sum(s, (n - 1) as nat);
        lemma_id_piece((n - 1) as u64);
    }
}

/// The sample state of every code is valid.
pub proof fn lemma_eo_sample_valid(c: u16)
    ensures
        eo_sample(c).spec_valid(),
{
    let s = eo_sample(c);
    lemma_eo_sample_pieces(c);
    lemma_eo_sample_sum(c, 11);
    lemma_eo_parity_bit(c, 11);
    lemma_id_corners_sum(s, 8);
    assert(sum_eo(s, 12) == sum_eo(s, 11) + s.spec_eo(11));
    assert forall|i: u64| i < 8 implies #[trigger] s.spec_co(i) <= 2 by {
        assert(s.spec_co(i) == 0);
    }
    lemma_in_place_valid(s);
}

} // verus!
