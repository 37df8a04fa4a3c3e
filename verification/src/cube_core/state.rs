use vstd::prelude::*;
use crate::cube_core::bits::{
    self, add3, field5, inv3, lemma_corner_words_eq, lemma_edge_words_eq, lemma_field_parts,
    lemma_ori_masked, lemma_or_corner, lemma_or_edge, lemma_pack5, lemma_small_fields, lemma_top_bit, ori2, pack5,
};
use crate::cube_core::moves::Move;
use crate::permutation::{
    bytes_as_ints, covers_range, inversions, is_even_array, is_even_perm, is_perm, lemma_covers_perm,
    lemma_inversions_swap, lemma_misplaced_swap, lemma_perm_covers, lemma_sorted_inversions,
    lemma_swap_perm, misplaced,
    swap_seq,
};

verus! {

/// A state of the cube, as the position and orientation of each piece.
///
/// Each corner takes 5 bits in `corners`: its position (3 bits, the high ones)
/// and its orientation (2 bits). Corner `i` starts at bit `5 * i`. The most
/// significant bit of `corners` marks a mirrored state, in which corner
/// orientations count the other way round.
///
/// Each edge takes 5 bits in `edges`: its position (4 bits) and its
/// orientation (1 bit). Edge `i` starts at bit `5 * i`.
#[derive(PartialEq, Eq, PartialOrd, Ord, Clone, Copy, Hash, Debug, Structural)]
pub struct State {
    pub corners: u64,
    pub edges: u64,
}

/// The state reached from the solved cube by the face turn of index `i`
/// (see `Move::BASIC_MOVES`).
pub open spec fn basic_state(i: int) -> State {
    if i == 0 {
        State { corners: 0xe229860090, edges: 0xb224c7515031040 }
    } else if i == 1 {
        State { corners: 0xe428066088, edges: 0xb32487415431040 }
    } else if i == 2 {
        State { corners: 0xe028864098, edges: 0xb42547214c31040 }
    } else if i == 3 {
        State { corners: 0xa6090e2180, edges: 0x75150932c831040 }
    } else if i == 4 {
        State { corners: 0x6639022280, edges: 0x551d0b324831040 }
    } else if i == 5 {
        State { corners: 0x26190a2380, edges: 0x952d0531c831040 }
    } else if i == 6 {
        State { corners: 0xe6241622a6, edges: 0xb50a17314834453 }
    } else if i == 7 {
        State { corners: 0xe60d562032, edges: 0xb50257314834c51 }
    } else if i == 8 {
        State { corners: 0xe600462214, edges: 0xb52127314830044 }
    } else if i == 9 {
        State { corners: 0x6fa9056480, edges: 0x19e5073148b92a0 }
    } else if i == 10 {
        State { corners: 0xcaa90f3480, edges: 0x38e5073148a92e0 }
    } else if i == 11 {
        State { corners: 0x43290c7080, edges: 0xa5a5073148110c0 }
    } else if i == 12 {
        State { corners: 0xe62902b849, edges: 0xb52507300231148 }
    } else if i == 13 {
        State { corners: 0xe6290489c5, edges: 0xb5250730403110a }
    } else if i == 14 {
        State { corners: 0xe62900110c, edges: 0xb52507310a31002 }
    } else if i == 15 {
        State { corners: 0xd47b662080, edges: 0xb52503114863840 }
    } else if i == 16 {
        State { corners: 0xb763a62080, edges: 0xb52502194873040 }
    } else if i == 17 {
        State { corners: 0x8531c62080, edges: 0xb52506394821840 }
    } else {
        State::spec_id()
    }
}


/// The corners of `s` written at their own positions: corner `k` (with its
/// orientation) goes to the field `s.cp(k)`, for each `k < n`, over `base`.
pub open spec fn scatter_corners(s: State, n: nat, base: u64) -> u64
    decreases n,
{
    if n == 0 {
        base
    } else {
        let k = (n - 1) as u64;
        let p = s.spec_cp(k);
        (scatter_corners(s, (n - 1) as nat, base) | (k << ((5 * p + 2) as u64))) | (s.spec_co(k)
            << ((5 * p) as u64))
    }
}

/// The edges of `s` written at their own positions: edge `k` (with its
/// orientation) goes to the field `s.ep(k)`, for each `k < n`, over `base`.
pub open spec fn scatter_edges(s: State, n: nat, base: u64) -> u64
    decreases n,
{
    if n == 0 {
        base
    } else {
        let k = (n - 1) as u64;
        let p = s.spec_ep(k);
        (scatter_edges(s, (n - 1) as nat, base) | (k << ((5 * p + 1) as u64))) | (s.spec_eo(k)
            << ((5 * p) as u64))
    }
}


/// The sum of the orientations of the corners `0 .. n`.
pub open spec fn sum_co(s: State, n: nat) -> int
    decreases n,
{
    if n == 0 {
        0
    } else {
        sum_co(s, (n - 1) as nat) + s.spec_co((n - 1) as u64)
    }
}

/// The sum of the orientations of the edges `0 .. n`.
pub open spec fn sum_eo(s: State, n: nat) -> int
    decreases n,
{
    if n == 0 {
        0
    } else {
        sum_eo(s, (n - 1) as nat) + s.spec_eo((n - 1) as u64)
    }
}

/// The 5-bit field of corner `i` in the product `a * b`.
pub open spec fn product_corner(a: State, b: State, i: u64) -> u64 {
    let j = b.spec_cp(i);
    let o = a.spec_co(j);
    (a.spec_cp(j) << 2u64) | add3(
        if b.spec_mirrored() {
            inv3(o)
        } else {
            o
        },
        b.spec_co(i),
    )
}

/// The 5-bit field of edge `i` in the product `a * b`.
pub open spec fn product_edge(a: State, b: State, i: u64) -> u64 {
    let j = b.spec_ep(i);
    (a.spec_ep(j) << 1u64) | (a.spec_eo(j) ^ b.spec_eo(i))
}

impl State {
    /// The position of corner `i`.
    pub open spec fn spec_cp(self, i: u64) -> u64 {
        field5(self.corners, i) >> 2u64
    }

    /// The orientation of corner `i`.
    pub open spec fn spec_co(self, i: u64) -> u64 {
        field5(self.corners, i) & 3u64
    }

    /// The position of edge `i`.
    pub open spec fn spec_ep(self, i: u64) -> u64 {
        field5(self.edges, i) >> 1u64
    }

    /// The orientation of edge `i`.
    pub open spec fn spec_eo(self, i: u64) -> u64 {
        field5(self.edges, i) & 1u64
    }

    pub open spec fn spec_mirrored(self) -> bool {
        (self.corners >> 63u64) != 0
    }

    /// The solved cube.
    pub open spec fn spec_id() -> State {
        State { corners: 0xe629062080, edges: 0xb52507314831040 }
    }

    /// The product `self * rhs`: the state reached by applying `self`, then
    /// `rhs`. Corner `i` of the product is the corner of `self` at the
    /// position `rhs.cp(i)`, with the orientation of `rhs` added (and the one
    /// of `self` negated when `rhs` is mirrored); likewise for edges, modulo 2.
    pub open spec fn spec_mul(self, rhs: State) -> State {
        State {
            corners: (if self.spec_mirrored() != rhs.spec_mirrored() {
                0x8000000000000000u64
            } else {
                0u64
            }) | pack5(|i: u64| product_corner(self, rhs, i), 8),
            edges: pack5(|i: u64| product_edge(self, rhs, i), 12),
        }
    }

    /// The inverse state: each piece goes back to where it came from, with its
    /// orientation negated (corner orientations are kept in a mirrored state,
    /// whose mirror bit is kept).
    pub open spec fn spec_inv(self) -> State {
        let sc = scatter_corners(self, 8, self.corners & 0x8000000000000000u64);
        State {
            corners: if self.spec_mirrored() {
                sc
            } else {
                bits::neg_oris(sc)
            },
            edges: scatter_edges(self, 12, 0),
        }
    }

    /// The corner positions, as a sequence.
    pub open spec fn corner_perm(self) -> Seq<int> {
        Seq::new(8, |i: int| self.spec_cp(i as u64) as int)
    }

    /// The edge positions, as a sequence.
    pub open spec fn edge_perm(self) -> Seq<int> {
        Seq::new(12, |i: int| self.spec_ep(i as u64) as int)
    }

    /// Whether this state can be reached from the solved cube: corner
    /// orientations are at most 2 and sum up to 0 modulo 3, edge orientations
    /// sum up to 0 modulo 2, corners and edges are permuted, and both
    /// permutations are even or both odd.
    pub open spec fn spec_valid(self) -> bool {
        &&& forall|i: u64| i < 8 ==> #[trigger] self.spec_co(i) <= 2
        &&& sum_co(self, 8) % 3 == 0
        &&& sum_eo(self, 12) % 2 == 0
        &&& is_perm(self.corner_perm())
        &&& is_perm(self.edge_perm())
        &&& is_even_perm(self.corner_perm()) == is_even_perm(self.edge_perm())
    }

    /// Whether every corner orientation is below 3, every edge position below
    /// 12, and no bit is set outside the pieces' fields but the mirror bit.
    pub open spec fn spec_tidy(self) -> bool {
        &&& forall|i: u64| i < 8 ==> #[trigger] self.spec_co(i) < 3
        &&& forall|i: u64| i < 12 ==> #[trigger] self.spec_ep(i) < 12
        &&& (self.corners >> 40u64 == 0 || self.corners >> 40u64 == 0x800000u64)
        &&& self.edges >> 60u64 == 0
    }

    /// A tidy state whose corner and edge positions are permutations: an
    /// element of the cube group (extended by mirroring).
    pub open spec fn spec_well_formed(self) -> bool {
        &&& self.spec_tidy()
        &&& is_perm(self.corner_perm())
        &&& is_perm(self.edge_perm())
    }

    /// Whether every edge position of the state can be looked up, which the
    /// product needs of its right operand.
    pub open spec fn edges_addressable(self) -> bool {
        forall|i: u64| i < 12 ==> #[trigger] self.spec_ep(i) <= 12
    }

    /// The state of a solved cube.
    #[allow(non_snake_case)]
    pub fn ID() -> (r: Self)
        ensures
            r == State::spec_id(),
    {
        Self {
            corners: 0b_11100_11000_10100_10000_01100_01000_00100_00000,
            edges: 0b_10110_10100_10010_10000_01110_01100_01010_01000_00110_00100_00010_00000,
        }
    }

    /// The state reached from the solved cube by the face turn `L`.
    #[allow(non_snake_case)]
    pub fn L() -> (r: Self)
        ensures
            r == basic_state(0),
    {
        Self {
            corners: 0b_11100_01000_10100_11000_01100_00000_00100_10000,
            edges: 0b_10110_01000_10010_01100_01110_10100_01010_10000_00110_00100_00010_00000,
        }
    }

    /// The state reached from the solved cube by the face turn `L'`.
    #[allow(non_snake_case)]
    pub fn L_() -> (r: Self)
        ensures
            r == basic_state(1),
    {
        Self {
            corners: 0b_11100_10000_10100_00000_01100_11000_00100_01000,
            edges: 0b_10110_01100_10010_01000_01110_10000_01010_10100_00110_00100_00010_00000,
        }
    }

    /// The state reached from the solved cube by the face turn `L2`.
    #[allow(non_snake_case)]
    pub fn L2() -> (r: Self)
        ensures
            r == basic_state(2),
    {
        Self {
            corners: 0b_11100_00000_10100_01000_01100_10000_00100_11000,
            edges: 0b_10110_10000_10010_10100_01110_01000_01010_01100_00110_00100_00010_00000,
        }
    }

    /// The state reached from the solved cube by the face turn `R`.
    #[allow(non_snake_case)]
    pub fn R() -> (r: Self)
        ensures
            r == basic_state(3),
    {
        Self {
            corners: 0b_10100_11000_00100_10000_11100_01000_01100_00000,
            edges: 0b_01110_10100_01010_10000_10010_01100_10110_01000_00110_00100_00010_00000,
        }
    }

    /// The state reached from the solved cube by the face turn `R'`.
    #[allow(non_snake_case)]
    pub fn R_() -> (r: Self)
        ensures
            r == basic_state(4),
    {
        Self {
            corners: 0b_01100_11000_11100_10000_00100_01000_10100_00000,
            edges: 0b_01010_10100_01110_10000_10110_01100_10010_01000_00110_00100_00010_00000,
        }
    }

    /// The state reached from the solved cube by the face turn `R2`.
    #[allow(non_snake_case)]
    pub fn R2() -> (r: Self)
        ensures
            r == basic_state(5),
    {
        Self {
            corners: 0b_00100_11000_01100_10000_10100_01000_11100_00000,
            edges: 0b_10010_10100_10110_10000_01010_01100_01110_01000_00110_00100_00010_00000,
        }
    }

    /// The state reached from the solved cube by the face turn `D`.
    #[allow(non_snake_case)]
    pub fn D() -> (r: Self)
        ensures
            r == basic_state(6),
    {
        Self {
            corners: 0b_11100_11000_10010_00001_01100_01000_10101_00110,
            edges: 0b_10110_10100_00101_00001_01110_01100_01010_01000_00110_10001_00010_10011,
        }
    }

    /// The state reached from the solved cube by the face turn `D'`.
    #[allow(non_snake_case)]
    pub fn D_() -> (r: Self)
        ensures
            r == basic_state(7),
    {
        Self {
            corners: 0b_11100_11000_00110_10101_01100_01000_00001_10010,
            edges: 0b_10110_10100_00001_00101_01110_01100_01010_01000_00110_10011_00010_10001,
        }
    }

    /// The state reached from the solved cube by the face turn `D2`.
    #[allow(non_snake_case)]
    pub fn D2() -> (r: Self)
        ensures
            r == basic_state(8),
    {
        Self {
            corners: 0b_11100_11000_00000_00100_01100_01000_10000_10100,
            edges: 0b_10110_10100_10000_10010_01110_01100_01010_01000_00110_00000_00010_00100,
        }
    }

    /// The state reached from the solved cube by the face turn `U`.
    #[allow(non_snake_case)]
    pub fn U() -> (r: Self)
        ensures
            r == basic_state(9),
    {
        Self {
            corners: 0b_01101_11110_10100_10000_01010_11001_00100_00000,
            edges: 0b_00011_00111_10010_10000_01110_01100_01010_01000_10111_00100_10101_00000,
        }
    }

    /// The state reached from the solved cube by the face turn `U'`.
    #[allow(non_snake_case)]
    pub fn U_() -> (r: Self)
        ensures
            r == basic_state(10),
    {
        Self {
            corners: 0b_11001_01010_10100_10000_11110_01101_00100_00000,
            edges: 0b_00111_00011_10010_10000_01110_01100_01010_01000_10101_00100_10111_00000,
        }
    }

    /// The state reached from the solved cube by the face turn `U2`.
    #[allow(non_snake_case)]
    pub fn U2() -> (r: Self)
        ensures
            r == basic_state(11),
    {
        Self {
            corners: 0b_01000_01100_10100_10000_11000_11100_00100_00000,
            edges: 0b_10100_10110_10010_10000_01110_01100_01010_01000_00010_00100_00110_00000,
        }
    }

    /// The state reached from the solved cube by the face turn `B`.
    #[allow(non_snake_case)]
    pub fn B() -> (r: Self)
        ensures
            r == basic_state(12),
    {
        Self {
            corners: 0b_11100_11000_10100_10000_00101_01110_00010_01001,
            edges: 0b_10110_10100_10010_10000_01110_01100_00000_00010_00110_00100_01010_01000,
        }
    }

    /// The state reached from the solved cube by the face turn `B'`.
    #[allow(non_snake_case)]
    pub fn B_() -> (r: Self)
        ensures
            r == basic_state(13),
    {
        Self {
            corners: 0b_11100_11000_10100_10000_01001_00010_01110_00101,
            edges: 0b_10110_10100_10010_10000_01110_01100_00010_00000_00110_00100_01000_01010,
        }
    }

    /// The state reached from the solved cube by the face turn `B2`.
    #[allow(non_snake_case)]
    pub fn B2() -> (r: Self)
        ensures
            r == basic_state(14),
    {
        Self {
            corners: 0b_11100_11000_10100_10000_00000_00100_01000_01100,
            edges: 0b_10110_10100_10010_10000_01110_01100_01000_01010_00110_00100_00000_00010,
        }
    }

    /// The state reached from the solved cube by the face turn `F`.
    #[allow(non_snake_case)]
    pub fn F() -> (r: Self)
        ensures
            r == basic_state(15),
    {
        Self {
            corners: 0b_11010_10001_11101_10110_01100_01000_00100_00000,
            edges: 0b_10110_10100_10010_10000_00110_00100_01010_01000_01100_01110_00010_00000,
        }
    }

    /// The state reached from the solved cube by the face turn `F'`.
    #[allow(non_snake_case)]
    pub fn F_() -> (r: Self)
        ensures
            r == basic_state(16),
    {
        Self {
            corners: 0b_10110_11101_10001_11010_01100_01000_00100_00000,
            edges: 0b_10110_10100_10010_10000_00100_00110_01010_01000_01110_01100_00010_00000,
        }
    }

    /// The state reached from the solved cube by the face turn `F2`.
    #[allow(non_snake_case)]
    pub fn F2() -> (r: Self)
        ensures
            r == basic_state(17),
    {
        Self {
            corners: 0b_10000_10100_11000_11100_01100_01000_00100_00000,
            edges: 0b_10110_10100_10010_10000_01100_01110_01010_01000_00100_00110_00010_00000,
        }
    }

    /// The basic states resulting from the primary moves.
    #[allow(non_snake_case)]
    pub fn BASIC_MOVES() -> (r: [Self; 18])
        ensures
            forall|i: int| 0 <= i < 18 ==> #[trigger] r[i] == basic_state(i),
    {
        [
            Self::L(),
            Self::L_(),
            Self::L2(),
            Self::R(),
            Self::R_(),
            Self::R2(),
            Self::D(),
            Self::D_(),
            Self::D2(),
            Self::U(),
            Self::U_(),
            Self::U2(),
            Self::B(),
            Self::B_(),
            Self::B2(),
            Self::F(),
            Self::F_(),
            Self::F2(),
        ]
    }

    /// The corner position for corner i.
    pub fn cp(&self, i: u8) -> (r: u8)
        requires
            i < 13,
        ensures
            r == self.spec_cp(i as u64),
            r < 8,
    {
        proof {
            lemma_field_parts(self.corners, i as u64);
        }
        bits::get(self.corners, 5 * i + 2, 3) as u8
    }

    /// The corner orientation for corner i.
    pub fn co(&self, i: u8) -> (r: u8)
        requires
            i < 13,
        ensures
            r == self.spec_co(i as u64),
            r < 4,
    {
        proof {
            lemma_field_parts(self.corners, i as u64);
        }
        bits::get(self.corners, 5 * i, 2) as u8
    }

    /// The edge position for edge i.
    pub fn ep(&self, i: u8) -> (r: u8)
        requires
            i < 13,
        ensures
            r == self.spec_ep(i as u64),
            r < 16,
    {
        proof {
            lemma_field_parts(self.edges, i as u64);
        }
        bits::get(self.edges, 5 * i + 1, 4) as u8
    }

    /// The edge orientation for edge i.
    pub fn eo(&self, i: u8) -> (r: u8)
        requires
            i < 13,
        ensures
            r == self.spec_eo(i as u64),
            r < 2,
    {
        proof {
            lemma_field_parts(self.edges, i as u64);
        }
        bits::get(self.edges, 5 * i, 1) as u8
    }


    /// Whether this state is valid. A state is valid if:
    /// - the edges and corners permutations are even
    /// - the corner orientations sum up to 0 mod 3
    /// - the edge orientations sum up to 0 mod 2
    ///
    /// An edge position of 12 or more makes the state invalid.
    pub fn valid(&self) -> (r: bool)
        ensures
            r == self.spec_valid(),
    {
        let mut corner_ori: u8 = 0;
        let mut corners: [u8; 8] = [0; 8];
        let mut i: u8 = 0;
        while i < 8
            invariant
                i <= 8,
                corner_ori == sum_co(*self, i as nat),
                forall|k: u64| k < i ==> #[trigger] self.spec_co(k) <= 2,
                corner_ori <= 2 * i,
                forall|k: int| 0 <= k < i ==> corners@[k] == self.spec_cp(k as u64),
            decreases 8 - i,
        {
            let ori = self.co(i);
            if ori > 2 {
                return false;
            }
            corner_ori += ori;
            corners[i as usize] = self.cp(i);
            i += 1;
        }
        let mut edge_ori: u8 = 0;
        let mut edges: [u8; 12] = [0; 12];
        let mut i: u8 = 0;
        while i < 12
            invariant
                i <= 12,
                edge_ori == sum_eo(*self, i as nat),
                edge_ori <= i,
                forall|k: int| 0 <= k < i ==> edges@[k] == self.spec_ep(k as u64),
            decreases 12 - i,
        {
            proof {
                lemma_field_parts(self.edges, i as u64);
            }
            edge_ori += self.eo(i);
            edges[i as usize] = self.ep(i);
            i += 1;
        }
        assert(bytes_as_ints(corners@) =~= self.corner_perm()) by {
            assert forall|k: int| 0 <= k < 8 implies bytes_as_ints(corners@)[k] == self.corner_perm()[k] by {
                lemma_field_parts(self.corners, k as u64);
            }
        }
        assert(bytes_as_ints(edges@) =~= self.edge_perm());
        assert forall|k: int| 0 <= k < 8 implies corners@[k] < 8 by {
            lemma_field_parts(self.corners, k as u64);
        }
        let mut even = true;
        if corner_ori % 3 != 0 || edge_ori % 2 != 0 {
            return false;
        }
        if !Self::valid_perm(corners, &mut even) {
            proof {
                if is_perm(self.corner_perm()) {
                    lemma_perm_covers(self.corner_perm());
                }
            }
            return false;
        }
        proof {
            lemma_covers_perm(self.corner_perm());
        }
        let mut k: usize = 0;
        while k < 12
            invariant
                k <= 12,
                forall|t: int| 0 <= t < 12 ==> edges@[t] == self.spec_ep(t as u64),
                forall|t: int| 0 <= t < k ==> edges@[t] < 12,
            decreases 12 - k,
        {
            if edges[k] >= 12 {
                proof {
                    assert(self.edge_perm()[k as int] == edges@[k as int]);
                }
                return false;
            }
            k += 1;
        }
        if !Self::valid_perm(edges, &mut even) {
            proof {
                if is_perm(self.edge_perm()) {
                    lemma_perm_covers(self.edge_perm());
                }
            }
            return false;
        }
        proof {
            lemma_covers_perm(self.edge_perm());
        }
        even
    }

    /// Whether `perm` is a permutation; if it is, `even` flips when `perm` is
    /// odd.
    fn valid_perm<const N: usize>(perm: [u8; N], even: &mut bool) -> (r: bool)
        requires
            N < 256,
            forall|i: int| 0 <= i < N ==> perm@[i] < N,
        ensures
            r == covers_range(bytes_as_ints(perm@)),
            r ==> *final(even) == (*old(even) == is_even_perm(bytes_as_ints(perm@))),
            !r ==> *final(even) == *old(even),
    {
        let ghost orig = bytes_as_ints(perm@);
        let mut cur = perm;
        let mut present: Vec<bool> = Vec::new();
        let mut k: usize = 0;
        while k < N
            invariant
                k <= N,
                present.len() == k,
                forall|v: int| 0 <= v < k ==> !present[v],
            decreases N - k,
        {
            present.push(false);
            k += 1;
        }
        let mut i: usize = 0;
        while i < N
            invariant
                i <= N,
                N < 256,
                cur@.len() == N,
                orig == bytes_as_ints(cur@),
                orig == bytes_as_ints(perm@),
                forall|t: int| 0 <= t < N ==> cur@[t] < N,
                present.len() == N,
                forall|v: int| 0 <= v < N ==> (present[v] <==> orig.subrange(0, i as int).contains(v)),
            decreases N - i,
        {
            let p = cur[i] as usize;
            present.set(p, true);
            proof {
                assert forall|v: int| 0 <= v < N implies (present[v] <==> orig.subrange(0, i + 1).contains(v)) by {
                    if orig.subrange(0, i as int).contains(v) {
                        let t = choose|t: int| 0 <= t < i && #[trigger] orig.subrange(0, i as int)[t] == v;
                        assert(orig.subrange(0, i + 1)[t] == v);
                    }
                    if orig.subrange(0, i + 1).contains(v) {
                        let t = choose|t: int| 0 <= t < i + 1 && #[trigger] orig.subrange(0, i + 1)[t] == v;
                        if t < i {
                            assert(orig.subrange(0, i as int)[t] == v);
                        } else {
                            assert(v == p);
                        }
                    }
                    if v == p as int {
                        assert(orig.subrange(0, i + 1)[i as int] == v);
                    }
                }
            }
            i += 1;
        }
        assert(orig.subrange(0, N as int) =~= orig);
        let mut i: usize = 0;
        while i < N
            invariant
                i <= N,
                present.len() == N,
                orig.len() == N,
                orig == bytes_as_ints(perm@),
                forall|v: int| 0 <= v < N ==> (present[v] <==> orig.contains(v)),
                forall|v: int| 0 <= v < i ==> orig.contains(v),
            decreases N - i,
        {
            if !present[i] {
                assert(!orig.contains(i as int));
                return false;
            }
            i += 1;
        }
        assert(covers_range(orig));
        proof {
            lemma_covers_perm(orig);
        }
        if !is_even_array(perm) {
            *even = !*even;
        }
        true
    }

    /// Returns the inverse state.
    pub fn inv(&self) -> (r: State)
        requires
            self.edges_addressable(),
        ensures
            r == self.spec_inv(),
    {
        let mut corners = self.corners & (1u64 << 63u64);
        proof {
            lemma_top_bit(0, 0, 0, self.corners, 0);
        }
        let mut i: u8 = 0;
        while i < 8
            invariant
                i <= 8,
                corners == scatter_corners(*self, i as nat, self.corners & 0x8000000000000000u64),
            decreases 8 - i,
        {
            let pos = self.cp(i);
            proof {
                lemma_field_parts(self.corners, i as u64);
            }
            let ori = self.co(i) as u64;
            corners = corners | ((i as u64) << ((5 * pos + 2) as u64));
            corners = corners | (ori << ((5 * pos) as u64));
            i += 1;
        }
        if !self.mirrored() {
            bits::bitwise_inv_mod_3(&mut corners);
        }
        let mut edges: u64 = 0;
        let mut i: u8 = 0;
        while i < 12
            invariant
                i <= 12,
                self.edges_addressable(),
                edges == scatter_edges(*self, i as nat, 0),
            decreases 12 - i,
        {
            let pos = self.ep(i);
            assert(self.spec_ep(i as u64) <= 12);
            let ori = self.eo(i) as u64;
            edges = edges | ((i as u64) << ((5 * pos + 1) as u64));
            edges = edges | (ori << ((5 * pos) as u64));
            i += 1;
        }
        State { corners, edges }
    }

    /// Whether the state is mirrored, which means that orientations must be reversed.
    pub fn mirrored(&self) -> (r: bool)
        ensures
            r == self.spec_mirrored(),
    {
        (self.corners >> 63) != 0
    }
}


impl std::ops::Mul for State {
    type Output = State;

    /// The state reached by applying `self`, then `rhs`.
    fn mul(self, rhs: Self) -> (r: Self::Output) {
        let mirror = (self.corners & (1u64 << 63u64)) ^ (rhs.corners & (1u64 << 63u64));
        let ghost g = |k: u64| field5(self.corners, rhs.spec_cp(k));
        let mut low: u64 = 0;
        proof {
            lemma_small_fields(0, 0);
        }
        let mut i: u8 = 0;
        while i < 8
            invariant
                i <= 8,
                g == (|k: u64| field5(self.corners, rhs.spec_cp(k))),
                low == pack5(g, i as nat),
                low >> (5 * i as u64) == 0,
            decreases 8 - i,
        {
            let pos = rhs.cp(i);
            proof {
                lemma_field_parts(rhs.corners, i as u64);
            }
            let perm = bits::get(self.corners, 5 * pos, 5);
            proof {
                lemma_field_parts(self.corners, pos as u64);
                assert(perm == (self.corners >> ((5 * pos) as u64)) & 31u64);
                assert(pos == rhs.spec_cp(i as u64));
                assert(perm == field5(self.corners, pos as u64));
                assert(perm == g(i as u64));
                bits::lemma_or_field(low, perm, i as u64, 0);
            }
            low = low | (perm << (5 * i));
            i += 1;
        }
        let mut corners = mirror | low;
        let c1 = corners;
        if rhs.mirrored() {
            bits::bitwise_inv_mod_3(&mut corners);
        }
        let c2 = corners;
        bits::bitwise_add_mod_3(&mut corners, rhs.corners);

        let ghost ge = |k: u64| field5(self.edges, rhs.spec_ep(k));
        let mut low_e: u64 = 0;
        proof {
            lemma_small_fields(0, 0);
        }
        let mut i: u8 = 0;
        while i < 12
            invariant
                i <= 12,
                rhs.edges_addressable(),
                ge == (|k: u64| field5(self.edges, rhs.spec_ep(k))),
                low_e == pack5(ge, i as nat),
                low_e >> (5 * i as u64) == 0,
            decreases 12 - i,
        {
            let pos = rhs.ep(i);
            assert(rhs.spec_ep(i as u64) <= 12);
            let perm = bits::get(self.edges, 5 * pos, 5);
            proof {
                lemma_field_parts(self.edges, pos as u64);
                assert(perm == ge(i as u64));
                bits::lemma_or_field(low_e, perm, i as u64, 0);
            }
            low_e = low_e | (perm << (5 * i));
            i += 1;
        }
        let mut edges = low_e;
        bits::bitwise_add_mod_2(&mut edges, rhs.edges);
        let r = State { corners, edges };
        proof {
            let t = self.spec_mul(rhs);
            lemma_mul_fields(self, rhs);
            assert forall|k: u64| k < 8 implies #[trigger] g(k) < 32 by {
                lemma_field_parts(rhs.corners, k);
                lemma_field_parts(self.corners, rhs.spec_cp(k));
            }
            assert forall|k: u64| k < 12 implies #[trigger] ge(k) < 32 by {
                lemma_field_parts(rhs.edges, k);
                lemma_field_parts(self.edges, rhs.spec_ep(k));
            }
            lemma_pack5(g, 8);
            lemma_pack5(ge, 12);
            let sm = self.corners;
            let rm = rhs.corners;
            lemma_top_bit(mirror, low, 0, sm, rm);
            assert forall|k: u64| k < 8 implies #[trigger] field5(corners, k) == field5(t.corners, k) by {
                lemma_field_parts(rhs.corners, k);
                let j = rhs.spec_cp(k);
                lemma_field_parts(self.corners, j);
                lemma_ori_masked(corners, c2, k);
                let x = g(k);
                assert(field5(c1, k) == x) by {
                    assert(field5(low, k) == x);
                    lemma_top_bit(mirror, low, k, sm, rm);
                }
                lemma_field_parts(c1, k);
                lemma_field_parts(c2, k);
                if rhs.spec_mirrored() {
                    lemma_ori_masked(c2, c1, k);
                }
                let y = ori2(c2, k);
                assert(field5(c2, k) & 28u64 == x & 28u64) by {
                    if rhs.spec_mirrored() {
                        lemma_small_fields(x, y);
                    }
                }
                assert(y == if rhs.spec_mirrored() { inv3(x & 3u64) } else { x & 3u64 });
                let z = ori2(corners, k);
                assert(z == add3(y, rhs.spec_co(k)));
                lemma_small_fields(x, 0);
            }
            assert(corners >> 40u64 == c2 >> 40u64) by {
                lemma_ori_masked(corners, c2, 0);
            }
            assert(c2 >> 40u64 == c1 >> 40u64) by {
                if rhs.spec_mirrored() {
                    lemma_ori_masked(c2, c1, 0);
                }
            }

            assert(low >> 40u64 == 0);
            assert(corners >> 40u64 == mirror >> 40u64);
            assert(t.corners >> 40u64 == mirror >> 40u64);
            lemma_corner_words_eq(corners, t.corners);
            assert forall|k: u64| k < 12 implies #[trigger] field5(edges, k) == field5(t.edges, k) by {
                bits::lemma_xor_edge_ones(low_e, rhs.edges, k);
                lemma_field_parts(rhs.edges, k);
                let j = rhs.spec_ep(k);
                lemma_field_parts(self.edges, j);
                let x = ge(k);
                assert(field5(low_e, k) == x);
                let e = field5(rhs.edges, k) & 1u64;
                lemma_small_fields(x, e);
            }
            bits::lemma_xor_edge_ones(low_e, rhs.edges, 0);
            lemma_edge_words_eq(edges, t.edges);
        }
        r
    }
}

impl vstd::std_specs::ops::MulSpecImpl for State {
    open spec fn obeys_mul_spec() -> bool {
        true
    }

    open spec fn mul_req(self, rhs: State) -> bool {
        rhs.edges_addressable()
    }

    open spec fn mul_spec(self, rhs: State) -> State {
        self.spec_mul(rhs)
    }
}


impl From<Move> for State {
    /// The state reached from the solved cube by the move.
    fn from(mv: Move) -> (r: Self) {
        let moves = State::BASIC_MOVES();
        moves[mv.index() as usize]
    }
}

impl vstd::std_specs::convert::FromSpecImpl<Move> for State {
    open spec fn obeys_from_spec() -> bool {
        true
    }

    open spec fn from_spec(v: Move) -> State {
        basic_state(v.spec_index() as int)
    }
}

impl std::ops::Mul<Move> for State {
    type Output = State;

    /// The state reached by applying `self`, then the move `rhs`.
    fn mul(self, rhs: Move) -> (r: Self::Output) {
        let moves = State::BASIC_MOVES();
        let rhs_state = moves[rhs.index() as usize];
        proof {
            lemma_basic_tidy(rhs.spec_index() as int);
        }
        self * rhs_state
    }
}

impl vstd::std_specs::ops::MulSpecImpl<Move> for State {
    open spec fn obeys_mul_spec() -> bool {
        true
    }

    open spec fn mul_req(self, rhs: Move) -> bool {
        true
    }

    open spec fn mul_spec(self, rhs: Move) -> State {
        self.spec_mul(basic_state(rhs.spec_index() as int))
    }
}

impl std::ops::Mul<State> for Move {
    type Output = State;

    /// The state reached by applying the move `self`, then `rhs`.
    fn mul(self, rhs: State) -> (r: Self::Output) {
        let moves = State::BASIC_MOVES();
        let lhs = moves[self.index() as usize];
        lhs * rhs
    }
}

impl vstd::std_specs::ops::MulSpecImpl<State> for Move {
    open spec fn obeys_mul_spec() -> bool {
        true
    }

    open spec fn mul_req(self, rhs: State) -> bool {
        rhs.edges_addressable()
    }

    open spec fn mul_spec(self, rhs: State) -> State {
        basic_state(self.spec_index() as int).spec_mul(rhs)
    }
}

impl std::ops::Mul<Move> for Move {
    type Output = State;

    /// The state reached by applying the move `self`, then the move `rhs`.
    fn mul(self, rhs: Move) -> (r: Self::Output) {
        let moves = State::BASIC_MOVES();
        let lhs = moves[self.index() as usize];
        let rhs_state = moves[rhs.index() as usize];
        proof {
            lemma_basic_tidy(rhs.spec_index() as int);
        }
        lhs * rhs_state
    }
}

impl vstd::std_specs::ops::MulSpecImpl<Move> for Move {
    open spec fn obeys_mul_spec() -> bool {
        true
    }

    open spec fn mul_req(self, rhs: Move) -> bool {
        true
    }

    open spec fn mul_spec(self, rhs: Move) -> State {
        basic_state(self.spec_index() as int).spec_mul(basic_state(rhs.spec_index() as int))
    }
}

/// The fields of a product are the ones that `spec_mul` describes.
pub proof fn lemma_mul_fields(a: State, b: State)
    ensures
        forall|i: u64| i < 8 ==> #[trigger] field5(a.spec_mul(b).corners, i) == product_corner(a, b, i),
        forall|i: u64| i < 12 ==> #[trigger] field5(a.spec_mul(b).edges, i) == product_edge(a, b, i),
        a.spec_mul(b).corners >> 40u64 == (if a.spec_mirrored() != b.spec_mirrored() { 0x800000u64 } else { 0u64 }),
        a.spec_mul(b).edges >> 60u64 == 0,
{
    let fc = |i: u64| product_corner(a, b, i);
    let fe = |i: u64| product_edge(a, b, i);
    assert forall|i: u64| i < 8 implies #[trigger] fc(i) < 32 by {
        lemma_field_parts(b.corners, i);
        let j = b.spec_cp(i);
        lemma_field_parts(a.corners, j);
        let x = a.spec_cp(j);
        let y = add3(if b.spec_mirrored() { inv3(a.spec_co(j)) } else { a.spec_co(j) }, b.spec_co(i));
        assert(y < 4);
        lemma_small_fields(x, y);
    }
    assert forall|i: u64| i < 12 implies #[trigger] fe(i) < 32 by {
        lemma_field_parts(b.edges, i);
        let j = b.spec_ep(i);
        lemma_field_parts(a.edges, j);
        let x = a.spec_ep(j);
        let u = a.spec_eo(j);
        let v = b.spec_eo(i);
        lemma_small_fields(u, v);
        lemma_small_fields(x, u ^ v);
    }
    lemma_pack5(fc, 8);
    lemma_pack5(fe, 12);
    let pc = pack5(fc, 8);
    let m: u64 = if a.spec_mirrored() != b.spec_mirrored() { 0x8000000000000000u64 } else { 0u64 };
    assert forall|i: u64| i < 8 implies #[trigger] field5(m | pc, i) == field5(pc, i) by {
        lemma_top_bit(m, pc, i, 0, 0);
    }
    lemma_top_bit(m, pc, 0, 0, 0);

}


/// The fields of the solved cube.
pub(crate) proof fn lemma_id_fields(j: u64)
    by (bit_vector)
    requires
        j < 12,
    ensures
        j < 8 ==> (0xe629062080u64 >> ((5 * j) as u64)) & 31u64 == j << 2u64,
        (0xb52507314831040u64 >> ((5 * j) as u64)) & 31u64 == j << 1u64,
        0xe629062080u64 >> 40u64 == 0,
        0xb52507314831040u64 >> 60u64 == 0,
        0xe629062080u64 >> 63u64 == 0,
{
}

/// The corner `j` and the edge `j` of the solved cube are at their own places,
/// unturned.
pub proof fn lemma_id_piece(j: u64)
    requires
        j < 12,
    ensures
        j < 8 ==> State::spec_id().spec_cp(j) == j && State::spec_id().spec_co(j) == 0,
        State::spec_id().spec_ep(j) == j,
        State::spec_id().spec_eo(j) == 0,
        !State::spec_id().spec_mirrored(),
        State::spec_id().corners >> 40u64 == 0,
        State::spec_id().edges >> 60u64 == 0,
{
    lemma_id_fields(j);
    lemma_small_fields(j, 0);
}

/// A 5-bit field is made of its top bits and its orientation bits.
proof fn lemma_field_rebuild(w: u64, i: u64)
    requires
        i < 13,
    ensures
        field5(w, i) == ((field5(w, i) >> 2u64) << 2u64) | (field5(w, i) & 3u64),
        field5(w, i) == ((field5(w, i) >> 1u64) << 1u64) | (field5(w, i) & 1u64),
{
    lemma_field_parts(w, i);
    lemma_small_fields(field5(w, i), 0);
}

/// Two states are equal when their pieces are, and their bits outside the
/// pieces' fields.
pub proof fn lemma_state_eq(a: State, b: State)
    requires
        forall|i: u64| i < 8 ==> #[trigger] a.spec_cp(i) == b.spec_cp(i),
        forall|i: u64| i < 8 ==> #[trigger] a.spec_co(i) == b.spec_co(i),
        forall|i: u64| i < 12 ==> #[trigger] a.spec_ep(i) == b.spec_ep(i),
        forall|i: u64| i < 12 ==> #[trigger] a.spec_eo(i) == b.spec_eo(i),
        a.corners >> 40u64 == b.corners >> 40u64,
        a.edges >> 60u64 == b.edges >> 60u64,
    ensures
        a == b,
{
    assert forall|i: u64| i < 8 implies #[trigger] field5(a.corners, i) == field5(b.corners, i) by {
        assert(a.spec_cp(i) == b.spec_cp(i) && a.spec_co(i) == b.spec_co(i));
        lemma_field_rebuild(a.corners, i);
        lemma_field_rebuild(b.corners, i);
    }
    assert forall|i: u64| i < 12 implies #[trigger] field5(a.edges, i) == field5(b.edges, i) by {
        assert(a.spec_ep(i) == b.spec_ep(i) && a.spec_eo(i) == b.spec_eo(i));
        lemma_field_rebuild(a.edges, i);
        lemma_field_rebuild(b.edges, i);
    }
    lemma_corner_words_eq(a.corners, b.corners);
    lemma_edge_words_eq(a.edges, b.edges);
}

/// The corner orientation of a product, from the orientation `o` that the
/// left operand gives and the right operand `b`'s own orientation `p`.
pub open spec fn product_ori(o: u64, b_mirrored: bool, p: u64) -> u64 {
    add3(
        if b_mirrored {
            inv3(o)
        } else {
            o
        },
        p,
    )
}

/// The pieces of a product.
pub proof fn lemma_mul_pieces(a: State, b: State)
    ensures
        forall|i: u64| i < 8 ==> #[trigger] a.spec_mul(b).spec_cp(i) == a.spec_cp(b.spec_cp(i)),
        forall|i: u64|
            i < 8 ==> #[trigger] a.spec_mul(b).spec_co(i) == product_ori(
                a.spec_co(b.spec_cp(i)),
                b.spec_mirrored(),
                b.spec_co(i),
            ),
        forall|i: u64| i < 12 ==> #[trigger] a.spec_mul(b).spec_ep(i) == a.spec_ep(b.spec_ep(i)),
        forall|i: u64|
            i < 12 ==> #[trigger] a.spec_mul(b).spec_eo(i) == a.spec_eo(b.spec_ep(i)) ^ b.spec_eo(i),
        a.spec_mul(b).corners >> 40u64 == (if a.spec_mirrored() != b.spec_mirrored() {
            0x800000u64
        } else {
            0u64
        }),
        a.spec_mul(b).edges >> 60u64 == 0,
        a.spec_mul(b).spec_mirrored() == (a.spec_mirrored() != b.spec_mirrored()),
{
    lemma_mul_fields(a, b);
    let p = a.spec_mul(b);
    assert forall|i: u64| #![trigger p.spec_cp(i)] #![trigger p.spec_co(i)] i < 8 implies p.spec_cp(i) == a.spec_cp(b.spec_cp(i))
        && p.spec_co(i) == product_ori(a.spec_co(b.spec_cp(i)), b.spec_mirrored(), b.spec_co(i)) by {
        lemma_field_parts(b.corners, i);
        let j = b.spec_cp(i);
        lemma_field_parts(a.corners, j);
        let x = a.spec_cp(j);
        let o = a.spec_co(j);
        let y = product_ori(o, b.spec_mirrored(), b.spec_co(i));
        lemma_small_fields(o, 0);
        lemma_small_fields(x, y);
        assert(field5(p.corners, i) == (x << 2u64) | y);
    }
    assert forall|i: u64| #![trigger p.spec_ep(i)] #![trigger p.spec_eo(i)] i < 12 implies p.spec_ep(i) == a.spec_ep(b.spec_ep(i))
        && p.spec_eo(i) == a.spec_eo(b.spec_ep(i)) ^ b.spec_eo(i) by {
        lemma_field_parts(b.edges, i);
        let j = b.spec_ep(i);
        lemma_field_parts(a.edges, j);
        let x = a.spec_ep(j);
        let u = a.spec_eo(j);
        let v = b.spec_eo(i);
        lemma_small_fields(u, v);
        lemma_small_fields(x, u ^ v);
        assert(field5(p.edges, i) == (x << 1u64) | (u ^ v));
    }
    lemma_top_bit(0, p.corners, 0, 0, 0);
}


/// Writing each corner `k < n` at the field of its position fills those
/// fields, when positions are distinct, and leaves the others empty.
proof fn lemma_scatter_corners(s: State, n: nat)
    requires
        n <= 8,
        is_perm(s.corner_perm()),
    ensures
        forall|k: u64|
            k < n ==> #[trigger] field5(
                scatter_corners(s, n, s.corners & 0x8000000000000000u64),
                s.spec_cp(k),
            ) == (k << 2u64) | s.spec_co(k),
        forall|q: u64|
            q < 8 && !s.corner_perm().subrange(0, n as int).contains(q as int) ==> #[trigger] field5(
                scatter_corners(s, n, s.corners & 0x8000000000000000u64),
                q,
            ) == 0,
        scatter_corners(s, n, s.corners & 0x8000000000000000u64) >> 40u64 == (s.corners
            & 0x8000000000000000u64) >> 40u64,
    decreases n,
{
    let base = s.corners & 0x8000000000000000u64;
    lemma_top_bit(base, 0, 0, s.corners, 0);
    if n == 0 {
        assert forall|q: u64| q < 8 implies #[trigger] field5(base, q) == 0 by {
            lemma_top_bit(base, 0, q, s.corners, 0);
        }
    } else {
        let k = (n - 1) as u64;
        lemma_scatter_corners(s, (n - 1) as nat);
        let w = scatter_corners(s, (n - 1) as nat, base);
        let p = s.spec_cp(k);
        let o = s.spec_co(k);
        lemma_field_parts(s.corners, k);
        assert(s.corner_perm()[k as int] == p as int);
        assert(!s.corner_perm().subrange(0, n - 1).contains(p as int)) by {
            if s.corner_perm().subrange(0, n - 1).contains(p as int) {
                let t = choose|t: int| 0 <= t < n - 1 && #[trigger] s.corner_perm().subrange(0, n - 1)[t] == p as int;
                assert(s.corner_perm()[t] == s.corner_perm()[k as int]);
            }
        }
        assert(field5(w, p) == 0);
        assert forall|j: u64| j < n implies #[trigger] field5(
            scatter_corners(s, n, base),
            s.spec_cp(j),
        ) == (j << 2u64) | s.spec_co(j) by {
            lemma_field_parts(s.corners, j);
            lemma_or_corner(w, k, o, p, s.spec_cp(j));
            if j < k {
                assert(s.corner_perm()[j as int] == s.spec_cp(j) as int);
                assert(s.spec_cp(j) != p);
                assert(field5(w, s.spec_cp(j)) == (j << 2u64) | s.spec_co(j));
            } else {
                lemma_small_fields((k << 2u64) | o, 0);
            }
        }
        assert forall|q: u64| q < 8 && !s.corner_perm().subrange(0, n as int).contains(q as int)
            implies #[trigger] field5(scatter_corners(s, n, base), q) == 0 by {
            lemma_or_corner(w, k, o, p, q);
            assert(s.corner_perm().subrange(0, n as int)[k as int] == p as int);
            assert(p != q);
            assert forall|t: int| 0 <= t < n - 1 implies #[trigger] s.corner_perm().subrange(0, n - 1)[t] != q as int by {
                assert(s.corner_perm().subrange(0, n - 1)[t] == s.corner_perm().subrange(0, n as int)[t]);
            }
            assert(field5(w, q) == 0);
        }
        lemma_or_corner(w, k, o, p, 0);
    }
}

/// Writing each edge `k < n` at the field of its position fills those
/// fields, when positions are distinct, and leaves the others empty.
proof fn lemma_scatter_edges(s: State, n: nat)
    requires
        n <= 12,
        is_perm(s.edge_perm()),
    ensures
        forall|k: u64|
            k < n ==> #[trigger] field5(
                scatter_edges(s, n, 0),
                s.spec_ep(k),
            ) == (k << 1u64) | s.spec_eo(k),
        forall|q: u64|
            q < 12 && !s.edge_perm().subrange(0, n as int).contains(q as int) ==> #[trigger] field5(
                scatter_edges(s, n, 0),
                q,
            ) == 0,
        scatter_edges(s, n, 0) >> 60u64 == 0,
    decreases n,
{
    let base = 0u64;
    lemma_top_bit(base, 0, 0, 0, 0);
    lemma_small_fields(0, 0);
    if n == 0 {
        assert forall|q: u64| q < 12 implies #[trigger] field5(base, q) == 0 by {
            lemma_top_bit(base, 0, q, 0, 0);
        }
    } else {
        let k = (n - 1) as u64;
        lemma_scatter_edges(s, (n - 1) as nat);
        let w = scatter_edges(s, (n - 1) as nat, base);
        let p = s.spec_ep(k);
        let o = s.spec_eo(k);
        lemma_field_parts(s.edges, k);
        assert(s.edge_perm()[k as int] == p as int);
        assert(!s.edge_perm().subrange(0, n - 1).contains(p as int)) by {
            if s.edge_perm().subrange(0, n - 1).contains(p as int) {
                let t = choose|t: int| 0 <= t < n - 1 && #[trigger] s.edge_perm().subrange(0, n - 1)[t] == p as int;
                assert(s.edge_perm()[t] == s.edge_perm()[k as int]);
            }
        }
        assert(field5(w, p) == 0);
        assert forall|j: u64| j < n implies #[trigger] field5(
            scatter_edges(s, n, base),
            s.spec_ep(j),
        ) == (j << 1u64) | s.spec_eo(j) by {
            lemma_field_parts(s.edges, j);
            assert(s.edge_perm()[j as int] == s.spec_ep(j) as int);
            lemma_or_edge(w, k, o, p, s.spec_ep(j));
            if j < k {
                assert(s.edge_perm()[j as int] == s.spec_ep(j) as int);
                assert(s.spec_ep(j) != p);
                assert(field5(w, s.spec_ep(j)) == (j << 1u64) | s.spec_eo(j));
            } else {
                lemma_small_fields((k << 1u64) | o, 0);
                lemma_small_fields(k, o);
            }
        }
        assert forall|q: u64| q < 12 && !s.edge_perm().subrange(0, n as int).contains(q as int)
            implies #[trigger] field5(scatter_edges(s, n, base), q) == 0 by {
            lemma_or_edge(w, k, o, p, q);
            assert(s.edge_perm().subrange(0, n as int)[k as int] == p as int);
            assert(p != q);
            assert forall|t: int| 0 <= t < n - 1 implies #[trigger] s.edge_perm().subrange(0, n - 1)[t] != q as int by {
                assert(s.edge_perm().subrange(0, n - 1)[t] == s.edge_perm().subrange(0, n as int)[t]);
            }
            assert(field5(w, q) == 0);
        }
        lemma_or_edge(w, k, o, p, 0);
    }
}


/// The pieces of the inverse of a well-formed state: each piece goes back to
/// its place, with its orientation negated (kept as is in a mirrored state).
pub proof fn lemma_inv_pieces(s: State)
    requires
        s.spec_well_formed(),
    ensures
        forall|k: u64| k < 8 ==> #[trigger] s.spec_inv().spec_cp(s.spec_cp(k)) == k,
        forall|k: u64|
            k < 8 ==> #[trigger] s.spec_inv().spec_co(s.spec_cp(k)) == (if s.spec_mirrored() {
                s.spec_co(k)
            } else {
                inv3(s.spec_co(k))
            }),
        forall|k: u64| k < 12 ==> #[trigger] s.spec_inv().spec_ep(s.spec_ep(k)) == k,
        forall|k: u64| k < 12 ==> #[trigger] s.spec_inv().spec_eo(s.spec_ep(k)) == s.spec_eo(k),
        s.spec_inv().corners >> 40u64 == s.corners >> 40u64,
        s.spec_inv().edges >> 60u64 == 0,
        s.spec_inv().spec_mirrored() == s.spec_mirrored(),
{
    lemma_scatter_corners(s, 8);
    lemma_scatter_edges(s, 12);
    let base = s.corners & 0x8000000000000000u64;
    let sc = scatter_corners(s, 8, base);
    let t = s.spec_inv();
    assert(s.corner_perm().subrange(0, 8) == s.corner_perm());
    assert(s.edge_perm().subrange(0, 12) == s.edge_perm());
    lemma_top_bit(0, s.corners, 0, s.corners, 0);
    assert forall|k: u64| #![trigger t.spec_cp(s.spec_cp(k))] #![trigger t.spec_co(s.spec_cp(k))] k < 8
        implies t.spec_cp(s.spec_cp(k)) == k && t.spec_co(s.spec_cp(k)) == (if s.spec_mirrored() {
        s.spec_co(k)
    } else {
        inv3(s.spec_co(k))
    }) by {
        lemma_field_parts(s.corners, k);
        let p = s.spec_cp(k);
        let o = s.spec_co(k);
        assert(field5(sc, p) == (k << 2u64) | o);
        lemma_small_fields(k, o);
        if s.spec_mirrored() {
            assert(t.corners == sc);
            assert(field5(t.corners, p) == (k << 2u64) | o);
            assert(t.spec_cp(p) == k);
        } else {
            assert(t.corners == bits::neg_oris(sc));
            bits::lemma_inv_mod_3_bits(sc, p);
            lemma_ori_masked(t.corners, sc, p);
            lemma_field_parts(sc, p);
            lemma_small_fields(o, 0);
            lemma_small_fields(inv3(o), 0);
            lemma_small_fields((k << 2u64) | o, inv3(o));
            lemma_small_fields(k, inv3(o));
            assert(field5(t.corners, p) == (((k << 2u64) | o) & 28u64) | inv3(o));
            assert(((k << 2u64) | o) & 28u64 == k << 2u64) by {
                lemma_small_fields((k << 2u64) | o, 0);
            }
            assert(field5(t.corners, p) == (k << 2u64) | inv3(o));
            assert(t.spec_cp(p) == k);
            assert(ori2(t.corners, p) == inv3(o));
            assert(t.spec_co(p) == inv3(o));
        }
    }
    assert forall|k: u64| #![trigger t.spec_ep(s.spec_ep(k))] #![trigger t.spec_eo(s.spec_ep(k))] k < 12
        implies t.spec_ep(s.spec_ep(k)) == k && t.spec_eo(s.spec_ep(k)) == s.spec_eo(k) by {
        lemma_field_parts(s.edges, k);
        lemma_small_fields(k, s.spec_eo(k));
    }
    if !s.spec_mirrored() {
        bits::lemma_inv_mod_3_bits(sc, 0);
        lemma_ori_masked(t.corners, sc, 0);
    }
    lemma_top_bit(0, t.corners, 0, 0, 0);
}

/// A well-formed state times its inverse, on either side, is the solved cube.
pub proof fn lemma_mul_inverse(s: State)
    requires
        s.spec_well_formed(),
    ensures
        s.spec_mul(s.spec_inv()) == State::spec_id(),
        s.spec_inv().spec_mul(s) == State::spec_id(),
{
    let t = s.spec_inv();
    let id = State::spec_id();
    lemma_inv_pieces(s);
    lemma_mul_pieces(s, t);
    lemma_mul_pieces(t, s);
    lemma_perm_covers(s.corner_perm());
    lemma_perm_covers(s.edge_perm());
    lemma_id_piece(0);
    assert forall|i: u64| #![trigger s.spec_mul(t).spec_cp(i)] #![trigger s.spec_mul(t).spec_co(i)] #![trigger t.spec_mul(s).spec_cp(i)] #![trigger t.spec_mul(s).spec_co(i)] i < 8 implies
        s.spec_mul(t).spec_cp(i) == id.spec_cp(i) && s.spec_mul(t).spec_co(i) == id.spec_co(i)
        && t.spec_mul(s).spec_cp(i) == id.spec_cp(i) && t.spec_mul(s).spec_co(i) == id.spec_co(i) by {
        lemma_id_piece(i);
        assert(s.corner_perm().contains(i as int));
        let k = choose|k: int| 0 <= k < 8 && #[trigger] s.corner_perm()[k] == i as int;
        let ku = k as u64;
        assert(s.spec_cp(ku) == i);
        lemma_field_parts(s.corners, ku);
        lemma_field_parts(s.corners, i);
        lemma_small_fields(s.spec_co(ku), 0);
        lemma_small_fields(s.spec_co(i), 0);
        assert(t.spec_co(s.spec_cp(i)) == (if s.spec_mirrored() { s.spec_co(i) } else { inv3(s.spec_co(i)) }));
        assert(s.spec_co(i) < 3 && s.spec_co(ku) < 3);
    }
    assert forall|i: u64| #![trigger s.spec_mul(t).spec_ep(i)] #![trigger s.spec_mul(t).spec_eo(i)] #![trigger t.spec_mul(s).spec_ep(i)] #![trigger t.spec_mul(s).spec_eo(i)] i < 12 implies
        s.spec_mul(t).spec_ep(i) == id.spec_ep(i) && s.spec_mul(t).spec_eo(i) == id.spec_eo(i)
        && t.spec_mul(s).spec_ep(i) == id.spec_ep(i) && t.spec_mul(s).spec_eo(i) == id.spec_eo(i) by {
        lemma_id_piece(i);
        assert(s.edge_perm().contains(i as int));
        let k = choose|k: int| 0 <= k < 12 && #[trigger] s.edge_perm()[k] == i as int;
        let ku = k as u64;
        assert(s.spec_ep(ku) == i);
        lemma_field_parts(s.edges, ku);
        lemma_field_parts(s.edges, i);
        assert(s.edge_perm()[i as int] == s.spec_ep(i) as int);
        lemma_small_fields(s.spec_eo(ku), 0);
        lemma_small_fields(s.spec_eo(i), 0);
    }
    lemma_state_eq(s.spec_mul(t), id);
    lemma_state_eq(t.spec_mul(s), id);
}


/// Orientations compose associatively, modulo 3.
proof fn lemma_ori_assoc(x: u64, y: u64, z: u64, mb: bool, mc: bool)
    requires
        x < 3,
        y < 3,
        z < 3,
    ensures
        product_ori(x, mb, y) < 3,
        product_ori(product_ori(x, mb, y), mc, z) == product_ori(x, mb != mc, product_ori(y, mc, z)),
{
    lemma_small_fields(x, 0);
    lemma_small_fields(y, 0);
    let xy = product_ori(x, mb, y);
    let yz = product_ori(y, mc, z);
    lemma_small_fields(xy, 0);
    lemma_small_fields(yz, 0);
    if mb {
        lemma_small_fields(inv3(x), 0);
    }
}

/// The product is associative on tidy states.
pub proof fn lemma_mul_assoc(a: State, b: State, c: State)
    requires
        a.spec_tidy(),
        b.spec_tidy(),
        c.spec_tidy(),
    ensures
        a.spec_mul(b).spec_mul(c) == a.spec_mul(b.spec_mul(c)),
{
    let ab = a.spec_mul(b);
    let bc = b.spec_mul(c);
    let l = ab.spec_mul(c);
    let r = a.spec_mul(bc);
    lemma_mul_pieces(a, b);
    lemma_mul_pieces(b, c);
    lemma_mul_pieces(ab, c);
    lemma_mul_pieces(a, bc);
    assert forall|i: u64| #![trigger l.spec_cp(i)] #![trigger l.spec_co(i)] i < 8 implies l.spec_cp(i)
        == r.spec_cp(i) && l.spec_co(i) == r.spec_co(i) by {
        lemma_field_parts(c.corners, i);
        let j = c.spec_cp(i);
        lemma_field_parts(b.corners, j);
        let k = b.spec_cp(j);
        lemma_field_parts(a.corners, k);
        assert(bc.spec_cp(i) == k);
        assert(ab.spec_co(j) == product_ori(a.spec_co(k), b.spec_mirrored(), b.spec_co(j)));
        assert(bc.spec_co(i) == product_ori(b.spec_co(j), c.spec_mirrored(), c.spec_co(i)));
        lemma_ori_assoc(a.spec_co(k), b.spec_co(j), c.spec_co(i), b.spec_mirrored(), c.spec_mirrored());
    }
    assert forall|i: u64| #![trigger l.spec_ep(i)] #![trigger l.spec_eo(i)] i < 12 implies l.spec_ep(i)
        == r.spec_ep(i) && l.spec_eo(i) == r.spec_eo(i) by {
        lemma_field_parts(c.edges, i);
        let j = c.spec_ep(i);
        lemma_field_parts(b.edges, j);
        let k = b.spec_ep(j);
        lemma_field_parts(a.edges, k);
        assert(bc.spec_ep(i) == k);
        let x = a.spec_eo(k);
        let y = b.spec_eo(j);
        let z = c.spec_eo(i);
        lemma_small_fields(x, y);
        lemma_small_fields(y, z);
        lemma_small_fields(x ^ y, z);
        lemma_small_fields(x, y ^ z);
    }
    lemma_state_eq(l, r);
}


/// The pieces of the basic states are in range, and no two pieces of one
/// basic state are at the same position.
proof fn lemma_basic_bits(k: u64, k2: u64)
    by (bit_vector)
    requires
        k < 12,
    ensures
        k < 8 ==> (0xe229860090u64 >> ((5 * k) as u64)) & 3u64 < 3,
        ((0xb224c7515031040u64 >> ((5 * k) as u64)) & 31u64) >> 1u64 < 12,
        0xe229860090u64 >> 40u64 == 0 && 0xb224c7515031040u64 >> 60u64 == 0,
        k < 8 ==> (0xe428066088u64 >> ((5 * k) as u64)) & 3u64 < 3,
        ((0xb32487415431040u64 >> ((5 * k) as u64)) & 31u64) >> 1u64 < 12,
        0xe428066088u64 >> 40u64 == 0 && 0xb32487415431040u64 >> 60u64 == 0,
        k < 8 ==> (0xe028864098u64 >> ((5 * k) as u64)) & 3u64 < 3,
        ((0xb42547214c31040u64 >> ((5 * k) as u64)) & 31u64) >> 1u64 < 12,
        0xe028864098u64 >> 40u64 == 0 && 0xb42547214c31040u64 >> 60u64 == 0,
        k < 8 ==> (0xa6090e2180u64 >> ((5 * k) as u64)) & 3u64 < 3,
        ((0x75150932c831040u64 >> ((5 * k) as u64)) & 31u64) >> 1u64 < 12,
        0xa6090e2180u64 >> 40u64 == 0 && 0x75150932c831040u64 >> 60u64 == 0,
        k < 8 ==> (0x6639022280u64 >> ((5 * k) as u64)) & 3u64 < 3,
        ((0x551d0b324831040u64 >> ((5 * k) as u64)) & 31u64) >> 1u64 < 12,
        0x6639022280u64 >> 40u64 == 0 && 0x551d0b324831040u64 >> 60u64 == 0,
        k < 8 ==> (0x26190a2380u64 >> ((5 * k) as u64)) & 3u64 < 3,
        ((0x952d0531c831040u64 >> ((5 * k) as u64)) & 31u64) >> 1u64 < 12,
        0x26190a2380u64 >> 40u64 == 0 && 0x952d0531c831040u64 >> 60u64 == 0,
        k < 8 ==> (0xe6241622a6u64 >> ((5 * k) as u64)) & 3u64 < 3,
        ((0xb50a17314834453u64 >> ((5 * k) as u64)) & 31u64) >> 1u64 < 12,
        0xe6241622a6u64 >> 40u64 == 0 && 0xb50a17314834453u64 >> 60u64 == 0,
        k < 8 ==> (0xe60d562032u64 >> ((5 * k) as u64)) & 3u64 < 3,
        ((0xb50257314834c51u64 >> ((5 * k) as u64)) & 31u64) >> 1u64 < 12,
        0xe60d562032u64 >> 40u64 == 0 && 0xb50257314834c51u64 >> 60u64 == 0,
        k < 8 ==> (0xe600462214u64 >> ((5 * k) as u64)) & 3u64 < 3,
        ((0xb52127314830044u64 >> ((5 * k) as u64)) & 31u64) >> 1u64 < 12,
        0xe600462214u64 >> 40u64 == 0 && 0xb52127314830044u64 >> 60u64 == 0,
        k < 8 ==> (0x6fa9056480u64 >> ((5 * k) as u64)) & 3u64 < 3,
        ((0x19e5073148b92a0u64 >> ((5 * k) as u64)) & 31u64) >> 1u64 < 12,
        0x6fa9056480u64 >> 40u64 == 0 && 0x19e5073148b92a0u64 >> 60u64 == 0,
        k < 8 ==> (0xcaa90f3480u64 >> ((5 * k) as u64)) & 3u64 < 3,
        ((0x38e5073148a92e0u64 >> ((5 * k) as u64)) & 31u64) >> 1u64 < 12,
        0xcaa90f3480u64 >> 40u64 == 0 && 0x38e5073148a92e0u64 >> 60u64 == 0,
        k < 8 ==> (0x43290c7080u64 >> ((5 * k) as u64)) & 3u64 < 3,
        ((0xa5a5073148110c0u64 >> ((5 * k) as u64)) & 31u64) >> 1u64 < 12,
        0x43290c7080u64 >> 40u64 == 0 && 0xa5a5073148110c0u64 >> 60u64 == 0,
        k < 8 ==> (0xe62902b849u64 >> ((5 * k) as u64)) & 3u64 < 3,
        ((0xb52507300231148u64 >> ((5 * k) as u64)) & 31u64) >> 1u64 < 12,
        0xe62902b849u64 >> 40u64 == 0 && 0xb52507300231148u64 >> 60u64 == 0,
        k < 8 ==> (0xe6290489c5u64 >> ((5 * k) as u64)) & 3u64 < 3,
        ((0xb5250730403110au64 >> ((5 * k) as u64)) & 31u64) >> 1u64 < 12,
        0xe6290489c5u64 >> 40u64 == 0 && 0xb5250730403110au64 >> 60u64 == 0,
        k < 8 ==> (0xe62900110cu64 >> ((5 * k) as u64)) & 3u64 < 3,
        ((0xb52507310a31002u64 >> ((5 * k) as u64)) & 31u64) >> 1u64 < 12,
        0xe62900110cu64 >> 40u64 == 0 && 0xb52507310a31002u64 >> 60u64 == 0,
        k < 8 ==> (0xd47b662080u64 >> ((5 * k) as u64)) & 3u64 < 3,
        ((0xb52503114863840u64 >> ((5 * k) as u64)) & 31u64) >> 1u64 < 12,
        0xd47b662080u64 >> 40u64 == 0 && 0xb52503114863840u64 >> 60u64 == 0,
        k < 8 ==> (0xb763a62080u64 >> ((5 * k) as u64)) & 3u64 < 3,
        ((0xb52502194873040u64 >> ((5 * k) as u64)) & 31u64) >> 1u64 < 12,
        0xb763a62080u64 >> 40u64 == 0 && 0xb52502194873040u64 >> 60u64 == 0,
        k < 8 ==> (0x8531c62080u64 >> ((5 * k) as u64)) & 3u64 < 3,
        ((0xb52506394821840u64 >> ((5 * k) as u64)) & 31u64) >> 1u64 < 12,
        0x8531c62080u64 >> 40u64 == 0 && 0xb52506394821840u64 >> 60u64 == 0,
        k < 8 && k2 < 8 && k != k2 ==> ((0xe229860090u64 >> ((5 * k) as u64)) & 31u64) >> 2u64 != ((0xe229860090u64 >> ((5 * k2) as u64)) & 31u64) >> 2u64,
        k < 8 && k2 < 8 && k != k2 ==> ((0xe428066088u64 >> ((5 * k) as u64)) & 31u64) >> 2u64 != ((0xe428066088u64 >> ((5 * k2) as u64)) & 31u64) >> 2u64,
        k < 8 && k2 < 8 && k != k2 ==> ((0xe028864098u64 >> ((5 * k) as u64)) & 31u64) >> 2u64 != ((0xe028864098u64 >> ((5 * k2) as u64)) & 31u64) >> 2u64,
        k < 8 && k2 < 8 && k != k2 ==> ((0xa6090e2180u64 >> ((5 * k) as u64)) & 31u64) >> 2u64 != ((0xa6090e2180u64 >> ((5 * k2) as u64)) & 31u64) >> 2u64,
        k < 8 && k2 < 8 && k != k2 ==> ((0x6639022280u64 >> ((5 * k) as u64)) & 31u64) >> 2u64 != ((0x6639022280u64 >> ((5 * k2) as u64)) & 31u64) >> 2u64,
        k < 8 && k2 < 8 && k != k2 ==> ((0x26190a2380u64 >> ((5 * k) as u64)) & 31u64) >> 2u64 != ((0x26190a2380u64 >> ((5 * k2) as u64)) & 31u64) >> 2u64,
        k < 8 && k2 < 8 && k != k2 ==> ((0xe6241622a6u64 >> ((5 * k) as u64)) & 31u64) >> 2u64 != ((0xe6241622a6u64 >> ((5 * k2) as u64)) & 31u64) >> 2u64,
        k < 8 && k2 < 8 && k != k2 ==> ((0xe60d562032u64 >> ((5 * k) as u64)) & 31u64) >> 2u64 != ((0xe60d562032u64 >> ((5 * k2) as u64)) & 31u64) >> 2u64,
        k < 8 && k2 < 8 && k != k2 ==> ((0xe600462214u64 >> ((5 * k) as u64)) & 31u64) >> 2u64 != ((0xe600462214u64 >> ((5 * k2) as u64)) & 31u64) >> 2u64,
        k < 8 && k2 < 8 && k != k2 ==> ((0x6fa9056480u64 >> ((5 * k) as u64)) & 31u64) >> 2u64 != ((0x6fa9056480u64 >> ((5 * k2) as u64)) & 31u64) >> 2u64,
        k < 8 && k2 < 8 && k != k2 ==> ((0xcaa90f3480u64 >> ((5 * k) as u64)) & 31u64) >> 2u64 != ((0xcaa90f3480u64 >> ((5 * k2) as u64)) & 31u64) >> 2u64,
        k < 8 && k2 < 8 && k != k2 ==> ((0x43290c7080u64 >> ((5 * k) as u64)) & 31u64) >> 2u64 != ((0x43290c7080u64 >> ((5 * k2) as u64)) & 31u64) >> 2u64,
        k < 8 && k2 < 8 && k != k2 ==> ((0xe62902b849u64 >> ((5 * k) as u64)) & 31u64) >> 2u64 != ((0xe62902b849u64 >> ((5 * k2) as u64)) & 31u64) >> 2u64,
        k < 8 && k2 < 8 && k != k2 ==> ((0xe6290489c5u64 >> ((5 * k) as u64)) & 31u64) >> 2u64 != ((0xe6290489c5u64 >> ((5 * k2) as u64)) & 31u64) >> 2u64,
        k < 8 && k2 < 8 && k != k2 ==> ((0xe62900110cu64 >> ((5 * k) as u64)) & 31u64) >> 2u64 != ((0xe62900110cu64 >> ((5 * k2) as u64)) & 31u64) >> 2u64,
        k < 8 && k2 < 8 && k != k2 ==> ((0xd47b662080u64 >> ((5 * k) as u64)) & 31u64) >> 2u64 != ((0xd47b662080u64 >> ((5 * k2) as u64)) & 31u64) >> 2u64,
        k < 8 && k2 < 8 && k != k2 ==> ((0xb763a62080u64 >> ((5 * k) as u64)) & 31u64) >> 2u64 != ((0xb763a62080u64 >> ((5 * k2) as u64)) & 31u64) >> 2u64,
        k < 8 && k2 < 8 && k != k2 ==> ((0x8531c62080u64 >> ((5 * k) as u64)) & 31u64) >> 2u64 != ((0x8531c62080u64 >> ((5 * k2) as u64)) & 31u64) >> 2u64,
        k2 < 12 && k != k2 ==> ((0xb224c7515031040u64 >> ((5 * k) as u64)) & 31u64) >> 1u64 != ((0xb224c7515031040u64 >> ((5 * k2) as u64)) & 31u64) >> 1u64,
        k2 < 12 && k != k2 ==> ((0xb32487415431040u64 >> ((5 * k) as u64)) & 31u64) >> 1u64 != ((0xb32487415431040u64 >> ((5 * k2) as u64)) & 31u64) >> 1u64,
        k2 < 12 && k != k2 ==> ((0xb42547214c31040u64 >> ((5 * k) as u64)) & 31u64) >> 1u64 != ((0xb42547214c31040u64 >> ((5 * k2) as u64)) & 31u64) >> 1u64,
        k2 < 12 && k != k2 ==> ((0x75150932c831040u64 >> ((5 * k) as u64)) & 31u64) >> 1u64 != ((0x75150932c831040u64 >> ((5 * k2) as u64)) & 31u64) >> 1u64,
        k2 < 12 && k != k2 ==> ((0x551d0b324831040u64 >> ((5 * k) as u64)) & 31u64) >> 1u64 != ((0x551d0b324831040u64 >> ((5 * k2) as u64)) & 31u64) >> 1u64,
        k2 < 12 && k != k2 ==> ((0x952d0531c831040u64 >> ((5 * k) as u64)) & 31u64) >> 1u64 != ((0x952d0531c831040u64 >> ((5 * k2) as u64)) & 31u64) >> 1u64,
        k2 < 12 && k != k2 ==> ((0xb50a17314834453u64 >> ((5 * k) as u64)) & 31u64) >> 1u64 != ((0xb50a17314834453u64 >> ((5 * k2) as u64)) & 31u64) >> 1u64,
        k2 < 12 && k != k2 ==> ((0xb50257314834c51u64 >> ((5 * k) as u64)) & 31u64) >> 1u64 != ((0xb50257314834c51u64 >> ((5 * k2) as u64)) & 31u64) >> 1u64,
        k2 < 12 && k != k2 ==> ((0xb52127314830044u64 >> ((5 * k) as u64)) & 31u64) >> 1u64 != ((0xb52127314830044u64 >> ((5 * k2) as u64)) & 31u64) >> 1u64,
        k2 < 12 && k != k2 ==> ((0x19e5073148b92a0u64 >> ((5 * k) as u64)) & 31u64) >> 1u64 != ((0x19e5073148b92a0u64 >> ((5 * k2) as u64)) & 31u64) >> 1u64,
        k2 < 12 && k != k2 ==> ((0x38e5073148a92e0u64 >> ((5 * k) as u64)) & 31u64) >> 1u64 != ((0x38e5073148a92e0u64 >> ((5 * k2) as u64)) & 31u64) >> 1u64,
        k2 < 12 && k != k2 ==> ((0xa5a5073148110c0u64 >> ((5 * k) as u64)) & 31u64) >> 1u64 != ((0xa5a5073148110c0u64 >> ((5 * k2) as u64)) & 31u64) >> 1u64,
        k2 < 12 && k != k2 ==> ((0xb52507300231148u64 >> ((5 * k) as u64)) & 31u64) >> 1u64 != ((0xb52507300231148u64 >> ((5 * k2) as u64)) & 31u64) >> 1u64,
        k2 < 12 && k != k2 ==> ((0xb5250730403110au64 >> ((5 * k) as u64)) & 31u64) >> 1u64 != ((0xb5250730403110au64 >> ((5 * k2) as u64)) & 31u64) >> 1u64,
        k2 < 12 && k != k2 ==> ((0xb52507310a31002u64 >> ((5 * k) as u64)) & 31u64) >> 1u64 != ((0xb52507310a31002u64 >> ((5 * k2) as u64)) & 31u64) >> 1u64,
        k2 < 12 && k != k2 ==> ((0xb52503114863840u64 >> ((5 * k) as u64)) & 31u64) >> 1u64 != ((0xb52503114863840u64 >> ((5 * k2) as u64)) & 31u64) >> 1u64,
        k2 < 12 && k != k2 ==> ((0xb52502194873040u64 >> ((5 * k) as u64)) & 31u64) >> 1u64 != ((0xb52502194873040u64 >> ((5 * k2) as u64)) & 31u64) >> 1u64,
        k2 < 12 && k != k2 ==> ((0xb52506394821840u64 >> ((5 * k) as u64)) & 31u64) >> 1u64 != ((0xb52506394821840u64 >> ((5 * k2) as u64)) & 31u64) >> 1u64,
{
}

/// Each basic state is tidy.
pub proof fn lemma_basic_tidy(i: int)
    requires
        0 <= i < 18,
    ensures
        basic_state(i).spec_tidy(),
        basic_state(i).edges_addressable(),
{
    let s = basic_state(i);
    assert forall|k: u64| k < 8 implies #[trigger] s.spec_co(k) < 3 by {
        lemma_basic_bits(k, 0);
        lemma_field_parts(s.corners, k);
    }
    assert forall|k: u64| k < 12 implies #[trigger] s.spec_ep(k) < 12 by {
        lemma_basic_bits(k, 0);
    }
    lemma_basic_bits(0, 0);
}


/// Each basic state is an element of the cube group: its corner positions
/// and its edge positions are permutations.
pub proof fn lemma_basic_well_formed(i: int)
    requires
        0 <= i < 18,
    ensures
        basic_state(i).spec_well_formed(),
{
    lemma_basic_tidy(i);
    let s = basic_state(i);
    let cp = s.corner_perm();
    let ep = s.edge_perm();
    assert forall|a: int| 0 <= a < 8 implies 0 <= #[trigger] cp[a] < 8 by {
        lemma_field_parts(s.corners, a as u64);
    }
    assert forall|a: int, b: int| 0 <= a < 8 && 0 <= b < 8 && a != b implies cp[a] != cp[b] by {
        lemma_basic_bits(a as u64, b as u64);
    }
    assert forall|a: int| 0 <= a < 12 implies 0 <= #[trigger] ep[a] < 12 by {
        lemma_basic_bits(a as u64, 0);
    }
    assert forall|a: int, b: int| 0 <= a < 12 && 0 <= b < 12 && a != b implies ep[a] != ep[b] by {
        lemma_basic_bits(a as u64, b as u64);
    }
}

/// The product of tidy states is tidy.
pub proof fn lemma_mul_tidy(a: State, b: State)
    requires
        a.spec_tidy(),
        b.spec_tidy(),
    ensures
        a.spec_mul(b).spec_tidy(),
        a.spec_mul(b).edges_addressable(),
{
    let p = a.spec_mul(b);
    lemma_mul_pieces(a, b);
    assert forall|i: u64| i < 8 implies #[trigger] p.spec_co(i) < 3 by {
        lemma_field_parts(b.corners, i);
        let j = b.spec_cp(i);
        lemma_field_parts(a.corners, j);
        lemma_ori_assoc(a.spec_co(j), b.spec_co(i), 0, b.spec_mirrored(), false);
    }
    assert forall|i: u64| i < 12 implies #[trigger] p.spec_ep(i) < 12 by {
        lemma_field_parts(b.edges, i);
    }
}

/// The solved cube is tidy.
pub proof fn lemma_id_tidy()
    ensures
        State::spec_id().spec_tidy(),
        State::spec_id().edges_addressable(),
{
    let id = State::spec_id();
    assert forall|k: u64| k < 8 implies #[trigger] id.spec_co(k) < 3 by {
        lemma_id_piece(k);
    }
    assert forall|k: u64| k < 12 implies #[trigger] id.spec_ep(k) < 12 by {
        lemma_id_piece(k);
    }
    lemma_id_piece(0);
}

/// The solved cube is the identity of the product, on either side.
pub proof fn lemma_mul_identity(s: State)
    requires
        s.spec_tidy(),
    ensures
        State::spec_id().spec_mul(s) == s,
        s.spec_mul(State::spec_id()) == s,
{
    let id = State::spec_id();
    lemma_mul_pieces(id, s);
    lemma_mul_pieces(s, id);
    lemma_id_piece(0);
    lemma_top_bit(0, s.corners, 0, 0, 0);
    assert forall|i: u64| #![trigger id.spec_mul(s).spec_cp(i)] #![trigger id.spec_mul(s).spec_co(i)] #![trigger s.spec_mul(id).spec_cp(i)] #![trigger s.spec_mul(id).spec_co(i)] i < 8 implies id.spec_mul(s).spec_cp(i) == s.spec_cp(i)
        && id.spec_mul(s).spec_co(i) == s.spec_co(i) && s.spec_mul(id).spec_cp(i) == s.spec_cp(i)
        && s.spec_mul(id).spec_co(i) == s.spec_co(i) by {
        assert(id.spec_mul(s).spec_co(i) == product_ori(id.spec_co(s.spec_cp(i)), s.spec_mirrored(), s.spec_co(i)));
        assert(s.spec_mul(id).spec_co(i) == product_ori(s.spec_co(id.spec_cp(i)), id.spec_mirrored(), id.spec_co(i)));
        lemma_field_parts(s.corners, i);
        lemma_id_piece(i);
        lemma_id_piece(s.spec_cp(i));
        lemma_small_fields(0, 0);
        assert(s.spec_co(i) < 3);
    }
    assert forall|i: u64| #![trigger id.spec_mul(s).spec_ep(i)] #![trigger id.spec_mul(s).spec_eo(i)] #![trigger s.spec_mul(id).spec_ep(i)] #![trigger s.spec_mul(id).spec_eo(i)] i < 12 implies id.spec_mul(s).spec_ep(i) == s.spec_ep(i)
        && id.spec_mul(s).spec_eo(i) == s.spec_eo(i) && s.spec_mul(id).spec_ep(i) == s.spec_ep(i)
        && s.spec_mul(id).spec_eo(i) == s.spec_eo(i) by {
        lemma_field_parts(s.edges, i);
        assert(s.spec_ep(i) < 12);
        lemma_id_piece(i);
        lemma_id_piece(s.spec_ep(i));
        lemma_small_fields(s.spec_eo(i), 0);
    }
    lemma_state_eq(id.spec_mul(s), s);
    lemma_state_eq(s.spec_mul(id), s);
}

/// The inverse of an element of the cube group is one too, mirrored when
/// the element is.
pub proof fn lemma_inv_well_formed(s: State)
    requires
        s.spec_well_formed(),
    ensures
        s.spec_inv().spec_well_formed(),
        s.spec_inv().spec_mirrored() == s.spec_mirrored(),
{
    let t = s.spec_inv();
    lemma_inv_pieces(s);
    lemma_perm_covers(s.corner_perm());
    lemma_perm_covers(s.edge_perm());
    assert forall|j: u64| j < 8 implies #[trigger] t.spec_co(j) < 3 && t.spec_cp(j) < 8 by {
        assert(s.corner_perm().contains(j as int));
        let k = choose|k: int| 0 <= k < 8 && s.corner_perm()[k] == j as int;
        assert(s.spec_cp(k as u64) == j);
        lemma_small_fields(s.spec_co(k as u64), 0);
    }
    assert forall|j: u64| j < 12 implies #[trigger] t.spec_ep(j) < 12 by {
        assert(s.edge_perm().contains(j as int));
        let k = choose|k: int| 0 <= k < 12 && s.edge_perm()[k] == j as int;
        assert(s.spec_ep(k as u64) == j);
    }
    assert forall|a: int, b: int| 0 <= a < 8 && 0 <= b < 8 && a != b implies t.corner_perm()[a] != t.corner_perm()[b] by {
        let ka = choose|k: int| 0 <= k < 8 && s.corner_perm()[k] == a;
        let kb = choose|k: int| 0 <= k < 8 && s.corner_perm()[k] == b;
        assert(s.corner_perm().contains(a) && s.corner_perm().contains(b));
        assert(t.spec_cp(s.spec_cp(ka as u64)) == ka as u64);
        assert(t.spec_cp(s.spec_cp(kb as u64)) == kb as u64);
    }
    assert forall|a: int, b: int| 0 <= a < 12 && 0 <= b < 12 && a != b implies t.edge_perm()[a] != t.edge_perm()[b] by {
        assert(s.edge_perm().contains(a) && s.edge_perm().contains(b));
        let ka = choose|k: int| 0 <= k < 12 && s.edge_perm()[k] == a;
        let kb = choose|k: int| 0 <= k < 12 && s.edge_perm()[k] == b;
        assert(t.spec_ep(s.spec_ep(ka as u64)) == ka as u64);
        assert(t.spec_ep(s.spec_ep(kb as u64)) == kb as u64);
    }
    assert forall|a: int| 0 <= a < 8 implies 0 <= #[trigger] t.corner_perm()[a] < 8 by {
        assert(t.spec_co(a as u64) < 3 && t.spec_cp(a as u64) < 8);
    }
    assert forall|a: int| 0 <= a < 12 implies 0 <= #[trigger] t.edge_perm()[a] < 12 by {
        assert(t.spec_ep(a as u64) < 12);
    }
}

/// Inverting an element of the cube group twice gives it back.
pub proof fn lemma_inv_involution(s: State)
    requires
        s.spec_well_formed(),
    ensures
        s.spec_inv().spec_inv() == s,
{
    let t = s.spec_inv();
    let x = t.spec_inv();
    let id = State::spec_id();
    lemma_inv_well_formed(s);
    lemma_inv_well_formed(t);
    lemma_mul_inverse(s);
    lemma_mul_inverse(t);
    lemma_id_tidy();
    lemma_mul_identity(x);
    lemma_mul_identity(s);
    lemma_mul_assoc(x, t, s);
    assert(x == x.spec_mul(id));
    assert(x.spec_mul(t.spec_mul(s)) == x.spec_mul(t).spec_mul(s));
}

/// The eighteen face turns give eighteen different states, which already
/// differ in their corners and differ in their edges; applied to the solved
/// cube, each gives its own state.
pub proof fn lemma_basic_moves_distinct()
    ensures
        forall|i: int, j: int|
            0 <= i < j < 18 ==> #[trigger] basic_state(i).corners != #[trigger] basic_state(j).corners
                && basic_state(i).edges != basic_state(j).edges,
        forall|i: int| 0 <= i < 18 ==> #[trigger] basic_state(i).spec_mul(State::spec_id()) == basic_state(i),
{
    assert forall|i: int, j: int|
        0 <= i < j < 18 implies #[trigger] basic_state(i).corners != #[trigger] basic_state(j).corners
            && basic_state(i).edges != basic_state(j).edges by {
        assert(0 <= i < 18 && 0 <= j < 18);
    }
    assert forall|i: int| 0 <= i < 18 implies #[trigger] basic_state(i).spec_mul(State::spec_id()) == basic_state(i) by {
        lemma_basic_tidy(i);
        lemma_mul_identity(basic_state(i));
    }
}

} // verus!
