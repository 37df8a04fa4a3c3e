use vstd::prelude::*;
use crate::cube_core::bits::{
    bits_at, field5, lemma_or_corner, lemma_or_edge, lemma_bits_at_bounds, lemma_corner_words_eq, lemma_edge_words_eq, lemma_field_parts, lemma_pack5,
    lemma_small_fields, pack5,
};
use crate::trie::{lemma_solved_edges, lemma_solved_fields};
use crate::cube_core::state::lemma_id_fields;
use crate::moves::{Direction, Face, Move};
use crate::model::moves::Axis;

verus! {

/// A state of the cube, in the layout where positions tell where each piece
/// comes from in the solved cube.
///
/// Each corner takes 5 bits in `corners`: its position (3 bits, the high
/// ones) and its orientation (2 bits), corner `i` from bit `5 * i`. Each edge
/// takes 5 bits in `edges`: its position (4 bits) and its orientation (1 bit),
/// edge `i` from bit `5 * i`.
#[derive(Debug, PartialEq, Eq, Clone, Copy, Hash, Structural)]
pub struct State {
    pub corners: u64,
    pub edges: u64,
}

/// The number of bits set in `x`.
pub open spec fn ones(x: u8) -> nat
    decreases x,
{
    if x == 0 {
        0
    } else {
        (x % 2) as nat + ones(x / 2)
    }
}

/// The turn added to the orientation of a corner that a quarter turn about
/// `axis` moves from `from` to `to`.
pub open spec fn corner_offset(from: u8, to: u8, axis: u8) -> u64 {
    if axis != 0 && from != to {
        if (ones(from) % 2 == 0) != (axis == 2) {
            1
        } else {
            2
        }
    } else {
        0
    }
}

/// The origin and destination of entry `i` of a permutation, exchanged when
/// it is applied backwards.
pub open spec fn from_to(perm: Seq<u8>, i: int, inv: bool) -> (u8, u8) {
    if inv {
        (perm[i], i as u8)
    } else {
        (i as u8, perm[i])
    }
}

/// The blocks of `array` moved by the first `n` entries of `perm`: block
/// `from` goes to `to`.
pub open spec fn permute_spec(array: u64, perm: Seq<u8>, inv: bool, n: nat) -> u64
    decreases n,
{
    if n == 0 {
        0
    } else {
        let (f, t) = from_to(perm, n - 1, inv);
        permute_spec(array, perm, inv, (n - 1) as nat) | (bits_at(array, (5 * f) as u64, 5) << ((5
            * t) as u64))
    }
}

/// The corners of `array` moved by the first `n` entries of `perm`, with
/// their orientations turned as a quarter turn about `axis` turns them.
pub open spec fn orient_corners_spec(array: u64, perm: Seq<u8>, axis: u8, inv: bool, n: nat) -> u64
    decreases n,
{
    if n == 0 {
        0
    } else {
        let (f, t) = from_to(perm, n - 1, inv);
        let new_or = ((bits_at(array, (5 * f) as u64, 2) + corner_offset(f, t, axis)) % 3) as u64;
        (orient_corners_spec(array, perm, axis, inv, (n - 1) as nat) | (bits_at(
            array,
            (5 * f + 2) as u64,
            3,
        ) << ((5 * t + 2) as u64))) | (new_or << ((5 * t) as u64))
    }
}

/// Whether an edge moved from `from` to `to` by a quarter turn about `axis`
/// is flipped: it moves, and it comes from a position along `axis`.
pub open spec fn edge_flip(array: u64, from: u8, to: u8, axis: u8) -> bool {
    from != to && (bits_at(array, (5 * from + 3) as u64, 2) as u8) == axis
}

/// The edges of `array` moved by the first `n` entries of `perm`, flipped as
/// a quarter turn about `axis` flips them.
pub open spec fn orient_edges_spec(array: u64, perm: Seq<u8>, axis: u8, inv: bool, n: nat) -> u64
    decreases n,
{
    if n == 0 {
        0
    } else {
        let (f, t) = from_to(perm, n - 1, inv);
        let flip: u64 = if edge_flip(array, f, t, axis) {
            1
        } else {
            0
        };
        (orient_edges_spec(array, perm, axis, inv, (n - 1) as nat) | (bits_at(
            array,
            (5 * f + 1) as u64,
            4,
        ) << ((5 * t + 1) as u64))) | ((flip ^ bits_at(array, (5 * f) as u64, 1)) << ((5 * t)
            as u64))
    }
}

/// Where a half turn of `face` takes each corner.
pub open spec fn half_corner_perm(face: Face) -> Seq<u8> {
    match face {
        Face::Left => seq![6, 1, 4, 3, 2, 5, 0, 7],
        Face::Right => seq![0, 7, 2, 5, 4, 3, 6, 1],
        Face::Down => seq![5, 4, 2, 3, 1, 0, 6, 7],
        Face::Up => seq![0, 1, 7, 6, 4, 5, 3, 2],
        Face::Back => seq![3, 2, 1, 0, 4, 5, 6, 7],
        Face::Front => seq![0, 1, 2, 3, 7, 6, 5, 4],
    }
}

/// Where a half turn of `face` takes each edge.
pub open spec fn half_edge_perm(face: Face) -> Seq<u8> {
    match face {
        Face::Left => seq![0, 1, 2, 3, 6, 5, 4, 7, 10, 9, 8, 11],
        Face::Right => seq![0, 1, 2, 3, 4, 7, 6, 5, 8, 11, 10, 9],
        Face::Down => seq![2, 1, 0, 3, 4, 5, 6, 7, 9, 8, 10, 11],
        Face::Up => seq![0, 3, 2, 1, 4, 5, 6, 7, 8, 9, 11, 10],
        Face::Back => seq![1, 0, 2, 3, 5, 4, 6, 7, 8, 9, 10, 11],
        Face::Front => seq![0, 1, 3, 2, 4, 5, 7, 6, 8, 9, 10, 11],
    }
}

/// Where a clockwise quarter turn of `face` takes each corner.
pub open spec fn quarter_corner_perm(face: Face) -> Seq<u8> {
    match face {
        Face::Left => seq![2, 1, 6, 3, 0, 5, 4, 7],
        Face::Right => seq![0, 5, 2, 1, 4, 7, 6, 3],
        Face::Down => seq![4, 0, 2, 3, 5, 1, 6, 7],
        Face::Up => seq![0, 1, 3, 7, 4, 5, 2, 6],
        Face::Back => seq![1, 3, 0, 2, 4, 5, 6, 7],
        Face::Front => seq![0, 1, 2, 3, 6, 4, 7, 5],
    }
}

/// Where a clockwise quarter turn of `face` takes each edge.
pub open spec fn quarter_edge_perm(face: Face) -> Seq<u8> {
    match face {
        Face::Left => seq![0, 1, 2, 3, 10, 5, 8, 7, 4, 9, 6, 11],
        Face::Right => seq![0, 1, 2, 3, 4, 9, 6, 11, 8, 7, 10, 5],
        Face::Down => seq![8, 1, 9, 3, 4, 5, 6, 7, 2, 0, 10, 11],
        Face::Up => seq![0, 11, 2, 10, 4, 5, 6, 7, 8, 9, 1, 3],
        Face::Back => seq![5, 4, 2, 3, 0, 1, 6, 7, 8, 9, 10, 11],
        Face::Front => seq![0, 1, 6, 7, 4, 5, 3, 2, 8, 9, 10, 11],
    }
}

/// The state reached from `s` by the move `mv`.
pub open spec fn spec_mv(s: State, mv: Move) -> State {
    match mv.dir {
        Direction::HalfTurn => State {
            corners: permute_spec(s.corners, half_corner_perm(mv.face), false, 8),
            edges: permute_spec(s.edges, half_edge_perm(mv.face), false, 12),
        },
        _ => State {
            corners: orient_corners_spec(
                s.corners,
                quarter_corner_perm(mv.face),
                mv.face.spec_axis().spec_index(),
                mv.dir == Direction::CounterClockwise,
                8,
            ),
            edges: orient_edges_spec(
                s.edges,
                quarter_edge_perm(mv.face),
                mv.face.spec_axis().spec_index(),
                mv.dir == Direction::CounterClockwise,
                12,
            ),
        },
    }
}

/// Whether `x` has an even number of bits set.
fn even_ones(x: u8) -> (r: bool)
    ensures
        r == (ones(x) % 2 == 0),
{
    let mut y = x;
    let mut c: u8 = 0;
    proof {
        lemma_ones_le(x);
    }
    while y > 0
        invariant
            c + ones(y) == ones(x),
            c <= 8,
            ones(y) <= 8 - c,
        decreases y,
    {
        proof {
            lemma_ones_le(y);
        }
        c += y % 2;
        y /= 2;
    }
    c % 2 == 0
}

/// A byte has at most 8 bits set.
proof fn lemma_ones_le(x: u8)
    ensures
        ones(x) <= 8,
        x > 0 ==> ones(x / 2) + 1 <= 8 || x % 2 == 0,
{
    vstd::arithmetic::power2::lemma2_to64();
    lemma_ones_bound(x, 8);
}

/// A number below `2^k` has at most `k` bits set.
proof fn lemma_ones_bound(x: u8, k: nat)
    requires
        k <= 8,
        x < vstd::arithmetic::power2::pow2(k),
    ensures
        ones(x) <= k,
    decreases k,
{
    vstd::arithmetic::power2::lemma2_to64();
    if k > 0 && x > 0 {
        vstd::arithmetic::power2::lemma_pow2_unfold(k);
        lemma_ones_bound(x / 2, (k - 1) as nat);
    }
}

/// The positions that a half turn of `face` gives the corners.
fn half_corner_array(face: Face) -> (r: [u8; 8])
    ensures
        r@ == half_corner_perm(face),
{
    let r = match face {
        Face::Left => [6, 1, 4, 3, 2, 5, 0, 7],
        Face::Right => [0, 7, 2, 5, 4, 3, 6, 1],
        Face::Down => [5, 4, 2, 3, 1, 0, 6, 7],
        Face::Up => [0, 1, 7, 6, 4, 5, 3, 2],
        Face::Back => [3, 2, 1, 0, 4, 5, 6, 7],
        Face::Front => [0, 1, 2, 3, 7, 6, 5, 4],
    };
    assert(r@ =~= half_corner_perm(face));
    r
}

/// The positions that a half turn of `face` gives the edges.
fn half_edge_array(face: Face) -> (r: [u8; 12])
    ensures
        r@ == half_edge_perm(face),
{
    let r = match face {
        Face::Left => [0, 1, 2, 3, 6, 5, 4, 7, 10, 9, 8, 11],
        Face::Right => [0, 1, 2, 3, 4, 7, 6, 5, 8, 11, 10, 9],
        Face::Down => [2, 1, 0, 3, 4, 5, 6, 7, 9, 8, 10, 11],
        Face::Up => [0, 3, 2, 1, 4, 5, 6, 7, 8, 9, 11, 10],
        Face::Back => [1, 0, 2, 3, 5, 4, 6, 7, 8, 9, 10, 11],
        Face::Front => [0, 1, 3, 2, 4, 5, 7, 6, 8, 9, 10, 11],
    };
    assert(r@ =~= half_edge_perm(face));
    r
}

/// The positions that a clockwise quarter turn of `face` gives the corners.
fn quarter_corner_array(face: Face) -> (r: [u8; 8])
    ensures
        r@ == quarter_corner_perm(face),
{
    let r = match face {
        Face::Left => [2, 1, 6, 3, 0, 5, 4, 7],
        Face::Right => [0, 5, 2, 1, 4, 7, 6, 3],
        Face::Down => [4, 0, 2, 3, 5, 1, 6, 7],
        Face::Up => [0, 1, 3, 7, 4, 5, 2, 6],
        Face::Back => [1, 3, 0, 2, 4, 5, 6, 7],
        Face::Front => [0, 1, 2, 3, 6, 4, 7, 5],
    };
    assert(r@ =~= quarter_corner_perm(face));
    r
}

/// The positions that a clockwise quarter turn of `face` gives the edges.
fn quarter_edge_array(face: Face) -> (r: [u8; 12])
    ensures
        r@ == quarter_edge_perm(face),
{
    let r = match face {
        Face::Left => [0, 1, 2, 3, 10, 5, 8, 7, 4, 9, 6, 11],
        Face::Right => [0, 1, 2, 3, 4, 9, 6, 11, 8, 7, 10, 5],
        Face::Down => [8, 1, 9, 3, 4, 5, 6, 7, 2, 0, 10, 11],
        Face::Up => [0, 11, 2, 10, 4, 5, 6, 7, 8, 9, 1, 3],
        Face::Back => [5, 4, 2, 3, 0, 1, 6, 7, 8, 9, 10, 11],
        Face::Front => [0, 1, 6, 7, 4, 5, 3, 2, 8, 9, 10, 11],
    };
    assert(r@ =~= quarter_edge_perm(face));
    r
}

impl State {
    /// The state of a solved cube.
    #[allow(non_snake_case)]
    pub fn SOLVED() -> (r: Self)
        ensures
            r.corners == 0xe629062080,
            r.edges == 0xb52507314831040,
    {
        Self {
            corners: 0b_11100_11000_10100_10000_01100_01000_00100_00000,
            edges: 0b_10110_10100_10010_10000_01110_01100_01010_01000_00110_00100_00010_00000,
        }
    }

    /// The `size` bits of `data` from bit `pos` on.
    pub fn get_block(data: u64, pos: u8, size: u8) -> (r: u64)
        requires
            pos < 64,
            size < 64,
        ensures
            r == bits_at(data, pos as u64, size as u64),
    {
        crate::cube_core::bits::get(data, pos, size)
    }

    /// Moves each 5-bit block `from` of `array` to the block `to`, for each
    /// entry `to` of `perm` at index `from` (the other way round when `inv`).
    pub fn permute<const N: usize>(array: u64, perm: [u8; N], inv: bool) -> (r: u64)
        requires
            N <= 12,
            forall|i: int| 0 <= i < N ==> #[trigger] perm[i] < 12,
        ensures
            r == permute_spec(array, perm@, inv, N as nat),
    {
        let mut result: u64 = 0;
        let mut i: usize = 0;
        while i < N
            invariant
                i <= N <= 12,
                forall|i: int| 0 <= i < N ==> #[trigger] perm[i] < 12,
                result == permute_spec(array, perm@, inv, i as nat),
            decreases N - i,
        {
            let from = i as u8;
            let to = perm[i];
            let (from, to) = if inv {
                (to, from)
            } else {
                (from, to)
            };
            result |= Self::get_block(array, 5 * from, 5) << ((5 * to) as u64);
            i += 1;
        }
        result
    }

    /// Moves each corner of `array` as `permute` does, turning its
    /// orientation as a quarter turn about `axis` does.
    pub fn orient_corners(array: u64, perm: [u8; 8], axis: u8, inv: bool) -> (r: u64)
        requires
            forall|i: int| 0 <= i < 8 ==> #[trigger] perm[i] < 12,
        ensures
            r == orient_corners_spec(array, perm@, axis, inv, 8),
    {
        let mut result: u64 = 0;
        let mut i: usize = 0;
        while i < 8
            invariant
                i <= 8,
                forall|i: int| 0 <= i < 8 ==> #[trigger] perm[i] < 12,
                result == orient_corners_spec(array, perm@, axis, inv, i as nat),
            decreases 8 - i,
        {
            let from = i as u8;
            let to = perm[i];
            let (from, to) = if inv {
                (to, from)
            } else {
                (from, to)
            };
            result |= Self::get_block(array, 5 * from + 2, 3) << ((5 * to + 2) as u64);
            let offset: u64 = if axis != 0 && from != to {
                let dir = even_ones(from) != (axis == 2);
                if dir {
                    1
                } else {
                    2
                }
            } else {
                0
            };
            let old_or = Self::get_block(array, 5 * from, 2);
            proof {
                crate::cube_core::bits::lemma_small_fields(0, 0);
                assert(old_or < 4) by {
                    assert(bits_at(array, (5 * from) as u64, 2) < 4) by (bit_vector);
                }
            }
            let new_or = (old_or + offset) % 3;
            result |= new_or << ((5 * to) as u64);
            i += 1;
        }
        result
    }

    /// Moves each edge of `array` as `permute` does, flipping it as a
    /// quarter turn about `axis` does.
    pub fn orient_edges(array: u64, perm: [u8; 12], axis: u8, inv: bool) -> (r: u64)
        requires
            forall|i: int| 0 <= i < 12 ==> #[trigger] perm[i] < 12,
        ensures
            r == orient_edges_spec(array, perm@, axis, inv, 12),
    {
        let mut result: u64 = 0;
        let mut i: usize = 0;
        while i < 12
            invariant
                i <= 12,
                forall|i: int| 0 <= i < 12 ==> #[trigger] perm[i] < 12,
                result == orient_edges_spec(array, perm@, axis, inv, i as nat),
            decreases 12 - i,
        {
            let from = i as u8;
            let to = perm[i];
            let (from, to) = if inv {
                (to, from)
            } else {
                (from, to)
            };
            result |= Self::get_block(array, 5 * from + 1, 4) << ((5 * to + 1) as u64);
            let flip = from != to && (Self::get_block(array, 5 * from + 3, 2) as u8) == axis;
            let flip_bit: u64 = if flip {
                1
            } else {
                0
            };
            result |= (flip_bit ^ Self::get_block(array, 5 * from, 1)) << ((5 * to) as u64);
            i += 1;
        }
        result
    }

    /// Returns the state resulting from the given move.
    pub fn mv(&self, mv: Move) -> (r: Self)
        ensures
            r == spec_mv(*self, mv),
    {
        match mv.dir {
            Direction::HalfTurn => {
                let corner_perm = half_corner_array(mv.face);
                let edge_perm = half_edge_array(mv.face);
                Self {
                    corners: Self::permute(self.corners, corner_perm, false),
                    edges: Self::permute(self.edges, edge_perm, false),
                }
            },
            _ => {
                let corner_perm = quarter_corner_array(mv.face);
                let edge_perm = quarter_edge_array(mv.face);
                let axis: u8 = match mv.face.axis_and_sign().0 {
                    Axis::X => 0,
                    Axis::Y => 1,
                    Axis::Z => 2,
                };
                let inv = mv.dir == Direction::CounterClockwise;
                Self {
                    corners: Self::orient_corners(self.corners, corner_perm, axis, inv),
                    edges: Self::orient_edges(self.edges, edge_perm, axis, inv),
                }
            },
        }
    }
}

/// The position and orientation of corner `i` of the product of `a` and
/// `b`: the corner of `a` at the position that `b` gives corner `i`, with the
/// orientations added.
pub open spec fn compose_corner(a: State, b: State, i: u64) -> (u64, u64) {
    let o1 = bits_at(b.corners, (5 * i) as u64, 2);
    let p1 = bits_at(b.corners, (5 * i + 2) as u64, 3);
    let o2 = ((o1 + bits_at(a.corners, (5 * p1) as u64, 2)) % 3) as u64;
    let p2 = bits_at(a.corners, (5 * p1 + 2) as u64, 3);
    (p2, o2)
}

/// The first `n` corners of the product of `a` and `b`.
pub open spec fn compose_corners(a: State, b: State, n: nat) -> u64
    decreases n,
{
    if n == 0 {
        0
    } else {
        let i = (n - 1) as u64;
        let (p, o) = compose_corner(a, b, i);
        (compose_corners(a, b, (n - 1) as nat) | (p << ((5 * i + 2) as u64))) | (o << ((5 * i)
            as u64))
    }
}

/// The axis bit of an edge position: one of three bits, by the position's
/// group of four.
pub open spec fn axis_bit(pos: u64) -> u8 {
    (1u8 << ((pos >> 2u64) as u8)) as u8
}

/// The position and orientation of edge `i` of the product of `a` and `b`:
/// the edge of `a` at the position that `b` gives edge `i`, with the
/// orientations added, and flipped once more when the three positions met
/// on the way lie along the three axes.
pub open spec fn compose_edge(a: State, b: State, i: u64) -> (u64, u64) {
    let o1 = bits_at(b.edges, (5 * i) as u64, 1);
    let p1 = bits_at(b.edges, (5 * i + 1) as u64, 4);
    let o2 = o1 ^ bits_at(a.edges, (5 * p1) as u64, 1);
    let p2 = bits_at(a.edges, (5 * p1 + 1) as u64, 4);
    let axes = (axis_bit(i) | axis_bit(p1)) | axis_bit(p2);
    let o3 = o2 ^ (if axes == 7 {
        1u64
    } else {
        0u64
    });
    (p2, o3)
}

/// The first `n` edges of the product of `a` and `b`.
pub open spec fn compose_edges(a: State, b: State, n: nat) -> u64
    decreases n,
{
    if n == 0 {
        0
    } else {
        let i = (n - 1) as u64;
        let (p, o) = compose_edge(a, b, i);
        (compose_edges(a, b, (n - 1) as nat) | (p << ((5 * i + 1) as u64))) | (o << ((5 * i)
            as u64))
    }
}

/// Whether every edge position of `s` can be looked up: it is at most 12.
pub open spec fn edges_readable(s: State) -> bool {
    forall|i: u64| i < 12 ==> #[trigger] bits_at(s.edges, (5 * i + 1) as u64, 4) <= 12
}

/// The first `n` corners of the inverse of `s`: corner `i` goes back from its
/// position, with its orientation negated.
pub open spec fn invert_corners(s: State, n: nat) -> u64
    decreases n,
{
    if n == 0 {
        0
    } else {
        let i = (n - 1) as u64;
        let pos = bits_at(s.corners, (5 * i + 2) as u64, 3);
        let ori = bits_at(s.corners, (5 * i) as u64, 2);
        (invert_corners(s, (n - 1) as nat) | (i << ((5 * pos + 2) as u64))) | ((((3 - ori) % 3)
            as u64) << ((5 * pos) as u64))
    }
}

/// The first `n` edges of the inverse of `s`: edge `i` goes back from its
/// position, with its orientation kept.
pub open spec fn invert_edges(s: State, n: nat) -> u64
    decreases n,
{
    if n == 0 {
        0
    } else {
        let i = (n - 1) as u64;
        let pos = bits_at(s.edges, (5 * i + 1) as u64, 4);
        let ori = bits_at(s.edges, (5 * i) as u64, 1);
        (invert_edges(s, (n - 1) as nat) | (i << ((5 * pos + 1) as u64))) | (ori << ((5 * pos)
            as u64))
    }
}

/// The axis bit of an edge position.
fn axes(pos: u64) -> (r: u8)
    requires
        pos < 16,
    ensures
        r == axis_bit(pos),
{
    assert(pos >> 2u64 < 4) by (bit_vector)
        requires
            pos < 16,
    ;
    1 << ((pos >> 2) as u8)
}

/// Small facts on bit fields of 2, 3 and 4 bits.
proof fn lemma_block_bounds(w: u64, p: u64)
    by (bit_vector)
    ensures
        (w >> p) & (((1u64 << 1u64) - 1u64) as u64) < 2,
        (w >> p) & (((1u64 << 2u64) - 1u64) as u64) < 4,
        (w >> p) & (((1u64 << 3u64) - 1u64) as u64) < 8,
        (w >> p) & (((1u64 << 4u64) - 1u64) as u64) < 16,
        (w >> p) & (((1u64 << 4u64) - 1u64) as u64) >> 2u64 < 4,
{
}

impl State {
    /// The state reached by applying `other`, then `self`: the piece at each
    /// position comes from where `other` takes it, then from where `self`
    /// takes that.
    pub fn compose(&self, other: &State) -> (r: State)
        requires
            edges_readable(*other),
        ensures
            r.corners == compose_corners(*self, *other, 8),
            r.edges == compose_edges(*self, *other, 12),
    {
        let mut corners: u64 = 0;
        let mut i: u8 = 0;
        while i < 8
            invariant
                i <= 8,
                corners == compose_corners(*self, *other, i as nat),
            decreases 8 - i,
        {
            proof {
                lemma_block_bounds(other.corners, (5 * i + 2) as u64);
                lemma_block_bounds(other.corners, (5 * i) as u64);
            }
            let mut pos = i;
            let mut ori = Self::get_block(other.corners, 5 * pos, 2);
            pos = Self::get_block(other.corners, 5 * pos + 2, 3) as u8;
            proof {
                lemma_block_bounds(self.corners, (5 * pos) as u64);
                lemma_block_bounds(self.corners, (5 * pos + 2) as u64);
            }
            ori = (ori + Self::get_block(self.corners, 5 * pos, 2)) % 3;
            pos = Self::get_block(self.corners, 5 * pos + 2, 3) as u8;
            corners |= (pos as u64) << ((5 * i + 2) as u64);
            corners |= ori << ((5 * i) as u64);
            i += 1;
        }
        let mut edges: u64 = 0;
        let mut i: u8 = 0;
        while i < 12
            invariant
                i <= 12,
                edges_readable(*other),
                edges == compose_edges(*self, *other, i as nat),
            decreases 12 - i,
        {
            proof {
                lemma_block_bounds(other.edges, (5 * i + 1) as u64);
                lemma_block_bounds(other.edges, (5 * i) as u64);
                assert(bits_at(other.edges, (5 * (i as u64) + 1) as u64, 4) <= 12);
            }
            let mut pos = i;
            let mut common_axes = axes(pos as u64);
            let mut ori = Self::get_block(other.edges, 5 * pos, 1);
            pos = Self::get_block(other.edges, 5 * pos + 1, 4) as u8;
            common_axes |= axes(pos as u64);
            proof {
                lemma_block_bounds(self.edges, (5 * pos) as u64);
                lemma_block_bounds(self.edges, (5 * pos + 1) as u64);
            }
            ori ^= Self::get_block(self.edges, 5 * pos, 1);
            pos = Self::get_block(self.edges, 5 * pos + 1, 4) as u8;
            common_axes |= axes(pos as u64);
            let extra: u64 = if common_axes == 0b111 {
                1
            } else {
                0
            };
            ori ^= extra;
            edges |= (pos as u64) << ((5 * i + 1) as u64);
            edges |= ori << ((5 * i) as u64);
            i += 1;
        }
        State { corners, edges }
    }

    /// The inverse state: each piece goes back where it came from, corner
    /// orientations negated.
    pub fn invert(&self) -> (r: State)
        requires
            edges_readable(*self),
        ensures
            r.corners == invert_corners(*self, 8),
            r.edges == invert_edges(*self, 12),
    {
        let mut corners: u64 = 0;
        let mut i: u8 = 0;
        while i < 8
            invariant
                i <= 8,
                corners == invert_corners(*self, i as nat),
            decreases 8 - i,
        {
            proof {
                lemma_block_bounds(self.corners, (5 * i + 2) as u64);
                lemma_block_bounds(self.corners, (5 * i) as u64);
            }
            let pos = Self::get_block(self.corners, 5 * i + 2, 3) as u8;
            let ori = Self::get_block(self.corners, 5 * i, 2);
            corners |= (i as u64) << ((5 * pos + 2) as u64);
            corners |= ((3 - ori) % 3) << ((5 * pos) as u64);
            i += 1;
        }
        let mut edges: u64 = 0;
        let mut i: u8 = 0;
        while i < 12
            invariant
                i <= 12,
                edges_readable(*self),
                edges == invert_edges(*self, i as nat),
            decreases 12 - i,
        {
            proof {
                lemma_block_bounds(self.edges, (5 * i + 1) as u64);
                lemma_block_bounds(self.edges, (5 * i) as u64);
                assert(bits_at(self.edges, (5 * (i as u64) + 1) as u64, 4) <= 12);
            }
            let pos = Self::get_block(self.edges, 5 * i + 1, 4) as u8;
            let ori = Self::get_block(self.edges, 5 * i, 1);
            edges |= (i as u64) << ((5 * pos + 1) as u64);
            edges |= ori << ((5 * pos) as u64);
            i += 1;
        }
        State { corners, edges }
    }
}

/// The solved cube, in the older layout.
pub open spec fn legacy_solved() -> State {
    State { corners: 0xe629062080, edges: 0xb52507314831040 }
}

/// Whether `s` is tidy: its corner orientations are below 3, its edge
/// positions below 12, and no bit is set outside the pieces' fields.
pub open spec fn legacy_tidy(s: State) -> bool {
    &&& s.corners >> 40u64 == 0
    &&& s.edges >> 60u64 == 0
    &&& forall|i: u64| i < 8 ==> #[trigger] bits_at(s.corners, (5 * i) as u64, 2) < 3
    &&& forall|i: u64| i < 12 ==> #[trigger] bits_at(s.edges, (5 * i + 1) as u64, 4) < 12
}

/// The 5-bit field of corner `i` of the product of `a` and `b`.
pub open spec fn compose_corner_field(a: State, b: State) -> spec_fn(u64) -> u64 {
    |i: u64| (compose_corner(a, b, i).0 << 2u64) | compose_corner(a, b, i).1
}

/// The 5-bit field of edge `i` of the product of `a` and `b`.
pub open spec fn compose_edge_field(a: State, b: State) -> spec_fn(u64) -> u64 {
    |i: u64| (compose_edge(a, b, i).0 << 1u64) | compose_edge(a, b, i).1
}

/// Writing a position and an orientation into a field at once.
proof fn lemma_or_pair(w: u64, p: u64, o: u64, i: u64)
    by (bit_vector)
    requires
        i < 12,
        p < 16,
        o < 4,
    ensures
        p < 8 ==> (w | (p << ((5 * i + 2) as u64))) | (o << ((5 * i) as u64)) == w | (((p << 2u64) | o) << ((5
            * i) as u64)),
        o < 2 ==> (w | (p << ((5 * i + 1) as u64))) | (o << ((5 * i) as u64)) == w | (((p << 1u64) | o) << ((5
            * i) as u64)),
        p < 8 ==> (p << 2u64) | o < 32,
        o < 2 ==> (p << 1u64) | o < 32,
        (0u64 >> ((5 * i) as u64)) & 31u64 == 0,
{
}

/// Three edge positions can lie along the three axes only if two of them
/// differ from the third.
proof fn lemma_axes_two(x: u64, y: u64)
    by (bit_vector)
    requires
        x < 12,
        y < 12,
    ensures
        (axis_bit(x) | axis_bit(y)) | axis_bit(y) != 7u8,
        (axis_bit(x) | axis_bit(x)) | axis_bit(y) != 7u8,
        (axis_bit(x) | axis_bit(y)) | axis_bit(x) != 7u8,
{
}

/// The words of a product hold the fields of its pieces.
proof fn lemma_compose_packed(a: State, b: State, n: nat)
    requires
        n <= 12,
    ensures
        n <= 8 ==> compose_corners(a, b, n) == pack5(compose_corner_field(a, b), n),
        compose_edges(a, b, n) == pack5(compose_edge_field(a, b), n),
    decreases n,
{
    if n > 0 {
        let i = (n - 1) as u64;
        lemma_compose_packed(a, b, (n - 1) as nat);
        lemma_bits_at_bounds(a.corners, (5 * bits_at(b.corners, (5 * i + 2) as u64, 3) + 2) as u64);
        lemma_bits_at_bounds(a.edges, (5 * bits_at(b.edges, (5 * i + 1) as u64, 4) + 1) as u64);
        lemma_bits_at_bounds(b.edges, (5 * i) as u64);
        lemma_bits_at_bounds(a.edges, (5 * bits_at(b.edges, (5 * i + 1) as u64, 4)) as u64);
        let (pc, oc) = compose_corner(a, b, i);
        let (pe, oe) = compose_edge(a, b, i);
        lemma_small_fields(bits_at(b.edges, (5 * i) as u64, 1), bits_at(a.edges, (5 * bits_at(b.edges, (5 * i + 1) as u64, 4)) as u64, 1));
        let x = bits_at(b.edges, (5 * i) as u64, 1) ^ bits_at(a.edges, (5 * bits_at(b.edges, (5 * i + 1) as u64, 4)) as u64, 1);
        lemma_small_fields(x, 1);
        lemma_small_fields(x, 0);
        assert(oe < 2);
        lemma_or_pair(compose_corners(a, b, (n - 1) as nat), pc, oc, i);
        lemma_or_pair(compose_edges(a, b, (n - 1) as nat), pe, oe, i);
    }
}

/// The solved cube is an identity of the product of the older layout on
/// both sides.
pub proof fn lemma_compose_identity(s: State)
    requires
        legacy_tidy(s),
    ensures
        compose_corners(legacy_solved(), s, 8) == s.corners,
        compose_edges(legacy_solved(), s, 12) == s.edges,
        compose_corners(s, legacy_solved(), 8) == s.corners,
        compose_edges(s, legacy_solved(), 12) == s.edges,
{
    let sv = legacy_solved();
    lemma_compose_packed(sv, s, 12);
    lemma_compose_packed(sv, s, 8);
    lemma_compose_packed(s, sv, 12);
    lemma_compose_packed(s, sv, 8);
    let fl = compose_corner_field(sv, s);
    let fr = compose_corner_field(s, sv);
    let gl = compose_edge_field(sv, s);
    let gr = compose_edge_field(s, sv);
    assert forall|i: u64| i < 8 implies #[trigger] fl(i) == field5(s.corners, i) && fr(i) == field5(s.corners, i) by {
        lemma_field_parts(s.corners, i);
        lemma_bits_at_bounds(s.corners, (5 * i) as u64);
        lemma_bits_at_bounds(s.corners, (5 * i + 2) as u64);
        let p = bits_at(s.corners, (5 * i + 2) as u64, 3);
        lemma_solved_fields(p);
        lemma_solved_fields(i);
        lemma_small_fields(field5(s.corners, i), 0);
    }
    assert forall|i: u64| i < 12 implies #[trigger] gl(i) == field5(s.edges, i) && gr(i) == field5(s.edges, i) by {
        lemma_field_parts(s.edges, i);
        lemma_bits_at_bounds(s.edges, (5 * i) as u64);
        lemma_bits_at_bounds(s.edges, (5 * i + 1) as u64);
        let p = bits_at(s.edges, (5 * i + 1) as u64, 4);
        let o = bits_at(s.edges, (5 * i) as u64, 1);
        lemma_solved_fields(p);
        lemma_solved_edges(p);
        lemma_solved_fields(i);
        lemma_solved_edges(i);
        lemma_axes_two(i, p);
        lemma_small_fields(o, 0);
        lemma_small_fields(field5(s.edges, i), 0);
    }
    assert forall|i: u64| i < 8 implies #[trigger] fl(i) < 32 by {
        lemma_field_parts(s.corners, i);
        assert(fl(i) == field5(s.corners, i));
    }
    assert forall|i: u64| i < 8 implies #[trigger] fr(i) < 32 by {
        lemma_field_parts(s.corners, i);
        assert(fl(i) == field5(s.corners, i));
    }
    assert forall|i: u64| i < 12 implies #[trigger] gl(i) < 32 by {
        lemma_field_parts(s.edges, i);
        assert(gl(i) == field5(s.edges, i));
    }
    assert forall|i: u64| i < 12 implies #[trigger] gr(i) < 32 by {
        lemma_field_parts(s.edges, i);
        assert(gl(i) == field5(s.edges, i));
    }
    lemma_pack5(fl, 8);
    lemma_pack5(fr, 8);
    lemma_pack5(gl, 12);
    lemma_pack5(gr, 12);
    assert forall|i: u64| i < 8 implies #[trigger] field5(pack5(fr, 8), i) == field5(s.corners, i) by {
        assert(fl(i) == field5(s.corners, i));
    }
    assert forall|i: u64| i < 12 implies #[trigger] field5(pack5(gr, 12), i) == field5(s.edges, i) by {
        assert(gl(i) == field5(s.edges, i));
    }
    lemma_corner_words_eq(pack5(fl, 8), s.corners);
    lemma_corner_words_eq(pack5(fr, 8), s.corners);
    lemma_edge_words_eq(pack5(gl, 12), s.edges);
    lemma_edge_words_eq(pack5(gr, 12), s.edges);
}

/// The position of corner `i` of `s`, in the older layout.
pub open spec fn legacy_cp(s: State, i: u64) -> u64 {
    bits_at(s.corners, (5 * i + 2) as u64, 3)
}

/// The position of edge `i` of `s`, in the older layout.
pub open spec fn legacy_ep(s: State, i: u64) -> u64 {
    bits_at(s.edges, (5 * i + 1) as u64, 4)
}

/// Whether `s` is an element of the cube group in the older layout: tidy,
/// with its corners at eight distinct positions and its edges at twelve.
pub open spec fn legacy_well_formed(s: State) -> bool {
    &&& legacy_tidy(s)
    &&& forall|i: u64, j: u64|
        i < 8 && j < 8 && i != j ==> #[trigger] legacy_cp(s, i) != #[trigger] legacy_cp(s, j)
    &&& forall|i: u64, j: u64|
        i < 12 && j < 12 && i != j ==> #[trigger] legacy_ep(s, i) != #[trigger] legacy_ep(s, j)
}

/// The corner of `s` at position `q`, if one of the first `n` is there.
pub open spec fn corner_at(s: State, q: u64, n: nat) -> bool {
    exists|i: u64| i < n && #[trigger] legacy_cp(s, i) == q
}

/// The fields of the corner word of the inverse: after `n` corners, the
/// field of position `q` holds the corner that is there with its
/// orientation negated, or nothing.
proof fn lemma_invert_corner_fields(s: State, n: nat, q: u64)
    requires
        legacy_well_formed(s),
        n <= 8,
        q < 8,
    ensures
        invert_corners(s, n) >> 40u64 == 0,
        !corner_at(s, q, n) ==> field5(invert_corners(s, n), q) == 0,
        forall|i: u64|
            i < n && #[trigger] legacy_cp(s, i) == q ==> field5(invert_corners(s, n), q)
                == (i << 2u64) | (((3 - bits_at(s.corners, (5 * i) as u64, 2)) % 3) as u64),
    decreases n,
{
    if n == 0 {
        lemma_small_fields(0, 0);
        lemma_or_pair(0, 0, 0, q);
    } else {
        let i = (n - 1) as u64;
        lemma_invert_corner_fields(s, (n - 1) as nat, q);
        let acc = invert_corners(s, (n - 1) as nat);
        lemma_bits_at_bounds(s.corners, (5 * i + 2) as u64);
        lemma_bits_at_bounds(s.corners, (5 * i) as u64);
        let p = legacy_cp(s, i);
        let o = ((3 - bits_at(s.corners, (5 * i) as u64, 2)) % 3) as u64;
        lemma_or_corner(acc, i, o, p, q);
        lemma_small_fields(i, o);
        if p == q {
            if corner_at(s, q, (n - 1) as nat) {
                let j = choose|j: u64| j < n - 1 && #[trigger] legacy_cp(s, j) == q;
                assert(legacy_cp(s, j) != legacy_cp(s, i));
            }
            assert(field5(acc, q) == 0);
            lemma_small_fields((i << 2u64) | o, 0);
            assert(corner_at(s, q, n));
        } else {
            if corner_at(s, q, n) {
                let j = choose|j: u64| j < n && #[trigger] legacy_cp(s, j) == q;
                assert(j != i);
                assert(corner_at(s, q, (n - 1) as nat));
            }
        }
    }
}

/// Whether one of the first `n` edges of `s` is at position `q`.
pub open spec fn edge_at(s: State, q: u64, n: nat) -> bool {
    exists|i: u64| i < n && #[trigger] legacy_ep(s, i) == q
}

/// The fields of the edge word of the inverse: after `n` edges, the field of
/// position `q` holds the edge that is there with its orientation, or
/// nothing.
proof fn lemma_invert_edge_fields(s: State, n: nat, q: u64)
    requires
        legacy_well_formed(s),
        n <= 12,
        q < 12,
    ensures
        invert_edges(s, n) >> 60u64 == 0,
        !edge_at(s, q, n) ==> field5(invert_edges(s, n), q) == 0,
        forall|i: u64|
            i < n && #[trigger] legacy_ep(s, i) == q ==> field5(invert_edges(s, n), q) == (i
                << 1u64) | bits_at(s.edges, (5 * i) as u64, 1),
    decreases n,
{
    if n == 0 {
        lemma_small_fields(0, 0);
        lemma_or_pair(0, 0, 0, q);
    } else {
        let i = (n - 1) as u64;
        lemma_invert_edge_fields(s, (n - 1) as nat, q);
        let acc = invert_edges(s, (n - 1) as nat);
        lemma_bits_at_bounds(s.edges, (5 * i + 1) as u64);
        lemma_bits_at_bounds(s.edges, (5 * i) as u64);
        let p = legacy_ep(s, i);
        let o = bits_at(s.edges, (5 * i) as u64, 1);
        lemma_or_edge(acc, i, o, p, q);
        lemma_small_fields(i, o);
        if p == q {
            if edge_at(s, q, (n - 1) as nat) {
                let j = choose|j: u64| j < n - 1 && #[trigger] legacy_ep(s, j) == q;
                assert(legacy_ep(s, j) != legacy_ep(s, i));
            }
            assert(field5(acc, q) == 0);
            lemma_small_fields((i << 1u64) | o, 0);
            assert(edge_at(s, q, n));
        } else {
            if edge_at(s, q, n) {
                let j = choose|j: u64| j < n && #[trigger] legacy_ep(s, j) == q;
                assert(j != i);
                assert(edge_at(s, q, (n - 1) as nat));
            }
        }
    }
}

/// The parts of field `i` of `w`, as the older layout reads them.
proof fn lemma_parts(w: u64, i: u64)
    requires
        i < 12,
    ensures
        bits_at(w, (5 * i + 2) as u64, 3) == field5(w, i) >> 2u64,
        bits_at(w, (5 * i) as u64, 2) == field5(w, i) & 3u64,
        bits_at(w, (5 * i + 1) as u64, 4) == field5(w, i) >> 1u64,
        bits_at(w, (5 * i) as u64, 1) == field5(w, i) & 1u64,
        field5(w, i) < 32,
{
    lemma_bits_at_bounds(w, (5 * i + 2) as u64);
    lemma_bits_at_bounds(w, (5 * i + 1) as u64);
    lemma_bits_at_bounds(w, (5 * i) as u64);
    lemma_field_parts(w, i);
}

/// The inverse of `s` in the older layout, as `invert` computes it.
pub open spec fn legacy_inverse(s: State) -> State {
    State { corners: invert_corners(s, 8), edges: invert_edges(s, 12) }
}

/// The pieces of the inverse: the corner at position `q` of `s` is `k`
/// with its orientation negated, and likewise for edges, with the
/// orientation kept.
proof fn lemma_inverse_pieces(s: State, k: u64)
    requires
        legacy_well_formed(s),
        k < 12,
    ensures
        k < 8 ==> legacy_cp(legacy_inverse(s), legacy_cp(s, k)) == k,
        k < 8 ==> bits_at(legacy_inverse(s).corners, (5 * legacy_cp(s, k)) as u64, 2) == (3 - bits_at(
            s.corners,
            (5 * k) as u64,
            2,
        )) % 3,
        legacy_ep(legacy_inverse(s), legacy_ep(s, k)) == k,
        bits_at(legacy_inverse(s).edges, (5 * legacy_ep(s, k)) as u64, 1) == bits_at(s.edges, (5 * k) as u64, 1),
        legacy_cp(s, k) < 8,
        legacy_ep(s, k) < 12,
{
    let t = legacy_inverse(s);
    lemma_bits_at_bounds(s.corners, (5 * k + 2) as u64);
    lemma_bits_at_bounds(s.corners, (5 * k) as u64);
    lemma_bits_at_bounds(s.edges, (5 * k) as u64);
    if k < 8 {
        let q = legacy_cp(s, k);
        lemma_invert_corner_fields(s, 8, q);
        let o = ((3 - bits_at(s.corners, (5 * k) as u64, 2)) % 3) as u64;
        lemma_parts(t.corners, q);
        lemma_small_fields(k, o);
    }
    let q = legacy_ep(s, k);
    lemma_invert_edge_fields(s, 12, q);
    lemma_parts(t.edges, q);
    lemma_small_fields(k, bits_at(s.edges, (5 * k) as u64, 1));
}

/// Every position holds a piece of an element of the cube group.
proof fn lemma_positions_covered(s: State, q: u64)
    requires
        legacy_well_formed(s),
        q < 12,
    ensures
        q < 8 ==> exists|k: u64| k < 8 && #[trigger] legacy_cp(s, k) == q,
        exists|k: u64| k < 12 && #[trigger] legacy_ep(s, k) == q,
{
    let pc = Seq::new(8, |i: int| legacy_cp(s, i as u64) as int);
    let pe = Seq::new(12, |i: int| legacy_ep(s, i as u64) as int);
    assert forall|i: int| 0 <= i < 8 implies 0 <= #[trigger] pc[i] < 8 by {
        lemma_bits_at_bounds(s.corners, (5 * i + 2) as u64);
    }
    assert forall|i: int, j: int| 0 <= i < 8 && 0 <= j < 8 && i != j implies pc[i] != pc[j] by {
        assert(legacy_cp(s, i as u64) != legacy_cp(s, j as u64));
    }
    assert forall|i: int| 0 <= i < 12 implies 0 <= #[trigger] pe[i] < 12 by {
        assert(bits_at(s.edges, (5 * (i as u64) + 1) as u64, 4) < 12);
    }
    assert forall|i: int, j: int| 0 <= i < 12 && 0 <= j < 12 && i != j implies pe[i] != pe[j] by {
        assert(legacy_ep(s, i as u64) != legacy_ep(s, j as u64));
    }
    crate::permutation::lemma_perm_covers(pc);
    crate::permutation::lemma_perm_covers(pe);
    if q < 8 {
        assert(pc.contains(q as int));
        let k = choose|k: int| 0 <= k < 8 && pc[k] == q as int;
        assert(legacy_cp(s, k as u64) == q);
    }
    assert(pe.contains(q as int));
    let k = choose|k: int| 0 <= k < 12 && pe[k] == q as int;
    assert(legacy_ep(s, k as u64) == q);
}

/// The fields of the solved cube: corner `i` at position `i` and edge `i`
/// at position `i`, all unturned.
proof fn lemma_solved_field(i: u64)
    requires
        i < 12,
    ensures
        i < 8 ==> field5(legacy_solved().corners, i) == (i << 2u64) | 0u64,
        field5(legacy_solved().edges, i) == (i << 1u64) | 0u64,
        field5(legacy_solved().corners, i) < 32,
        field5(legacy_solved().edges, i) < 32,
{
    let sv = legacy_solved();
    lemma_id_fields(i);
    lemma_field_parts(sv.corners, i);
    lemma_field_parts(sv.edges, i);
    lemma_small_fields(i, 0);
    lemma_small_fields(field5(sv.corners, i), 0);
    lemma_small_fields(field5(sv.edges, i), 0);
}

/// `invert` gives an inverse of the product of the older layout on both
/// sides: composing an element of the cube group with it, either way round,
/// gives the solved cube.
pub proof fn lemma_invert_inverse(s: State)
    requires
        legacy_well_formed(s),
    ensures
        compose_corners(s, legacy_inverse(s), 8) == legacy_solved().corners,
        compose_edges(s, legacy_inverse(s), 12) == legacy_solved().edges,
        compose_corners(legacy_inverse(s), s, 8) == legacy_solved().corners,
        compose_edges(legacy_inverse(s), s, 12) == legacy_solved().edges,
{
    let t = legacy_inverse(s);
    let sv = legacy_solved();
    lemma_compose_packed(s, t, 12);
    lemma_compose_packed(s, t, 8);
    lemma_compose_packed(t, s, 12);
    lemma_compose_packed(t, s, 8);
    let fl = compose_corner_field(s, t);
    let fr = compose_corner_field(t, s);
    let gl = compose_edge_field(s, t);
    let gr = compose_edge_field(t, s);
    assert forall|i: u64| i < 8 implies #[trigger] fl(i) == field5(sv.corners, i) by {
        lemma_positions_covered(s, i);
        let k = choose|k: u64| k < 8 && #[trigger] legacy_cp(s, k) == i;
        lemma_inverse_pieces(s, k);
        lemma_bits_at_bounds(s.corners, (5 * k) as u64);
        let ok = bits_at(s.corners, (5 * k) as u64, 2);
        assert(ok < 3);
        let (p2, o2) = compose_corner(s, t, i);
        assert(legacy_cp(t, i) == k);
        assert(bits_at(t.corners, (5 * i) as u64, 2) == (3 - ok) % 3);
        assert(o2 == 0);
        assert(p2 == i);
        lemma_solved_field(i);
    }
    assert forall|i: u64| i < 8 implies #[trigger] fr(i) == field5(sv.corners, i) by {
        lemma_inverse_pieces(s, i);
        lemma_bits_at_bounds(s.corners, (5 * i) as u64);
        let oi = bits_at(s.corners, (5 * i) as u64, 2);
        assert(oi < 3);
        let (p2, o2) = compose_corner(t, s, i);
        assert(o2 == 0);
        assert(p2 == i);
        lemma_solved_field(i);
    }
    assert forall|i: u64| i < 12 implies #[trigger] gl(i) == field5(sv.edges, i) by {
        lemma_positions_covered(s, i);
        let k = choose|k: u64| k < 12 && #[trigger] legacy_ep(s, k) == i;
        lemma_inverse_pieces(s, k);
        let o = bits_at(s.edges, (5 * k) as u64, 1);
        lemma_bits_at_bounds(s.edges, (5 * k) as u64);
        lemma_small_fields(o, o);
        lemma_axes_two(i, k);
        assert(legacy_ep(t, i) == k);
        let (p2, o3) = compose_edge(s, t, i);
        assert(p2 == i);
        lemma_small_fields(0, 0);
        assert(o3 == 0);
        lemma_solved_field(i);
    }
    assert forall|i: u64| i < 12 implies #[trigger] gr(i) == field5(sv.edges, i) by {
        lemma_inverse_pieces(s, i);
        let o = bits_at(s.edges, (5 * i) as u64, 1);
        lemma_bits_at_bounds(s.edges, (5 * i) as u64);
        lemma_small_fields(o, o);
        lemma_axes_two(i, legacy_ep(s, i));
        let (p2, o3) = compose_edge(t, s, i);
        assert(p2 == i);
        lemma_small_fields(0, 0);
        assert(o3 == 0);
        lemma_solved_field(i);
    }
    assert forall|i: u64| i < 8 implies #[trigger] fl(i) < 32 by {
        lemma_solved_field(i);
        assert(fl(i) == field5(sv.corners, i));
    }
    assert forall|i: u64| i < 8 implies #[trigger] fr(i) < 32 by {
        lemma_solved_field(i);
        assert(fr(i) == field5(sv.corners, i));
    }
    assert forall|i: u64| i < 12 implies #[trigger] gl(i) < 32 by {
        lemma_solved_field(i);
        assert(gl(i) == field5(sv.edges, i));
    }
    assert forall|i: u64| i < 12 implies #[trigger] gr(i) < 32 by {
        lemma_solved_field(i);
        assert(gr(i) == field5(sv.edges, i));
    }
    lemma_pack5(fl, 8);
    lemma_pack5(fr, 8);
    lemma_pack5(gl, 12);
    lemma_pack5(gr, 12);
    lemma_id_fields(0);
    lemma_corner_words_eq(pack5(fl, 8), sv.corners);
    lemma_corner_words_eq(pack5(fr, 8), sv.corners);
    lemma_edge_words_eq(pack5(gl, 12), sv.edges);
    lemma_edge_words_eq(pack5(gr, 12), sv.edges);
}

/// Two corner words with the same positions and orientations, and nothing
/// above, are equal; likewise for edge words.
proof fn lemma_words_from_parts(a: u64, b: u64, c: u64, d: u64)
    requires
        forall|k: u64| k < 8 ==> #[trigger] bits_at(a, (5 * k + 2) as u64, 3) == bits_at(b, (5 * k + 2) as u64, 3),
        forall|k: u64| k < 8 ==> #[trigger] bits_at(a, (5 * k) as u64, 2) == bits_at(b, (5 * k) as u64, 2),
        a >> 40u64 == b >> 40u64,
        forall|k: u64| k < 12 ==> #[trigger] bits_at(c, (5 * k + 1) as u64, 4) == bits_at(d, (5 * k + 1) as u64, 4),
        forall|k: u64| k < 12 ==> #[trigger] bits_at(c, (5 * k) as u64, 1) == bits_at(d, (5 * k) as u64, 1),
        c >> 60u64 == d >> 60u64,
    ensures
        a == b,
        c == d,
{
    assert forall|k: u64| k < 8 implies #[trigger] field5(a, k) == field5(b, k) by {
        lemma_parts(a, k);
        lemma_parts(b, k);
        assert(bits_at(a, (5 * k + 2) as u64, 3) == bits_at(b, (5 * k + 2) as u64, 3));
        assert(bits_at(a, (5 * k) as u64, 2) == bits_at(b, (5 * k) as u64, 2));
        lemma_small_fields(field5(a, k), 0);
        lemma_small_fields(field5(b, k), 0);
    }
    assert forall|k: u64| k < 12 implies #[trigger] field5(c, k) == field5(d, k) by {
        lemma_parts(c, k);
        lemma_parts(d, k);
        assert(bits_at(c, (5 * k + 1) as u64, 4) == bits_at(d, (5 * k + 1) as u64, 4));
        assert(bits_at(c, (5 * k) as u64, 1) == bits_at(d, (5 * k) as u64, 1));
        lemma_small_fields(field5(c, k), 0);
        lemma_small_fields(field5(d, k), 0);
    }
    lemma_corner_words_eq(a, b);
    lemma_edge_words_eq(c, d);
}

/// The inverse of an element of the cube group is one too, and inverting
/// twice gives it back.
pub proof fn lemma_invert_involution(s: State)
    requires
        legacy_well_formed(s),
    ensures
        legacy_well_formed(legacy_inverse(s)),
        legacy_inverse(legacy_inverse(s)) == s,
{
    let t = legacy_inverse(s);
    lemma_invert_corner_fields(s, 8, 0);
    lemma_invert_edge_fields(s, 12, 0);
    assert forall|q: u64| q < 8 implies #[trigger] bits_at(t.corners, (5 * q) as u64, 2) < 3 by {
        lemma_positions_covered(s, q);
        let k = choose|k: u64| k < 8 && #[trigger] legacy_cp(s, k) == q;
        lemma_inverse_pieces(s, k);
    }
    assert forall|q: u64| q < 12 implies #[trigger] bits_at(t.edges, (5 * q + 1) as u64, 4) < 12 by {
        lemma_positions_covered(s, q);
        let k = choose|k: u64| k < 12 && #[trigger] legacy_ep(s, k) == q;
        lemma_inverse_pieces(s, k);
        assert(legacy_ep(t, q) == k);
    }
    assert forall|q1: u64, q2: u64| q1 < 8 && q2 < 8 && q1 != q2 implies #[trigger] legacy_cp(t, q1)
        != #[trigger] legacy_cp(t, q2) by {
        lemma_positions_covered(s, q1);
        lemma_positions_covered(s, q2);
        let k1 = choose|k: u64| k < 8 && #[trigger] legacy_cp(s, k) == q1;
        let k2 = choose|k: u64| k < 8 && #[trigger] legacy_cp(s, k) == q2;
        lemma_inverse_pieces(s, k1);
        lemma_inverse_pieces(s, k2);
    }
    assert forall|q1: u64, q2: u64| q1 < 12 && q2 < 12 && q1 != q2 implies #[trigger] legacy_ep(t, q1)
        != #[trigger] legacy_ep(t, q2) by {
        lemma_positions_covered(s, q1);
        lemma_positions_covered(s, q2);
        let k1 = choose|k: u64| k < 12 && #[trigger] legacy_ep(s, k) == q1;
        let k2 = choose|k: u64| k < 12 && #[trigger] legacy_ep(s, k) == q2;
        lemma_inverse_pieces(s, k1);
        lemma_inverse_pieces(s, k2);
    }
    assert(legacy_well_formed(t));
    let u = legacy_inverse(t);
    lemma_invert_corner_fields(t, 8, 0);
    lemma_invert_edge_fields(t, 12, 0);
    assert forall|k: u64| k < 8 implies #[trigger] bits_at(u.corners, (5 * k + 2) as u64, 3) == bits_at(
        s.corners,
        (5 * k + 2) as u64,
        3,
    ) && bits_at(u.corners, (5 * k) as u64, 2) == bits_at(s.corners, (5 * k) as u64, 2) by {
        lemma_inverse_pieces(s, k);
        let q = legacy_cp(s, k);
        lemma_inverse_pieces(t, q);
        lemma_bits_at_bounds(s.corners, (5 * k) as u64);
        assert(legacy_cp(u, k) == q);
    }
    assert forall|k: u64| k < 8 implies #[trigger] bits_at(u.corners, (5 * k) as u64, 2) == bits_at(
        s.corners,
        (5 * k) as u64,
        2,
    ) by {
        assert(bits_at(u.corners, (5 * k + 2) as u64, 3) == bits_at(s.corners, (5 * k + 2) as u64, 3));
    }
    assert forall|k: u64| k < 12 implies #[trigger] bits_at(u.edges, (5 * k + 1) as u64, 4) == bits_at(
        s.edges,
        (5 * k + 1) as u64,
        4,
    ) && bits_at(u.edges, (5 * k) as u64, 1) == bits_at(s.edges, (5 * k) as u64, 1) by {
        lemma_inverse_pieces(s, k);
        let q = legacy_ep(s, k);
        lemma_inverse_pieces(t, q);
        assert(legacy_ep(u, k) == q);
    }
    assert forall|k: u64| k < 12 implies #[trigger] bits_at(u.edges, (5 * k) as u64, 1) == bits_at(
        s.edges,
        (5 * k) as u64,
        1,
    ) by {
        assert(bits_at(u.edges, (5 * k + 1) as u64, 4) == bits_at(s.edges, (5 * k + 1) as u64, 4));
    }
    lemma_words_from_parts(u.corners, s.corners, u.edges, s.edges);
}

} // verus!
