use vstd::prelude::*;
use crate::cube_core::bits::{field5, lemma_corner_words_eq, lemma_edge_words_eq, lemma_field_parts, lemma_or_corner, lemma_or_edge, lemma_pack5, lemma_small_fields, pack5};
use crate::cube_core::moves::Face;
use crate::cube_core::state::{lemma_state_eq, State};

verus! {

/// For each corner, the sticker of each of its three faces (along the X, Y
/// and Z axes), within that face.
pub const CORNER_IDX: [[usize; 3]; 8] = [
    [6, 6, 8],
    [8, 8, 6],
    [0, 0, 2],
    [2, 2, 0],
    [8, 0, 6],
    [6, 2, 8],
    [2, 6, 0],
    [0, 8, 2],
];

/// For each edge, the sticker of each of its two faces (along its two axes,
/// in order), within that face.
pub const EDGE_IDX: [[usize; 2]; 12] = [
    [7, 7],
    [1, 1],
    [1, 7],
    [7, 1],
    [3, 5],
    [5, 3],
    [5, 3],
    [3, 5],
    [7, 3],
    [7, 5],
    [1, 3],
    [1, 5],
];

/// The position, in the projected layout, of the sticker that comes `i`-th
/// when the faces are listed in the order L, R, D, U, B, F, each face row by
/// row.
pub open spec fn sticker_source(i: int) -> int {
    let r = (i / 3) % 3;
    let c = i % 3;
    if i < 9 {
        9 + r * 12 + c + 9
    } else if i < 18 {
        9 + r * 12 + c + 3
    } else if i < 27 {
        i + 27
    } else if i < 36 {
        i - 27
    } else if i < 45 {
        9 + r * 12 + c + 6
    } else {
        9 + r * 12 + c
    }
}

/// The stickers of the projected layout, listed face by face in the order
/// L, R, D, U, B, F.
pub open spec fn by_face(st: Seq<Face>) -> Seq<Face> {
    Seq::new(54, |i: int| st[sticker_source(i)])
}

/// The center of each face has the color of that face.
pub open spec fn centers_ok(f: Seq<Face>) -> bool {
    forall|i: int| 0 <= i < 6 ==> #[trigger] f[9 * i + 4].spec_index() == i
}

/// The axis of a face, as a number.
pub open spec fn axis_of(f: Face) -> u8 {
    (f.spec_index() / 2) as u8
}

/// Whether a face is the positive one along its axis.
pub open spec fn sign_of(f: Face) -> u8 {
    (f.spec_index() % 2) as u8
}

/// The face that holds the sticker of corner `i` along axis `j`.
pub open spec fn corner_face(i: int, j: int) -> int {
    2 * j + (if j == 0 {
        i % 2
    } else if j == 1 {
        (i / 2) % 2
    } else {
        (i / 4) % 2
    })
}

/// The color of the sticker of corner `i` along axis `j`.
pub open spec fn corner_side(f: Seq<Face>, i: int, j: int) -> Face {
    f[9 * corner_face(i, j) + CORNER_IDX[i][j]]
}

/// The three stickers of corner `i` lie along three different axes.
pub open spec fn corner_ok(f: Seq<Face>, i: int) -> bool {
    let a0 = axis_of(corner_side(f, i, 0));
    let a1 = axis_of(corner_side(f, i, 1));
    let a2 = axis_of(corner_side(f, i, 2));
    a0 != a1 && a0 != a2 && a1 != a2
}

/// The position of corner `i`: its bit `k` is the sign of its sticker whose
/// color lies along axis `k`.
pub open spec fn corner_pos(f: Seq<Face>, i: int) -> u8 {
    let s0 = corner_side(f, i, 0);
    let s1 = corner_side(f, i, 1);
    let s2 = corner_side(f, i, 2);
    (sign_of(s0) << axis_of(s0)) | (sign_of(s1) << axis_of(s1)) | (sign_of(s2) << axis_of(s2))
}

/// The orientation of corner `i`: which of its stickers has a color along
/// the X axis, counted the other way round for the corners with an odd
/// number of positive coordinates.
pub open spec fn corner_ori(f: Seq<Face>, i: int) -> u8 {
    let o: u8 = if axis_of(corner_side(f, i, 0)) == 0 {
        0
    } else if axis_of(corner_side(f, i, 1)) == 0 {
        1
    } else {
        2
    };
    if (i % 2 + (i / 2) % 2 + (i / 4) % 2) % 2 == 0 {
        o
    } else {
        ((3 - o) % 3) as u8
    }
}

/// The two axes other than that of edge `i`, in increasing order.
pub open spec fn edge_axis(i: int, j: int) -> int {
    let x = i / 4;
    if j == 0 {
        if x == 0 {
            1
        } else {
            0
        }
    } else {
        if x == 2 {
            1
        } else {
            2
        }
    }
}

/// The color of the sticker of edge `i` along the `j`-th of its two axes.
pub open spec fn edge_side(f: Seq<Face>, i: int, j: int) -> u8 {
    let bit = if j == 0 {
        (i % 4) % 2
    } else {
        ((i % 4) / 2) % 2
    };
    f[9 * (2 * edge_axis(i, j) + bit) + EDGE_IDX[i][j]].spec_index()
}

/// The two stickers of edge `i` are not of opposite colors.
pub open spec fn edge_ok(f: Seq<Face>, i: int) -> bool {
    edge_side(f, i, 0) / 2 != edge_side(f, i, 1) / 2
}

/// The position of edge `i`: its axis is the one of neither of its colors,
/// and its two low bits the signs of its colors, in the order of their axes.
pub open spec fn edge_pos(f: Seq<Face>, i: int) -> u8 {
    let a = edge_side(f, i, 0);
    let b = edge_side(f, i, 1);
    let axis = 3 - a / 2 - b / 2;
    let (a1, a2) = if a < b {
        (a, b)
    } else {
        (b, a)
    };
    (4 * axis + a1 % 2 + 2 * (a2 % 2)) as u8
}

/// The orientation of edge `i`: whether its colors come in decreasing order.
pub open spec fn edge_flip(f: Seq<Face>, i: int) -> u64 {
    if edge_side(f, i, 0) > edge_side(f, i, 1) {
        1
    } else {
        0
    }
}

/// The 5-bit fields of the corners that the stickers describe.
pub open spec fn corner_fields(f: Seq<Face>) -> spec_fn(u64) -> u64 {
    |i: u64| ((corner_pos(f, i as int) as u64) << 2u64) | (corner_ori(f, i as int) as u64)
}

/// The 5-bit fields of the edges that the stickers describe.
pub open spec fn edge_fields(f: Seq<Face>) -> spec_fn(u64) -> u64 {
    |i: u64| ((edge_pos(f, i as int) as u64) << 1u64) | edge_flip(f, i as int)
}

/// The state that the stickers, listed face by face, describe.
pub open spec fn parsed_state(f: Seq<Face>) -> State {
    State { corners: pack5(corner_fields(f), 8), edges: pack5(edge_fields(f), 12) }
}

/// The state that the stickers describe, if they describe a valid one.
pub open spec fn spec_from_stickers(st: Seq<Face>) -> Option<State> {
    let f = by_face(st);
    if st.len() == 54 && centers_ok(f) && (forall|i: int| 0 <= i < 8 ==> #[trigger] corner_ok(f, i))
        && (forall|i: int| 0 <= i < 12 ==> #[trigger] edge_ok(f, i)) && parsed_state(f).spec_valid() {
        Some(parsed_state(f))
    } else {
        None
    }
}

/// Facts on the position of a corner built from three signs and three
/// distinct axes.
proof fn lemma_corner_bits(s0: u8, a0: u8, s1: u8, a1: u8, s2: u8, a2: u8)
    by (bit_vector)
    requires
        s0 < 2,
        s1 < 2,
        s2 < 2,
        a0 < 3,
        a1 < 3,
        a2 < 3,
    ensures
        (s0 << a0) | (s1 << a1) | (s2 << a2) < 8,
        a0 != a1 && a0 != a2 && a1 != a2 ==> (s0 << a0) | (s1 << a1) | (s2 << a2) == s0 * (if a0 == 0 {
            1u8
        } else if a0 == 1 {
            2u8
        } else {
            4u8
        }) + s1 * (if a1 == 0 {
            1u8
        } else if a1 == 1 {
            2u8
        } else {
            4u8
        }) + s2 * (if a2 == 0 {
            1u8
        } else if a2 == 1 {
            2u8
        } else {
            4u8
        }),
{
}

/// Every face has an index below 6.
proof fn lemma_face_index(x: Face)
    ensures
        x.spec_index() < 6,
{
    match x {
        Face::Left => {},
        Face::Right => {},
        Face::Down => {},
        Face::Up => {},
        Face::Back => {},
        Face::Front => {},
    }
}

/// The position of an edge whose two stickers lie along different axes is
/// below 12.
proof fn lemma_edge_pos_bound(f: Seq<Face>, i: int)
    requires
        0 <= i < 12,
        f.len() == 54,
        edge_ok(f, i),
    ensures
        edge_pos(f, i) < 12,
{
    let bit0 = (i % 4) % 2;
    let bit1 = ((i % 4) / 2) % 2;
    lemma_face_index(f[9 * (2 * edge_axis(i, 0) + bit0) + EDGE_IDX[i][0]]);
    lemma_face_index(f[9 * (2 * edge_axis(i, 1) + bit1) + EDGE_IDX[i][1]]);
}

/// Writing the field of corner `i` into a word whose fields from `i` on are
/// still empty.
proof fn lemma_corner_step(w: u64, pos: u64, ori: u64, i: u64, fc: spec_fn(u64) -> u64)
    requires
        pos < 8,
        ori < 4,
        i < 8,
        fc(i) == (pos << 2u64) | ori,
        forall|k: u64| k < i ==> #[trigger] field5(w, k) == fc(k),
        forall|k: u64| i <= k < 8 ==> #[trigger] field5(w, k) == 0,
        w >> 40u64 == 0,
    ensures
        forall|k: u64| k <= i ==> #[trigger] field5(
            (w | (pos << ((5 * i + 2) as u64))) | (ori << ((5 * i) as u64)),
            k,
        ) == fc(k),
        forall|k: u64| i < k < 8 ==> #[trigger] field5(
            (w | (pos << ((5 * i + 2) as u64))) | (ori << ((5 * i) as u64)),
            k,
        ) == 0,
        ((w | (pos << ((5 * i + 2) as u64))) | (ori << ((5 * i) as u64))) >> 40u64 == 0,
{
    let w2 = (w | (pos << ((5 * i + 2) as u64))) | (ori << ((5 * i) as u64));
    assert forall|q: u64| q < 8 implies #[trigger] field5(w2, q) == (if q <= i {
        fc(q)
    } else {
        0
    }) by {
        lemma_or_corner(w, pos, ori, i, q);
        if q == i {
            assert(field5(w, q) == 0);
            lemma_small_fields((pos << 2u64) | ori, 0);
        } else if q < i {
            assert(field5(w, q) == fc(q));
        } else {
            assert(field5(w, q) == 0);
        }
    }
    lemma_or_corner(w, pos, ori, i, 0);
}

/// Writing the field of edge `i` into a word whose fields from `i` on are
/// still empty.
proof fn lemma_edge_step(w: u64, pos: u64, flip: u64, i: u64, fe: spec_fn(u64) -> u64)
    requires
        pos < 16,
        flip < 2,
        i < 12,
        fe(i) == (pos << 1u64) | flip,
        forall|k: u64| k < i ==> #[trigger] field5(w, k) == fe(k),
        forall|k: u64| i <= k < 12 ==> #[trigger] field5(w, k) == 0,
        w >> 60u64 == 0,
    ensures
        forall|k: u64| k <= i ==> #[trigger] field5(
            (w | (pos << ((5 * i + 1) as u64))) | (flip << ((5 * i) as u64)),
            k,
        ) == fe(k),
        forall|k: u64| i < k < 12 ==> #[trigger] field5(
            (w | (pos << ((5 * i + 1) as u64))) | (flip << ((5 * i) as u64)),
            k,
        ) == 0,
        ((w | (pos << ((5 * i + 1) as u64))) | (flip << ((5 * i) as u64))) >> 60u64 == 0,
{
    let w2 = (w | (pos << ((5 * i + 1) as u64))) | (flip << ((5 * i) as u64));
    assert forall|q: u64| q < 12 implies #[trigger] field5(w2, q) == (if q <= i {
        fe(q)
    } else {
        0
    }) by {
        lemma_or_edge(w, pos, flip, i, q);
        if q == i {
            assert(field5(w, q) == 0);
            lemma_small_fields((pos << 1u64) | flip, 0);
        } else if q < i {
            assert(field5(w, q) == fe(q));
        } else {
            assert(field5(w, q) == 0);
        }
    }
    lemma_or_edge(w, pos, flip, i, 0);
}

/// The empty word has only empty fields.
proof fn lemma_empty_fields()
    ensures
        forall|k: u64| k < 12 ==> #[trigger] field5(0u64, k) == 0,
        0u64 >> 40u64 == 0,
        0u64 >> 60u64 == 0,
{
    lemma_small_fields(0, 0);
    assert forall|k: u64| k < 12 implies #[trigger] field5(0u64, k) == 0 by {
        crate::cube_core::bits::lemma_top_bit(0, 0, k, 0, 0);
    }
}

/// The word of corners that the stickers, listed face by face, describe;
/// `None` when some corner shows two stickers along one axis.
fn parse_corners(f: &Vec<Face>) -> (r: Option<u64>)
    requires
        f.len() == 54,
    ensures
        match r {
            Some(c) => (forall|i: int| 0 <= i < 8 ==> #[trigger] corner_ok(f@, i)) && c == pack5(
                corner_fields(f@),
                8,
            ),
            None => !(forall|i: int| 0 <= i < 8 ==> #[trigger] corner_ok(f@, i)),
        },
{
    let ghost fc = corner_fields(f@);
    let mut corners: u64 = 0;
    let mut i: usize = 0;
    proof {
        lemma_empty_fields();
    }
    while i < 8
        invariant
            i <= 8,
            f.len() == 54,
            fc == corner_fields(f@),
            forall|k: int| 0 <= k < i ==> #[trigger] corner_ok(f@, k),
            forall|k: u64| k < i ==> #[trigger] field5(corners, k) == fc(k),
            forall|k: u64| i <= k < 8 ==> #[trigger] field5(corners, k) == 0,
            corners >> 40u64 == 0,
        decreases 8 - i,
    {
        let s0 = f[9 * (i % 2) + CORNER_IDX[i][0]];
        let s1 = f[9 * (2 + (i / 2) % 2) + CORNER_IDX[i][1]];
        let s2 = f[9 * (4 + (i / 4) % 2) + CORNER_IDX[i][2]];
        let a0 = s0.axis().index();
        let a1 = s1.axis().index();
        let a2 = s2.axis().index();
        proof {
            assert(s0 == corner_side(f@, i as int, 0));
            assert(s1 == corner_side(f@, i as int, 1));
            assert(s2 == corner_side(f@, i as int, 2));
        }
        if a0 == a1 || a0 == a2 || a1 == a2 {
            assert(!corner_ok(f@, i as int));
            return None;
        }
        let pos = ((s0.index() - 2 * a0) << a0) | ((s1.index() - 2 * a1) << a1) | ((s2.index() - 2
            * a2) << a2);
        let ori: u8 = if a0 == 0 {
            0
        } else if a1 == 0 {
            1
        } else {
            2
        };
        let ones = i % 2 + (i / 2) % 2 + (i / 4) % 2;
        let ori = if ones % 2 == 0 {
            ori
        } else {
            (3 - ori) % 3
        };
        let iu = i as u64;
        proof {
            lemma_corner_bits(sign_of(s0), a0, sign_of(s1), a1, sign_of(s2), a2);
            assert(pos == corner_pos(f@, i as int));
            assert(ori == corner_ori(f@, i as int));
            lemma_corner_step(corners, pos as u64, ori as u64, iu, fc);
        }
        corners = (corners | ((pos as u64) << (5 * iu + 2))) | ((ori as u64) << (5 * iu));
        i += 1;
    }
    proof {
        assert forall|k: u64| k < 8 implies #[trigger] fc(k) < 32 by {
            lemma_field_parts(corners, k);
            assert(field5(corners, k) == fc(k));
        }
        lemma_pack5(fc, 8);
        assert forall|k: u64| k < 8 implies #[trigger] field5(corners, k) == field5(pack5(fc, 8), k) by {
            assert(field5(corners, k) == fc(k));
        }
        lemma_corner_words_eq(corners, pack5(fc, 8));
    }
    Some(corners)
}

/// The word of edges that the stickers, listed face by face, describe;
/// `None` when some edge shows two stickers of opposite faces.
fn parse_edges(f: &Vec<Face>) -> (r: Option<u64>)
    requires
        f.len() == 54,
    ensures
        match r {
            Some(e) => (forall|i: int| 0 <= i < 12 ==> #[trigger] edge_ok(f@, i)) && e == pack5(
                edge_fields(f@),
                12,
            ),
            None => !(forall|i: int| 0 <= i < 12 ==> #[trigger] edge_ok(f@, i)),
        },
{
    let ghost fe = edge_fields(f@);
    let mut edges: u64 = 0;
    let mut i: usize = 0;
    proof {
        lemma_empty_fields();
    }
    while i < 12
        invariant
            i <= 12,
            f.len() == 54,
            fe == edge_fields(f@),
            forall|k: int| 0 <= k < i ==> #[trigger] edge_ok(f@, k),
            forall|k: u64| k < i ==> #[trigger] field5(edges, k) == fe(k),
            forall|k: u64| i <= k < 12 ==> #[trigger] field5(edges, k) == 0,
            edges >> 60u64 == 0,
        decreases 12 - i,
    {
        let x = i / 4;
        let ax0: usize = if x == 0 {
            1
        } else {
            0
        };
        let ax1: usize = if x == 2 {
            1
        } else {
            2
        };
        let a = f[9 * (2 * ax0 + (i % 4) % 2) + EDGE_IDX[i][0]].index();
        let b = f[9 * (2 * ax1 + ((i % 4) / 2) % 2) + EDGE_IDX[i][1]].index();
        proof {
            assert(a == edge_side(f@, i as int, 0));
            assert(b == edge_side(f@, i as int, 1));
        }
        if a / 2 == b / 2 {
            assert(!edge_ok(f@, i as int));
            return None;
        }
        let axis: u8 = if 0 != a / 2 && 0 != b / 2 {
            0
        } else if 1 != a / 2 && 1 != b / 2 {
            1
        } else {
            2
        };
        let (a1, a2) = if a < b {
            (a, b)
        } else {
            (b, a)
        };
        let pos = 4 * axis + (a1 % 2) + 2 * (a2 % 2);
        let flip: u64 = if a > b {
            1
        } else {
            0
        };
        let iu = i as u64;
        proof {
            assert(pos == edge_pos(f@, i as int));
            assert(flip == edge_flip(f@, i as int));
            lemma_edge_step(edges, pos as u64, flip, iu, fe);
        }
        edges = (edges | ((pos as u64) << (5 * iu + 1))) | (flip << (5 * iu));
        i += 1;
    }
    proof {
        assert forall|k: u64| k < 12 implies #[trigger] fe(k) < 32 by {
            lemma_field_parts(edges, k);
            assert(field5(edges, k) == fe(k));
        }
        lemma_pack5(fe, 12);
        assert forall|k: u64| k < 12 implies #[trigger] field5(edges, k) == field5(pack5(fe, 12), k) by {
            assert(field5(edges, k) == fe(k));
        }
        lemma_edge_words_eq(edges, pack5(fe, 12));
    }
    Some(edges)
}

/// The position of every edge of the state that the stickers describe is
/// below 12, when no edge shows two stickers of opposite faces.
proof fn lemma_parsed_edges(f: Seq<Face>)
    requires
        f.len() == 54,
        forall|i: int| 0 <= i < 12 ==> #[trigger] edge_ok(f, i),
    ensures
        forall|i: u64| i < 12 ==> #[trigger] parsed_state(f).spec_ep(i) < 12,
{
    let fe = edge_fields(f);
    assert forall|k: u64| k < 12 implies #[trigger] fe(k) < 32 by {
        lemma_edge_pos_bound(f, k as int);
        lemma_small_fields(edge_pos(f, k as int) as u64, edge_flip(f, k as int));
    }
    lemma_pack5(fe, 12);
    assert forall|k: u64| k < 12 implies #[trigger] parsed_state(f).spec_ep(k) < 12 by {
        assert(field5(pack5(fe, 12), k) == fe(k));
        lemma_edge_pos_bound(f, k as int);
        lemma_small_fields(edge_pos(f, k as int) as u64, edge_flip(f, k as int));
    }
}

impl State {
    /// Builds a state out of its stickers. To specify a cube, write out the
    /// color of all its stickers as if it was projected on a sheet of paper.
    /// The order of the stickers should respect the following diagram, as
    /// read from left to right and top to bottom:
    /// ```raw
    /// UUU
    /// UUU
    /// UUU
    /// FFFRRRBBBLLL
    /// FFFRRRBBBLLL
    /// FFFRRRBBBLLL
    /// DDD
    /// DDD
    /// DDD
    /// ```
    /// Returns `None` when the stickers do not describe a valid cube.
    pub fn from_stickers(stickers: &[Face]) -> (r: Option<Self>)
        ensures
            r == spec_from_stickers(stickers@),
    {
        if stickers.len() != 54 {
            return None;
        }
        let ghost f = by_face(stickers@);
        let mut st: Vec<Face> = Vec::new();
        let mut i: usize = 0;
        while i < 54
            invariant
                i <= 54,
                stickers.len() == 54,
                st.len() == i,
                forall|k: int| 0 <= k < i ==> #[trigger] st@[k] == f[k],
                f == by_face(stickers@),
            decreases 54 - i,
        {
            let idiv3 = (i / 3) % 3;
            let imod3 = i % 3;
            let src = if i < 9 {
                9 + idiv3 * 12 + imod3 + 9
            } else if i < 18 {
                9 + idiv3 * 12 + imod3 + 3
            } else if i < 27 {
                i + 27
            } else if i < 36 {
                i - 27
            } else if i < 45 {
                9 + idiv3 * 12 + imod3 + 6
            } else {
                9 + idiv3 * 12 + imod3
            };
            st.push(stickers[src]);
            i += 1;
        }
        assert(st@ =~= f);
        let mut i: u8 = 0;
        while i < 6
            invariant
                i <= 6,
                st@ == f,
                f == by_face(stickers@),
                st.len() == 54,
                forall|k: int| 0 <= k < i ==> #[trigger] f[9 * k + 4].spec_index() == k,
            decreases 6 - i,
        {
            if st[9 * i as usize + 4].index() != i {
                assert(!centers_ok(f));
                return None;
            }
            i += 1;
        }
        let corners = match parse_corners(&st) {
            Some(c) => c,
            None => {
                return None;
            },
        };
        let edges = match parse_edges(&st) {
            Some(e) => e,
            None => {
                return None;
            },
        };
        let state = State { corners, edges };
        proof {
            assert(state == parsed_state(f));
            lemma_parsed_edges(f);
        }
        if state.valid() {
            Some(state)
        } else {
            None
        }
    }
}

/// Where each sticker of the corners lies in the projected layout of
/// `State::from_stickers` (U face first, then the band F, R, B, L, then the D
/// face, each read row by row): for each corner slot, its stickers along the
/// X, Y and Z axes. Corner slot `i` lies on the positive side of the X, Y and
/// Z axes where bit 0, 1 and 2 of `i` is set.
pub const CORNER_STICKERS: [[usize; 3]; 8] = [
    [42, 51, 41],
    [38, 53, 39],
    [18, 0, 17],
    [14, 2, 15],
    [44, 45, 33],
    [36, 47, 35],
    [20, 6, 9],
    [12, 8, 11],
];

/// Where each sticker of the edges lies in the projected layout: for each
/// edge slot, its stickers along the lower and the higher of the two axes
/// other than its own. Edge slot `i` lies along axis `i / 4`, on the positive
/// side of those two axes where bit 0 and bit 1 of `i % 4` is set.
pub const EDGE_STICKERS: [[usize; 2]; 12] = [
    [52, 40],
    [1, 16],
    [46, 34],
    [7, 10],
    [30, 29],
    [26, 27],
    [32, 21],
    [24, 23],
    [43, 48],
    [37, 50],
    [19, 3],
    [13, 5],
];

/// Where the center of each face lies in the projected layout, for the faces
/// L, R, D, U, B and F in turn.
pub const CENTER_STICKERS: [usize; 6] = [31, 25, 49, 4, 28, 22];

/// The parity of the number of positive coordinates of corner slot `i`.
pub open spec fn corner_parity(i: int) -> int {
    (i % 2 + (i / 2) % 2 + (i / 4) % 2) % 2
}

/// The factor of bit `a` of a corner slot.
pub open spec fn axis_weight(a: int) -> int {
    if a == 0 {
        1
    } else if a == 1 {
        2
    } else {
        4
    }
}

/// The axis of the color that corner slot `i` of `s` shows along axis `j`.
/// The color along the X axis shows on the sticker that the orientation names
/// (counted the other way round on a slot with an odd number of positive
/// coordinates); the other two colors follow around the corner in the same
/// sense where the piece and the slot have the same parity, in the opposite
/// sense otherwise.
pub open spec fn shown_corner_axis(s: State, i: int, j: int) -> int {
    slot_axis(s.spec_cp(i as u64) as int, s.spec_co(i as u64) as int, i, j)
}

/// The axis of the color that corner slot `i` shows along axis `j`, where it
/// holds piece `p` with orientation `o` (see `shown_corner_axis`).
pub open spec fn slot_axis(p: int, o: int, i: int, j: int) -> int {
    let j0 = if corner_parity(i) == 0 {
        o
    } else {
        (3 - o) % 3
    };
    if corner_parity(p) == corner_parity(i) {
        (j - j0 + 3) % 3
    } else {
        (j0 - j + 3) % 3
    }
}

/// The face whose color corner slot `i` of `s` shows along axis `j`: the face
/// of the piece there along the axis of that color.
pub open spec fn shown_corner_face(s: State, i: int, j: int) -> int {
    let p = s.spec_cp(i as u64) as int;
    let a = shown_corner_axis(s, i, j);
    2 * a + (p / axis_weight(a)) % 2
}

/// The face whose color edge slot `i` of `s` shows on its sticker `j` (along
/// the lower of its two axes for `j == 0`, the higher for `j == 1`): the
/// faces of the piece there, in the order of their axes, or swapped where the
/// piece is flipped.
pub open spec fn shown_edge_face(s: State, i: int, j: int) -> int {
    let q = s.spec_ep(i as u64) as int;
    let e = s.spec_eo(i as u64);
    let ax = q / 4;
    let u: int = if ax == 0 {
        1
    } else {
        0
    };
    let w: int = if ax == 2 {
        1
    } else {
        2
    };
    let cu = 2 * u + q % 2;
    let cw = 2 * w + (q / 2) % 2;
    if (j == 0) == (e == 0) {
        cu
    } else {
        cw
    }
}

/// The stickers `st`, in the projected layout of `State::from_stickers`, are
/// those that the cube in state `s` shows: each center its own face, and each
/// sticker of a corner or an edge the face given by the piece there.
pub open spec fn shows_stickers(s: State, st: Seq<Face>) -> bool {
    &&& st.len() == 54
    &&& forall|k: int| 0 <= k < 6 ==> (#[trigger] st[CENTER_STICKERS[k] as int]).spec_index() == k
    &&& forall|i: int, j: int|
        0 <= i < 8 && 0 <= j < 3 ==> (#[trigger] st[CORNER_STICKERS[i][j] as int]).spec_index()
            == shown_corner_face(s, i, j)
    &&& forall|i: int, j: int|
        0 <= i < 12 && 0 <= j < 2 ==> (#[trigger] st[EDGE_STICKERS[i][j] as int]).spec_index()
            == shown_edge_face(s, i, j)
}

/// The sticker of corner `i` along axis `j`, listed face by face, lies where
/// `CORNER_STICKERS` says in the projected layout.
proof fn lemma_corner_sticker_at(i: int, j: int)
    requires
        0 <= i < 8,
        0 <= j < 3,
    ensures
        sticker_source(9 * corner_face(i, j) + CORNER_IDX[i][j]) == CORNER_STICKERS[i][j],
        0 <= 9 * corner_face(i, j) + CORNER_IDX[i][j] < 54,
{
    assert(CORNER_IDX[i][j] < 9);
}

/// The sticker of edge `i` along its `j`-th axis, listed face by face, lies
/// where `EDGE_STICKERS` says in the projected layout.
proof fn lemma_edge_sticker_at(i: int, j: int)
    requires
        0 <= i < 12,
        0 <= j < 2,
    ensures
        sticker_source(
            9 * (2 * edge_axis(i, j) + (if j == 0 {
                (i % 4) % 2
            } else {
                ((i % 4) / 2) % 2
            })) + EDGE_IDX[i][j],
        ) == EDGE_STICKERS[i][j],
        0 <= 9 * (2 * edge_axis(i, j) + (if j == 0 {
            (i % 4) % 2
        } else {
            ((i % 4) / 2) % 2
        })) + EDGE_IDX[i][j] < 54,
{
    assert(EDGE_IDX[i][j] < 9);
}

/// A face is determined by its index.
proof fn lemma_face_of_index(x: Face)
    ensures
        x.spec_index() == 0 ==> x == Face::Left,
        x.spec_index() == 1 ==> x == Face::Right,
        x.spec_index() == 2 ==> x == Face::Down,
        x.spec_index() == 3 ==> x == Face::Up,
        x.spec_index() == 4 ==> x == Face::Back,
        x.spec_index() == 5 ==> x == Face::Front,
{
    match x {
        Face::Left => {},
        Face::Right => {},
        Face::Down => {},
        Face::Up => {},
        Face::Back => {},
        Face::Front => {},
    }
}

/// The axes of the colors of a corner slot are the three axes, each once;
/// its orientation is read back from the sticker of the X color; and its
/// position from the signs of its colors along their axes.
proof fn lemma_slot_axes(p: int, o: int, i: int)
    requires
        0 <= p < 8,
        0 <= o <= 2,
        0 <= i < 8,
    ensures
        0 <= slot_axis(p, o, i, 0) < 3,
        0 <= slot_axis(p, o, i, 1) < 3,
        0 <= slot_axis(p, o, i, 2) < 3,
        slot_axis(p, o, i, 0) != slot_axis(p, o, i, 1),
        slot_axis(p, o, i, 0) != slot_axis(p, o, i, 2),
        slot_axis(p, o, i, 1) != slot_axis(p, o, i, 2),
        ({
            let r: int = if slot_axis(p, o, i, 0) == 0 {
                0
            } else if slot_axis(p, o, i, 1) == 0 {
                1
            } else {
                2
            };
            o == if corner_parity(i) == 0 {
                r
            } else {
                (3 - r) % 3
            }
        }),
{
}

/// A position below 8 is the sum of its three bits, taken along any order of
/// the axes.
proof fn lemma_bits_sum(p: int, a0: int, a1: int, a2: int)
    requires
        0 <= p < 8,
        0 <= a0 < 3,
        0 <= a1 < 3,
        0 <= a2 < 3,
        a0 != a1 && a0 != a2 && a1 != a2,
    ensures
        ((p / axis_weight(a0)) % 2) * axis_weight(a0) + ((p / axis_weight(a1)) % 2) * axis_weight(a1) + ((p
            / axis_weight(a2)) % 2) * axis_weight(a2) == p,
{
    assert(p % 2 + 2 * ((p / 2) % 2) + 4 * ((p / 4) % 2) == p);
}

/// Corner slot `i` of the stickers that `s` shows: its stickers lie along
/// three different axes, and they describe the corner field of `s`.
proof fn lemma_shown_corner(s: State, st: Seq<Face>, i: int)
    requires
        s.spec_valid(),
        shows_stickers(s, st),
        0 <= i < 8,
    ensures
        corner_ok(by_face(st), i),
        corner_fields(by_face(st))(i as u64) == field5(s.corners, i as u64),
{
    let f = by_face(st);
    let p = s.spec_cp(i as u64) as int;
    let o = s.spec_co(i as u64) as int;
    assert(0 <= p < 8) by {
        assert(s.corner_perm()[i] == p);
    }
    assert(o <= 2);
    lemma_slot_axes(p, o, i);
    lemma_corner_sticker_at(i, 0);
    lemma_corner_sticker_at(i, 1);
    lemma_corner_sticker_at(i, 2);
    let x0 = corner_side(f, i, 0);
    let x1 = corner_side(f, i, 1);
    let x2 = corner_side(f, i, 2);
    assert(x0 == st[CORNER_STICKERS[i][0] as int]);
    assert(x1 == st[CORNER_STICKERS[i][1] as int]);
    assert(x2 == st[CORNER_STICKERS[i][2] as int]);
    let b0 = slot_axis(p, o, i, 0);
    let b1 = slot_axis(p, o, i, 1);
    let b2 = slot_axis(p, o, i, 2);
    assert(x0.spec_index() == 2 * b0 + (p / axis_weight(b0)) % 2);
    assert(x1.spec_index() == 2 * b1 + (p / axis_weight(b1)) % 2);
    assert(x2.spec_index() == 2 * b2 + (p / axis_weight(b2)) % 2);
    let a0 = axis_of(x0);
    let a1 = axis_of(x1);
    let a2 = axis_of(x2);
    assert(a0 == b0 && a1 == b1 && a2 == b2);
    assert(sign_of(x0) == (p / axis_weight(b0)) % 2);
    assert(sign_of(x1) == (p / axis_weight(b1)) % 2);
    assert(sign_of(x2) == (p / axis_weight(b2)) % 2);
    lemma_corner_bits(sign_of(x0), a0, sign_of(x1), a1, sign_of(x2), a2);
    lemma_bits_sum(p, b0, b1, b2);
    assert(corner_pos(f, i) == p);
    assert(corner_ori(f, i) == o);
    let x = field5(s.corners, i as u64);
    lemma_field_parts(s.corners, i as u64);
    lemma_small_fields(x, 0);
}

/// Edge slot `i` of the stickers that `s` shows: its stickers are not of
/// opposite faces, and they describe the edge field of `s`.
proof fn lemma_shown_edge(s: State, st: Seq<Face>, i: int)
    requires
        s.spec_valid(),
        shows_stickers(s, st),
        0 <= i < 12,
    ensures
        edge_ok(by_face(st), i),
        edge_fields(by_face(st))(i as u64) == field5(s.edges, i as u64),
{
    let f = by_face(st);
    let q = s.spec_ep(i as u64) as int;
    assert(0 <= q < 12) by {
        assert(s.edge_perm()[i] == q);
    }
    lemma_edge_sticker_at(i, 0);
    lemma_edge_sticker_at(i, 1);
    assert(edge_side(f, i, 0) == st[EDGE_STICKERS[i][0] as int].spec_index());
    assert(edge_side(f, i, 1) == st[EDGE_STICKERS[i][1] as int].spec_index());
    assert(edge_side(f, i, 0) == shown_edge_face(s, i, 0));
    assert(edge_side(f, i, 1) == shown_edge_face(s, i, 1));
    let x = field5(s.edges, i as u64);
    lemma_field_parts(s.edges, i as u64);
    lemma_small_fields(x, 0);
    assert(edge_pos(f, i) == q);
    assert(edge_flip(f, i) == s.spec_eo(i as u64));
}

/// Reading back the stickers of a cube: the 54 stickers that a valid state
/// shows in the projected layout describe that state, and no other.
pub proof fn lemma_from_stickers_shown(s: State, st: Seq<Face>)
    requires
        s.spec_valid(),
        s.corners >> 40u64 == 0,
        s.edges >> 60u64 == 0,
        shows_stickers(s, st),
    ensures
        spec_from_stickers(st) == Some(s),
{
    let f = by_face(st);
    assert forall|k: int| 0 <= k < 6 implies #[trigger] f[9 * k + 4].spec_index() == k by {
        assert(f[9 * k + 4] == st[CENTER_STICKERS[k] as int]);
    }
    assert forall|i: int| 0 <= i < 8 implies #[trigger] corner_ok(f, i) by {
        lemma_shown_corner(s, st, i);
    }
    assert forall|i: int| 0 <= i < 12 implies #[trigger] edge_ok(f, i) by {
        lemma_shown_edge(s, st, i);
    }
    let fc = corner_fields(f);
    let fe = edge_fields(f);
    assert forall|k: u64| k < 8 implies #[trigger] fc(k) == field5(s.corners, k) by {
        lemma_shown_corner(s, st, k as int);
    }
    assert forall|k: u64| k < 12 implies #[trigger] fe(k) == field5(s.edges, k) by {
        lemma_shown_edge(s, st, k as int);
    }
    assert forall|k: u64| k < 8 implies #[trigger] fc(k) < 32 by {
        lemma_field_parts(s.corners, k);
    }
    assert forall|k: u64| k < 12 implies #[trigger] fe(k) < 32 by {
        lemma_field_parts(s.edges, k);
    }
    lemma_pack5(fc, 8);
    lemma_pack5(fe, 12);
    assert forall|k: u64| k < 8 implies #[trigger] field5(pack5(fc, 8), k) == field5(s.corners, k) by {
        assert(field5(pack5(fc, 8), k) == fc(k));
    }
    assert forall|k: u64| k < 12 implies #[trigger] field5(pack5(fe, 12), k) == field5(s.edges, k) by {
        assert(field5(pack5(fe, 12), k) == fe(k));
    }
    lemma_corner_words_eq(pack5(fc, 8), s.corners);
    lemma_edge_words_eq(pack5(fe, 12), s.edges);
    assert(parsed_state(f) == s);
}

/// Whether a character has the Unicode `White_Space` property, which
/// `char::is_whitespace` tests: the 25 code points U+0009 to U+000D, U+0020,
/// U+0085, U+00A0, U+1680, U+2000 to U+200A, U+2028, U+2029, U+202F, U+205F
/// and U+3000.
pub open spec fn white_space(c: char) -> bool {
    let u = c as u32;
    ||| 0x9 <= u <= 0xd
    ||| u == 0x20
    ||| u == 0x85
    ||| u == 0xa0
    ||| u == 0x1680
    ||| 0x2000 <= u <= 0x200a
    ||| u == 0x2028
    ||| u == 0x2029
    ||| u == 0x202f
    ||| u == 0x205f
    ||| u == 0x3000
}

/// Whether `c` is white space (see `white_space`).
fn char_is_whitespace(c: char) -> (r: bool)
    ensures
        r == white_space(c),
{
    let u = c as u32;
    (0x9 <= u && u <= 0xd) || u == 0x20 || u == 0x85 || u == 0xa0 || u == 0x1680 || (0x2000 <= u && u <= 0x200a)
        || u == 0x2028 || u == 0x2029 || u == 0x202f || u == 0x205f || u == 0x3000
}

/// The characters of `s` that are not white space, in order.
pub open spec fn non_white(s: Seq<char>) -> Seq<char> {
    s.filter(|c: char| !white_space(c))
}

/// Adding a character to a string adds it to the characters that are not
/// white space, unless it is white space.
proof fn lemma_non_white_push(s: Seq<char>, c: char)
    ensures
        non_white(s.push(c)) == (if white_space(c) {
            non_white(s)
        } else {
            non_white(s).push(c)
        }),
{
    s.lemma_filter_push(c, |c: char| !white_space(c));
}

/// The face that a color stands for: the color of the center of the U, F, R,
/// B, L and D faces in turn names that face, and where two centers share a
/// color, the later one wins.
pub open spec fn color_face(chars: Seq<char>, c: char) -> Option<Face> {
    if c == chars[49] {
        Some(Face::Down)
    } else if c == chars[31] {
        Some(Face::Left)
    } else if c == chars[28] {
        Some(Face::Back)
    } else if c == chars[25] {
        Some(Face::Right)
    } else if c == chars[22] {
        Some(Face::Front)
    } else if c == chars[4] {
        Some(Face::Up)
    } else {
        None
    }
}

/// The state that 54 colors, one per sticker in the layout of
/// `State::from_stickers`, describe, if every color is one of a center and
/// they describe a valid state.
pub open spec fn spec_from_chars(chars: Seq<char>) -> Option<State> {
    if chars.len() == 54 && (forall|i: int| 0 <= i < 54 ==> #[trigger] color_face(chars, chars[i]) is Some) {
        spec_from_stickers(Seq::new(54, |i: int| color_face(chars, chars[i])->0))
    } else {
        None
    }
}

/// Colors are named only through the centers: renaming them one to one
/// keeps the color of each sticker the same face.
proof fn lemma_color_face_rename(chars: Seq<char>, phi: spec_fn(char) -> char, c: char)
    requires
        chars.len() == 54,
        forall|a: char, b: char| #[trigger] phi(a) == #[trigger] phi(b) ==> a == b,
    ensures
        color_face(chars.map_values(phi), phi(c)) == color_face(chars, c),
{
    let d = chars.map_values(phi);
    assert(d[49] == phi(chars[49]) && d[31] == phi(chars[31]) && d[28] == phi(chars[28]));
    assert(d[25] == phi(chars[25]) && d[22] == phi(chars[22]) && d[4] == phi(chars[4]));
}

/// The state that a string describes does not change when white space is
/// added or removed, nor when its colors are renamed one to one into
/// characters that are not white space: the characters other than white
/// space of `t` are those of `s`, renamed by `phi`.
pub proof fn lemma_from_string_rename(s: Seq<char>, t: Seq<char>, phi: spec_fn(char) -> char)
    requires
        forall|a: char, b: char| #[trigger] phi(a) == #[trigger] phi(b) ==> a == b,
        non_white(t) == non_white(s).map_values(phi),
    ensures
        spec_from_chars(non_white(t)) == spec_from_chars(non_white(s)),
{
    let a = non_white(s);
    let b = non_white(t);
    if a.len() == 54 {
        assert forall|i: int| 0 <= i < 54 implies #[trigger] color_face(b, b[i]) == color_face(a, a[i]) by {
            assert(b[i] == phi(a[i]));
            lemma_color_face_rename(a, phi, a[i]);
        }
        assert(Seq::new(54, |i: int| color_face(b, b[i])->0) =~= Seq::new(54, |i: int| color_face(a, a[i])->0));
        if forall|i: int| 0 <= i < 54 ==> #[trigger] color_face(a, a[i]) is Some {
            assert forall|i: int| 0 <= i < 54 implies #[trigger] color_face(b, b[i]) is Some by {
                assert(color_face(b, b[i]) == color_face(a, a[i]));
            }
        } else {
            let i = choose|i: int| 0 <= i < 54 && !(#[trigger] color_face(a, a[i]) is Some);
            assert(color_face(b, b[i]) == color_face(a, a[i]));
        }
    }
}

/// Reading back the colors of a cube: where each face is named by a
/// character of its own, the 54 characters of the stickers that a valid
/// state shows in the projected layout describe that state. The color of
/// each face is read from its center, whatever the other stickers show.
pub proof fn lemma_from_chars_shown(s: State, st: Seq<Face>, name: spec_fn(Face) -> char, chars: Seq<char>)
    requires
        s.spec_valid(),
        s.corners >> 40u64 == 0,
        s.edges >> 60u64 == 0,
        shows_stickers(s, st),
        forall|a: Face, b: Face| #[trigger] name(a) == #[trigger] name(b) ==> a == b,
        chars.len() == 54,
        forall|k: int| 0 <= k < 54 ==> #[trigger] chars[k] == name(st[k]),
    ensures
        spec_from_chars(chars) == Some(s),
{
    assert(st[CENTER_STICKERS[0] as int].spec_index() == 0);
    assert(st[CENTER_STICKERS[1] as int].spec_index() == 1);
    assert(st[CENTER_STICKERS[2] as int].spec_index() == 2);
    assert(st[CENTER_STICKERS[3] as int].spec_index() == 3);
    assert(st[CENTER_STICKERS[4] as int].spec_index() == 4);
    assert(st[CENTER_STICKERS[5] as int].spec_index() == 5);
    lemma_face_of_index(st[31]);
    lemma_face_of_index(st[25]);
    lemma_face_of_index(st[49]);
    lemma_face_of_index(st[4]);
    lemma_face_of_index(st[28]);
    lemma_face_of_index(st[22]);
    assert(chars[49] == name(Face::Down));
    assert(chars[31] == name(Face::Left));
    assert(chars[28] == name(Face::Back));
    assert(chars[25] == name(Face::Right));
    assert(chars[22] == name(Face::Front));
    assert(chars[4] == name(Face::Up));
    assert forall|k: int| 0 <= k < 54 implies #[trigger] color_face(chars, chars[k]) == Some(st[k]) by {
        let x = st[k];
        assert(chars[k] == name(x));
        match x {
            Face::Left => {},
            Face::Right => {},
            Face::Down => {},
            Face::Up => {},
            Face::Back => {},
            Face::Front => {},
        }
    }
    assert(Seq::new(54, |i: int| color_face(chars, chars[i])->0) =~= st);
    lemma_from_stickers_shown(s, st);
}

impl State {
    /// Builds a state out of the colors of its stickers, given in the layout
    /// of `from_stickers`, each color by any character: the color of each
    /// center names its face.
    pub fn from_chars(chars: &[char]) -> (r: Option<Self>)
        ensures
            r == spec_from_chars(chars@),
    {
        if chars.len() != 54 {
            return None;
        }
        let mut stickers: Vec<Face> = Vec::new();
        let mut i: usize = 0;
        while i < 54
            invariant
                i <= 54,
                chars.len() == 54,
                stickers.len() == i,
                forall|k: int| 0 <= k < i ==> #[trigger] color_face(chars@, chars@[k]) is Some,
                forall|k: int| 0 <= k < i ==> stickers@[k] == #[trigger] color_face(chars@, chars@[k])->0,
            decreases 54 - i,
        {
            let c = chars[i];
            let face = if c == chars[49] {
                Face::Down
            } else if c == chars[31] {
                Face::Left
            } else if c == chars[28] {
                Face::Back
            } else if c == chars[25] {
                Face::Right
            } else if c == chars[22] {
                Face::Front
            } else if c == chars[4] {
                Face::Up
            } else {
                assert(color_face(chars@, chars@[i as int]) is None);
                return None;
            };
            stickers.push(face);
            i += 1;
        }
        assert(stickers@ =~= Seq::new(54, |i: int| color_face(chars@, chars@[i])->0));
        Self::from_stickers(stickers.as_slice())
    }

    /// Builds a state out of a string of the colors of its stickers, in the
    /// layout of `from_stickers`: white space is skipped, and the other
    /// characters are read by `from_chars`.
    pub fn from_string(string: &str) -> (r: Option<Self>)
        ensures
            r == spec_from_chars(non_white(string@)),
    {
        let n = string.unicode_len();
        let mut chars: Vec<char> = Vec::new();
        let mut i: usize = 0;
        while i < n
            invariant
                i <= n,
                n == string@.len(),
                chars@ == non_white(string@.take(i as int)),
            decreases n - i,
        {
            let c = string.get_char(i);
            proof {
                assert(string@.take(i + 1) =~= string@.take(i as int).push(c));
                lemma_non_white_push(string@.take(i as int), c);
            }
            if !char_is_whitespace(c) {
                chars.push(c);
            }
            i += 1;
        }
        assert(string@.take(n as int) =~= string@);
        Self::from_chars(chars.as_slice())
    }
}

} // verus!
