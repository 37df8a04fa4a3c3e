use vstd::prelude::*;
use crate::algebra::coord::{CO, CP, EOLR, EP4, EP8};
use crate::algebra::coord::perm::{ep4_readable, ep8_readable, ep8_word, perm_entries, EP8_OFFSET};
use crate::algebra::coord::slice::{lr_slice_count, lr_value};
use crate::algebra::coord::ori::{co_value, eo_bits};
use crate::algebra::coord::perm::{corner_entries, lehmer};
use crate::cube_core::bits;
use crate::cube_core::state::State;
use crate::solve::kociemba::pruning::slot;

verus! {

/// The eighteen moves, by index.
pub const ALL_MOVES: [u8; 18] = [0, 1, 2, 3, 4, 5, 6, 7, 8, 9, 10, 11, 12, 13, 14, 15, 16, 17];

/// The moves of the second phase, by index: all turns of faces L and R, and
/// half turns of the other faces.
pub const PHASE2_MOVES: [u8; 10] = [0, 1, 2, 3, 4, 5, 8, 11, 14, 17];

/// Whether the move of index `mv` belongs to the second phase: it turns face
/// L or R, or it is a half turn.
pub fn is_phase2_move(mv: u8) -> (r: bool)
    ensures
        r == !(mv / 3 >= 2 && mv % 3 < 2),
{
    !(mv / 3 >= 2 && mv % 3 < 2)
}

/// The moves of the second phase are exactly those of `PHASE2_MOVES`, in
/// increasing order.
pub proof fn lemma_phase2_moves(mv: u8)
    requires
        mv < 18,
    ensures
        !(mv / 3 >= 2 && mv % 3 < 2) <==> exists|i: int| 0 <= i < 10 && PHASE2_MOVES[i] == mv,
        forall|i: int, j: int| 0 <= i < j < 10 ==> PHASE2_MOVES[i] < PHASE2_MOVES[j],
{
    if !(mv / 3 >= 2 && mv % 3 < 2) {
        let i: int = if mv < 6 {
            mv as int
        } else {
            (mv as int - 8) / 3 + 6
        };
        assert(PHASE2_MOVES[i] == mv);
    }
}

/// The number of classes of the edge orientation and slice coordinate under
/// the 16 symmetries that keep the axis between faces U and D.
pub const EOLR_CLASSES: u32 = 64430;

/// The number of classes of the corner permutation under those symmetries.
pub const CP_CLASSES: u32 = 2768;

/// Whether every entry of `v` is below `b`.
pub open spec fn below8(v: Seq<u8>, b: int) -> bool {
    forall|i: int| 0 <= i < v.len() ==> #[trigger] v[i] < b
}

/// Whether every entry of `v` is below `b`.
pub open spec fn below16(v: Seq<u16>, b: int) -> bool {
    forall|i: int| 0 <= i < v.len() ==> #[trigger] v[i] < b
}

/// Whether every entry of `v` is below `b`.
pub open spec fn below32(v: Seq<u32>, b: int) -> bool {
    forall|i: int| 0 <= i < v.len() ==> #[trigger] v[i] < b
}

fn check_below8(v: &Vec<u8>, b: u64) -> (r: bool)
    ensures
        r == below8(v@, b as int),
{
    let mut i: usize = 0;
    while i < v.len()
        invariant
            i <= v.len(),
            forall|k: int| 0 <= k < i ==> #[trigger] v@[k] < b,
        decreases v.len() - i,
    {
        if v[i] as u64 >= b {
            return false;
        }
        i += 1;
    }
    true
}

fn check_below16(v: &Vec<u16>, b: u64) -> (r: bool)
    ensures
        r == below16(v@, b as int),
{
    let mut i: usize = 0;
    while i < v.len()
        invariant
            i <= v.len(),
            forall|k: int| 0 <= k < i ==> #[trigger] v@[k] < b,
        decreases v.len() - i,
    {
        if v[i] as u64 >= b {
            return false;
        }
        i += 1;
    }
    true
}

fn check_below32(v: &Vec<u32>, b: u64) -> (r: bool)
    ensures
        r == below32(v@, b as int),
{
    let mut i: usize = 0;
    while i < v.len()
        invariant
            i <= v.len(),
            forall|k: int| 0 <= k < i ==> #[trigger] v@[k] < b,
        decreases v.len() - i,
    {
        if v[i] as u64 >= b {
            return false;
        }
        i += 1;
    }
    true
}

/// The tables of the two-phase solver, as plain data. Symmetry coordinates
/// are packed as `16 * class + symmetry`; the 16 symmetries are those that
/// keep the axis between faces U and D.
pub struct Tables {
    /// The index of the product of the symmetries `i` and `j`, at `16 * i + j`.
    pub sym_prod: Vec<u8>,
    /// The index of the inverse of each symmetry.
    pub sym_inv: Vec<u8>,
    /// The move `mv` conjugated by the inverse of the symmetry `j`, at
    /// `16 * mv + j`.
    pub sym_conj_inv_mv: Vec<u8>,
    /// The symmetry coordinate of each raw edge orientation and slice
    /// coordinate.
    pub eolr_raw_to_sym: Vec<u32>,
    /// The symmetry coordinate reached by each move from each class
    /// representative, at `18 * class + mv`.
    pub eolr_mv: Vec<u32>,
    /// The corner orientation reached by each move, at `18 * co + mv`.
    pub co_mv: Vec<u16>,
    /// The corner orientation conjugated by each symmetry, at `16 * co + s`.
    pub co_sym: Vec<u16>,
    /// The symmetry coordinate of each raw corner permutation.
    pub cp_raw_to_sym: Vec<u16>,
    /// The symmetry coordinate reached by each move from each class
    /// representative, at `18 * class + mv`.
    pub cp_mv: Vec<u16>,
    /// The permutation of the eight edges outside the slice reached by each
    /// move, at `18 * ep8 + mv`.
    pub ep8_mv: Vec<u16>,
    /// That permutation conjugated by each symmetry, at `16 * ep8 + s`.
    pub ep8_sym: Vec<u16>,
    /// The permutation of the four slice edges reached by each move, at
    /// `18 * ep4 + mv`.
    pub ep4_mv: Vec<u8>,
    /// The distances of the first phase modulo 3, four to a byte, at
    /// `2187 * class + co` (the corner orientation brought to the class
    /// representative's symmetry).
    pub prune_eolr_co: Vec<u8>,
    /// The distances of the corner and eight-edge permutations modulo 3, four
    /// to a byte, at `40320 * class + ep8`.
    pub prune_cp_ep8: Vec<u8>,
}

impl Tables {
    /// Every table has its size and every entry is in the range of what it
    /// stands for, so that every lookup of the solver stays inside the tables.
    pub open spec fn wf(&self) -> bool {
        &&& self.sym_prod@.len() == 256 && below8(self.sym_prod@, 16)
        &&& self.sym_inv@.len() == 16 && below8(self.sym_inv@, 16)
        &&& self.sym_conj_inv_mv@.len() == 288 && below8(self.sym_conj_inv_mv@, 18)
        &&& self.eolr_raw_to_sym@.len() == 1013760 && below32(self.eolr_raw_to_sym@, 16 * EOLR_CLASSES)
        &&& self.eolr_mv@.len() == 18 * EOLR_CLASSES && below32(self.eolr_mv@, 16 * EOLR_CLASSES)
        &&& self.co_mv@.len() == 18 * 2187 && below16(self.co_mv@, 2187)
        &&& self.co_sym@.len() == 16 * 2187 && below16(self.co_sym@, 2187)
        &&& self.cp_raw_to_sym@.len() == 40320 && below16(self.cp_raw_to_sym@, 16 * CP_CLASSES)
        &&& self.cp_mv@.len() == 18 * CP_CLASSES && below16(self.cp_mv@, 16 * CP_CLASSES)
        &&& self.ep8_mv@.len() == 18 * 40320 && below16(self.ep8_mv@, 40320)
        &&& self.ep8_sym@.len() == 16 * 40320 && below16(self.ep8_sym@, 40320)
        &&& self.ep4_mv@.len() == 18 * 24 && below8(self.ep4_mv@, 24)
        &&& 4 * self.prune_eolr_co@.len() >= 2187 * EOLR_CLASSES
        &&& 4 * self.prune_cp_ep8@.len() >= 40320 * CP_CLASSES
    }

    /// Whether the tables are well formed, checked entry by entry.
    pub fn check(&self) -> (r: bool)
        ensures
            r == self.wf(),
    {
        self.sym_prod.len() == 256 && check_below8(&self.sym_prod, 16) && self.sym_inv.len() == 16
            && check_below8(&self.sym_inv, 16) && self.sym_conj_inv_mv.len() == 288 && check_below8(
            &self.sym_conj_inv_mv,
            18,
        ) && self.eolr_raw_to_sym.len() == 1013760 && check_below32(&self.eolr_raw_to_sym, 16 * 64430)
            && self.eolr_mv.len() == 18 * 64430 && check_below32(&self.eolr_mv, 16 * 64430)
            && self.co_mv.len() == 18 * 2187 && check_below16(&self.co_mv, 2187) && self.co_sym.len()
            == 16 * 2187 && check_below16(&self.co_sym, 2187) && self.cp_raw_to_sym.len() == 40320
            && check_below16(&self.cp_raw_to_sym, 16 * 2768) && self.cp_mv.len() == 18 * 2768
            && check_below16(&self.cp_mv, 16 * 2768) && self.ep8_mv.len() == 18 * 40320 && check_below16(
            &self.ep8_mv,
            40320,
        ) && self.ep8_sym.len() == 16 * 40320 && check_below16(&self.ep8_sym, 40320)
            && self.ep4_mv.len() == 18 * 24 && check_below8(&self.ep4_mv, 24) && self.prune_eolr_co.len()
            >= (2187 * 64430 + 3) / 4 && self.prune_cp_ep8.len() >= (40320 * 2768 + 3) / 4
    }
}

/// The two-bit entry at `idx` of a table packed four entries to a byte.
pub open spec fn packed_at(table: Seq<u8>, idx: int) -> u8 {
    slot(table[idx / 4], idx % 4)
}

fn read_packed(table: &Vec<u8>, idx: usize) -> (r: u8)
    requires
        idx / 4 < table@.len(),
    ensures
        r == packed_at(table@, idx as int),
{
    let byte = table[idx / 4];
    let k = idx % 4;
    if k == 0 {
        byte % 4
    } else if k == 1 {
        (byte / 4) % 4
    } else if k == 2 {
        (byte / 16) % 4
    } else {
        byte / 64
    }
}

/// The symmetry coordinate `c` after the move `mv`, by a move table of class
/// representatives: the move is conjugated into the representative's frame,
/// and the symmetries compose.
pub open spec fn sym_coord_mv(t: &Tables, mv_table: Seq<int>, c: int, mv: int) -> int {
    let i = c / 16;
    let j = c % 16;
    let mv2 = t.sym_conj_inv_mv@[16 * mv + j] as int;
    let e = mv_table[18 * i + mv2];
    (e / 16) * 16 + t.sym_prod@[16 * (e % 16) + j] as int
}

/// The first-phase coordinates are in range.
pub open spec fn p1_ok(c: Phase1) -> bool {
    c.eolr < 16 * EOLR_CLASSES && c.co < 2187
}

/// The second-phase coordinates are in range.
pub open spec fn p2_ok(c: Phase2) -> bool {
    c.cp < 16 * CP_CLASSES && c.ep8 < 40320 && c.ep4 < 24
}

/// The first-phase coordinates after the move `mv`.
pub open spec fn p1_mv(t: &Tables, c: Phase1, mv: int) -> Phase1 {
    Phase1 {
        eolr: sym_coord_mv(t, t.eolr_mv@.map_values(|x: u32| x as int), c.eolr as int, mv) as u32,
        co: t.co_mv@[18 * c.co + mv],
    }
}

/// The second-phase coordinates after the move `mv`.
pub open spec fn p2_mv(t: &Tables, c: Phase2, mv: int) -> Phase2 {
    Phase2 {
        cp: sym_coord_mv(t, t.cp_mv@.map_values(|x: u16| x as int), c.cp as int, mv) as u16,
        ep8: t.ep8_mv@[18 * c.ep8 + mv],
        ep4: t.ep4_mv@[18 * c.ep4 + mv],
    }
}

/// The distance modulo 3 of the first-phase coordinates, from the pruning
/// table.
pub open spec fn p1_dist(t: &Tables, c: Phase1) -> u8 {
    let i = c.eolr / 16;
    let j = c.eolr % 16;
    let k = t.co_sym@[16 * c.co + t.sym_inv@[j as int]];
    packed_at(t.prune_eolr_co@, i * 2187 + k)
}

/// The distance modulo 3 of the corner and eight-edge permutations, from the
/// pruning table.
pub open spec fn p2_dist(t: &Tables, c: Phase2) -> u8 {
    let i = c.cp / 16;
    let j = c.cp % 16;
    let k = t.ep8_sym@[16 * c.ep8 + t.sym_inv@[j as int]];
    packed_at(t.prune_cp_ep8@, i * 40320 + k)
}

/// The first-phase coordinates of a state: the class, as the table gives
/// it, of its edge orientation and slice coordinate `eo * 495 + lr`, and its
/// corner orientation coordinate.
pub open spec fn p1_of_state(t: &Tables, s: State) -> Phase1 {
    Phase1 { eolr: t.eolr_raw_to_sym@[eo_bits(s, 11) * 495 + lr_value(s, 12)], co: co_value(s, 0) as u16 }
}

/// The second-phase coordinates of a state: the class, as the table gives
/// it, of its corner permutation coordinate, and the permutation codes of its
/// eight edges outside the slice and of its four slice edges.
pub open spec fn p2_of_state(t: &Tables, s: State) -> Phase2 {
    Phase2 {
        cp: t.cp_raw_to_sym@[lehmer(corner_entries(s), 8, 7)],
        ep8: lehmer(perm_entries(ep8_word(s), 4, 8), 8, 7) as u16,
        ep4: lehmer(perm_entries(s.edges >> 1u64, 4, 4), 4, 3) as u8,
    }
}

/// The coordinates of the first phase: the edge orientation and slice
/// coordinate reduced by symmetry, and the corner orientation.
#[derive(Clone, Copy, Debug, PartialEq, Eq, Structural)]
pub struct Phase1 {
    pub eolr: u32,
    pub co: u16,
}

impl Phase1 {
    /// Whether the first phase is done: the class of the edge orientation and
    /// slice coordinate and the corner orientation are both 0.
    pub fn reached_goal(&self) -> (r: bool)
        ensures
            r == (self.eolr / 16 == 0 && self.co == 0),
    {
        self.eolr / 16 == 0 && self.co == 0
    }

    /// The coordinates after the move `mv`.
    pub fn mv(&self, mv: u8, tables: &Tables) -> (r: Self)
        requires
            tables.wf(),
            p1_ok(*self),
            mv < 18,
        ensures
            r == p1_mv(tables, *self, mv as int),
            p1_ok(r),
    {
        let i = (self.eolr / 16) as usize;
        let j = (self.eolr % 16) as usize;
        let mv2 = tables.sym_conj_inv_mv[16 * mv as usize + j] as usize;
        let e = tables.eolr_mv[18 * i + mv2];
        let l = (e % 16) as usize;
        let eolr = (e / 16) * 16 + tables.sym_prod[16 * l + j] as u32;
        let co = tables.co_mv[18 * self.co as usize + mv as usize];
        proof {
            assert(tables.eolr_mv@.map_values(|x: u32| x as int)[18 * i + mv2] == e as int);
        }
        Self { eolr, co }
    }

    /// The distance modulo 3 to the goal of the first phase, from the
    /// pruning table.
    pub fn depth_mod_3(&self, tables: &Tables) -> (r: u8)
        requires
            tables.wf(),
            p1_ok(*self),
        ensures
            r == p1_dist(tables, *self),
            r < 4,
    {
        let i = (self.eolr / 16) as usize;
        let j = (self.eolr % 16) as usize;
        let k = tables.co_sym[16 * self.co as usize + tables.sym_inv[j] as usize] as usize;
        read_packed(&tables.prune_eolr_co, i * 2187 + k)
    }

    /// The coordinates of a state whose four slice edges are among its
    /// edges, read through the tables.
    pub fn from_state(state: &State, tables: &Tables) -> (r: Option<Self>)
        requires
            tables.wf(),
            lr_slice_count(*state, 12) <= 4,
        ensures
            r is Some <==> eo_bits(*state, 11) * 495 + lr_value(*state, 12) < 1013760 && co_value(*state, 0) < 2187,
            r matches Some(c) ==> p1_ok(c) && c == p1_of_state(tables, *state),
    {
        let raw = EOLR::from_state(state).coord();
        let co = CO::from_state(state).coord();
        if (raw as usize) < tables.eolr_raw_to_sym.len() && co < 2187 {
            Some(Self { eolr: tables.eolr_raw_to_sym[raw as usize], co })
        } else {
            None
        }
    }
}

/// The coordinates of the second phase: the corner permutation reduced by
/// symmetry, and the permutations of the eight edges outside the middle
/// slice and of the four inside it.
#[derive(Clone, Copy, Debug, PartialEq, Eq, Structural)]
pub struct Phase2 {
    pub cp: u16,
    pub ep8: u16,
    pub ep4: u8,
}

impl Phase2 {
    /// Whether the second phase is done: all its coordinates are 0.
    pub fn reached_goal(&self) -> (r: bool)
        ensures
            r == (self.cp == 0 && self.ep8 == 0 && self.ep4 == 0),
    {
        self.cp == 0 && self.ep8 == 0 && self.ep4 == 0
    }

    /// The coordinates after the move `mv`.
    pub fn mv(&self, mv: u8, tables: &Tables) -> (r: Self)
        requires
            tables.wf(),
            p2_ok(*self),
            mv < 18,
        ensures
            r == p2_mv(tables, *self, mv as int),
            p2_ok(r),
    {
        let i = (self.cp / 16) as usize;
        let j = (self.cp % 16) as usize;
        let mv2 = tables.sym_conj_inv_mv[16 * mv as usize + j] as usize;
        let e = tables.cp_mv[18 * i + mv2];
        let l = (e % 16) as usize;
        let cp = (e / 16) * 16 + tables.sym_prod[16 * l + j] as u16;
        let ep8 = tables.ep8_mv[18 * self.ep8 as usize + mv as usize];
        let ep4 = tables.ep4_mv[18 * self.ep4 as usize + mv as usize];
        proof {
            assert(tables.cp_mv@.map_values(|x: u16| x as int)[18 * i + mv2] == e as int);
        }
        Self { cp, ep8, ep4 }
    }

    /// The distance modulo 3 of the corner and eight-edge permutations to
    /// the goal, from the pruning table.
    pub fn depth_cp_ep8_mod_3(&self, tables: &Tables) -> (r: u8)
        requires
            tables.wf(),
            p2_ok(*self),
        ensures
            r == p2_dist(tables, *self),
            r < 4,
    {
        let i = (self.cp / 16) as usize;
        let j = (self.cp % 16) as usize;
        let k = tables.ep8_sym[16 * self.ep8 as usize + tables.sym_inv[j] as usize] as usize;
        read_packed(&tables.prune_cp_ep8, i * 40320 + k)
    }

    /// The coordinates of a state of the second phase, read through the
    /// tables.
    pub fn from_state(state: &State, tables: &Tables) -> (r: Option<Self>)
        requires
            tables.wf(),
            ep8_readable(*state),
            ep4_readable(*state),
        ensures
            r is Some <==> lehmer(corner_entries(*state), 8, 7) < 40320 && lehmer(perm_entries(ep8_word(*state), 4, 8), 8, 7)
                < 40320 && lehmer(perm_entries(state.edges >> 1u64, 4, 4), 4, 3) < 24,
            r matches Some(c) ==> p2_ok(c) && c == p2_of_state(tables, *state),
    {
        let raw = CP::from_state(state).coord();
        let ep8 = EP8::from_state(state).coord();
        let ep4 = EP4::from_state(state).coord();
        if (raw as usize) < tables.cp_raw_to_sym.len() && ep8 < 40320 && ep4 < 24 {
            Some(Self { cp: tables.cp_raw_to_sym[raw as usize], ep8, ep4 })
        } else {
            None
        }
    }
}

/// Whether the four slice edges of a state are among its edges (at most four
/// edges sit in the slice).
pub fn slice_readable(state: &State) -> (r: bool)
    ensures
        r == (lr_slice_count(*state, 12) <= 4),
{
    let mut count: u8 = 0;
    let mut i: u8 = 0;
    while i < 12
        invariant
            i <= 12,
            count == lr_slice_count(*state, i as nat),
            count <= i,
        decreases 12 - i,
    {
        if state.ep(i) < 4 {
            count += 1;
        }
        i += 1;
    }
    count <= 4
}

/// Whether the edges of a state can be read by the coordinates of the second
/// phase.
pub fn phase2_readable(state: &State) -> (r: bool)
    ensures
        r == (ep8_readable(*state) && ep4_readable(*state)),
{
    let high = state.edges >> 21u64;
    if high < EP8_OFFSET {
        return false;
    }
    let word = high - EP8_OFFSET;
    let mut i: u8 = 0;
    while i < 7
        invariant
            i <= 7,
            word == ep8_word(*state),
            forall|k: int| 0 <= k < i ==> #[trigger] perm_entries(word, 4, 8)[k] < 8,
        decreases 7 - i,
    {
        if bits::get(word, 5 * i, 4) >= 8 {
            assert(perm_entries(word, 4, 8)[i as int] >= 8);
            return false;
        }
        i += 1;
    }
    let low = state.edges >> 1u64;
    let mut i: u8 = 0;
    while i < 3
        invariant
            i <= 3,
            low == state.edges >> 1u64,
            ep8_readable(*state),
            forall|k: int| 0 <= k < i ==> #[trigger] perm_entries(low, 4, 4)[k] < 8,
        decreases 3 - i,
    {
        if bits::get(low, 5 * i, 4) >= 8 {
            assert(perm_entries(low, 4, 4)[i as int] >= 8);
            return false;
        }
        i += 1;
    }
    true
}

} // verus!
