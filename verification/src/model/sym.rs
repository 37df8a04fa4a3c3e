use vstd::prelude::*;
use crate::cube_core::bits::lemma_field_parts;
use crate::cube_core::state::{
    lemma_id_tidy, lemma_inv_pieces, lemma_inv_well_formed, lemma_mul_assoc, lemma_mul_identity, lemma_mul_inverse,
    lemma_mul_pieces, lemma_mul_tidy, State,
};
use crate::permutation::{is_perm, lemma_perm_covers};

verus! {

/// Rotating the whole cube clockwise around the L axis (same direction as
/// the face turn L).
pub open spec fn rot_l() -> State {
    State { corners: 0x6239820290, edges: 0x521ccb525019c25 }
}

/// Rotating the whole cube clockwise around the LBD corner.
pub open spec fn rot_lbd() -> State {
    State { corners: 0xf372aa9a41, edges: 0x7ada938ca1b5250 }
}

/// Rotating the whole cube by a half turn around the U axis.
pub open spec fn rot_u2() -> State {
    State { corners: 0x43004c7214, edges: 0xa5a124298e100c4 }
}

/// Mirroring the whole cube across the plane between faces L and R.
pub open spec fn mir_lr() -> State {
    State { corners: 0x800000c721443004, edges: 0xa5a126390a31040 }
}

/// Facts on the fields of the four generating symmetries: corner
/// orientations below 3, edge positions below 12, and positions distinct.
proof fn lemma_sym_fields(k1: u64, k2: u64)
    by (bit_vector)
    requires
        k1 < 12,
    ensures
        k1 < 8 ==> ((0x6239820290u64 >> ((5 * k1) as u64)) & 31u64) & 3u64 < 3,
        k1 < 8 && k2 < 8 && k1 != k2 ==> ((0x6239820290u64 >> ((5 * k1) as u64)) & 31u64) >> 2u64 != ((0x6239820290u64 >> ((5 * k2) as u64)) & 31u64) >> 2u64,
        (((0x521ccb525019c25u64 >> ((5 * k1) as u64)) & 31u64) >> 1u64) < 12,
        k2 < 12 && k1 != k2 ==> ((0x521ccb525019c25u64 >> ((5 * k1) as u64)) & 31u64) >> 1u64 != ((0x521ccb525019c25u64 >> ((5 * k2) as u64)) & 31u64) >> 1u64,
        0x6239820290u64 >> 40u64 == 0u64 && 0x521ccb525019c25u64 >> 60u64 == 0,
        k1 < 8 ==> ((0xf372aa9a41u64 >> ((5 * k1) as u64)) & 31u64) & 3u64 < 3,
        k1 < 8 && k2 < 8 && k1 != k2 ==> ((0xf372aa9a41u64 >> ((5 * k1) as u64)) & 31u64) >> 2u64 != ((0xf372aa9a41u64 >> ((5 * k2) as u64)) & 31u64) >> 2u64,
        (((0x7ada938ca1b5250u64 >> ((5 * k1) as u64)) & 31u64) >> 1u64) < 12,
        k2 < 12 && k1 != k2 ==> ((0x7ada938ca1b5250u64 >> ((5 * k1) as u64)) & 31u64) >> 1u64 != ((0x7ada938ca1b5250u64 >> ((5 * k2) as u64)) & 31u64) >> 1u64,
        0xf372aa9a41u64 >> 40u64 == 0u64 && 0x7ada938ca1b5250u64 >> 60u64 == 0,
        k1 < 8 ==> ((0x43004c7214u64 >> ((5 * k1) as u64)) & 31u64) & 3u64 < 3,
        k1 < 8 && k2 < 8 && k1 != k2 ==> ((0x43004c7214u64 >> ((5 * k1) as u64)) & 31u64) >> 2u64 != ((0x43004c7214u64 >> ((5 * k2) as u64)) & 31u64) >> 2u64,
        (((0xa5a124298e100c4u64 >> ((5 * k1) as u64)) & 31u64) >> 1u64) < 12,
        k2 < 12 && k1 != k2 ==> ((0xa5a124298e100c4u64 >> ((5 * k1) as u64)) & 31u64) >> 1u64 != ((0xa5a124298e100c4u64 >> ((5 * k2) as u64)) & 31u64) >> 1u64,
        0x43004c7214u64 >> 40u64 == 0u64 && 0xa5a124298e100c4u64 >> 60u64 == 0,
        k1 < 8 ==> ((0x800000c721443004u64 >> ((5 * k1) as u64)) & 31u64) & 3u64 < 3,
        k1 < 8 && k2 < 8 && k1 != k2 ==> ((0x800000c721443004u64 >> ((5 * k1) as u64)) & 31u64) >> 2u64 != ((0x800000c721443004u64 >> ((5 * k2) as u64)) & 31u64) >> 2u64,
        (((0xa5a126390a31040u64 >> ((5 * k1) as u64)) & 31u64) >> 1u64) < 12,
        k2 < 12 && k1 != k2 ==> ((0xa5a126390a31040u64 >> ((5 * k1) as u64)) & 31u64) >> 1u64 != ((0xa5a126390a31040u64 >> ((5 * k2) as u64)) & 31u64) >> 1u64,
        0x800000c721443004u64 >> 40u64 == 0x800000u64 && 0xa5a126390a31040u64 >> 60u64 == 0,
{
}

/// Each of the four generating symmetries is an element of the cube group
/// extended by mirroring.
proof fn lemma_sym_well_formed(s: State)
    requires
        s == rot_l() || s == rot_lbd() || s == rot_u2() || s == mir_lr(),
    ensures
        s.spec_well_formed(),
{
    assert forall|k: u64| k < 8 implies #[trigger] s.spec_co(k) < 3 by {
        lemma_sym_fields(k, 0);
    }
    assert forall|k: u64| k < 12 implies #[trigger] s.spec_ep(k) < 12 by {
        lemma_sym_fields(k, 0);
    }
    lemma_sym_fields(0, 0);
    let cp = s.corner_perm();
    let ep = s.edge_perm();
    assert forall|a: int| 0 <= a < 8 implies 0 <= #[trigger] cp[a] < 8 by {
        lemma_field_parts(s.corners, a as u64);
    }
    assert forall|a: int, b: int| 0 <= a < 8 && 0 <= b < 8 && a != b implies cp[a] != cp[b] by {
        lemma_sym_fields(a as u64, b as u64);
    }
    assert forall|a: int| 0 <= a < 12 implies 0 <= #[trigger] ep[a] < 12 by {
        lemma_sym_fields(a as u64, 0);
    }
    assert forall|a: int, b: int| 0 <= a < 12 && 0 <= b < 12 && a != b implies ep[a] != ep[b] by {
        lemma_sym_fields(a as u64, b as u64);
    }
}

/// Rotating the whole cube clockwise around the L axis (same direction as
/// the face turn L).
#[allow(non_snake_case)]
pub fn ROT_L() -> (r: State)
    ensures
        r == rot_l(),
{
    State {
        corners: 0b_01100_01000_11100_11000_00100_00000_10100_10000,
        edges: 0b_01010_01000_01110_01100_10110_10100_10010_10000_00011_00111_00001_00101,
    }
}

/// Rotating the whole cube clockwise around the LBD corner.
#[allow(non_snake_case)]
pub fn ROT_LBD() -> (r: State)
    ensures
        r == rot_lbd(),
{
    State {
        corners: 0b_11110_01101_11001_01010_10101_00110_10010_00001,
        edges: 0b_01111_01011_01101_01001_00111_00011_00101_00001_10110_10100_10010_10000,
    }
}

/// Rotating the whole cube by a half turn around the U axis.
#[allow(non_snake_case)]
pub fn ROT_U2() -> (r: State)
    ensures
        r == rot_u2(),
{
    State {
        corners: 0b_01000_01100_00000_00100_11000_11100_10000_10100,
        edges: 0b_10100_10110_10000_10010_01000_01010_01100_01110_00010_00000_00110_00100,
    }
}

/// Mirroring the whole cube across the plane between faces L and R.
#[allow(non_snake_case)]
pub fn MIR_LR() -> (r: State)
    ensures
        r == mir_lr(),
{
    State {
        corners: 0x8000_0000_0000_0000 + 0b_11000_11100_10000_10100_01000_01100_00000_00100,
        edges: 0b_10100_10110_10000_10010_01100_01110_01000_01010_00110_00100_00010_00000,
    }
}

/// The product of two elements of the cube group (extended by mirroring) is
/// one too.
pub proof fn lemma_mul_well_formed(a: State, b: State)
    requires
        a.spec_well_formed(),
        b.spec_well_formed(),
    ensures
        a.spec_mul(b).spec_well_formed(),
{
    lemma_mul_tidy(a, b);
    lemma_mul_pieces(a, b);
    let p = a.spec_mul(b);
    let cp = p.corner_perm();
    let ep = p.edge_perm();
    assert forall|x: int| 0 <= x < 8 implies 0 <= #[trigger] cp[x] < 8 by {
        lemma_field_parts(p.corners, x as u64);
    }
    assert forall|x: int, y: int| 0 <= x < 8 && 0 <= y < 8 && x != y implies cp[x] != cp[y] by {
        assert(b.corner_perm()[x] != b.corner_perm()[y]);
        lemma_field_parts(b.corners, x as u64);
        lemma_field_parts(b.corners, y as u64);
        let bx = b.spec_cp(x as u64);
        let by = b.spec_cp(y as u64);
        assert(a.corner_perm()[bx as int] != a.corner_perm()[by as int]);
    }
    assert forall|x: int| 0 <= x < 12 implies 0 <= #[trigger] ep[x] < 12 by {
    }
    assert forall|x: int, y: int| 0 <= x < 12 && 0 <= y < 12 && x != y implies ep[x] != ep[y] by {
        assert(b.edge_perm()[x] != b.edge_perm()[y]);
        let bx = b.spec_ep(x as u64);
        let by = b.spec_ep(y as u64);
        assert(b.edge_perm()[x] == bx && b.edge_perm()[y] == by);
        assert(a.edge_perm()[bx as int] != a.edge_perm()[by as int]);
    }
}

/// Products of two face turns are elements of the cube group, and each is
/// undone by its inverse from either side.
pub proof fn lemma_turn_products(i: int, j: int)
    requires
        0 <= i < 18,
        0 <= j < 18,
    ensures
        crate::cube_core::state::basic_state(i).spec_mul(crate::cube_core::state::basic_state(j)).spec_well_formed(),
        ({
            let s = crate::cube_core::state::basic_state(i).spec_mul(crate::cube_core::state::basic_state(j));
            s.spec_mul(s.spec_inv()) == State::spec_id() && s.spec_inv().spec_mul(s) == State::spec_id()
                && s.spec_inv().spec_well_formed()
        }),
{
    let a = crate::cube_core::state::basic_state(i);
    let b = crate::cube_core::state::basic_state(j);
    crate::cube_core::state::lemma_basic_well_formed(i);
    crate::cube_core::state::lemma_basic_well_formed(j);
    lemma_mul_well_formed(a, b);
    lemma_mul_inverse(a.spec_mul(b));
    lemma_inv_well_formed(a.spec_mul(b));
}

/// Every edge position of the inverse of an element of the group can be
/// looked up.
pub proof fn lemma_inv_addressable(s: State)
    requires
        s.spec_well_formed(),
    ensures
        s.spec_inv().edges_addressable(),
{
    lemma_inv_pieces(s);
    lemma_perm_covers(s.edge_perm());
    assert forall|j: u64| j < 12 implies #[trigger] s.spec_inv().spec_ep(j) <= 12 by {
        assert(s.edge_perm().contains(j as int));
        let k = choose|k: int| 0 <= k < 12 && s.edge_perm()[k] == j as int;
        assert(s.spec_ep(k as u64) == j);
    }
}

/// The state `g` applied `k` times.
pub open spec fn sym_pow(g: State, k: nat) -> State
    decreases k,
{
    if k == 0 {
        State::spec_id()
    } else {
        sym_pow(g, (k - 1) as nat).spec_mul(g)
    }
}

/// The symmetry of index `n = ((a * 3 + b) * 2 + c) * 2 + d`: the turn about
/// the L axis `a` times, then the half turn about the U axis `c` times, then
/// the turn about the LBD corner `b` times, then the mirror `d` times.
pub open spec fn sym_state(n: nat) -> State {
    sym_pow(rot_l(), n / 12).spec_mul(sym_pow(rot_u2(), (n / 2) % 2)).spec_mul(
        sym_pow(rot_lbd(), (n / 4) % 3),
    ).spec_mul(sym_pow(mir_lr(), n % 2))
}

/// The solved cube is an element of the extended cube group.
proof fn lemma_id_well_formed()
    ensures
        State::spec_id().spec_well_formed(),
{
    lemma_id_tidy();
    let s = State::spec_id();
    assert forall|a: int| 0 <= a < 8 implies #[trigger] s.corner_perm()[a] == a by {
        crate::cube_core::state::lemma_id_piece(a as u64);
    }
    assert forall|a: int| 0 <= a < 12 implies #[trigger] s.edge_perm()[a] == a by {
        crate::cube_core::state::lemma_id_piece(a as u64);
    }
}

/// A power of an element of the group is one too.
proof fn lemma_pow_well_formed(g: State, k: nat)
    requires
        g.spec_well_formed(),
    ensures
        sym_pow(g, k).spec_well_formed(),
    decreases k,
{
    if k == 0 {
        lemma_id_well_formed();
    } else {
        lemma_pow_well_formed(g, (k - 1) as nat);
        lemma_mul_well_formed(sym_pow(g, (k - 1) as nat), g);
    }
}

/// An element of the group can stand on the right of a product.
proof fn lemma_well_formed_addressable(s: State)
    requires
        s.spec_well_formed(),
    ensures
        s.edges_addressable(),
{
    assert forall|k: u64| k < 12 implies #[trigger] s.spec_ep(k) <= 12 by {
        assert(s.edge_perm()[k as int] == s.spec_ep(k) as int);
    }
}

/// Each symmetry is an element of the extended cube group.
pub proof fn lemma_sym_state_well_formed(n: nat)
    ensures
        sym_state(n).spec_well_formed(),
        sym_state(n).edges_addressable(),
{
    lemma_sym_well_formed(rot_l());
    lemma_sym_well_formed(rot_lbd());
    lemma_sym_well_formed(rot_u2());
    lemma_sym_well_formed(mir_lr());
    let pa = sym_pow(rot_l(), n / 12);
    let pc = sym_pow(rot_u2(), (n / 2) % 2);
    let pb = sym_pow(rot_lbd(), (n / 4) % 3);
    let pd = sym_pow(mir_lr(), n % 2);
    lemma_pow_well_formed(rot_l(), n / 12);
    lemma_pow_well_formed(rot_u2(), (n / 2) % 2);
    lemma_pow_well_formed(rot_lbd(), (n / 4) % 3);
    lemma_pow_well_formed(mir_lr(), n % 2);
    lemma_mul_well_formed(pa, pc);
    lemma_mul_well_formed(pa.spec_mul(pc), pb);
    lemma_mul_well_formed(pa.spec_mul(pc).spec_mul(pb), pd);
    lemma_well_formed_addressable(sym_state(n));
}

/// The state `g` applied `k` times.
fn power(g: State, k: u8) -> (r: State)
    requires
        g.spec_well_formed(),
    ensures
        r == sym_pow(g, k as nat),
        r.spec_well_formed(),
{
    proof {
        lemma_well_formed_addressable(g);
        lemma_id_well_formed();
    }
    let mut r = State::ID();
    let mut i: u8 = 0;
    while i < k
        invariant
            i <= k,
            g.spec_well_formed(),
            g.edges_addressable(),
            r == sym_pow(g, i as nat),
            r.spec_well_formed(),
        decreases k - i,
    {
        proof {
            lemma_mul_well_formed(r, g);
        }
        r = r * g;
        i += 1;
    }
    r
}

/// Whether `a` comes before `b` in the order of states: by their corners,
/// then by their edges.
pub open spec fn state_lt(a: State, b: State) -> bool {
    a.corners < b.corners || (a.corners == b.corners && a.edges < b.edges)
}

/// A set of symmetries, each with its inverse.
pub struct Symmetries {
    pub elems: Vec<State>,
    pub elems_inv: Vec<State>,
}

impl Symmetries {
    /// The symmetries are the 48 of `sym_state`, each with its inverse.
    pub open spec fn wf(&self) -> bool {
        &&& self.elems.len() == 48
        &&& self.elems_inv.len() == 48
        &&& forall|i: int| 0 <= i < 48 ==> #[trigger] self.elems@[i] == sym_state(i as nat)
        &&& forall|i: int| 0 <= i < 48 ==> #[trigger] self.elems_inv@[i] == sym_state(i as nat).spec_inv()
    }

    /// All 48 symmetries of the cube: each product of a turn of the whole
    /// cube about the L axis, a half turn about the U axis, a turn about the
    /// LBD corner and a mirror, as `sym_state` lists them, with its inverse.
    pub fn all() -> (r: Self)
        ensures
            r.wf(),
            r.elems@[0] == State::spec_id(),
            forall|i: int| 0 <= i < 48 ==> (#[trigger] r.elems@[i]).spec_well_formed(),
    {
        let mut elems: Vec<State> = Vec::new();
        let mut elems_inv: Vec<State> = Vec::new();
        proof {
            lemma_sym_well_formed(rot_l());
            lemma_sym_well_formed(rot_lbd());
            lemma_sym_well_formed(rot_u2());
            lemma_sym_well_formed(mir_lr());
        }
        let mut n: u8 = 0;
        while n < 48
            invariant
                n <= 48,
                elems.len() == n,
                elems_inv.len() == n,
                rot_l().spec_well_formed(),
                rot_lbd().spec_well_formed(),
                rot_u2().spec_well_formed(),
                mir_lr().spec_well_formed(),
                forall|i: int| 0 <= i < n ==> #[trigger] elems@[i] == sym_state(i as nat),
                forall|i: int| 0 <= i < n ==> #[trigger] elems_inv@[i] == sym_state(i as nat).spec_inv(),
            decreases 48 - n,
        {
            let pa = power(ROT_L(), n / 12);
            let pc = power(ROT_U2(), (n / 2) % 2);
            let pb = power(ROT_LBD(), (n / 4) % 3);
            let pd = power(MIR_LR(), n % 2);
            proof {
                lemma_well_formed_addressable(pc);
                lemma_well_formed_addressable(pb);
                lemma_well_formed_addressable(pd);
                lemma_sym_state_well_formed(n as nat);
            }
            let state = pa * pc * pb * pd;
            elems.push(state);
            elems_inv.push(state.inv());
            n += 1;
        }
        proof {
            lemma_id_well_formed();
            lemma_mul_identity(State::spec_id());
            assert(sym_state(0) == State::spec_id());
            assert forall|i: int| 0 <= i < 48 implies (#[trigger] elems@[i]).spec_well_formed() by {
                lemma_sym_state_well_formed(i as nat);
            }
        }
        Self { elems, elems_inv }
    }

    /// The state resulting from applying this state under the given symmetry
    /// index: the symmetry, then the state, then the symmetry's inverse.
    pub fn conj(&self, state: State, sym_idx: u8) -> (r: State)
        requires
            self.wf(),
            sym_idx < 48,
            state.edges_addressable(),
        ensures
            r == sym_state(sym_idx as nat).spec_mul(state).spec_mul(sym_state(sym_idx as nat).spec_inv()),
            r == conjugate(sym_idx as nat, state),
    {
        proof {
            lemma_sym_state_well_formed(sym_idx as nat);
            lemma_inv_addressable(sym_state(sym_idx as nat));
        }
        self.elems[sym_idx as usize] * state * self.elems_inv[sym_idx as usize]
    }

    /// The representative state for the sym-class of the given state: the
    /// smallest of its conjugates `s^-1 * state * s` over the symmetries `s`
    /// (the first one in the order of the symmetries among equal ones), and
    /// the index of that symmetry.
    pub fn repr(&self, state: State) -> (r: (State, u8))
        requires
            self.wf(),
            state.edges_addressable(),
        ensures
            r.1 < 48,
            r.0 == sym_state(r.1 as nat).spec_inv().spec_mul(state).spec_mul(sym_state(r.1 as nat)),
            forall|i: int| 0 <= i < 48 ==> !state_lt(
                #[trigger] sym_state(i as nat).spec_inv().spec_mul(state).spec_mul(sym_state(i as nat)),
                r.0,
            ),
            forall|i: int| 0 <= i < r.1 ==> state_lt(
                r.0,
                #[trigger] sym_state(i as nat).spec_inv().spec_mul(state).spec_mul(sym_state(i as nat)),
            ),
    {
        proof {
            lemma_sym_state_well_formed(0);
            lemma_inv_addressable(sym_state(0));
        }
        let mut best = self.elems_inv[0] * state * self.elems[0];
        let mut best_i: u8 = 0;
        let mut i: usize = 1;
        while i < self.elems.len()
            invariant
                self.wf(),
                state.edges_addressable(),
                1 <= i <= 48,
                best_i < i,
                best == sym_state(best_i as nat).spec_inv().spec_mul(state).spec_mul(sym_state(best_i as nat)),
                forall|j: int| 0 <= j < i ==> !state_lt(
                    #[trigger] sym_state(j as nat).spec_inv().spec_mul(state).spec_mul(sym_state(j as nat)),
                    best,
                ),
                forall|j: int| 0 <= j < best_i ==> state_lt(
                    best,
                    #[trigger] sym_state(j as nat).spec_inv().spec_mul(state).spec_mul(sym_state(j as nat)),
                ),
            decreases 48 - i,
        {
            proof {
                lemma_sym_state_well_formed(i as nat);
                lemma_inv_addressable(sym_state(i as nat));
            }
            let cand = self.elems_inv[i] * state * self.elems[i];
            if cand.corners < best.corners || (cand.corners == best.corners && cand.edges < best.edges) {
                best = cand;
                best_i = i as u8;
            }
            i += 1;
        }
        (best, best_i)
    }
}

/// The conjugate of `a` by the symmetry of index `k`, as `conj` computes it.
pub open spec fn conjugate(k: nat, a: State) -> State {
    sym_state(k).spec_mul(a).spec_mul(sym_state(k).spec_inv())
}

/// Conjugating by a symmetry keeps products, the solved cube and the cube
/// group: the conjugate of a product is the product of the conjugates, the
/// solved cube is its own conjugate, conjugating by the first symmetry
/// changes nothing, and conjugates of elements of the group are elements.
pub proof fn lemma_conj_laws(k: nat, a: State, b: State)
    requires
        a.spec_well_formed(),
        b.spec_well_formed(),
    ensures
        conjugate(k, a.spec_mul(b)) == conjugate(k, a).spec_mul(conjugate(k, b)),
        conjugate(k, State::spec_id()) == State::spec_id(),
        conjugate(0, a) == a,
        conjugate(k, a).spec_well_formed(),
{
    let s = sym_state(k);
    let t = s.spec_inv();
    let id = State::spec_id();
    lemma_sym_state_well_formed(k);
    lemma_sym_state_well_formed(0);
    lemma_id_well_formed();
    lemma_inv_well_formed(s);
    lemma_inv_well_formed(id);
    lemma_mul_inverse(s);
    lemma_mul_inverse(id);
    let sa = s.spec_mul(a);
    let sat = sa.spec_mul(t);
    let sb = s.spec_mul(b);
    let ab = a.spec_mul(b);
    lemma_mul_well_formed(s, a);
    lemma_mul_well_formed(sa, t);
    lemma_mul_well_formed(s, b);
    lemma_mul_well_formed(a, b);
    lemma_mul_well_formed(sa, b);
    lemma_mul_well_formed(t, s);
    lemma_mul_well_formed(sat, s);
    lemma_mul_well_formed(sat, sb);
    // s (a b) t == (s a)(t s)(b) t == ((s a) t)((s b) t)
    lemma_mul_assoc(s, a, b);
    lemma_mul_identity(b);
    lemma_mul_assoc(t, s, b);
    assert(sa.spec_mul(b) == sa.spec_mul(t.spec_mul(s).spec_mul(b)));
    lemma_mul_assoc(sa, t.spec_mul(s), b);
    lemma_mul_assoc(sa, t, s);
    lemma_mul_assoc(sat, s, b);
    assert(sa.spec_mul(b) == sat.spec_mul(sb));
    lemma_mul_assoc(sat, sb, t);
    assert(conjugate(k, ab) == sat.spec_mul(sb).spec_mul(t));
    // The solved cube.
    lemma_mul_identity(s);
    // The first symmetry.
    lemma_mul_identity(id);
    assert(sym_state(0) == id);
    lemma_mul_identity(t);
    lemma_mul_identity(id.spec_inv());
    lemma_mul_identity(a);
}

} // verus!
