use vstd::prelude::*;
use crate::algebra::coord::ori::{
    co_sample, co_value, eo_bits, eo_digit, eo_sample, lemma_co_roundtrip, lemma_co_sample_valid, lemma_co_value_bound,
    lemma_eo_bits_bound, lemma_eo_sample_valid, pow3,
    lemma_eo_roundtrip,
};
use crate::algebra::coord::perm::{corner_entries, cp_sample, lehmer, lemma_cp_roundtrip};
use crate::algebra::coord::{CO, CP, EO};
use crate::cube_core::bits::{
    deserialize_array16, from_native_bytes16, lemma_field_parts, lemma_serialize16_roundtrip, serialize_array16,
    serialized16,
};
use crate::cube_core::state::{basic_state, lemma_basic_tidy, lemma_mul_pieces, sum_co, sum_eo, State};
use crate::model::sym::{conjugate, Symmetries};

verus! {

/// A coordinate whose value can be read from any state: a way to look at a
/// part of the cube state, with a state sampled for each of its values.
pub trait Coord: Sized {
    /// The number of values of the coordinate.
    spec fn spec_num_raw() -> nat;

    /// The coordinate of a state.
    spec fn spec_of(s: State) -> nat;

    /// The state sampled for the value `c`.
    spec fn spec_sample(c: nat) -> State;

    /// The number of values of the coordinate.
    fn num_raw() -> (r: u16)
        ensures
            r == Self::spec_num_raw(),
    ;

    /// The coordinate of a state.
    fn raw_of_state(state: &State) -> (r: u16)
        ensures
            r == Self::spec_of(*state),
    ;

    /// A state whose coordinate is `c`.
    fn raw_sample(c: u16) -> (r: State)
        requires
            c < Self::spec_num_raw(),
        ensures
            r == Self::spec_sample(c as nat),
            r.spec_valid(),
    ;

    /// The sampled state has the coordinate it was sampled for.
    proof fn lemma_sample_of(c: nat)
        requires
            c < Self::spec_num_raw(),
        ensures
            Self::spec_of(Self::spec_sample(c)) == c,
    ;
}

impl Coord for CO {
    open spec fn spec_num_raw() -> nat {
        2187
    }

    open spec fn spec_of(s: State) -> nat {
        co_value(s, 0) as nat
    }

    open spec fn spec_sample(c: nat) -> State {
        co_sample(c)
    }

    fn num_raw() -> (r: u16) {
        CO::NUM_RAW
    }

    fn raw_of_state(state: &State) -> (r: u16) {
        CO::from_state(state).coord()
    }

    fn raw_sample(c: u16) -> (r: State) {
        CO::from_coord(c).sample_state()
    }

    proof fn lemma_sample_of(c: nat) {
        lemma_co_roundtrip(c);
    }
}

impl Coord for EO {
    open spec fn spec_num_raw() -> nat {
        2048
    }

    open spec fn spec_of(s: State) -> nat {
        eo_bits(s, 11) as nat
    }

    open spec fn spec_sample(c: nat) -> State {
        eo_sample(c as u16)
    }

    fn num_raw() -> (r: u16) {
        EO::NUM_RAW
    }

    fn raw_of_state(state: &State) -> (r: u16) {
        EO::from_state(state).coord()
    }

    fn raw_sample(c: u16) -> (r: State) {
        EO::from_coord(c).sample_state()
    }

    proof fn lemma_sample_of(c: nat) {
        lemma_eo_roundtrip(c as u16);
    }
}

impl Coord for CP {
    open spec fn spec_num_raw() -> nat {
        40320
    }

    open spec fn spec_of(s: State) -> nat {
        lehmer(corner_entries(s), 8, 7) as nat
    }

    open spec fn spec_sample(c: nat) -> State {
        cp_sample(c)
    }

    fn num_raw() -> (r: u16) {
        CP::NUM_RAW
    }

    fn raw_of_state(state: &State) -> (r: u16) {
        CP::from_state(state).coord()
    }

    fn raw_sample(c: u16) -> (r: State) {
        CP::from_coord(c).sample_state()
    }

    proof fn lemma_sample_of(c: nat) {
        lemma_cp_roundtrip(c);
    }
}

/// A valid state can stand on the right of a product.
pub proof fn lemma_valid_addressable(s: State)
    requires
        s.spec_valid(),
    ensures
        s.edges_addressable(),
{
    assert forall|i: u64| i < 12 implies #[trigger] s.spec_ep(i) <= 12 by {
        assert(s.edge_perm()[i as int] == s.spec_ep(i) as int);
    }
}

/// The coordinate reached from the state sampled for `c` by the basic move
/// of index `m`.
pub open spec fn moved_coord<C: Coord>(c: nat, m: int) -> nat {
    C::spec_of(C::spec_sample(c).spec_mul(basic_state(m)))
}

/// Equal corner orientation values, with orientations at most 2, mean equal
/// orientations of the corners `i .. 7`.
proof fn lemma_co_digits(s: State, t: State, i: nat)
    requires
        i <= 7,
        forall|j: u64| j < 7 ==> #[trigger] s.spec_co(j) <= 2,
        forall|j: u64| j < 7 ==> #[trigger] t.spec_co(j) <= 2,
        co_value(s, i) == co_value(t, i),
    ensures
        forall|j: u64| i <= j < 7 ==> #[trigger] s.spec_co(j) == t.spec_co(j),
    decreases 7 - i,
{
    if i < 7 {
        lemma_co_value_bound(s, i + 1);
        lemma_co_value_bound(t, i + 1);
        assert(s.spec_co(i as u64) == t.spec_co(i as u64));
        lemma_co_digits(s, t, i + 1);
    }
}

/// States with the same orientations of the first seven corners have the
/// same corner orientation value.
proof fn lemma_co_value_same(s: State, t: State, i: nat)
    requires
        i <= 7,
        forall|j: u64| j < 7 ==> #[trigger] s.spec_co(j) == t.spec_co(j),
    ensures
        co_value(s, i) == co_value(t, i),
    decreases 7 - i,
{
    if i < 7 {
        lemma_co_value_same(s, t, i + 1);
    }
}

proof fn lemma_sum_co_same(s: State, t: State, n: nat)
    requires
        n <= 8,
        forall|j: u64| j < n ==> #[trigger] s.spec_co(j) == t.spec_co(j),
    ensures
        sum_co(s, n) == sum_co(t, n),
    decreases n,
{
    if n > 0 {
        lemma_sum_co_same(s, t, (n - 1) as nat);
    }
}

/// Two valid states with the same corner orientation coordinate have the
/// same orientation at every corner.
proof fn lemma_co_determines(s: State, t: State)
    requires
        s.spec_valid(),
        t.spec_valid(),
        co_value(s, 0) == co_value(t, 0),
    ensures
        forall|j: u64| j < 8 ==> #[trigger] s.spec_co(j) == t.spec_co(j),
{
    lemma_co_digits(s, t, 0);
    lemma_sum_co_same(s, t, 7);
    assert(s.spec_co(7) <= 2 && t.spec_co(7) <= 2);
    assert(sum_co(s, 8) == sum_co(s, 7) + s.spec_co(7));
    assert(sum_co(t, 8) == sum_co(t, 7) + t.spec_co(7));
    assert(s.spec_co(7) == t.spec_co(7));
}

/// The corner orientation move table agrees with every valid state, not
/// only with the sampled ones: the corner orientation coordinate of a valid
/// state after a basic move is the entry of its coordinate and that move.
pub proof fn lemma_co_moves_agree(s: State, m: int)
    requires
        s.spec_valid(),
        0 <= m < 18,
    ensures
        CO::spec_of(s) < CO::spec_num_raw(),
        moved_coord::<CO>(CO::spec_of(s), m) == CO::spec_of(s.spec_mul(basic_state(m))),
{
    let c = co_value(s, 0);
    lemma_co_value_bound(s, 0);
    assert(pow3(7) == 2187) by {
        reveal_with_fuel(pow3, 8);
    }
    let t = co_sample(c as nat);
    lemma_co_sample_valid(c as nat);
    lemma_co_roundtrip(c as nat);
    lemma_co_determines(s, t);
    let b = basic_state(m);
    lemma_mul_pieces(s, b);
    lemma_mul_pieces(t, b);
    assert forall|j: u64| j < 7 implies #[trigger] s.spec_mul(b).spec_co(j) == t.spec_mul(b).spec_co(j) by {
        lemma_field_parts(b.corners, j);
        assert(b.spec_cp(j) < 8);
    }
    lemma_co_value_same(s.spec_mul(b), t.spec_mul(b), 0);
}

/// Bit `j` of `x` with the bit `b` put above its `k` low bits.
proof fn lemma_bit_digit(x: u16, b: u16, k: u16, j: u16)
    by (bit_vector)
    requires
        k < 11,
        j <= k,
        b < 2,
    ensures
        x < (1u16 << k) ==> ((x | ((b << k) as u16)) >> j) & 1u16 == (if j == k {
            b
        } else {
            (x >> j) & 1u16
        }),
        (1u16 << 11u16) == 2048u16,
{
}

/// Bit `j` of the edge orientation bits is the orientation of edge `j`.
proof fn lemma_eo_bits_digit(s: State, n: nat, j: nat)
    requires
        j < n <= 11,
    ensures
        eo_digit(eo_bits(s, n), j) == s.spec_eo(j as u64),
    decreases n,
{
    let k = (n - 1) as nat;
    lemma_eo_bits_bound(s, k);
    lemma_field_parts(s.edges, k as u64);
    let b = s.spec_eo(k as u64) as u16;
    assert(b < 2);
    lemma_bit_digit(eo_bits(s, k), b, k as u16, j as u16);
    if j < k {
        lemma_eo_bits_digit(s, k, j);
    }
}

proof fn lemma_eo_bits_same(s: State, t: State, n: nat)
    requires
        n <= 11,
        forall|j: u64| j < n ==> #[trigger] s.spec_eo(j) == t.spec_eo(j),
    ensures
        eo_bits(s, n) == eo_bits(t, n),
    decreases n,
{
    if n > 0 {
        lemma_eo_bits_same(s, t, (n - 1) as nat);
    }
}

proof fn lemma_sum_eo_same(s: State, t: State, n: nat)
    requires
        n <= 12,
        forall|j: u64| j < n ==> #[trigger] s.spec_eo(j) == t.spec_eo(j),
    ensures
        sum_eo(s, n) == sum_eo(t, n),
    decreases n,
{
    if n > 0 {
        lemma_sum_eo_same(s, t, (n - 1) as nat);
    }
}

/// The edge orientation move table agrees with every valid state, not only
/// with the sampled ones: the edge orientation coordinate of a valid state
/// after a basic move is the entry of its coordinate and that move.
pub proof fn lemma_eo_moves_agree(s: State, m: int)
    requires
        s.spec_valid(),
        0 <= m < 18,
    ensures
        EO::spec_of(s) < EO::spec_num_raw(),
        moved_coord::<EO>(EO::spec_of(s), m) == EO::spec_of(s.spec_mul(basic_state(m))),
{
    let c = eo_bits(s, 11);
    lemma_eo_bits_bound(s, 11);
    lemma_bit_digit(0, 0, 0, 0);
    let t = eo_sample(c);
    lemma_eo_sample_valid(c);
    lemma_eo_roundtrip(c);
    assert forall|j: u64| j < 11 implies #[trigger] s.spec_eo(j) == t.spec_eo(j) by {
        lemma_eo_bits_digit(s, 11, j as nat);
        lemma_eo_bits_digit(t, 11, j as nat);
    }
    lemma_sum_eo_same(s, t, 11);
    lemma_field_parts(s.edges, 11);
    lemma_field_parts(t.edges, 11);
    assert(sum_eo(s, 12) == sum_eo(s, 11) + s.spec_eo(11));
    assert(sum_eo(t, 12) == sum_eo(t, 11) + t.spec_eo(11));
    assert(s.spec_eo(11) == t.spec_eo(11));
    let b = basic_state(m);
    lemma_basic_tidy(m);
    lemma_mul_pieces(s, b);
    lemma_mul_pieces(t, b);
    assert forall|j: u64| j < 11 implies #[trigger] s.spec_mul(b).spec_eo(j) == t.spec_mul(b).spec_eo(j) by {
        assert(b.spec_ep(j) < 12);
    }
    lemma_eo_bits_same(s.spec_mul(b), t.spec_mul(b), 11);
}

/// The coordinate of the conjugate, by the symmetry of index `k`, of the
/// state sampled for `c`.
pub open spec fn sym_coord<C: Coord>(c: nat, k: nat) -> nat {
    C::spec_of(conjugate(k, C::spec_sample(c)))
}

/// For each value of a raw coordinate and each of the 18 basic moves, the
/// coordinate that the move leads to.
pub struct RawCoordMoveTable<C: Coord> {
    move_table: Vec<u16>,
    coord: std::marker::PhantomData<C>,
}

impl<C: Coord> RawCoordMoveTable<C> {
    /// The entries of the table, row by row.
    pub closed spec fn entries(&self) -> Seq<u16> {
        self.move_table@
    }

    /// Entry `18 * c + m` is the coordinate reached from the state sampled
    /// for `c` by the basic move `m`.
    pub open spec fn wf(&self) -> bool {
        &&& self.entries().len() == 18 * C::spec_num_raw()
        &&& forall|c: int, m: int|
            0 <= c < C::spec_num_raw() && 0 <= m < 18 ==> #[trigger] self.entries()[18 * c + m]
                == moved_coord::<C>(c as nat, m)
    }

    /// Fills the table: for each coordinate, sample a state, apply each basic
    /// move and read the coordinate again.
    pub fn build() -> (r: Self)
        ensures
            r.wf(),
    {
        let n = C::num_raw();
        let moves = State::BASIC_MOVES();
        let mut move_table: Vec<u16> = Vec::new();
        let mut c: u16 = 0;
        while c < n
            invariant
                n == C::spec_num_raw(),
                forall|i: int| 0 <= i < 18 ==> #[trigger] moves[i] == basic_state(i),
                c <= n,
                move_table@.len() == 18 * c,
                forall|d: int, m: int|
                    0 <= d < c && 0 <= m < 18 ==> #[trigger] move_table@[18 * d + m]
                        == moved_coord::<C>(d as nat, m),
            decreases n - c,
        {
            let s = C::raw_sample(c);
            let mut i: usize = 0;
            while i < 18
                invariant
                    n == C::spec_num_raw(),
                    forall|i: int| 0 <= i < 18 ==> #[trigger] moves[i] == basic_state(i),
                    c < n,
                    s == C::spec_sample(c as nat),
                    i <= 18,
                    move_table@.len() == 18 * c + i,
                    forall|d: int, m: int|
                        0 <= d < c && 0 <= m < 18 ==> #[trigger] move_table@[18 * d + m]
                            == moved_coord::<C>(d as nat, m),
                    forall|m: int|
                        0 <= m < i ==> #[trigger] move_table@[18 * c + m] == moved_coord::<C>(
                            c as nat,
                            m,
                        ),
                decreases 18 - i,
            {
                proof {
                    lemma_basic_tidy(i as int);
                }
                let next = s * moves[i];
                let new_coord = C::raw_of_state(&next);
                move_table.push(new_coord);
                i += 1;
            }
            assert forall|d: int, m: int|
                0 <= d < c + 1 && 0 <= m < 18 implies #[trigger] move_table@[18 * d + m]
                == moved_coord::<C>(d as nat, m) by {
                if d == c {
                    assert(move_table@[18 * c + m] == moved_coord::<C>(c as nat, m));
                }
            }
            c += 1;
        }
        Self { move_table, coord: std::marker::PhantomData }
    }

    /// The entries of the table, row by row.
    pub fn table(&self) -> (r: &Vec<u16>)
        ensures
            r@ == self.entries(),
    {
        &self.move_table
    }

    /// The table as bytes: its entries one after the other, each in the byte
    /// order of the machine.
    pub fn to_binary(&self) -> (r: Vec<u8>)
        ensures
            r@ == serialized16(self.entries()),
    {
        serialize_array16(self.move_table.as_slice())
    }

    /// The table that `buffer` holds, where it holds as many entries as the
    /// table has.
    pub fn from_binary(buffer: &[u8]) -> (r: Option<Self>)
        ensures
            r is Some <==> buffer@.len() / 2 == 18 * C::spec_num_raw(),
            r matches Some(t) ==> {
                &&& t.entries().len() == buffer@.len() / 2
                &&& forall|k: int|
                    0 <= k < t.entries().len() ==> #[trigger] t.entries()[k] == from_native_bytes16(
                        buffer@.subrange(2 * k, 2 * k + 2),
                    )
            },
    {
        let move_table = deserialize_array16(buffer);
        if move_table.len() == C::num_raw() as usize * 18 {
            Some(Self { move_table, coord: std::marker::PhantomData })
        } else {
            None
        }
    }

    /// Reading back the bytes of a table gives the table: there are as many
    /// entries as the table has, and each is decoded to its own value.
    pub proof fn lemma_binary_roundtrip(&self)
        requires
            self.wf(),
        ensures
            serialized16(self.entries()).len() / 2 == 18 * C::spec_num_raw(),
            forall|k: int|
                0 <= k < self.entries().len() ==> #[trigger] from_native_bytes16(
                    serialized16(self.entries()).subrange(2 * k, 2 * k + 2),
                ) == self.entries()[k],
    {
        lemma_serialize16_roundtrip(self.entries());
    }

    /// The coordinate reached from the coordinate `coord` by the basic move
    /// `mv`.
    pub fn coord_mv(&self, coord: u16, mv: u8) -> (r: u16)
        requires
            self.wf(),
            coord < C::spec_num_raw(),
            mv < 18,
        ensures
            r == moved_coord::<C>(coord as nat, mv as int),
    {
        self.move_table[18 * coord as usize + mv as usize]
    }
}

/// For each value of a raw coordinate and each symmetry, the coordinate of
/// the conjugate by that symmetry.
pub struct RawCoordSymTable<C: Coord> {
    sym_table: Vec<u16>,
    sym_size: usize,
    coord: std::marker::PhantomData<C>,
}

impl<C: Coord> RawCoordSymTable<C> {
    /// The entries of the table, row by row.
    pub closed spec fn entries(&self) -> Seq<u16> {
        self.sym_table@
    }

    /// The number of symmetries in a row.
    pub closed spec fn width(&self) -> nat {
        self.sym_size as nat
    }

    /// Entry `48 * c + k` is the coordinate of the conjugate, by the
    /// symmetry `k`, of the state sampled for `c`.
    pub open spec fn wf(&self) -> bool {
        &&& self.width() == 48
        &&& self.entries().len() == 48 * C::spec_num_raw()
        &&& forall|c: int, k: int|
            0 <= c < C::spec_num_raw() && 0 <= k < 48 ==> #[trigger] self.entries()[48 * c + k]
                == sym_coord::<C>(c as nat, k as nat)
    }

    /// Fills the table: for each coordinate, sample a state, conjugate it by
    /// each symmetry and read the coordinate again.
    pub fn build(sym: &Symmetries) -> (r: Self)
        requires
            sym.wf(),
        ensures
            r.wf(),
    {
        let n = C::num_raw();
        let mut sym_table: Vec<u16> = Vec::new();
        let mut c: u16 = 0;
        while c < n
            invariant
                sym.wf(),
                n == C::spec_num_raw(),
                c <= n,
                sym_table@.len() == 48 * c,
                forall|d: int, k: int|
                    0 <= d < c && 0 <= k < 48 ==> #[trigger] sym_table@[48 * d + k]
                        == sym_coord::<C>(d as nat, k as nat),
            decreases n - c,
        {
            let s = C::raw_sample(c);
            proof {
                lemma_valid_addressable(s);
            }
            let mut i: u8 = 0;
            while i < 48
                invariant
                    sym.wf(),
                    n == C::spec_num_raw(),
                    c < n,
                    s == C::spec_sample(c as nat),
                    s.edges_addressable(),
                    i <= 48,
                    sym_table@.len() == 48 * c + i,
                    forall|d: int, k: int|
                        0 <= d < c && 0 <= k < 48 ==> #[trigger] sym_table@[48 * d + k]
                            == sym_coord::<C>(d as nat, k as nat),
                    forall|k: int|
                        0 <= k < i ==> #[trigger] sym_table@[48 * c + k] == sym_coord::<C>(
                            c as nat,
                            k as nat,
                        ),
                decreases 48 - i,
            {
                let t = sym.conj(s, i);
                let new_coord = C::raw_of_state(&t);
                sym_table.push(new_coord);
                i += 1;
            }
            assert forall|d: int, k: int|
                0 <= d < c + 1 && 0 <= k < 48 implies #[trigger] sym_table@[48 * d + k]
                == sym_coord::<C>(d as nat, k as nat) by {
                if d == c {
                    assert(sym_table@[48 * c + k] == sym_coord::<C>(c as nat, k as nat));
                }
            }
            c += 1;
        }
        Self { sym_table, sym_size: 48, coord: std::marker::PhantomData }
    }

    /// The table as bytes: its entries one after the other, each in the byte
    /// order of the machine.
    pub fn to_binary(&self) -> (r: Vec<u8>)
        ensures
            r@ == serialized16(self.entries()),
    {
        serialize_array16(self.sym_table.as_slice())
    }

    /// The table that `buffer` holds; the number of symmetries in a row is
    /// the number of entries over the number of values of the coordinate.
    pub fn from_binary(buffer: &[u8]) -> (r: Self)
        requires
            C::spec_num_raw() >= 1,
        ensures
            r.entries().len() == buffer@.len() / 2,
            r.width() == (buffer@.len() / 2) / C::spec_num_raw(),
            forall|k: int|
                0 <= k < r.entries().len() ==> #[trigger] r.entries()[k] == from_native_bytes16(
                    buffer@.subrange(2 * k, 2 * k + 2),
                ),
    {
        let sym_table = deserialize_array16(buffer);
        let sym_size = sym_table.len() / C::num_raw() as usize;
        Self { sym_table, sym_size, coord: std::marker::PhantomData }
    }

    /// The coordinate of the conjugate, by the symmetry `s`, of a state of
    /// coordinate `coord`, as sampled.
    pub fn coord_sym(&self, coord: u16, s: u8) -> (r: u16)
        requires
            self.wf(),
            coord < C::spec_num_raw(),
            s < 48,
        ensures
            r == sym_coord::<C>(coord as nat, s as nat),
    {
        let idx = coord as usize * self.sym_size + s as usize;
        assert(idx == 48 * coord + s);
        self.sym_table[idx]
    }
}

} // verus!
