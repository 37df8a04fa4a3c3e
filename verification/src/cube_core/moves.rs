use vstd::prelude::*;
use smallvec::SmallVec;
use std::collections::VecDeque;
use crate::cube_core::state::{basic_state, lemma_basic_tidy, lemma_mul_tidy, State};

verus! {

/// A face of the cube.
#[derive(Debug, Clone, Copy, PartialEq, Eq, Hash, Structural)]
pub enum Face {
    Left,
    Right,
    Down,
    Up,
    Back,
    Front,
}

/// An axis of the cube.
#[derive(Debug, PartialEq, Eq, Structural)]
pub enum Axis {
    X,
    Y,
    Z,
}

impl Axis {
    pub open spec fn spec_index(&self) -> u8 {
        match self {
            Axis::X => 0,
            Axis::Y => 1,
            Axis::Z => 2,
        }
    }

    /// Returns the negative and positive faces along the axis, respectively.
    pub fn faces(&self) -> (r: (Face, Face))
        ensures
            r.0.spec_index() == 2 * self.spec_index(),
            r.1.spec_index() == 2 * self.spec_index() + 1,
    {
        match self {
            Axis::X => (Face::Left, Face::Right),
            Axis::Y => (Face::Down, Face::Up),
            Axis::Z => (Face::Back, Face::Front),
        }
    }

    pub fn index(&self) -> (r: u8)
        ensures
            r == self.spec_index(),
    {
        match self {
            Axis::X => 0,
            Axis::Y => 1,
            Axis::Z => 2,
        }
    }
}

impl Face {
    pub const ALL_FACES: [Face; 6] = [
        Face::Left,
        Face::Right,
        Face::Down,
        Face::Up,
        Face::Back,
        Face::Front,
    ];

    pub open spec fn spec_index(&self) -> u8 {
        match self {
            Face::Left => 0,
            Face::Right => 1,
            Face::Down => 2,
            Face::Up => 3,
            Face::Back => 4,
            Face::Front => 5,
        }
    }

    pub open spec fn spec_axis(&self) -> Axis {
        match self {
            Face::Left => Axis::X,
            Face::Right => Axis::X,
            Face::Down => Axis::Y,
            Face::Up => Axis::Y,
            Face::Back => Axis::Z,
            Face::Front => Axis::Z,
        }
    }

    /// Returns the axis that the face is orthogonal to.
    pub fn axis(&self) -> (r: Axis)
        ensures
            r == self.spec_axis(),
            r.spec_index() == self.spec_index() / 2,
    {
        match self {
            Face::Left => Axis::X,
            Face::Right => Axis::X,
            Face::Down => Axis::Y,
            Face::Up => Axis::Y,
            Face::Back => Axis::Z,
            Face::Front => Axis::Z,
        }
    }

    pub fn index(&self) -> (r: u8)
        ensures
            r == self.spec_index(),
            r < 6,
    {
        match self {
            Face::Left => 0,
            Face::Right => 1,
            Face::Down => 2,
            Face::Up => 3,
            Face::Back => 4,
            Face::Front => 5,
        }
    }

    /// The letter that names the face.
    pub fn to_string(&self) -> (r: String)
        ensures
            r@ == face_name(*self),
    {
        let s = match self {
            Face::Left => "L",
            Face::Right => "R",
            Face::Down => "D",
            Face::Up => "U",
            Face::Back => "B",
            Face::Front => "F",
        };
        proof {
            reveal_strlit("L");
            reveal_strlit("R");
            reveal_strlit("D");
            reveal_strlit("U");
            reveal_strlit("B");
            reveal_strlit("F");
        }
        s.to_owned()
    }
}

/// The letter that names a face.
pub open spec fn face_name(f: Face) -> Seq<char> {
    match f {
        Face::Left => seq!['L'],
        Face::Right => seq!['R'],
        Face::Down => seq!['D'],
        Face::Up => seq!['U'],
        Face::Back => seq!['B'],
        Face::Front => seq!['F'],
    }
}

/// The direction of a face turn.
#[derive(Debug, Clone, Copy, PartialEq, Eq, Hash, Structural)]
pub enum Direction {
    Clockwise,
    CounterClockwise,
    HalfTurn,
}

impl Direction {
    pub open spec fn spec_index(&self) -> u8 {
        match self {
            Direction::Clockwise => 0,
            Direction::CounterClockwise => 1,
            Direction::HalfTurn => 2,
        }
    }

    pub open spec fn spec_inv(&self) -> Direction {
        match self {
            Direction::Clockwise => Direction::CounterClockwise,
            Direction::CounterClockwise => Direction::Clockwise,
            Direction::HalfTurn => Direction::HalfTurn,
        }
    }

    /// The direction that undoes this one.
    pub fn inv(&self) -> (r: Self)
        ensures
            r == self.spec_inv(),
    {
        match self {
            Direction::Clockwise => Direction::CounterClockwise,
            Direction::CounterClockwise => Direction::Clockwise,
            Direction::HalfTurn => Direction::HalfTurn,
        }
    }

    /// The suffix that marks this direction in move notation.
    pub fn suffix(&self) -> (r: &str)
        ensures
            r@ == suffix_name(*self),
    {
        proof {
            reveal_strlit("");
            reveal_strlit("'");
            reveal_strlit("2");
        }
        match self {
            Direction::Clockwise => "",
            Direction::CounterClockwise => "'",
            Direction::HalfTurn => "2",
        }
    }

    pub fn index(&self) -> (r: u8)
        ensures
            r == self.spec_index(),
            r < 3,
    {
        match self {
            Direction::Clockwise => 0,
            Direction::CounterClockwise => 1,
            Direction::HalfTurn => 2,
        }
    }
}

/// The suffix that marks a direction in move notation.
pub open spec fn suffix_name(d: Direction) -> Seq<char> {
    match d {
        Direction::Clockwise => seq![],
        Direction::CounterClockwise => seq!['\''],
        Direction::HalfTurn => seq!['2'],
    }
}

/// The face turn whose index is `i`.
pub open spec fn move_of_index(i: int) -> Move {
    Move {
        face: if i / 3 == 0 {
            Face::Left
        } else if i / 3 == 1 {
            Face::Right
        } else if i / 3 == 2 {
            Face::Down
        } else if i / 3 == 3 {
            Face::Up
        } else if i / 3 == 4 {
            Face::Back
        } else {
            Face::Front
        },
        dir: if i % 3 == 0 {
            Direction::Clockwise
        } else if i % 3 == 1 {
            Direction::CounterClockwise
        } else {
            Direction::HalfTurn
        },
    }
}

/// A face turn.
#[derive(Debug, Clone, Copy, PartialEq, Eq, Hash, Structural)]
pub struct Move {
    pub face: Face,
    pub dir: Direction,
}

impl Move {
    /// The eighteen face turns, in the order of their indices.
    #[allow(non_snake_case)]
    pub fn BASIC_MOVES() -> (r: [Move; 18])
        ensures
            forall|i: int| 0 <= i < 18 ==> #[trigger] r[i] == move_of_index(i),
    {
        [
            Self::L(),
            Self::L_(),
            Self::L2(),
            Self::R(),
            Self::R_(),
            Self::R2(),
            Self::D(),
            Self::D_(),
            Self::D2(),
            Self::U(),
            Self::U_(),
            Self::U2(),
            Self::B(),
            Self::B_(),
            Self::B2(),
            Self::F(),
            Self::F_(),
            Self::F2(),
        ]
    }

    pub open spec fn spec_index(&self) -> u8 {
        (self.face.spec_index() * 3 + self.dir.spec_index()) as u8
    }

    /// The move that undoes this one.
    pub fn inv(&self) -> (r: Self)
        ensures
            r.face == self.face,
            r.dir == self.dir.spec_inv(),
    {
        Self { face: self.face, dir: self.dir.inv() }
    }

    /// The position of the move in `BASIC_MOVES`.
    pub fn index(&self) -> (r: u8)
        ensures
            r == self.spec_index(),
            r < 18,
    {
        self.face.index() * 3 + self.dir.index()
    }

    /// The move in the usual notation, such as `F'` or `U2`.
    pub fn to_string(&self) -> (r: String)
        ensures
            r@ == face_name(self.face) + suffix_name(self.dir),
    {
        let f = self.face.to_string();
        let s = match self.dir {
            Direction::Clockwise => f,
            Direction::CounterClockwise => {
                let t = match self.face {
                    Face::Left => "L'",
                    Face::Right => "R'",
                    Face::Down => "D'",
                    Face::Up => "U'",
                    Face::Back => "B'",
                    Face::Front => "F'",
                };
                proof {
                    reveal_strlit("L'");
                    reveal_strlit("R'");
                    reveal_strlit("D'");
                    reveal_strlit("U'");
                    reveal_strlit("B'");
                    reveal_strlit("F'");
                }
                t.to_owned()
            },
            Direction::HalfTurn => {
                let t = match self.face {
                    Face::Left => "L2",
                    Face::Right => "R2",
                    Face::Down => "D2",
                    Face::Up => "U2",
                    Face::Back => "B2",
                    Face::Front => "F2",
                };
                proof {
                    reveal_strlit("L2");
                    reveal_strlit("R2");
                    reveal_strlit("D2");
                    reveal_strlit("U2");
                    reveal_strlit("B2");
                    reveal_strlit("F2");
                }
                t.to_owned()
            },
        };
        assert(face_name(self.face) + suffix_name(self.dir) =~= s@);
        s
    }

    #[allow(non_snake_case)]
    pub fn L() -> (r: Move)
        ensures
            r == (Move { face: Face::Left, dir: Direction::Clockwise }),
    {
        Move { face: Face::Left, dir: Direction::Clockwise }
    }

    #[allow(non_snake_case)]
    pub fn L_() -> (r: Move)
        ensures
            r == (Move { face: Face::Left, dir: Direction::CounterClockwise }),
    {
        Move { face: Face::Left, dir: Direction::CounterClockwise }
    }

    #[allow(non_snake_case)]
    pub fn L2() -> (r: Move)
        ensures
            r == (Move { face: Face::Left, dir: Direction::HalfTurn }),
    {
        Move { face: Face::Left, dir: Direction::HalfTurn }
    }

    #[allow(non_snake_case)]
    pub fn R() -> (r: Move)
        ensures
            r == (Move { face: Face::Right, dir: Direction::Clockwise }),
    {
        Move { face: Face::Right, dir: Direction::Clockwise }
    }

    #[allow(non_snake_case)]
    pub fn R_() -> (r: Move)
        ensures
            r == (Move { face: Face::Right, dir: Direction::CounterClockwise }),
    {
        Move { face: Face::Right, dir: Direction::CounterClockwise }
    }

    #[allow(non_snake_case)]
    pub fn R2() -> (r: Move)
        ensures
            r == (Move { face: Face::Right, dir: Direction::HalfTurn }),
    {
        Move { face: Face::Right, dir: Direction::HalfTurn }
    }

    #[allow(non_snake_case)]
    pub fn D() -> (r: Move)
        ensures
            r == (Move { face: Face::Down, dir: Direction::Clockwise }),
    {
        Move { face: Face::Down, dir: Direction::Clockwise }
    }

    #[allow(non_snake_case)]
    pub fn D_() -> (r: Move)
        ensures
            r == (Move { face: Face::Down, dir: Direction::CounterClockwise }),
    {
        Move { face: Face::Down, dir: Direction::CounterClockwise }
    }

    #[allow(non_snake_case)]
    pub fn D2() -> (r: Move)
        ensures
            r == (Move { face: Face::Down, dir: Direction::HalfTurn }),
    {
        Move { face: Face::Down, dir: Direction::HalfTurn }
    }

    #[allow(non_snake_case)]
    pub fn U() -> (r: Move)
        ensures
            r == (Move { face: Face::Up, dir: Direction::Clockwise }),
    {
        Move { face: Face::Up, dir: Direction::Clockwise }
    }

    #[allow(non_snake_case)]
    pub fn U_() -> (r: Move)
        ensures
            r == (Move { face: Face::Up, dir: Direction::CounterClockwise }),
    {
        Move { face: Face::Up, dir: Direction::CounterClockwise }
    }

    #[allow(non_snake_case)]
    pub fn U2() -> (r: Move)
        ensures
            r == (Move { face: Face::Up, dir: Direction::HalfTurn }),
    {
        Move { face: Face::Up, dir: Direction::HalfTurn }
    }

    #[allow(non_snake_case)]
    pub fn B() -> (r: Move)
        ensures
            r == (Move { face: Face::Back, dir: Direction::Clockwise }),
    {
        Move { face: Face::Back, dir: Direction::Clockwise }
    }

    #[allow(non_snake_case)]
    pub fn B_() -> (r: Move)
        ensures
            r == (Move { face: Face::Back, dir: Direction::CounterClockwise }),
    {
        Move { face: Face::Back, dir: Direction::CounterClockwise }
    }

    #[allow(non_snake_case)]
    pub fn B2() -> (r: Move)
        ensures
            r == (Move { face: Face::Back, dir: Direction::HalfTurn }),
    {
        Move { face: Face::Back, dir: Direction::HalfTurn }
    }

    #[allow(non_snake_case)]
    pub fn F() -> (r: Move)
        ensures
            r == (Move { face: Face::Front, dir: Direction::Clockwise }),
    {
        Move { face: Face::Front, dir: Direction::Clockwise }
    }

    #[allow(non_snake_case)]
    pub fn F_() -> (r: Move)
        ensures
            r == (Move { face: Face::Front, dir: Direction::CounterClockwise }),
    {
        Move { face: Face::Front, dir: Direction::CounterClockwise }
    }

    #[allow(non_snake_case)]
    pub fn F2() -> (r: Move)
        ensures
            r == (Move { face: Face::Front, dir: Direction::HalfTurn }),
    {
        Move { face: Face::Front, dir: Direction::HalfTurn }
    }
}


/// The code of a sequence of moves: its moves in base 19, each as its index
/// plus one, the last move in the least significant digit.
pub open spec fn encode(s: Seq<Move>) -> nat
    decreases s.len(),
{
    if s.len() == 0 {
        0
    } else {
        19 * encode(s.drop_last()) + s.last().spec_index() as nat + 1
    }
}

/// The sequence of moves whose code is `n`.
pub open spec fn decode(n: nat) -> Seq<Move>
    decreases n,
{
    if n == 0 {
        seq![]
    } else {
        decode(n / 19).push(move_of_index(n % 19 - 1))
    }
}

/// Whether every base-19 digit of `n` is a move (not zero).
pub open spec fn valid_code(n: nat) -> bool
    decreases n,
{
    n == 0 || (n % 19 != 0 && valid_code(n / 19))
}

/// `19` to the power `n`.
pub open spec fn pow19(n: nat) -> nat
    decreases n,
{
    if n == 0 {
        1
    } else {
        19 * pow19((n - 1) as nat)
    }
}

/// The state reached from the solved cube by the moves of `s`, each applied
/// on the left of the previous ones.
pub open spec fn moves_state(s: Seq<Move>) -> State
    decreases s.len(),
{
    if s.len() == 0 {
        State::spec_id()
    } else {
        basic_state(s.last().spec_index() as int).spec_mul(moves_state(s.drop_last()))
    }
}

/// Every move is the move of its own index.
pub proof fn lemma_move_index(m: Move)
    ensures
        m.spec_index() < 18,
        move_of_index(m.spec_index() as int) == m,
{
}

/// Decoding a code gives back the sequence, and codes are valid and bounded.
pub proof fn lemma_encode(s: Seq<Move>)
    ensures
        decode(encode(s)) == s,
        valid_code(encode(s)),
        encode(s) < pow19(s.len()),
    decreases s.len(),
{
    if s.len() > 0 {
        lemma_encode(s.drop_last());
        lemma_move_index(s.last());
        let n = encode(s);
        let p = encode(s.drop_last());
        assert(n / 19 == p);
        assert(n % 19 == s.last().spec_index() + 1);
        assert(s =~= s.drop_last().push(s.last()));
    }
}

/// Encoding a decoded valid code gives it back.
pub proof fn lemma_decode(n: nat)
    requires
        valid_code(n),
    ensures
        encode(decode(n)) == n,
    decreases n,
{
    if n > 0 {
        lemma_decode(n / 19);
        let d = (n % 19 - 1) as int;
        assert(move_of_index(d).spec_index() == d);
        assert(decode(n).drop_last() =~= decode(n / 19));
    }
}

/// The value of `19` to the power `30`, the most moves a code holds.
proof fn lemma_pow19_30()
    ensures
        pow19(30) == 230466617897195215045509519405933293401nat,
{
    reveal_with_fuel(pow19, 31);
}

/// `pow19` grows with its exponent.
pub proof fn lemma_pow19_mono(a: nat, b: nat)
    requires
        a <= b,
    ensures
        pow19(a) <= pow19(b),
    decreases b - a,
{
    if a < b {
        lemma_pow19_mono(a, (b - 1) as nat);
    }
}

/// A sequence of moves stored inline, as in a `SmallVec` of capacity 30.
#[verifier::external_body]
pub struct MoveList30 {
    inner: SmallVec<[Move; 30]>,
}

/// The moves that a `MoveList30` holds, in order.
pub uninterp spec fn move_list30_items(v: MoveList30) -> Seq<Move>;

/// `SmallVec::new`: an empty vector.
#[verifier::external_body]
fn move_list30_new() -> (r: MoveList30)
    ensures
        move_list30_items(r) == Seq::<Move>::empty(),
{
    MoveList30 { inner: SmallVec::new() }
}

/// `SmallVec::push`: appends `m` at the end.
#[verifier::external_body]
fn move_list30_push(v: &mut MoveList30, m: Move)
    ensures
        move_list30_items(*final(v)) == move_list30_items(*old(v)).push(m),
{
    v.inner.push(m)
}

/// `SmallVec::len`: the number of moves held.
#[verifier::external_body]
fn move_list30_len(v: &MoveList30) -> (r: usize)
    ensures
        r == move_list30_items(*v).len(),
{
    v.inner.len()
}

/// Indexing a `SmallVec`: the move at position `i`.
#[verifier::external_body]
fn move_list30_get(v: &MoveList30, i: usize) -> (r: Move)
    requires
        i < move_list30_items(*v).len(),
    ensures
        r == move_list30_items(*v)[i as int],
{
    v.inner[i]
}

impl MoveList30 {
    /// The moves held, in order, in a vector.
    pub fn to_vec(&self) -> (r: Vec<Move>)
        ensures
            r@ == move_list30_items(*self),
    {
        let n = move_list30_len(self);
        let mut r: Vec<Move> = Vec::new();
        let mut i: usize = 0;
        while i < n
            invariant
                i <= n,
                n == move_list30_items(*self).len(),
                r@ == move_list30_items(*self).subrange(0, i as int),
            decreases n - i,
        {
            r.push(move_list30_get(self, i));
            i += 1;
        }
        assert(r@ =~= move_list30_items(*self));
        r
    }
}

/// An encoded sequence of basic moves.
/// It is encoded using a power series with move indices.
/// Due to the chosen size of the encoding, the sequences can
/// be of length at most 30, which should be enough for
/// most cases.
pub struct Moves {
    encoded: u128,
}

impl View for Moves {
    type V = Seq<Move>;

    closed spec fn view(&self) -> Seq<Move> {
        decode(self.encoded as nat)
    }
}

impl Moves {
    /// Whether every digit of the code is a move, as it is for every sequence
    /// built by the methods below.
    pub closed spec fn wf(self) -> bool {
        valid_code(self.encoded as nat)
    }

    /// The code of the sequence.
    pub closed spec fn code(self) -> nat {
        self.encoded as nat
    }

    /// The code is the encoding of the sequence.
    pub proof fn lemma_code(self)
        requires
            self.wf(),
        ensures
            self.code() == encode(self@),
    {
        lemma_decode(self.encoded as nat);
    }

    /// The empty sequence.
    fn empty() -> (r: Self)
        ensures
            r@ == Seq::<Move>::empty(),
            r.code() == 0,
            r.wf(),
    {
        Self { encoded: 0 }
    }

    /// The sequence made of one move.
    pub fn from_move(mv: Move) -> (r: Self)
        ensures
            r@ == seq![mv],
            r.wf(),
    {
        proof {
            lemma_encode(seq![mv]);
            let e = Seq::<Move>::empty();
            assert(seq![mv].drop_last() =~= e);
            assert(encode(e) == 0);
            assert(seq![mv].last() == mv);
            assert(encode(seq![mv]) == mv.spec_index() + 1);
        }
        Self { encoded: mv.index() as u128 + 1 }
    }

    /// The sequence of the given moves; there can be at most 30 of them.
    pub fn from_moves(moves: &[Move]) -> (r: Self)
        requires
            moves.len() <= 30,
        ensures
            r@ == moves@,
            r.wf(),
    {
        let mut result = Self::empty();
        let mut count: usize = 0;
        while count < moves.len()
            invariant
                count <= moves.len() <= 30,
                result@ == moves@.subrange(0, count as int),
                result.wf(),
            decreases moves.len() - count,
        {
            proof {
                result.lemma_code();
                lemma_encode(result@);
                lemma_pow19_mono(count as nat, 29);
                lemma_pow19_30();
                lemma_move_index(moves@[count as int]);
            }
            result = result.append(moves[count]);
            assert(moves@.subrange(0, count + 1) =~= moves@.subrange(0, count as int).push(moves@[count as int]));
            count += 1;
        }
        assert(moves@.subrange(0, moves.len() as int) =~= moves@);
        result
    }

    /// The sequence followed by the move `mv`.
    pub fn append(&self, mv: Move) -> (r: Self)
        requires
            self.wf(),
            19 * encode(self@) + mv.spec_index() + 1 <= u128::MAX,
        ensures
            r@ == self@.push(mv),
            r.wf(),
    {
        proof {
            self.lemma_code();
            lemma_encode(self@.push(mv));
            assert(self@.push(mv).drop_last() =~= self@);
        }
        Self { encoded: 19 * self.encoded + mv.index() as u128 + 1 }
    }

    /// The moves of the sequence, in order.
    pub fn moves(&self) -> (r: MoveList30)
        requires
            self.wf(),
        ensures
            move_list30_items(r) == self@,
    {
        let mut reversed: Vec<Move> = Vec::new();
        let mut encoding = self.encoded;
        let moves = Move::BASIC_MOVES();
        while encoding > 0
            invariant
                valid_code(encoding as nat),
                decode(self.encoded as nat) == decode(encoding as nat) + reversed@.reverse(),
                forall|i: int| 0 <= i < 18 ==> #[trigger] moves[i] == move_of_index(i),
            decreases encoding,
        {
            let d = encoding % 19;
            let mv = moves[(d - 1) as usize];
            proof {
                let e = encoding as nat;
                assert(decode(e) == decode(e / 19).push(mv));
                assert(reversed@.push(mv).reverse() =~= seq![mv] + reversed@.reverse());
                assert(decode(e / 19).push(mv) + reversed@.reverse() =~= decode(e / 19) + (seq![mv] + reversed@.reverse()));
            }
            reversed.push(mv);
            encoding /= 19;
        }
        let mut result = move_list30_new();
        let mut i = reversed.len();
        while i > 0
            invariant
                i <= reversed.len(),
                move_list30_items(result) == reversed@.reverse().subrange(0, (reversed.len() - i) as int),
            decreases i,
        {
            i -= 1;
            move_list30_push(&mut result, reversed[i]);
            assert(reversed@.reverse().subrange(0, (reversed.len() - i) as int) =~= reversed@.reverse().subrange(0, (reversed.len() - i - 1) as int).push(reversed@[i as int]));
        }
        assert(decode(0) =~= Seq::<Move>::empty());
        assert(reversed@.reverse().subrange(0, reversed.len() as int) =~= reversed@.reverse());
        result
    }

    /// The inverse moves of the sequence, in reverse order: the sequence that
    /// undoes this one.
    pub fn inv_moves(&self) -> (r: MoveList30)
        requires
            self.wf(),
        ensures
            move_list30_items(r).len() == self@.len(),
            forall|i: int|
                0 <= i < self@.len() ==> #[trigger] move_list30_items(r)[i] == (Move {
                    face: self@[self@.len() - 1 - i].face,
                    dir: self@[self@.len() - 1 - i].dir.spec_inv(),
                }),
    {
        let mut result = move_list30_new();
        let mut encoding = self.encoded;
        let moves = Move::BASIC_MOVES();
        let ghost full = decode(self.encoded as nat);
        while encoding > 0
            invariant
                full == decode(self.encoded as nat),
                valid_code(encoding as nat),
                decode(encoding as nat) == full.subrange(0, decode(encoding as nat).len() as int),
                decode(encoding as nat).len() <= full.len(),
                move_list30_items(result).len() == full.len() - decode(encoding as nat).len(),
                forall|i: int|
                    0 <= i < move_list30_items(result).len() ==> #[trigger] move_list30_items(
                        result,
                    )[i] == (Move {
                        face: full[full.len() - 1 - i].face,
                        dir: full[full.len() - 1 - i].dir.spec_inv(),
                    }),
                forall|i: int| 0 <= i < 18 ==> #[trigger] moves[i] == move_of_index(i),
            decreases encoding,
        {
            let d = encoding % 19;
            let mv = moves[(d - 1) as usize];
            let ghost e = encoding as nat;
            let ghost l = decode(e).len();
            proof {
                assert(decode(e) == decode(e / 19).push(mv));
                assert(full[l - 1] == decode(e)[l - 1]);
                assert(mv == full[l - 1]);
                assert(decode(e / 19) =~= full.subrange(0, l - 1));
            }
            move_list30_push(&mut result, mv.inv());
            encoding /= 19;
        }
        assert(decode(0) =~= Seq::<Move>::empty());
        result
    }

    /// All sequences of at most `d` moves, in the order of their codes, each
    /// with the state that it reaches.
    pub fn to_depth(d: u8) -> (r: MovesIter)
        requires
            d <= 29,
        ensures
            r.spec_max() == pow19(d as nat),
            r.spec_queue().len() == 1,
            r.spec_queue()[0].0@ == Seq::<Move>::empty(),
            r.spec_queue()[0].1 == State::spec_id(),
            r.spec_queue()[0].0.wf(),
            r.wf(),
    {
        let mut max: u128 = 1;
        let mut k: u8 = 0;
        while k < d
            invariant
                k <= d <= 30,
                max == pow19(k as nat),
            decreases d - k,
        {
            proof {
                lemma_pow19_mono((k + 1) as nat, 30);
                lemma_pow19_30();
                assert(pow19((k + 1) as nat) == 19 * pow19(k as nat));
            }
            max = max * 19;
            k += 1;
        }
        let mut next: VecDeque<(Moves, State)> = VecDeque::new();
        next.push_back((Moves::empty(), State::ID()));
        proof {
            lemma_pow19_mono(d as nat, 29);
            lemma_pow19_mono(0, d as nat);
            crate::cube_core::state::lemma_id_tidy();
            assert(moves_state(Seq::<Move>::empty()) == State::spec_id());
        }
        let r = MovesIter { next, max };
        assert(r.spec_queue()[0].0@ =~= Seq::<Move>::empty());
        r
    }
}

/// The sequences of moves up to a given length, in breadth-first order, each
/// with the state that it reaches.
pub struct MovesIter {
    next: VecDeque<(Moves, State)>,
    max: u128,
}

impl MovesIter {
    /// The sequences still to be produced, in order, with their states.
    pub closed spec fn spec_queue(self) -> Seq<(Moves, State)> {
        self.next@
    }

    /// A sequence is extended when 19 times its code is below this bound.
    pub closed spec fn spec_max(self) -> nat {
        self.max as nat
    }

    /// Each queued state is the one its sequence reaches, and is tidy; codes
    /// stay small enough to be extended.
    pub open spec fn wf(self) -> bool {
        &&& 1 <= self.spec_max() <= pow19(29)
        &&& forall|i: int|
            0 <= i < self.spec_queue().len() ==> {
                &&& (#[trigger] self.spec_queue()[i]).1 == moves_state(self.spec_queue()[i].0@)
                &&& self.spec_queue()[i].1.spec_tidy()
                &&& self.spec_queue()[i].0.code() < self.spec_max() + 19
                &&& self.spec_queue()[i].0.wf()
            }
    }

    /// The next sequence and its state. When its code times 19 is below the
    /// bound, its eighteen extensions by one move, in the order of the moves,
    /// join the end of the queue.
    pub fn next(&mut self) -> (r: Option<(Moves, State)>)
        requires
            old(self).wf(),
        ensures
            final(self).wf(),
            final(self).spec_max() == old(self).spec_max(),
            old(self).spec_queue().len() == 0 ==> r is None && final(self).spec_queue() == old(
                self,
            ).spec_queue(),
            old(self).spec_queue().len() > 0 ==> {
                let m = old(self).spec_queue()[0].0;
                let n = old(self).spec_queue().len() - 1;
                &&& r == Some(old(self).spec_queue()[0])
                &&& old(self).spec_queue()[0].1 == moves_state(m@)
                &&& final(self).spec_queue().len() == n + (if 19 * m.code() < old(self).spec_max() {
                    18int
                } else {
                    0int
                })
                &&& forall|i: int|
                    0 <= i < n ==> #[trigger] final(self).spec_queue()[i] == old(self).spec_queue()[i
                        + 1]
                &&& 19 * m.code() < old(self).spec_max() ==> forall|k: int|
                    0 <= k < 18 ==> (#[trigger] final(self).spec_queue()[n + k]).0@ == m@.push(
                        move_of_index(k),
                    )
            },
    {
        let ghost q0 = self.next@;
        let ghost max0 = self.max;
        match self.next.pop_front() {
            None => None,
            Some((moves, state)) => {
                assert(q0[0] == (moves, state));
                proof {
                    moves.lemma_code();
                    lemma_pow19_30();
                    lemma_pow19_mono(29, 30);
                }
                if 19 * moves.encoded < self.max {
                    let basic = Move::BASIC_MOVES();
                    let ghost n0 = self.next@.len();
                    let mut i: usize = 0;
                    while i < 18
                        invariant
                            i <= 18,
                            n0 == q0.len() - 1,
                            self.next@.len() == n0 + i,
                            self.max == max0,
                            1 <= self.max <= pow19(29),
                            pow19(29) * 19 == pow19(30),
                            pow19(30) == 230466617897195215045509519405933293401nat,
                            19 * moves.code() < self.max,
                            moves.code() == encode(moves@),
                            moves.wf(),
                            state == moves_state(moves@),
                            state.spec_tidy(),
                            forall|j: int| 0 <= j < 18 ==> #[trigger] basic[j] == move_of_index(j),
                            forall|j: int| 0 <= j < n0 ==> #[trigger] self.next@[j] == q0[j + 1],
                            forall|k: int|
                                0 <= k < i ==> {
                                    &&& (#[trigger] self.next@[n0 + k]).0@ == moves@.push(
                                        move_of_index(k),
                                    )
                                    &&& self.next@[n0 + k].1 == moves_state(self.next@[n0 + k].0@)
                                    &&& self.next@[n0 + k].1.spec_tidy()
                                    &&& self.next@[n0 + k].0.code() < self.max + 19
                                    &&& self.next@[n0 + k].0.wf()
                                },
                        decreases 18 - i,
                    {
                        let mv = basic[i];
                        proof {
                            lemma_move_index(mv);
                            lemma_basic_tidy(mv.spec_index() as int);
                            lemma_mul_tidy(basic_state(mv.spec_index() as int), state);
                            assert(moves@.push(mv).drop_last() =~= moves@);
                        }
                        let child = moves.append(mv);
                        proof {
                            child.lemma_code();
                            lemma_encode(moves@.push(mv));
                        }
                        let child_state = mv * state;
                        self.next.push_back((child, child_state));
                        i += 1;
                    }
                }
                proof {
                    let n0 = q0.len() - 1;
                    assert forall|j: int| 0 <= j < n0 implies #[trigger] self.next@[j] == q0[j + 1] by {
                    }
                    assert forall|j: int| 0 <= j < self.next@.len() implies {
                        &&& (#[trigger] self.next@[j]).1 == moves_state(self.next@[j].0@)
                        &&& self.next@[j].1.spec_tidy()
                        &&& self.next@[j].0.code() < self.max + 19
                        &&& self.next@[j].0.wf()
                    } by {
                        if j < n0 {
                            assert(self.next@[j] == q0[j + 1]);
                        } else {
                            assert(self.next@[n0 + (j - n0)] == self.next@[j]);
                        }
                    }
                }
                Some((moves, state))
            },
        }
    }
}

} // verus!
