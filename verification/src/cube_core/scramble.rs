use vstd::prelude::*;
use rand::rngs::ThreadRng;
use rand::RngExt;
use crate::cube_core::moves::{move_of_index, moves_state, Axis, Move};
use crate::cube_core::state::{basic_state, lemma_basic_tidy, lemma_id_tidy, lemma_mul_tidy, State};

verus! {

#[verifier::external_type_specification]
#[verifier::external_body]
pub struct ExThreadRng(ThreadRng);

/// Calls `rand::rng`, which hands out the random generator of the current
/// thread. Nothing is stated of it.
#[verifier::external_body]
fn thread_rng() -> (r: ThreadRng) {
    rand::rng()
}

/// Calls `RngExt::random_range` on the range `0..n`, which panics when that
/// range is empty and otherwise draws a number in it. The contract states
/// that the number lies in the range, and nothing of which one comes: that
/// depends on the generator's state.
#[verifier::external_body]
fn random_below(rng: &mut ThreadRng, n: usize) -> (r: usize)
    requires
        n > 0,
    ensures
        r < n,
{
    rng.random_range(0..n)
}

/// The eighteen face turns, in the order of their indices.
pub open spec fn basic_moves() -> Seq<Move> {
    Seq::new(18, |i: int| move_of_index(i))
}

/// Whether `mv` may follow the moves `prev` in a scramble: it turns another
/// face than the last move, and when the last two moves turn faces of one
/// axis, it turns a face of another axis.
pub open spec fn move_allowed(prev: Seq<Move>, mv: Move) -> bool {
    &&& prev.len() >= 1 ==> mv.face != prev.last().face
    &&& (prev.len() >= 2 && prev[prev.len() - 2].face.spec_axis() == prev.last().face.spec_axis())
        ==> mv.face.spec_axis() != prev.last().face.spec_axis()
}

/// The face turns that may follow `prev` in a scramble, in the order of their
/// indices.
pub open spec fn allowed_moves(prev: Seq<Move>) -> Seq<Move> {
    basic_moves().filter(|mv: Move| move_allowed(prev, mv))
}

/// Whether each move of `s` may follow the moves before it.
pub open spec fn is_scramble(s: Seq<Move>) -> bool {
    forall|i: int| 0 <= i < s.len() ==> #[trigger] move_allowed(s.take(i), s[i])
}

/// Some face turn may always follow: one of the X axis, or, after a move of
/// that axis, one of the Y axis.
proof fn lemma_allowed_nonempty(prev: Seq<Move>)
    ensures
        allowed_moves(prev).len() > 0,
{
    let k: int = if prev.len() >= 1 && prev.last().face.spec_axis() == Axis::X {
        6
    } else {
        0
    };
    let mv = basic_moves()[k];
    assert(move_allowed(prev, mv));
    basic_moves().lemma_filter_contains(|mv: Move| move_allowed(prev, mv), k);
}

/// The face turns that may come next in a scramble after `moves`: all of
/// them but those of the last move's face, and, when the last two moves turn
/// faces of one axis, but those of that axis.
pub fn possible_moves(moves: &[Move]) -> (r: Vec<Move>)
    ensures
        r@ == allowed_moves(moves@),
        r.len() > 0,
{
    let basic = Move::BASIC_MOVES();
    let n = moves.len();
    let mut r: Vec<Move> = Vec::new();
    let mut i: usize = 0;
    while i < 18
        invariant
            i <= 18,
            n == moves.len(),
            forall|j: int| 0 <= j < 18 ==> #[trigger] basic[j] == move_of_index(j),
            r@ == basic_moves().take(i as int).filter(|mv: Move| move_allowed(moves@, mv)),
        decreases 18 - i,
    {
        let mv = basic[i];
        let mut keep = true;
        if n >= 1 && mv.face == moves[n - 1].face {
            keep = false;
        }
        if n >= 2 && moves[n - 2].face.axis() == moves[n - 1].face.axis() && mv.face.axis()
            == moves[n - 1].face.axis() {
            keep = false;
        }
        proof {
            assert(keep == move_allowed(moves@, mv));
            assert(basic_moves().take(i + 1) =~= basic_moves().take(i as int).push(mv));
            basic_moves().take(i as int).lemma_filter_push(mv, |mv: Move| move_allowed(moves@, mv));
        }
        if keep {
            r.push(mv);
        }
        i += 1;
    }
    proof {
        assert(basic_moves().take(18) =~= basic_moves());
        lemma_allowed_nonempty(moves@);
    }
    r
}

/// Extends a scramble by the possible move of rank `choice` (see
/// `possible_moves`), and applies that move to `state`.
pub fn scramble_step(moves: &mut Vec<Move>, state: &mut State, choice: usize)
    requires
        choice < allowed_moves(old(moves)@).len(),
        old(state).edges_addressable(),
    ensures
        final(moves)@ == old(moves)@.push(allowed_moves(old(moves)@)[choice as int]),
        *final(state) == basic_state(
            allowed_moves(old(moves)@)[choice as int].spec_index() as int,
        ).spec_mul(*old(state)),
{
    let possible = possible_moves(moves.as_slice());
    let mv = possible[choice];
    moves.push(mv);
    *state = mv * *state;
}

/// A random scramble of `n` moves, with the state that it reaches from the
/// solved cube. No move turns the face of the move before it, and no three
/// moves in a row turn faces of one axis.
pub fn scramble(n: usize) -> (r: (Vec<Move>, State))
    ensures
        r.0.len() == n,
        is_scramble(r.0@),
        r.1 == moves_state(r.0@),
{
    let mut rng = thread_rng();
    let mut moves: Vec<Move> = Vec::new();
    let mut state = State::ID();
    let mut i: usize = 0;
    proof {
        lemma_id_tidy();
        assert(moves_state(moves@) == State::spec_id());
    }
    while i < n
        invariant
            i <= n,
            moves.len() == i,
            is_scramble(moves@),
            state == moves_state(moves@),
            state.spec_tidy(),
            state.edges_addressable(),
        decreases n - i,
    {
        let count = possible_moves(moves.as_slice()).len();
        let k = random_below(&mut rng, count);
        let ghost prev = moves@;
        let ghost prev_state = state;
        scramble_step(&mut moves, &mut state, k);
        proof {
            let mv = allowed_moves(prev)[k as int];
            basic_moves().lemma_filter_pred(|mv: Move| move_allowed(prev, mv), k as int);
            assert(basic_moves().filter(|mv: Move| move_allowed(prev, mv)).len() <= 18) by {
                basic_moves().lemma_filter_len(|mv: Move| move_allowed(prev, mv));
            }
            assert(moves@.drop_last() =~= prev);
            assert(moves@.take(i as int) =~= prev);
            assert forall|j: int| 0 <= j < moves@.len() implies #[trigger] move_allowed(
                moves@.take(j),
                moves@[j],
            ) by {
                if j < i {
                    assert(moves@.take(j) =~= prev.take(j));
                    assert(move_allowed(prev.take(j), prev[j]));
                }
            }
            lemma_basic_tidy(mv.spec_index() as int);
            lemma_mul_tidy(basic_state(mv.spec_index() as int), prev_state);
        }
        i += 1;
    }
    (moves, state)
}

} // verus!
