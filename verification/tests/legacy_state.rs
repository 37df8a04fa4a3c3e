use std::collections::HashSet;
use std::hash::Hash;

use rubik_lib::model::moves::Move as ModelMove;
use rubik_lib::moves::{Direction, Face, Move};
use rubik_lib::state::State;

fn assert_distinct<T: Eq + Hash>(iter: impl Iterator<Item = T>) {
    let mut elems = HashSet::new();
    for elem in iter {
        if !elems.insert(elem) {
            panic!("elements are not distinct");
        }
    }
}

#[test]
fn state_double_double_rotation_cancel() {
    for mv in [Move::L2(), Move::R2(), Move::D2(), Move::U2(), Move::B2(), Move::F2()] {
        assert_eq!(State::SOLVED().mv(mv).mv(mv), State::SOLVED());
    }
}

#[test]
fn state_all_moves_are_distinct() {
    assert_distinct(Move::BASIC_MOVES().iter().map(|&mv| State::SOLVED().mv(mv).corners));
    assert_distinct(Move::BASIC_MOVES().iter().map(|&mv| State::SOLVED().mv(mv).edges));
}

#[test]
fn inverse_move_cancels() {
    for mv in Move::BASIC_MOVES() {
        assert_eq!(State::SOLVED().mv(mv).mv(mv.inverse()), State::SOLVED());
    }
}

#[test]
fn state_two_quarters_equal_half_turn() {
    for face in Face::ALL_FACES {
        let q = Move { face, dir: Direction::Clockwise };
        let qi = q.inverse();
        let h = Move { face, dir: Direction::HalfTurn };
        assert_eq!(State::SOLVED().mv(q).mv(q), State::SOLVED().mv(h));
        assert_eq!(State::SOLVED().mv(qi).mv(qi), State::SOLVED().mv(h));
    }
}

#[test]
fn state_four_quarters_cancel() {
    for face in Face::ALL_FACES {
        let q = Move { face, dir: Direction::Clockwise };
        let qi = q.inverse();
        assert_eq!(State::SOLVED().mv(q).mv(q).mv(q).mv(q), State::SOLVED());
        assert_eq!(State::SOLVED().mv(qi).mv(qi).mv(qi).mv(qi), State::SOLVED());
    }
}

#[test]
fn state_composition() {
    let basic_moves = Move::BASIC_MOVES();
    let basic_states = basic_moves.map(|m| State::SOLVED().mv(m));
    for i in 0..18 {
        for j in 0..18 {
            let state1 = State::SOLVED().mv(basic_moves[i]).mv(basic_moves[j]);
            let state2 = basic_states[i].compose(&basic_states[j]);
            assert_eq!(state1, state2);
        }
    }
}

#[test]
fn state_state_inversion() {
    let basic_moves = Move::BASIC_MOVES();
    for i in 0..18 {
        for j in 0..18 {
            let state = State::SOLVED().mv(basic_moves[i]).mv(basic_moves[j]);
            let inv = state.invert();
            assert_eq!(state.compose(&inv), State::SOLVED());
            assert_eq!(inv.compose(&state), State::SOLVED());
        }
    }
}

#[test]
fn get_block_and_permute() {
    assert_eq!(State::get_block(0b_11010_00000, 5, 5), 0b11010);
    assert_eq!(State::permute(0b_00010_00001, [1, 0], false), 0b_00001_00010);
    assert_eq!(State::permute(0b_00011_00010_00001, [1, 2, 0], true), 0b_00001_00011_00010);
}

#[test]
fn moves_module_reexports() {
    let m: ModelMove = Move::L();
    assert_eq!(m.inverse(), Move::L_());
    assert_eq!(Face::Front.axis_and_sign().1, true);
    assert_eq!(Face::Down.axis_and_sign().1, false);
    assert_eq!(Direction::Clockwise.inverse(), Direction::CounterClockwise);
}

#[test]
fn legacy_state_text_of_the_solved_cube() {
    assert_eq!(
        State::SOLVED().to_string(),
        "\ncorners:\n- permutation: 0 1 2 3 4 5 6 7\n- orientation: 0 0 0 0 0 0 0 0\nedges:\n\
         - permutation: 00 01 02 03 04 05 06 07 08 09 10 11\n\
         - orientation:  0  0  0  0  0  0  0  0  0  0  0  0\n"
    );
    let turned = State::SOLVED().mv(Move::F());
    let text = turned.to_string();
    assert!(text.starts_with("\ncorners:\n- permutation:"));
    assert_ne!(text, State::SOLVED().to_string());
}
