use std::collections::HashSet;

use rubik_lib::algo::moves::Moves;
use rubik_lib::cube_core::moves::Move;
use rubik_lib::cube_core::state::State;

#[test]
fn unique_moves_to_depth_5() {
    let mut states = HashSet::new();
    let mut iter = Moves::to_depth(5);
    while let Some((_, s)) = iter.next() {
        states.insert(s);
    }
    assert_eq!(states.len(), 621649);
}

#[test]
fn moves_from_moves() {
    let moves_orig = [Move::F(), Move::B_(), Move::L()];
    let moves = Moves::from_moves(&moves_orig);
    assert_eq!(&moves_orig[..], &moves.moves().to_vec()[..]);
}

#[test]
fn moves_inv_moves() {
    let moves = Moves::from_moves(&[Move::F(), Move::B_(), Move::L()]);
    let mut state = State::ID();
    for &mv in moves.moves().to_vec().iter() {
        state = state * mv;
    }
    let mut inv_state = State::ID();
    for &mv in moves.inv_moves().to_vec().iter() {
        inv_state = inv_state * mv;
    }
    assert_eq!(state.inv(), inv_state);
}

#[test]
fn encoding_of_moves() {
    let m = Moves::from_encoding(19 * 3 + 5);
    assert_eq!(&m.moves().to_vec()[..], &[Move::L2(), Move::R_()][..]);
    assert_eq!(&Moves::from_move(Move::F2()).moves().to_vec()[..], &[Move::F2()][..]);
    let appended = Moves::from_move(Move::U()).append(Move::D());
    assert_eq!(&appended.moves().to_vec()[..], &[Move::U(), Move::D()][..]);
}
