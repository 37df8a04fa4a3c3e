use std::collections::HashSet;

use rubik_lib::algebra::coord::perm::{coord_to_perm, perm_to_coord};
use rubik_lib::algebra::coord::{CO, CP, EO, EOLR, EP4, EP8, LR};
use rubik_lib::cube_core::moves::Move;
use rubik_lib::cube_core::state::State;

fn phase2_moves() -> [Move; 10] {
    [
        Move::L(),
        Move::L_(),
        Move::L2(),
        Move::R(),
        Move::R_(),
        Move::R2(),
        Move::D2(),
        Move::U2(),
        Move::B2(),
        Move::F2(),
    ]
}

#[test]
fn sample_repr() {
    let all = Move::BASIC_MOVES();

    let mut states = HashSet::new();
    for repr in 0..CO::NUM_RAW {
        let coord = CO::from_coord(repr);
        assert_eq!(coord.coord(), repr);
        let state = coord.sample_state();
        assert!(state.valid(), "{:?} {:?}", coord, state);
        assert_eq!(coord, CO::from_state(&state), "{:?}", state);
        states.insert(state);
        for &mv in &all {
            assert!(CO::from_state(&(mv * state)).coord() < CO::NUM_RAW);
        }
    }
    assert_eq!(states.len(), CO::NUM_RAW as usize);

    let mut states = HashSet::new();
    for repr in 0..EO::NUM_RAW {
        let coord = EO::from_coord(repr);
        assert_eq!(coord.coord(), repr);
        let state = coord.sample_state();
        assert!(state.valid(), "{:?} {:?}", coord, state);
        assert_eq!(coord, EO::from_state(&state), "{:?}", state);
        states.insert(state);
        for &mv in &all {
            assert!(EO::from_state(&(mv * state)).coord() < EO::NUM_RAW);
        }
    }
    assert_eq!(states.len(), EO::NUM_RAW as usize);

    let mut states = HashSet::new();
    for repr in 0..CP::NUM_RAW {
        let coord = CP::from_coord(repr);
        assert_eq!(coord.coord(), repr);
        let state = coord.sample_state();
        assert!(state.valid(), "{:?} {:?}", coord, state);
        assert_eq!(coord, CP::from_state(&state), "{:?}", state);
        states.insert(state);
        for &mv in &all {
            assert!(CP::from_state(&(mv * state)).coord() < CP::NUM_RAW);
        }
    }
    assert_eq!(states.len(), CP::NUM_RAW as usize);

    let mut states = HashSet::new();
    for repr in 0..EP8::NUM_RAW {
        let coord = EP8::from_coord(repr);
        assert_eq!(coord.coord(), repr);
        let state = coord.sample_state();
        assert!(state.valid(), "{:?} {:?}", coord, state);
        assert_eq!(coord, EP8::from_state(&state), "{:?}", state);
        states.insert(state);
        for &mv in &phase2_moves() {
            assert!(EP8::from_state(&(mv * state)).coord() < EP8::NUM_RAW);
        }
    }
    assert_eq!(states.len(), EP8::NUM_RAW as usize);

    let mut states = HashSet::new();
    for repr in 0..EP4::NUM_RAW {
        let coord = EP4::from_coord(repr);
        assert_eq!(coord.coord(), repr);
        let state = coord.sample_state();
        assert!(state.valid(), "{:?} {:?}", coord, state);
        assert_eq!(coord, EP4::from_state(&state), "{:?}", state);
        states.insert(state);
        for &mv in &phase2_moves() {
            assert!(EP4::from_state(&(mv * state)).coord() < EP4::NUM_RAW);
        }
    }
    assert_eq!(states.len(), EP4::NUM_RAW as usize);

    let mut states = HashSet::new();
    for repr in 0..LR::NUM_RAW {
        let coord = LR::from_coord(repr);
        assert_eq!(coord.coord(), repr);
        let state = coord.sample_state();
        assert!(state.valid(), "{:?} {:?}", coord, state);
        assert_eq!(coord, LR::from_state(&state), "{:?}", state);
        states.insert(state);
        for &mv in &all {
            assert!(LR::from_state(&(mv * state)).coord() < LR::NUM_RAW);
        }
    }
    assert_eq!(states.len(), LR::NUM_RAW as usize);

    let mut states = HashSet::new();
    for repr in (0..EOLR::NUM_RAW).step_by(97) {
        let coord = EOLR::from_coord(repr);
        assert_eq!(coord.coord(), repr);
        let state = coord.sample_state();
        assert!(state.valid(), "{:?} {:?}", coord, state);
        assert_eq!(coord, EOLR::from_state(&state), "{:?}", state);
        states.insert(state);
        for &mv in &all {
            assert!(EOLR::from_state(&(mv * state)).coord() < EOLR::NUM_RAW);
        }
    }
    assert_eq!(states.len(), (EOLR::NUM_RAW as usize + 96) / 97);
}

#[test]
fn coords_of_solved_cube() {
    let id = State::ID();
    assert_eq!(CO::from_state(&id).coord(), 0);
    assert_eq!(EO::from_state(&id).coord(), 0);
    assert_eq!(CP::from_state(&id).coord(), 0);
    assert_eq!(EP8::from_state(&id).coord(), 0);
    assert_eq!(EP4::from_state(&id).coord(), 0);
    assert_eq!(LR::from_state(&id).coord(), 0);
    assert_eq!(EOLR::from_state(&id).coord(), 0);
}

#[test]
fn coords_of_a_turn() {
    let u = State::U();
    assert_eq!(CO::from_state(&u).coord(), 1521);
    assert_eq!(EO::from_state(&u).coord(), 0b100_0000_1010);
}

#[test]
fn permutation_codes() {
    assert_eq!(coord_to_perm::<8>(0), (0b_00111_00110_00101_00100_00011_00010_00001_00000, true));
    assert_eq!(perm_to_coord::<8>(0b_00111_00110_00101_00100_00011_00010_00001_00000, 3), 0);
    let (w, even) = coord_to_perm::<8>(1);
    assert!(!even);
    assert_eq!(w, 0b_00110_00111_00101_00100_00011_00010_00001_00000);
    assert_eq!(perm_to_coord::<8>(w, 3), 1);
    let (w, even) = coord_to_perm::<4>(23);
    assert_eq!(w & 0xfffff, 0b_00000_00001_00010_00011);
    assert!(even);
    assert_eq!(w >> 35, 0);
    assert_eq!(perm_to_coord::<4>(w, 4), 23);
    for c in 0..40320u16 {
        let (w, _) = coord_to_perm::<8>(c);
        assert_eq!(perm_to_coord::<8>(w, 3), c);
    }
}
