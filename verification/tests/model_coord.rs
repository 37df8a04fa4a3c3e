use std::collections::HashSet;

use rubik_lib::cube_core::state::State;
use rubik_lib::model::coord::{CO, EO, LR};

#[test]
fn test_sample_repr() {
    let mut states = HashSet::new();
    for repr in 0..CO::NUM_RAW {
        let coord = CO::from_coord(repr);
        assert_eq!(coord.coord(), repr);
        let state = coord.sample_state();
        assert!(state.valid(), "{:?} {:?}", coord, state);
        assert_eq!(coord, CO::from_state(&state), "{:?}", state);
        states.insert(state);
    }
    assert_eq!(states.len(), CO::NUM_RAW as usize);

    let mut states = HashSet::new();
    for repr in 0..EO::NUM_RAW {
        let coord = EO::from_coord(repr);
        assert_eq!(coord.coord(), repr);
        let state = coord.sample_state();
        assert!(state.valid(), "{:?} {:?}", coord, state);
        assert_eq!(coord, EO::from_state(&state), "{:?}", state);
        states.insert(state);
    }
    assert_eq!(states.len(), EO::NUM_RAW as usize);

    let mut states = HashSet::new();
    for repr in 0..LR::COUNT {
        let coord = LR::from_repr(repr);
        assert_eq!(coord.repr(), repr);
        let state = coord.sample_state();
        assert!(state.valid(), "{:?} {:?}", coord, state);
        assert_eq!(coord, LR::from_state(&state), "{:?}", state);
        states.insert(state);
    }
    assert_eq!(states.len(), LR::COUNT as usize);
}

#[test]
fn model_lr_of_solved_cube() {
    assert_eq!(LR::from_state(&State::ID()).repr(), 0);
    assert_eq!(LR::from_repr(0).sample_state(), State::ID());
}

#[test]
fn model_lr_last_choice() {
    let state = LR::from_repr(494).sample_state();
    for i in 0..4u8 {
        assert_eq!(state.ep(i), 8 + i);
    }
    for i in 4..12u8 {
        assert_eq!(state.ep(i), i - 4);
    }
    assert_eq!(LR::from_state(&state).repr(), 494);
}

#[test]
fn model_lr_odd_order_is_made_even() {
    // Positions 0, 1, 2 and 4 chosen: the order 0 1 2 4 3 5 .. 11 is odd,
    // so the first two are exchanged.
    let state = LR::from_repr(1).sample_state();
    let eps: Vec<u8> = (0..12u8).map(|i| state.ep(i)).collect();
    assert_eq!(eps, vec![1, 0, 2, 4, 3, 5, 6, 7, 8, 9, 10, 11]);
    assert!(state.valid());
}
