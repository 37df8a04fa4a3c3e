use rubik_lib::algebra::coord::{CO, CP, EO};
use rubik_lib::algebra::move_table::{RawCoordMoveTable, RawCoordSymTable};
use rubik_lib::cube_core::moves::Moves;
use rubik_lib::cube_core::state::State;
use rubik_lib::model::sym::Symmetries;

#[test]
fn raw_mv() {
    let moves = State::BASIC_MOVES();

    let co_table = RawCoordMoveTable::<CO>::build();
    let mut iter = Moves::to_depth(3);
    while let Some((_, s)) = iter.next() {
        let coord = CO::from_state(&s).coord();
        for i in 0..18u8 {
            let new_coord = co_table.coord_mv(coord, i);
            let expected = CO::from_state(&(s * moves[i as usize])).coord();
            assert_eq!(expected, new_coord);
        }
    }

    let eo_table = RawCoordMoveTable::<EO>::build();
    let mut iter = Moves::to_depth(3);
    while let Some((_, s)) = iter.next() {
        let coord = EO::from_state(&s).coord();
        for i in 0..18u8 {
            let new_coord = eo_table.coord_mv(coord, i);
            let expected = EO::from_state(&(s * moves[i as usize])).coord();
            assert_eq!(expected, new_coord);
        }
    }
}

#[test]
fn co_move_table_from_the_solved_cube() {
    let table = RawCoordMoveTable::<CO>::build();
    let moves = State::BASIC_MOVES();
    for i in 0..18u8 {
        let expected = CO::from_state(&moves[i as usize]).coord();
        assert_eq!(table.coord_mv(0, i), expected);
    }
    // The quarter turns of L and R keep the corner orientations.
    assert_eq!(table.coord_mv(0, 0), 0);
    assert_eq!(table.coord_mv(0, 3), 0);
}

#[test]
fn cp_move_table_follows_the_moves() {
    let table = RawCoordMoveTable::<CP>::build();
    let moves = State::BASIC_MOVES();
    let mut iter = Moves::to_depth(2);
    while let Some((_, s)) = iter.next() {
        let coord = CP::from_state(&s).coord();
        for i in 0..18u8 {
            let expected = CP::from_state(&(s * moves[i as usize])).coord();
            assert_eq!(table.coord_mv(coord, i), expected);
        }
    }
}

#[test]
fn co_sym_table_matches_conjugates_of_samples() {
    let sym = Symmetries::all();
    let table = RawCoordSymTable::<CO>::build(&sym);
    for c in [0u16, 1, 5, 100, 2186] {
        let s = CO::from_coord(c).sample_state();
        for k in 0..48u8 {
            let expected = CO::from_state(&sym.conj(s, k)).coord();
            assert_eq!(table.coord_sym(c, k), expected);
        }
    }
    for k in 0..48u8 {
        assert_eq!(table.coord_sym(0, k), 0);
    }
}

#[test]
fn move_table_binary_roundtrip() {
    let table = RawCoordMoveTable::<CO>::build();
    let bytes = table.to_binary();
    assert_eq!(bytes.len(), 2187 * 18 * 2);
    let back = RawCoordMoveTable::<CO>::from_binary(&bytes).unwrap();
    for c in 0..2187u16 {
        for m in 0..18u8 {
            assert_eq!(back.coord_mv(c, m), table.coord_mv(c, m));
        }
    }
    assert!(RawCoordMoveTable::<CO>::from_binary(&bytes[1..]).is_none());
    assert!(RawCoordMoveTable::<EO>::from_binary(&bytes).is_none());
}

#[test]
fn sym_table_binary_roundtrip() {
    let sym = Symmetries::all();
    let table = RawCoordSymTable::<CO>::build(&sym);
    let bytes = table.to_binary();
    assert_eq!(bytes.len(), 2187 * 48 * 2);
    let back = RawCoordSymTable::<CO>::from_binary(&bytes);
    for c in [0u16, 7, 2186] {
        for k in 0..48u8 {
            assert_eq!(back.coord_sym(c, k), table.coord_sym(c, k));
        }
    }
}
