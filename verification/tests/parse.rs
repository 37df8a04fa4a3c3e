use rubik_lib::cube_core::moves::Face;
use rubik_lib::cube_core::state::State;

#[test]
fn solved_from_string() {
    let cube = "\
        UUU\
        UUU\
        UUU\
        FFFRRRBBBLLL\
        FFFRRRBBBLLL\
        FFFRRRBBBLLL\
        DDD\
        DDD\
        DDD";
    assert_eq!(State::from_string(cube), Some(State::ID()));
    let cube = "\
        111\
        111\
        111\
        222333444555\
        222333444555\
        222333444555\
        666\
        666\
        666";
    assert_eq!(State::from_string(cube), Some(State::ID()));
}

#[test]
fn face_turn_from_string() {
    let cube = "\
        BUU\
        BUU\
        BUU\
        UFFRRRBBDLLL\
        UFFRRRBBDLLL\
        UFFRRRBBDLLL\
        FDD\
        FDD\
        FDD";
    assert_eq!(State::from_string(cube), Some(State::L()));
    let cube = "\
        UUU\
        UUU\
        UUU\
        RRRBBBLLLFFF\
        FFFRRRBBBLLL\
        FFFRRRBBBLLL\
        DDD\
        DDD\
        DDD";
    assert_eq!(State::from_string(cube), Some(State::U()));
}

#[test]
fn invalid_from_string() {
    let cube = "\
        UUU\
        UUU\
        UFU\
        FUFRRRBBBLLL\
        FFFRRRBBBLLL\
        FFFRRRBBBLLL\
        DDD\
        DDD\
        DDD";
    assert_eq!(State::from_string(cube), None);
    let cube = "\
        UUU\
        UUU\
        UFU\
        FUFRRRBBBLLL\
        FUFRRRBBBLLL\
        FFFRRRBBBLLL\
        DDD\
        DDD\
        DDD";
    assert_eq!(State::from_string(cube), None);
    let cube = "\
        UUU\
        UUU\
        FUU\
        FFFRRRBBBLLL\
        FFFRRRBBBLLL\
        FFFRRRBBBLLL\
        DDD\
        DDD\
        DDD";
    assert_eq!(State::from_string(cube), None);
    let cube = "\
        UUU\
        UUU\
        UFU\
        FFFRRRBBBLLL\
        FFFRRRBBBLLL\
        FFFRRRBBBLLL\
        DDD\
        DDD\
        DDD";
    assert_eq!(State::from_string(cube), None);
}

#[test]
fn string_with_white_space() {
    let cube = "UUU UUU UUU\nFFFRRRBBBLLL\n\tFFFRRRBBBLLL FFFRRRBBBLLL\nDDD DDD DDD\n";
    assert_eq!(State::from_string(cube), Some(State::ID()));
}

#[test]
fn string_of_wrong_length_or_colors() {
    assert_eq!(State::from_string("UUU"), None);
    let cube = "UUUUUUUUUFFFRRRBBBLLLFFFRRRBBBLLLFFFRRRBBBLLLDDDDDDDDX";
    assert_eq!(State::from_string(cube), None);
    let cube = "UUUUUUUUUFFFRRRBBBLLLFFFRRRBBBLLLFFFRRRBBBLLLDDDDDDDDDD";
    assert_eq!(State::from_string(cube), None);
}

#[test]
fn stickers_of_solved_cube() {
    let mut stickers = Vec::new();
    let row = |stickers: &mut Vec<Face>, faces: &[Face]| {
        for &f in faces {
            for _ in 0..3 {
                stickers.push(f);
            }
        }
    };
    for _ in 0..3 {
        row(&mut stickers, &[Face::Up]);
    }
    for _ in 0..3 {
        row(&mut stickers, &[Face::Front, Face::Right, Face::Back, Face::Left]);
    }
    for _ in 0..3 {
        row(&mut stickers, &[Face::Down]);
    }
    assert_eq!(State::from_stickers(&stickers), Some(State::ID()));
    assert_eq!(State::from_stickers(&stickers[1..]), None);
    let chars: Vec<char> = "UUUUUUUUUFFFRRRBBBLLLFFFRRRBBBLLLFFFRRRBBBLLLDDDDDDDDD".chars().collect();
    assert_eq!(State::from_chars(&chars), Some(State::ID()));
}

#[test]
fn from_string_ignores_white_space_and_color_names() {
    let cube = "BUUBUUBUUUFFRRRBBDLLLUFFRRRBBDLLLUFFRRRBBDLLLFDDFDDFDD";
    let expected = State::from_string(cube);
    assert!(expected.is_some());
    let spaced = "B U U\nB\tU U\u{3000}BUU \u{2028}UFFRRRBBDLLL\r\nUFFRRRBBDLLL UFFRRRBBDLLL\u{85}FDD FDD FDD\u{a0}";
    assert_eq!(State::from_string(spaced), expected);
    let renamed: String = cube
        .chars()
        .map(|c| match c {
            'U' => '1',
            'F' => '2',
            'R' => '3',
            'B' => '4',
            'L' => '5',
            _ => '6',
        })
        .collect();
    assert_eq!(State::from_string(&renamed), expected);
}

#[test]
fn valid_refuses_an_edge_position_out_of_range() {
    let s = State { corners: State::ID().corners, edges: State::ID().edges | (0b1111 << 1) };
    assert!(!s.valid());
    assert!(State::ID().valid());
}
