use rubik_lib::cube_core::bits::{
    bitwise_add_mod_2, bitwise_add_mod_3, bitwise_inv_mod_3, deserialize_array, get,
    serialize_array,
};
use rubik_lib::model::bits as model_bits;

#[test]
fn add_mod_3() {
    let mut a = 0b_00000_00100_01001_01001_01110_10010;
    let b = 0b_10100_10110_01001_01110_01110_10001;
    bitwise_add_mod_3(&mut a, b);
    assert_eq!(a, 0b_00000_00110_01010_01000_01101_10000);
}

#[test]
fn inv_mod_3() {
    let mut a = 0b_00000_00100_01001_01001_01110_10010;
    bitwise_inv_mod_3(&mut a);
    assert_eq!(a, 0b_00000_00100_01010_01010_01101_10001);
}

#[test]
fn serialize() {
    let array: [u32; 8] = [1, 2, 3, 4, 5, 6, 7, 8];
    assert_eq!(&deserialize_array(&serialize_array(&array))[..], &array[..]);
}

#[test]
fn serialize_native_bytes() {
    let array: [u32; 2] = [0x01020304, 0xa0b0c0d0];
    let bytes = serialize_array(&array);
    let mut expected = Vec::new();
    expected.extend_from_slice(&0x01020304u32.to_ne_bytes());
    expected.extend_from_slice(&0xa0b0c0d0u32.to_ne_bytes());
    assert_eq!(bytes, expected);
    assert_eq!(deserialize_array(&bytes), vec![0x01020304, 0xa0b0c0d0]);
}

#[test]
fn deserialize_drops_partial_chunk() {
    let bytes = [1u8, 0, 0, 0, 9, 9];
    let array = deserialize_array(&bytes);
    assert_eq!(array.len(), 1);
    assert_eq!(array[0], u32::from_ne_bytes([1, 0, 0, 0]));
}

#[test]
fn get_extracts_bits() {
    assert_eq!(get(0b_10110_01101, 5, 5), 0b10110);
    assert_eq!(get(0b_10110_01101, 2, 3), 0b011);
    assert_eq!(get(u64::MAX, 60, 4), 0b1111);
    assert_eq!(model_bits::get(0b_11100, 2, 3), 0b111);
}

#[test]
fn add_mod_2_flips_low_bits() {
    let mut a = 0b_00011_00010_00001_00000;
    bitwise_add_mod_2(&mut a, 0b_00001_00001_11111_00000);
    assert_eq!(a, 0b_00010_00011_00000_00000);
}

#[test]
fn add_mod_3_all_pairs() {
    for x in 0..3u64 {
        for y in 0..3u64 {
            let mut a = x << 5;
            model_bits::bitwise_add_mod_3(&mut a, y << 5);
            assert_eq!(a, ((x + y) % 3) << 5);
        }
    }
}
