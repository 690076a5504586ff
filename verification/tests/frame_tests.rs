use webm_ebml::frame::{
    bytes_array_to_bits_array, extract_part, fill_bits, init_bool_decoder, read_bool,
    BoolDecoder,
};

#[test]
fn init_bool_decoder_at_zero() {
    let d = init_bool_decoder(0);
    assert_eq!((d.value, d.input, d.range, d.bit_count), (1, 2, 255, 0));
}

#[test]
fn init_bool_decoder_at_300() {
    let d = init_bool_decoder(300);
    assert_eq!(d.value, (300 << 8) | 301);
    assert_eq!(d.input, 302u32 as u8);
}

#[test]
fn read_bool_zero_branch() {
    let mut d = BoolDecoder { input: 2, range: 255, value: 1, bit_count: 0 };
    assert_eq!(read_bool(&mut d, 128), 0);
    assert_eq!((d.range, d.value, d.bit_count), (128, 1, 0));
}

#[test]
fn read_bool_one_branch_normalizes() {
    let mut d = BoolDecoder { input: 2, range: 255, value: 40000, bit_count: 0 };
    assert_eq!(read_bool(&mut d, 128), 1);
    assert_eq!((d.range, d.value, d.bit_count), (254, 14464, 0));
}

#[test]
fn read_bool_shifts_in_input() {
    let mut d = BoolDecoder { input: 3, range: 255, value: 40000, bit_count: 7 };
    assert_eq!(read_bool(&mut d, 128), 1);
    assert_eq!((d.range, d.value, d.bit_count), (254, 14467, 0));
}

#[test]
fn bits_of_bytes() {
    assert_eq!(
        bytes_array_to_bits_array(&vec![5, 255]),
        vec![0, 0, 0, 0, 0, 1, 0, 1, 1, 1, 1, 1, 1, 1, 1, 1]
    );
    assert!(bytes_array_to_bits_array(&vec![]).is_empty());
}

#[test]
fn extract_part_inclusive() {
    assert_eq!(extract_part(&vec![1, 2, 3, 4], 1, 2), vec![2, 3]);
    assert_eq!(extract_part(&vec![1, 2, 3, 4], 3, 3), vec![4]);
    assert!(extract_part(&vec![1, 2, 3, 4], 3, 1).is_empty());
}

#[test]
fn frame_fill_bits() {
    assert_eq!(fill_bits("1".to_string()), vec![0, 0, 0, 0, 0, 0, 0, 1]);
}

#[test]
fn read_bool_keeps_decoder_state() {
    let starts = [
        init_bool_decoder(7),
        BoolDecoder { input: 255, range: 130, value: 130 * 256 - 1, bit_count: 7 },
        BoolDecoder { input: 77, range: 255, value: 0, bit_count: 6 },
    ];
    for start in starts {
        let mut d = start;
        for prob in [1u8, 128, 255, 0, 200, 17, 90, 254, 3, 128, 1, 1, 255] {
            let before = d;
            let bit = read_bool(&mut d, prob);
            assert!(bit <= 1);
            assert!(128 <= d.range && d.range <= 255, "{:?} -> {:?}", before, d);
            assert!(d.value < d.range << 8, "{:?} -> {:?}", before, d);
            assert!(d.bit_count <= 7, "{:?} -> {:?}", before, d);
        }
    }
}
