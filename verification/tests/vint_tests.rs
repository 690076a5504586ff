use webm_ebml::bits::{fill_bits, find_width, make_number_from_bits};
use webm_ebml::vint::{make_master_vint, make_vint, read_size, read_tag, read_v_int};

#[test]
fn read_tag_one_byte() {
    assert_eq!(read_tag(&vec![0x81], 0), (1, 1));
}

#[test]
fn read_tag_simple_block_id() {
    assert_eq!(read_tag(&vec![0xA3, 0x00], 0), (35, 1));
}

#[test]
fn read_tag_four_bytes() {
    assert_eq!(read_tag(&vec![0x1A, 0x45, 0xDF, 0xA3], 0), (172351395, 4));
}

#[test]
fn read_v_int_at_offset() {
    assert_eq!(read_v_int(&vec![0xFF, 0x40, 0x02], 1, false), (2, 3));
}

#[test]
fn read_size_unknown_form_is_zero() {
    let unknown = vec![1, 255, 255, 255, 255, 255, 255, 255];
    assert_eq!(read_size(&unknown, 0), (0, 8));
    assert_eq!(read_tag(&unknown, 0), ((1u64 << 56) - 1, 8));
}

#[test]
fn read_size_eight_byte_form() {
    assert_eq!(read_size(&vec![1, 0, 0, 0, 0, 0, 0, 4], 0), (4, 8));
}

#[test]
fn read_v_int_zero_first_byte() {
    let bytes = vec![0, 0, 0, 0, 0, 0, 0, 1, 2];
    assert_eq!(read_tag(&bytes, 0), (258, 9));
}

#[test]
fn make_vint_small() {
    assert_eq!(make_vint(1), vec![0x81]);
    assert_eq!(make_vint(127), vec![0xFF]);
}

#[test]
fn make_vint_zero_is_unknown_size() {
    assert_eq!(make_vint(0), vec![1, 255, 255, 255, 255, 255, 255, 255]);
}

#[test]
fn make_vint_two_bytes() {
    assert_eq!(make_vint(200), vec![0x40, 0xC8]);
    assert_eq!(make_vint(646), vec![0x42, 0x86]);
}

#[test]
fn make_vint_drops_inner_zero_bytes() {
    assert_eq!(make_vint(256), vec![0x81]);
}

#[test]
fn make_vint_element_ids() {
    assert_eq!(make_vint(172351395), vec![0x1A, 0x45, 0xDF, 0xA3]);
    assert_eq!(make_vint(139690087), vec![0x18, 0x53, 0x80, 0x67]);
}

#[test]
fn make_vint_roundtrip() {
    for n in [1usize, 5, 127, 128, 200, 646, 16383, 172351395, 256095861] {
        let bytes = make_vint(n);
        assert_eq!(read_tag(&bytes, 0), (n as u64, bytes.len()));
    }
}

#[test]
fn make_vint_roundtrip_reads_the_nonzero_bytes() {
    let bytes = make_vint(16384);
    assert_eq!(read_tag(&bytes, 0), (0x40, bytes.len()));
}

#[test]
fn make_master_vint_forms() {
    assert_eq!(make_master_vint(0), vec![1, 255, 255, 255, 255, 255, 255, 255]);
    assert_eq!(make_master_vint(5), vec![1, 0, 0, 0, 0, 0, 0, 5]);
    assert_eq!(make_master_vint(300), vec![2, 0, 0, 0, 0, 0, 1, 44]);
}

#[test]
fn make_master_vint_roundtrip_below_256() {
    for n in [0usize, 1, 4, 200, 255] {
        assert_eq!(read_size(&make_master_vint(n), 0), (n as u64, 8));
    }
}

#[test]
fn fill_bits_pads() {
    assert_eq!(fill_bits("101".to_string()), vec![0, 0, 0, 0, 0, 1, 0, 1]);
    assert_eq!(fill_bits("11111111".to_string()), vec![1; 8]);
    assert_eq!(fill_bits(String::new()), vec![0; 8]);
}

#[test]
fn find_width_counts_leading() {
    assert_eq!(find_width(&vec![0, 0, 1, 1, 0]), (2, vec![1, 0]));
    assert_eq!(find_width(&vec![0, 0, 0]), (3, vec![]));
    assert_eq!(find_width(&vec![1]), (0, vec![]));
}

#[test]
fn make_number_from_bits_values() {
    assert_eq!(make_number_from_bits(vec![1, 0, 1]), 5);
    assert_eq!(make_number_from_bits(vec![0]), 0);
    assert_eq!(make_number_from_bits(vec![1; 64]), u64::MAX);
}
