use webm_ebml::ebml::ElementValue;
use webm_ebml::numbers::{parse_i64, parse_u64};

#[test]
fn parse_u64_widens() {
    assert_eq!(parse_u64(&vec![1, 0]), 256);
    assert_eq!(parse_u64(&vec![]), 0);
    assert_eq!(parse_u64(&vec![255; 8]), u64::MAX);
}

#[test]
fn parse_i64_twos_complement() {
    assert_eq!(parse_i64(&vec![255; 8]), -1);
    assert_eq!(parse_i64(&vec![0xFF]), 255);
    assert_eq!(parse_i64(&vec![0x80, 0, 0, 0, 0, 0, 0, 0]), i64::MIN);
}

#[test]
fn vint_of_u64() {
    assert_eq!(ElementValue::U64(1).vint(), vec![0x81, 1]);
    assert_eq!(ElementValue::U64(256).vint(), vec![0x82, 1, 0]);
    assert_eq!(ElementValue::U64(0).vint(), vec![0x88, 0, 0, 0, 0, 0, 0, 0, 0]);
}

#[test]
fn vint_of_i64() {
    assert_eq!(ElementValue::I64(5).vint(), vec![0x81, 5]);
    assert_eq!(ElementValue::I64(-1).vint(), vec![0x88, 255, 255, 255, 255, 255, 255, 255, 255]);
}

#[test]
fn vint_of_f64_bits() {
    let one = 1.0f64.to_bits();
    assert_eq!(ElementValue::F64(one).vint(), vec![0x88, 0x3F, 0xF0, 0, 0, 0, 0, 0, 0]);
    let neg = (-2.0f64).to_bits();
    assert_eq!(ElementValue::F64(neg).vint(), vec![0x88, 0xC0, 0, 0, 0, 0, 0, 0, 0]);
}

#[test]
fn vint_of_string_and_binary() {
    assert_eq!(
        ElementValue::String("OPUS".to_string()).vint(),
        vec![0x84, b'O', b'P', b'U', b'S']
    );
    assert_eq!(ElementValue::Binary(vec![1, 2, 3, 4]).vint(), vec![0x84, 1, 2, 3, 4]);
    assert_eq!(
        ElementValue::Binary(vec![]).vint(),
        vec![1, 255, 255, 255, 255, 255, 255, 255]
    );
}

#[test]
fn vint_of_null_and_binary_rep() {
    assert_eq!(ElementValue::Null.vint(), vec![1, 255, 255, 255, 255, 255, 255]);
    assert_eq!(ElementValue::BinaryRep(9).vint(), Vec::<u8>::new());
}

#[test]
fn value_getters() {
    assert_eq!(ElementValue::Binary(vec![7, 8]).binary(), vec![7, 8]);
    assert_eq!(ElementValue::U64(3).binary(), Vec::<u8>::new());
    assert_eq!(ElementValue::U64(3).u64(), 3);
    assert_eq!(ElementValue::I64(3).u64(), 0);
    assert_eq!(ElementValue::I64(-3).i64(), -3);
    assert_eq!(ElementValue::Null.i64(), 0);
    assert_eq!(ElementValue::F64(2.5f64.to_bits()).f64_bits(), 2.5f64.to_bits());
    assert_eq!(ElementValue::Null.f64_bits(), 0);
    assert_eq!(ElementValue::String("a".to_string()).string(), "a".to_string());
    assert_eq!(ElementValue::Null.string(), String::new());
}

#[test]
fn value_roundtrip_through_bytes() {
    let bytes = ElementValue::U64(123456).vint();
    let (n, start) = webm_ebml::vint::read_size(&bytes, 0);
    assert_eq!(parse_u64(&bytes[start..start + n as usize].to_vec()), 123456);
    let bytes = ElementValue::I64(-42).vint();
    let (n, start) = webm_ebml::vint::read_size(&bytes, 0);
    assert_eq!(parse_i64(&bytes[start..start + n as usize].to_vec()), -42);
}
