use apkdoctor::encoded_value_utils::{
    get_required_bytes_for_f32, get_required_bytes_for_f64, get_required_bytes_signed,
    get_required_bytes_unsigned,
};

#[test]
fn encoded_value_utils_test() {
    assert_eq!(get_required_bytes_for_f32(66048.0f32.to_bits()), 2);
}

#[test]
fn test239() {
    assert_eq!(get_required_bytes_signed(239), 2);
}

#[test]
fn test36420() {
    assert_eq!(get_required_bytes_unsigned(36420), 2);
}

#[test]
fn signed_width_edges() {
    assert_eq!(get_required_bytes_signed(0), 1);
    assert_eq!(get_required_bytes_signed(127), 1);
    assert_eq!(get_required_bytes_signed(128), 2);
    assert_eq!(get_required_bytes_signed(-128), 1);
    assert_eq!(get_required_bytes_signed(-129), 2);
    assert_eq!(get_required_bytes_signed(32767), 2);
    assert_eq!(get_required_bytes_signed(32768), 3);
    assert_eq!(get_required_bytes_signed(i64::MAX), 8);
    assert_eq!(get_required_bytes_signed(i64::MIN), 8);
    assert_eq!(get_required_bytes_signed(-1), 1);
}

#[test]
fn unsigned_width_edges() {
    assert_eq!(get_required_bytes_unsigned(0), 1);
    assert_eq!(get_required_bytes_unsigned(255), 1);
    assert_eq!(get_required_bytes_unsigned(256), 2);
    assert_eq!(get_required_bytes_unsigned(0xffff_ffff), 4);
    assert_eq!(get_required_bytes_unsigned(u64::MAX), 8);
}

#[test]
fn float_width_edges() {
    assert_eq!(get_required_bytes_for_f32(0.0f32.to_bits()), 1);
    assert_eq!(get_required_bytes_for_f32(1.0f32.to_bits()), 2);
    assert_eq!(get_required_bytes_for_f32(0.1f32.to_bits()), 4);
    assert_eq!(get_required_bytes_for_f64(0.0f64.to_bits()), 1);
    assert_eq!(get_required_bytes_for_f64(2.0f64.to_bits()), 1);
    assert_eq!(get_required_bytes_for_f64(0.1f64.to_bits()), 8);
}
