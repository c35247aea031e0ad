use vibecheat::scan_type::{CompareType, ScanType};
use vibecheat::value::{compare_values, format_value_at_address, parse_value_bytes};

#[test]
fn parse_i32_native() {
    assert_eq!(parse_value_bytes(ScanType::I32, " 1234 "), Some(1234i32.to_ne_bytes().to_vec()));
    assert_eq!(parse_value_bytes(ScanType::I8, "-128"), Some(vec![0x80]));
    assert_eq!(parse_value_bytes(ScanType::I8, "128"), None);
    assert_eq!(parse_value_bytes(ScanType::I16, "+"), None);
}

#[test]
fn compare_i32_values() {
    let a = 5i32.to_ne_bytes();
    let b = (-3i32).to_ne_bytes();
    assert!(compare_values(ScanType::I32, &a, &b, CompareType::GreaterThan));
    assert!(!compare_values(ScanType::I32, &a, &b, CompareType::LessThan));
}

#[test]
fn format_i16_value() {
    let b = (-300i16).to_ne_bytes();
    assert_eq!(format_value_at_address(ScanType::I16, Some(&b)), "-300");
    assert_eq!(format_value_at_address(ScanType::I16, None), "UNREADABLE");
}

#[test]
fn shown_value_parses_back_to_its_bytes() {
    for v in [i64::MIN, -1, 0, 42, i64::MAX] {
        let b = v.to_ne_bytes();
        let text = format_value_at_address(ScanType::I64, Some(&b));
        assert_eq!(parse_value_bytes(ScanType::I64, &text), Some(b.to_vec()));
    }
    let b = [0x80u8];
    assert_eq!(parse_value_bytes(ScanType::I8, &format_value_at_address(ScanType::I8, Some(&b))), Some(vec![0x80]));
}
