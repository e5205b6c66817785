use fastrp::decimal_string;
use fastrp::text::requested_bytes_in;

#[test]
fn test_decimal_string() {
    assert_eq!(decimal_string(0), "0");
    assert_eq!(decimal_string(7), "7");
    assert_eq!(decimal_string(10), "10");
    assert_eq!(decimal_string(1234567890), "1234567890");
    assert_eq!(decimal_string(usize::MAX), usize::MAX.to_string());
}

#[test]
fn test_requested_bytes_from_allocator_report() {
    let mut v: Vec<u64> = Vec::new();
    let err = v.try_reserve_exact(usize::MAX / 16).unwrap_err();
    let report = format!("{:?}", err);
    assert_eq!(requested_bytes_in(&report), Some(8 * (usize::MAX / 16)));
}

#[test]
fn test_requested_bytes_without_size() {
    let mut v: Vec<u8> = Vec::new();
    let err = v.try_reserve(usize::MAX).unwrap_err();
    let report = format!("{:?}", err);
    assert_eq!(requested_bytes_in(&report), None);
}

#[test]
fn test_requested_bytes_parsing_rules() {
    assert_eq!(requested_bytes_in("Layout { size: 123, align: 8 }"), Some(123));
    assert_eq!(requested_bytes_in("size: +42,"), Some(42));
    assert_eq!(requested_bytes_in("size: 7 , x"), None);
    assert_eq!(requested_bytes_in("size: ,"), None);
    assert_eq!(requested_bytes_in("size: +,"), None);
    assert_eq!(requested_bytes_in("size: -3,"), None);
    assert_eq!(requested_bytes_in("size: 12"), None);
    assert_eq!(requested_bytes_in("size:12,"), None);
    assert_eq!(requested_bytes_in("size: 99999999999999999999999,"), None);
    assert_eq!(requested_bytes_in("a size: 1, b size: 2,"), Some(1));
    assert_eq!(requested_bytes_in(""), None);
}
