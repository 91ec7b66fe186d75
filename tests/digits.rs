use string_ids::digits::{build_digits, build_digits_by_tens, DigitTable};

fn formatted(table: &DigitTable, value: u32) -> String {
    let mut buf = [0u8; 16];
    let n = build_digits(table, &mut buf, value);
    String::from_utf8(buf[..n].to_vec()).unwrap()
}

#[test]
fn formats_boundary_values() {
    let table = DigitTable::new();
    for v in [0u32, 9, 10, 99, 100, 999, 1000, 9999, 10000, 99999999, 100000000, 4294967295] {
        assert_eq!(formatted(&table, v), v.to_string());
    }
}

#[test]
fn formats_zero_as_single_digit() {
    let table = DigitTable::new();
    let mut buf = [7u8; 16];
    assert_eq!(build_digits(&table, &mut buf, 0), 1);
    assert_eq!(buf[0], b'0');
}

#[test]
fn formats_dense_sample() {
    let table = DigitTable::new();
    for v in 0u32..20000 {
        assert_eq!(formatted(&table, v), v.to_string());
    }
    let mut v: u64 = 0;
    while v <= u32::MAX as u64 {
        assert_eq!(formatted(&table, v as u32), v.to_string());
        v += 7_654_321;
    }
}

#[test]
fn reused_buffer_gives_fresh_digits() {
    let table = DigitTable::new();
    let mut buf = [0u8; 16];
    let n = build_digits(&table, &mut buf, 4294967295);
    assert_eq!(&buf[..n], b"4294967295");
    let n = build_digits(&table, &mut buf, 12);
    assert_eq!(&buf[..n], b"12");
}

#[test]
fn digit_by_digit_formatter_agrees() {
    let table = DigitTable::new();
    let mut a = [0u8; 16];
    let mut b = [0u8; 16];
    for v in [0u32, 1, 9, 10, 11, 99, 100, 12345, 9999999, 1000000000, 4294967295] {
        let n = build_digits(&table, &mut a, v);
        let m = build_digits_by_tens(&mut b, v);
        assert_eq!(n, m);
        assert_eq!(&a[..n], &b[..m]);
        assert_eq!(&b[..m], v.to_string().as_bytes());
    }
}
