use sd_req::sd_req::decimal;
use sd_req::types::{i32_to_u32, str_to_i32, str_to_i64, str_to_u64};

fn s(x: &str) -> String {
    x.to_string()
}

#[test]
fn parse_i32() {
    assert_eq!(str_to_i32(s("42")), (true, 42));
    assert_eq!(str_to_i32(s("-7")), (true, -7));
    assert_eq!(str_to_i32(s("+5")), (true, 5));
    assert_eq!(str_to_i32(s("007")), (true, 7));
    assert_eq!(str_to_i32(s("2147483647")), (true, i32::MAX));
    assert_eq!(str_to_i32(s("2147483648")), (false, 0));
    assert_eq!(str_to_i32(s("-2147483648")), (true, i32::MIN));
    assert_eq!(str_to_i32(s("-2147483649")), (false, 0));
    assert_eq!(str_to_i32(s(" 1")), (false, 0));
    assert_eq!(str_to_i32(s("")), (false, 0));
    assert_eq!(str_to_i32(s("+")), (false, 0));
    assert_eq!(str_to_i32(s("-")), (false, 0));
    assert_eq!(str_to_i32(s("1a")), (false, 0));
    assert_eq!(str_to_i32(s("٣")), (false, 0));
}

#[test]
fn parse_agrees_with_std() {
    for t in ["0", "-0", "+0", "12", "-12", "99999999999", "-", "+-1", "1_000", "1.5", "18446744073709551615"] {
        assert_eq!(str_to_i32(s(t)), t.parse::<i32>().map(|x| (true, x)).unwrap_or((false, 0)));
        assert_eq!(str_to_i64(s(t)), t.parse::<i64>().map(|x| (true, x)).unwrap_or((false, 0)));
        assert_eq!(str_to_u64(s(t)), t.parse::<u64>().map(|x| (true, x)).unwrap_or((false, 0)));
    }
}

#[test]
fn parse_i64_and_u64() {
    assert_eq!(str_to_i64(s("9223372036854775807")), (true, i64::MAX));
    assert_eq!(str_to_i64(s("9223372036854775808")), (false, 0));
    assert_eq!(str_to_u64(s("18446744073709551615")), (true, u64::MAX));
    assert_eq!(str_to_u64(s("18446744073709551616")), (false, 0));
    assert_eq!(str_to_u64(s("-1")), (false, 0));
    assert_eq!(str_to_u64(s("+3")), (true, 3));
}

#[test]
fn i32_to_u32_clamps_negatives() {
    assert_eq!(i32_to_u32(5), 5);
    assert_eq!(i32_to_u32(0), 0);
    assert_eq!(i32_to_u32(-3), 0);
    assert_eq!(i32_to_u32(i32::MAX), i32::MAX as u32);
}

#[test]
fn decimal_reads_back() {
    for n in [0u32, 7, 10, 12, 4096, u32::MAX] {
        let d = decimal(n);
        assert_eq!(d, n.to_string());
        assert_eq!(str_to_u64(d.clone()), (true, n as u64));
        assert_eq!(str_to_i64(d), (true, n as i64));
    }
}
