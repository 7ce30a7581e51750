use list_big_files::{number_times, parse_size, SizeThreshold, SizeUnit};

const MB: u64 = 1024 * 1024;

fn megabytes(t: SizeThreshold) -> f64 {
    t.bytes as f64 / MB as f64
}

#[test]
fn test_parse_size_mb() {
    let t = parse_size("100MB");
    assert_eq!(megabytes(t), 100.0);
    assert_eq!(t.unit, SizeUnit::MB);
}

#[test]
fn test_parse_size_m() {
    let t = parse_size("50M");
    assert_eq!(megabytes(t), 50.0);
    assert_eq!(t.unit, SizeUnit::MB);
}

#[test]
fn test_parse_size_mb_lowercase() {
    let t = parse_size("100mb");
    assert_eq!(megabytes(t), 100.0);
    assert_eq!(t.unit, SizeUnit::MB);
}

#[test]
fn test_parse_size_m_lowercase() {
    let t = parse_size("50m");
    assert_eq!(megabytes(t), 50.0);
    assert_eq!(t.unit, SizeUnit::MB);
}

#[test]
fn test_parse_size_gb() {
    let t = parse_size("1GB");
    assert_eq!(megabytes(t), 1024.0);
    assert_eq!(t.unit, SizeUnit::GB);
}

#[test]
fn test_parse_size_g() {
    let t = parse_size("2G");
    assert_eq!(megabytes(t), 2048.0);
    assert_eq!(t.unit, SizeUnit::GB);
}

#[test]
fn test_parse_size_gb_lowercase() {
    let t = parse_size("1gb");
    assert_eq!(megabytes(t), 1024.0);
    assert_eq!(t.unit, SizeUnit::GB);
}

#[test]
fn test_parse_size_g_lowercase() {
    let t = parse_size("2g");
    assert_eq!(megabytes(t), 2048.0);
    assert_eq!(t.unit, SizeUnit::GB);
}

#[test]
fn test_parse_size_no_unit() {
    let t = parse_size("100");
    assert_eq!(megabytes(t), 100.0);
    assert_eq!(t.unit, SizeUnit::MB);
}

#[test]
fn test_parse_size_invalid() {
    let t = parse_size("invalid");
    assert_eq!(megabytes(t), 100.0);
    assert_eq!(t.unit, SizeUnit::MB);
}

#[test]
fn test_parse_size_fractional() {
    let t = parse_size("0.5GB");
    assert_eq!(megabytes(t), 512.0);
    assert_eq!(t.unit, SizeUnit::GB);
}

#[test]
fn test_parse_size_zero() {
    let t = parse_size("0");
    assert_eq!(megabytes(t), 0.0);
    assert_eq!(t.unit, SizeUnit::MB);
}

#[test]
fn test_parse_size_large_value() {
    let t = parse_size("1000GB");
    assert_eq!(megabytes(t), 1024000.0);
    assert_eq!(t.unit, SizeUnit::GB);
}

#[test]
fn mixed_case_suffixes() {
    assert_eq!(parse_size("3gB"), SizeThreshold { bytes: 3 * 1024 * MB, unit: SizeUnit::GB });
    assert_eq!(parse_size("3Gb"), SizeThreshold { bytes: 3 * 1024 * MB, unit: SizeUnit::GB });
    assert_eq!(parse_size("7mB"), SizeThreshold { bytes: 7 * MB, unit: SizeUnit::MB });
    assert_eq!(parse_size("7Mb"), SizeThreshold { bytes: 7 * MB, unit: SizeUnit::MB });
}

#[test]
fn unreadable_number_defaults_whatever_the_suffix() {
    let default = SizeThreshold { bytes: 100 * MB, unit: SizeUnit::MB };
    assert_eq!(parse_size(""), default);
    assert_eq!(parse_size("abc"), default);
    assert_eq!(parse_size("abcGB"), default);
    assert_eq!(parse_size("GB"), default);
    assert_eq!(parse_size("g"), default);
    assert_eq!(parse_size("."), default);
    assert_eq!(parse_size(".m"), default);
    assert_eq!(parse_size("1.2.3"), default);
    assert_eq!(parse_size("5kb"), default);
    assert_eq!(parse_size("5 MB"), default);
}

#[test]
fn point_forms() {
    assert_eq!(parse_size("5."), SizeThreshold { bytes: 5 * MB, unit: SizeUnit::MB });
    assert_eq!(parse_size(".5"), SizeThreshold { bytes: MB / 2, unit: SizeUnit::MB });
    assert_eq!(parse_size(".25g"), SizeThreshold { bytes: 256 * MB, unit: SizeUnit::GB });
    assert_eq!(parse_size("007"), SizeThreshold { bytes: 7 * MB, unit: SizeUnit::MB });
}

#[test]
fn fractions_round_down_to_whole_bytes() {
    // 0.1 MB is 104857.6 bytes.
    assert_eq!(parse_size("0.1").bytes, 104857);
    // 0.3 MB is 314572.8 bytes.
    assert_eq!(parse_size("0.3m").bytes, 314572);
    // 0.000001 MB is about one byte: 1.048576.
    assert_eq!(parse_size("0.000001").bytes, 1);
    assert_eq!(parse_size("0.0000001").bytes, 0);
}

#[test]
fn huge_values_hold_at_the_largest_u64() {
    assert_eq!(parse_size("99999999999999999999999999GB").bytes, u64::MAX);
    assert_eq!(parse_size("17592186044416").bytes, u64::MAX);
    assert_eq!(parse_size("17592186044415.99999").bytes, u64::MAX - 10);
}

#[test]
fn number_prefix_times_a_factor() {
    assert_eq!(number_times("2.5", 3, 1000), Some(2500));
    assert_eq!(number_times("2.5x", 3, 10), Some(25));
    assert_eq!(number_times("2.55", 4, 10), Some(25));
    assert_eq!(number_times("123", 2, 1), Some(12));
    assert_eq!(number_times("x", 1, 10), None);
    assert_eq!(number_times("12", 0, 10), None);
    assert_eq!(number_times("1.a", 3, 10), None);
    assert_eq!(number_times("3e2", 3, 1), Some(300));
    assert_eq!(number_times("3e-1", 4, 10), Some(3));
    assert_eq!(number_times("3e-1", 2, 10), None);
}

#[test]
fn numbers_with_exponents() {
    assert_eq!(parse_size("1e3"), SizeThreshold { bytes: 1000 * MB, unit: SizeUnit::MB });
    assert_eq!(parse_size("1.5e2m"), SizeThreshold { bytes: 150 * MB, unit: SizeUnit::MB });
    assert_eq!(parse_size("1E+2"), SizeThreshold { bytes: 100 * MB, unit: SizeUnit::MB });
    assert_eq!(parse_size("1.e1"), SizeThreshold { bytes: 10 * MB, unit: SizeUnit::MB });
    assert_eq!(parse_size("25e-1"), SizeThreshold { bytes: 2621440, unit: SizeUnit::MB });
    assert_eq!(parse_size("0.000001e6"), SizeThreshold { bytes: MB, unit: SizeUnit::MB });
    assert_eq!(parse_size("5e-1GB"), SizeThreshold { bytes: 512 * MB, unit: SizeUnit::GB });
    assert_eq!(parse_size("1E-7").bytes, 0);
    assert_eq!(parse_size("1e13").bytes, 10485760000000000000);
    assert_eq!(parse_size("2e13").bytes, u64::MAX);
    assert_eq!(parse_size("-1e3g"), SizeThreshold { bytes: 0, unit: SizeUnit::GB });
}

#[test]
fn exponents_far_out_of_range() {
    assert_eq!(parse_size("1e999999999999999999999999").bytes, u64::MAX);
    assert_eq!(parse_size("0e999999999999999999999999").bytes, 0);
    assert_eq!(parse_size("1e-999999999999999999999999").bytes, 0);
    assert_eq!(parse_size("123456789e-999999999999999999999999999999").bytes, 0);
}

#[test]
fn malformed_exponents_default() {
    let default = SizeThreshold { bytes: 100 * MB, unit: SizeUnit::MB };
    assert_eq!(parse_size("1e"), default);
    assert_eq!(parse_size("e5"), default);
    assert_eq!(parse_size("1e+"), default);
    assert_eq!(parse_size(".e1"), default);
    assert_eq!(parse_size("1e2.5"), default);
    assert_eq!(parse_size("1e2e3"), default);
    assert_eq!(parse_size("1e--2"), default);
}

#[test]
fn signed_numbers() {
    assert_eq!(parse_size("+5"), SizeThreshold { bytes: 5 * MB, unit: SizeUnit::MB });
    assert_eq!(parse_size("+.5g"), SizeThreshold { bytes: 512 * MB, unit: SizeUnit::GB });
    assert_eq!(parse_size("-5GB"), SizeThreshold { bytes: 0, unit: SizeUnit::GB });
    assert_eq!(parse_size("-0.25m"), SizeThreshold { bytes: 0, unit: SizeUnit::MB });
    let default = SizeThreshold { bytes: 100 * MB, unit: SizeUnit::MB };
    assert_eq!(parse_size("-"), default);
    assert_eq!(parse_size("+GB"), default);
    assert_eq!(parse_size("+-5"), default);
    assert_eq!(parse_size("--5"), default);
    assert_eq!(parse_size("-abc"), default);
}

#[test]
fn words_for_infinity_and_not_a_number() {
    assert_eq!(parse_size("inf"), SizeThreshold { bytes: u64::MAX, unit: SizeUnit::MB });
    assert_eq!(parse_size("+Inf"), SizeThreshold { bytes: u64::MAX, unit: SizeUnit::MB });
    assert_eq!(parse_size("INFINITYgb"), SizeThreshold { bytes: u64::MAX, unit: SizeUnit::GB });
    assert_eq!(parse_size("-inf"), SizeThreshold { bytes: 0, unit: SizeUnit::MB });
    assert_eq!(parse_size("NaN"), SizeThreshold { bytes: 0, unit: SizeUnit::MB });
    assert_eq!(parse_size("nang"), SizeThreshold { bytes: 0, unit: SizeUnit::GB });
    assert_eq!(parse_size("-nan"), SizeThreshold { bytes: 0, unit: SizeUnit::MB });
    let default = SizeThreshold { bytes: 100 * MB, unit: SizeUnit::MB };
    assert_eq!(parse_size("infin"), default);
    assert_eq!(parse_size("info"), default);
    assert_eq!(parse_size("na"), default);
    assert_eq!(parse_size("--inf"), default);
}
