use pharmacy_stock::decimal::{parse_decimal, parse_percent, Decimal};

fn d(micros: i64) -> Option<Decimal> {
    Some(Decimal { micros })
}

#[test]
fn decimal_reads_whole_and_fraction() {
    assert_eq!(parse_decimal("23.45"), d(23_450_000));
    assert_eq!(parse_decimal("23.4500"), d(23_450_000));
    assert_eq!(parse_decimal("65.32"), d(65_320_000));
    assert_eq!(parse_decimal("0.000001"), d(1));
    assert_eq!(parse_decimal("7"), d(7_000_000));
}

#[test]
fn decimal_reads_signs() {
    assert_eq!(parse_decimal("-1.2300"), d(-1_230_000));
    assert_eq!(parse_decimal("+0.55"), d(550_000));
    assert_eq!(parse_decimal("-0"), d(0));
}

#[test]
fn decimal_refuses_what_is_not_number_text() {
    for t in ["", "abc", ".", "-.", "e5", "1e", "1e+", "--1", "-", "1.2.3", " 1", "12,5", "inf", "NaN", "1_0"] {
        assert_eq!(parse_decimal(t), None, "{}", t);
    }
}

#[test]
fn decimal_reads_bare_points_and_exponents() {
    assert_eq!(parse_decimal(".5"), d(500_000));
    assert_eq!(parse_decimal("5."), d(5_000_000));
    assert_eq!(parse_decimal("1e2"), d(100_000_000));
    assert_eq!(parse_decimal("1E+2"), d(100_000_000));
    assert_eq!(parse_decimal("-2.5e-3"), d(-2_500));
    assert_eq!(parse_decimal("1.e1"), d(10_000_000));
    assert_eq!(parse_decimal("0e999999999999999999999999"), d(0));
    assert_eq!(parse_decimal("1e999999999999999999999999"), None);
    assert_eq!(parse_decimal("7e-999999999999999999999999"), d(0));
}

#[test]
fn decimal_rounds_to_the_nearest_millionth() {
    assert_eq!(parse_decimal("0.00012345"), d(123));
    assert_eq!(parse_decimal("0.0000005"), d(1));
    assert_eq!(parse_decimal("0.0000004999"), d(0));
    assert_eq!(parse_decimal("-1.2345675"), d(-1_234_568));
    assert_eq!(parse_decimal("1.1234567"), d(1_123_457));
    assert_eq!(parse_decimal("2.3486e0"), d(2_348_600));
}

#[test]
fn decimal_refuses_values_beyond_i64() {
    assert_eq!(parse_decimal("9223372036854.775807"), d(i64::MAX));
    assert_eq!(parse_decimal("9223372036854.775808"), None);
    assert_eq!(parse_decimal("99999999999999"), None);
}

#[test]
fn percent_drops_one_trailing_sign() {
    assert_eq!(parse_percent("2.3500%"), d(2_350_000));
    assert_eq!(parse_percent("-1.88%"), d(-1_880_000));
    assert_eq!(parse_percent("5"), d(5_000_000));
    assert_eq!(parse_percent("%"), None);
    assert_eq!(parse_percent("1%%"), d(1_000_000));
    assert_eq!(parse_percent("%1"), None);
}
