use gdn_gis::number::{bytes_between, decimal_text, eq, first_bytes, first_two_bytes, float_text, lt, parse_integer, total_rank_of};

#[test]
fn float_grammar_agrees_with_std() {
    let texts = [
        "0", "1.5", "-2", "+3.", ".5", "1e3", "1E-3", "-.5e+2", "inf", "-Infinity", "NaN", "+nan", "", "-", ".", "e5",
        "1e", "1.2.3", "0x1", " 1", "1 ", "1_0", "infin", "12abc", "--1", "1e+", "5.e1", "infinity", "INF",
    ];
    for t in texts {
        assert_eq!(float_text(t), t.parse::<f64>().is_ok(), "{t}");
    }
}

#[test]
fn bits_compare_like_numbers() {
    let vs = [0.0f64, -0.0, 1.0, -1.0, 99.9, 100.0, f64::INFINITY, f64::NEG_INFINITY, f64::NAN, 1e-300, -1e300];
    for a in vs {
        for b in vs {
            assert_eq!(lt(a.to_bits(), b.to_bits()), a < b);
            assert_eq!(eq(a.to_bits(), b.to_bits()), a == b);
            assert_eq!(
                total_rank_of(a.to_bits()).cmp(&total_rank_of(b.to_bits())),
                a.total_cmp(&b)
            );
        }
    }
}

#[test]
fn integers_within_bounds() {
    assert_eq!(parse_integer("42", false, 0, 100), Some(42));
    assert_eq!(parse_integer("+42", false, 0, 100), Some(42));
    assert_eq!(parse_integer("-42", true, -100, 100), Some(-42));
    assert_eq!(parse_integer("-42", false, -100, 100), None);
    assert_eq!(parse_integer("101", false, 0, 100), None);
    assert_eq!(parse_integer("", true, -1, 1), None);
    assert_eq!(parse_integer("-", true, -1, 1), None);
    assert_eq!(parse_integer("4x", true, -9, 9), None);
    assert_eq!(parse_integer("00000000000000000000000000007", false, 0, 9), Some(7));
    assert_eq!(parse_integer("99999999999999999999999999", false, 0, 9), None);
}

#[test]
fn byte_prefixes_end_between_characters() {
    assert_eq!(first_bytes("2024-01", 4), Some("2024".to_string()));
    assert_eq!(first_bytes("202", 4), None);
    assert_eq!(first_bytes("a\u{e9}b", 2), None);
    assert_eq!(first_bytes("a\u{e9}b", 3), Some("a\u{e9}".to_string()));
    assert_eq!(bytes_between("2024-01-31", 5, 7), Some("01".to_string()));
    assert_eq!(bytes_between("2024", 5, 7), None);
    assert_eq!(first_two_bytes("SK"), Some("SK".to_string()));
    assert_eq!(first_two_bytes("S"), Some("S".to_string()));
    assert_eq!(first_two_bytes("a\u{e9}"), None);
}

#[test]
fn digits_read_back() {
    for n in [0u64, 7, 10, 1848, 65536, u64::MAX] {
        assert_eq!(decimal_text(n), n.to_string());
        assert_eq!(decimal_text(n).parse::<u64>().unwrap(), n);
    }
}
