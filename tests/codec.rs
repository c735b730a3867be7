use phips_1brc::codec::{fast_f32_parse_encoded, push_tenths};
use phips_1brc::input::{is_valid_input, is_valid_temperature};

#[test]
fn test_fast_f32_parse() {
    assert_eq!(fast_f32_parse_encoded(b"0.0"), 00);
    assert_eq!(fast_f32_parse_encoded(b"5.0"), 50);
    assert_eq!(fast_f32_parse_encoded(b"5.7"), 57);
    assert_eq!(fast_f32_parse_encoded(b"-5.7"), -57);
    assert_eq!(fast_f32_parse_encoded(b"-99.9"), -999);
}

#[test]
fn parse_two_digit_values() {
    assert_eq!(fast_f32_parse_encoded(b"15.5"), 155);
    assert_eq!(fast_f32_parse_encoded(b"-7.1"), -71);
    assert_eq!(fast_f32_parse_encoded(b"99.9"), 999);
    assert_eq!(fast_f32_parse_encoded(b"-0.1"), -1);
}

fn tenths(t: i64) -> String {
    let mut out = Vec::new();
    push_tenths(&mut out, t);
    String::from_utf8(out).unwrap()
}

#[test]
fn format_tenths_values() {
    assert_eq!(tenths(-157), "-15.7");
    assert_eq!(tenths(66), "6.6");
    assert_eq!(tenths(0), "0.0");
    assert_eq!(tenths(-5), "-0.5");
    assert_eq!(tenths(999), "99.9");
    assert_eq!(tenths(-999), "-99.9");
}

#[test]
fn format_appends_to_existing_bytes() {
    let mut out = b"x=".to_vec();
    push_tenths(&mut out, 215);
    assert_eq!(out, b"x=21.5");
}

#[test]
fn codec_round_trip_over_the_whole_range() {
    for v in -999i64..=999 {
        let text = tenths(v);
        assert!(is_valid_temperature(text.as_bytes()), "{text}");
        assert_eq!(fast_f32_parse_encoded(text.as_bytes()) as i64, v);
        let back = fast_f32_parse_encoded(text.as_bytes()) as f64 / 10.0;
        assert_eq!(format!("{back:.1}"), text);
    }
}

#[test]
fn temperature_grammar() {
    assert!(is_valid_temperature(b"1.0"));
    assert!(is_valid_temperature(b"-12.3"));
    assert!(!is_valid_temperature(b"123.4"));
    assert!(!is_valid_temperature(b"1.23"));
    assert!(!is_valid_temperature(b"1"));
    assert!(!is_valid_temperature(b"-"));
    assert!(!is_valid_temperature(b""));
    assert!(!is_valid_temperature(b"a.0"));
    assert!(!is_valid_temperature(b"+1.0"));
}

#[test]
fn input_grammar() {
    assert!(is_valid_input(b""));
    assert!(is_valid_input(b"Abha;0.0\n"));
    assert!(is_valid_input("Zürich;-3.4\nX;1.0\n".as_bytes()));
    assert!(!is_valid_input(b"Abha;0.0"));
    assert!(!is_valid_input(b"Abha 0.0\n"));
    assert!(!is_valid_input(b";0.0\n"));
    assert!(!is_valid_input(b"Abha;100.0\n"));
    assert!(!is_valid_input(b"Abha;1.0;2.0\n"));
    assert!(!is_valid_input(b"\n"));
}
