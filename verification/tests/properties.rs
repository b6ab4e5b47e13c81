use true_engine::game_engine::Srgba;
use true_engine::properties::{color_from_fields, parse_channel};

fn std_channel(s: &str) -> u8 {
    s.parse().unwrap_or(0)
}

#[test]
fn parse_channel_matches_std_parse() {
    let cases = [
        "", "0", "00", "7", "+7", "+", "-", "-0", "-1", "12", "255", "256", "0255", "000000000255",
        "999999999999", "1a", "a1", " 1", "1 ", "++1", "+-1", "1.0", "٣", "25", "100", "199",
    ];
    for c in cases {
        assert_eq!(parse_channel(c), std_channel(c), "text {:?}", c);
    }
    for n in 0..1000u32 {
        let t = n.to_string();
        assert_eq!(parse_channel(&t), std_channel(&t), "text {:?}", t);
        let t = format!("+{}", n);
        assert_eq!(parse_channel(&t), std_channel(&t), "text {:?}", t);
    }
}

#[test]
fn parse_channel_values() {
    assert_eq!(parse_channel("0"), 0);
    assert_eq!(parse_channel("128"), 128);
    assert_eq!(parse_channel("+255"), 255);
    assert_eq!(parse_channel("256"), 0);
    assert_eq!(parse_channel("abc"), 0);
    assert_eq!(parse_channel(""), 0);
}

#[test]
fn color_from_fields_is_opaque() {
    assert_eq!(color_from_fields("0", "0", "0"), Srgba { r: 0, g: 0, b: 0, a: 255 });
    assert_eq!(color_from_fields("10", "x", "300"), Srgba { r: 10, g: 0, b: 0, a: 255 });
    assert_eq!(color_from_fields("255", "+128", "1"), Srgba { r: 255, g: 128, b: 1, a: 255 });
}
