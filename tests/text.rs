use dicepool::text::{chars_of, parse_u16_in, substitute_decimal};

#[test]
fn parses_like_std() {
    for s in ["0", "7", "+7", "65535", "65536", "", "+", "1a", "-1", "007", "٣", " 5"] {
        let chars: Vec<char> = s.chars().collect();
        assert_eq!(parse_u16_in(&chars), s.parse::<u16>().ok(), "{}", s);
    }
}

#[test]
fn substitutes_decimal() {
    let chars = chars_of("x*1dx+x");
    let out: String = substitute_decimal(&chars, 'x', 1205).into_iter().collect();
    assert_eq!(out, "1205*1d1205+1205");
    let out: String = substitute_decimal(&chars_of("xd6"), 'x', 0).into_iter().collect();
    assert_eq!(out, "0d6");
}
