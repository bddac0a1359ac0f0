use npuzzle::parse::parse_moves;
use npuzzle::parse::parse_seed;

#[test]
fn parse_moves_accepts_plain_numerals() {
    assert_eq!(parse_moves("0"), Ok(0));
    assert_eq!(parse_moves("12"), Ok(12));
    assert_eq!(parse_moves("255"), Ok(255));
    assert_eq!(parse_moves("007"), Ok(7));
}

#[test]
fn parse_moves_accepts_leading_plus() {
    assert_eq!(parse_moves("+5"), Ok(5));
    assert_eq!(parse_moves("+255"), Ok(255));
}

#[test]
fn parse_moves_rejects_overflow() {
    assert_eq!(parse_moves("256"), Err("moves not a number"));
    assert_eq!(parse_moves("99999"), Err("moves not a number"));
}

#[test]
fn parse_moves_rejects_malformed_input() {
    assert_eq!(parse_moves(""), Err("moves not a number"));
    assert_eq!(parse_moves("+"), Err("moves not a number"));
    assert_eq!(parse_moves("12a"), Err("moves not a number"));
    assert_eq!(parse_moves("-3"), Err("moves not a number"));
    assert_eq!(parse_moves(" 7"), Err("moves not a number"));
}

#[test]
fn parse_seed_accepts_plain_numerals() {
    assert_eq!(parse_seed("0"), Ok(0));
    assert_eq!(parse_seed("42"), Ok(42));
    assert_eq!(parse_seed("+9"), Ok(9));
    assert_eq!(parse_seed("18446744073709551615"), Ok(u64::MAX));
}

#[test]
fn parse_seed_rejects_overflow() {
    assert_eq!(parse_seed("18446744073709551616"), Err("seed not a number"));
    assert_eq!(
        parse_seed("999999999999999999999999"),
        Err("seed not a number")
    );
}

#[test]
fn parse_seed_rejects_malformed_input() {
    assert_eq!(parse_seed(""), Err("seed not a number"));
    assert_eq!(parse_seed("+"), Err("seed not a number"));
    assert_eq!(parse_seed("seed"), Err("seed not a number"));
    assert_eq!(parse_seed("1 2"), Err("seed not a number"));
}
