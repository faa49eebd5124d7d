use gridcalc::parser::parse_formula;

#[test]
fn test_parsing() {
    assert!(parse_formula("= 3").is_ok());
    assert!(parse_formula("= 3 + 12").is_ok());
    assert!(parse_formula("= 3+-12").is_ok());
    assert!(parse_formula("= 3 + -12 / 9").is_ok());
    assert!(parse_formula("= a1 + -12 / 9").is_ok());
    assert!(parse_formula("= a1 + -B2 / 9").is_ok());
    assert!(parse_formula("= SUM(1,a1,-3)").is_ok());
    assert!(parse_formula("= sum()").is_ok());
    assert!(parse_formula("= a1:b3").is_err());
}

#[test]
fn parses_compact_forms() {
    assert!(parse_formula("=3").is_ok());
    assert!(parse_formula("=3+12").is_ok());
    assert!(parse_formula("=3+-12").is_ok());
    assert!(parse_formula("=3+-12/9").is_ok());
    assert!(parse_formula("=A1+-B2/9").is_ok());
    assert!(parse_formula("=SUM(1,A1,-3)").is_ok());
    assert!(parse_formula("=SUM()").is_ok());
    assert!(parse_formula("=A1:B3").is_err());
}

#[test]
fn rejects_malformed_formulas() {
    assert!(parse_formula("").is_err());
    assert!(parse_formula("=").is_err());
    assert!(parse_formula("3+4").is_err());
    assert!(parse_formula("=(3+4").is_err());
    assert!(parse_formula("=3+4)").is_err());
    assert!(parse_formula("=3 4").is_err());
    assert!(parse_formula("=3..5").is_err());
    assert!(parse_formula("=SUM(1,)").is_err());
    assert!(parse_formula("=$A1").is_err());
    assert!(parse_formula("=SUM").is_err());
}

#[test]
fn accepts_nested_calls_and_parens() {
    assert!(parse_formula("=SUM(AVG(1,2),3)").is_ok());
    assert!(parse_formula("=((1))").is_ok());
    assert!(parse_formula("=-(2+3)").is_ok());
    assert!(parse_formula("=2^3^2").is_ok());
}

#[test]
fn rejects_oversized_literals() {
    assert!(parse_formula("=9223372036854775807").is_ok());
    assert!(parse_formula("=9223372036854775808").is_err());
}
