use gridcalc::eval::ValueMap;
use gridcalc::parser::calculate;
use gridcalc::FormulaError;

fn mock_values() -> ValueMap {
    let mut vals = ValueMap::new();
    vals.insert("a1", 1);
    vals.insert("A1", 1);
    vals.insert("b2", 2);
    vals.insert("B2", 2);
    vals
}

#[test]
fn calculate_basic_math() {
    let vals = mock_values();
    assert_eq!(calculate("= 3 + 12", &vals), Ok(15));
    assert_eq!(calculate("= 3 + -12", &vals), Ok(-9));
    assert_eq!(calculate("= 3 + -12 / 3", &vals), Ok(-1));
    assert_eq!(calculate("= (3 + -12) / 3", &vals), Ok(-3));
    assert_eq!(calculate("= -a1 + B2 * 2", &vals), Ok(3));
}

#[test]
fn calculate_functions() {
    let vals = mock_values();
    assert_eq!(calculate("=Sum(1,2,3)", &vals), Ok(6));
    assert_eq!(calculate("=avG(1,2,3)", &vals), Ok(2));
    assert_eq!(calculate("=avG()", &vals), Err(FormulaError::DivBy0));
    assert_eq!(calculate("=Sum(a1, b2 * 3)", &vals), Ok(7));
    assert_eq!(calculate("=avG(a1,b2,3)", &vals), Ok(2));
    assert_eq!(calculate("=sum()", &vals), Ok(0));
}

#[test]
fn division_by_zero_cases() {
    let mut vals = mock_values();
    vals.insert("c3", 0);
    assert_eq!(calculate("=1/0", &vals), Err(FormulaError::DivBy0));
    assert_eq!(calculate("=(3+4)/(2-2)", &vals), Err(FormulaError::DivBy0));
    assert_eq!(calculate("=10/c3", &vals), Err(FormulaError::DivBy0));
    assert_eq!(calculate("=5/z9", &vals), Err(FormulaError::DivBy0));
    assert_eq!(calculate("=0/3", &vals), Ok(0));
}

#[test]
fn unknown_function_cases() {
    let vals = mock_values();
    assert_eq!(calculate("=FOO(1)", &vals), Err(FormulaError::UnknownFunction));
    assert_eq!(calculate("=MEDIAN(1,2)", &vals), Err(FormulaError::UnknownFunction));
    assert_eq!(calculate("=FOO()", &vals), Err(FormulaError::UnknownFunction));
}

#[test]
fn parse_errors_from_calculate() {
    let vals = mock_values();
    assert_eq!(calculate("=a1:b3", &vals), Err(FormulaError::ParsingError));
    assert_eq!(calculate("=(", &vals), Err(FormulaError::ParsingError));
}

#[test]
fn power_and_precedence() {
    let vals = mock_values();
    assert_eq!(calculate("=2^3", &vals), Ok(8));
    assert_eq!(calculate("=2^3^2", &vals), Ok(512));
    assert_eq!(calculate("=-2^2", &vals), Ok(4));
    assert_eq!(calculate("=2+3*4", &vals), Ok(14));
    assert_eq!(calculate("=(2+3)*4", &vals), Ok(20));
    assert_eq!(calculate("=20/5/2", &vals), Ok(2));
    assert_eq!(calculate("=7/2", &vals), Ok(3));
    assert_eq!(calculate("=2-3-4", &vals), Ok(-5));
    assert_eq!(calculate("=2^0", &vals), Ok(1));
    assert_eq!(calculate("=2^-1", &vals), Ok(0));
}

#[test]
fn absent_references_count_as_zero() {
    let vals = mock_values();
    assert_eq!(calculate("=z99+5", &vals), Ok(5));
    assert_eq!(calculate("=SUM(z99,1)", &vals), Ok(1));
}

#[test]
fn case_insensitive_function_names() {
    let vals = mock_values();
    assert_eq!(calculate("=sUm(1,2)", &vals), Ok(3));
    assert_eq!(calculate("=AVG(2,4)", &vals), Ok(3));
    assert_eq!(calculate("=avg(2,4)", &vals), Ok(3));
}
