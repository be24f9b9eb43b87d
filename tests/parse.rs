use pts_checker::error::ParseError;
use pts_checker::model::Expr;
use pts_checker::parse::{parse_expr, take_expr};

const VALID: [&str; 12] = [
    "a",
    "b",
    "C",
    "*",
    "@",
    "%(a)(b)",
    "%(a)(b)",
    "$x:(M).(N)",
    "?x:(M).(N)",
    "empty[]",
    "implies[(M),(N)]",
    "?x:(?x:(M).(%(a)(b))).(%(a)(b))",
];

const INVALID: [&str; 13] = [
    "1",
    "&",
    "%",
    "$",
    "#",
    "%:(a)(b)",
    "%(a).(b)",
    "$x:(M.(N)",
    "x:(M).(N)",
    "e[]",
    "implies[(M),]",
    "implies[()]",
    "?x:(?x:(M).(%(a)((b)))).(%(a)(b))",
];

fn chars(s: &str) -> Vec<char> {
    s.bytes().map(|b| b as char).collect()
}

#[test]
fn lib_valid() {
    for input in VALID {
        let v = chars(input);
        println!("{:?}", parse_expr(v.as_slice()).unwrap());
    }
}

#[test]
fn lib_invalid() {
    for input in INVALID {
        let v = chars(input);
        println!("{:?}", parse_expr(v.as_slice()).unwrap_err());
    }
}

#[test]
fn parse_valid() {
    for input in VALID {
        let v = chars(input);
        let mut rest = v.as_slice();
        println!("{:?}", take_expr(&mut rest).unwrap());
        assert!(rest.is_empty());
    }
}

#[test]
fn parse_invalid() {
    for input in INVALID {
        let v = chars(input);
        println!("{:?}", parse_expr(v.as_slice()).unwrap_err());
    }
}

#[test]
fn take_expr_reads_a_variable_and_stops() {
    let v = chars("e[]");
    let mut rest = v.as_slice();
    assert!(matches!(take_expr(&mut rest), Ok(Expr::Var(_))));
    assert_eq!(rest, &['[', ']'][..]);
}

#[test]
fn take_expr_leaves_the_rest() {
    let v = chars("%(a)(b))(c)");
    let mut rest = v.as_slice();
    let e = take_expr(&mut rest).unwrap();
    assert!(matches!(e, Expr::Application(_)));
    assert_eq!(rest, &[')', '(', 'c', ')'][..]);
}

#[test]
fn parse_errors_name_the_problem() {
    assert_eq!(parse_expr(&chars("")).unwrap_err(), ParseError::UnexpectedEnd);
    assert_eq!(parse_expr(&chars("#")).unwrap_err(), ParseError::Unexpected('#'));
    assert_eq!(parse_expr(&chars("%(a).(b)")).unwrap_err(), ParseError::Expecting('('));
    assert_eq!(parse_expr(&chars("$1:(a).(b)")).unwrap_err(), ParseError::ExpectingVariable);
    assert_eq!(parse_expr(&chars("e[]")).unwrap_err(), ParseError::TrailingInput);
}

#[test]
fn parse_definition_arguments() {
    match parse_expr(&chars("implies[(M),(%(a)(b)),(*)]")).unwrap() {
        Expr::Definition(d) => {
            assert_eq!(d.0, "implies");
            assert_eq!(d.1.len(), 3);
        }
        _ => panic!("expected a definition"),
    }
}
