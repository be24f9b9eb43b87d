use pts_checker::error::{Error, ParseError, Premise};
use pts_checker::script::{Failure, Verifier};

const SCENARIO: &str = "0 sort\n1 var 0 A\n2 weak 0 0 A\n3 var 2 B\n4 weak 2 2 B\n5 weak 1 2 B\n6 var 5 a\n7 weak 4 5 a\n8 weak 3 5 a\n9 form 5 8\n-1\n";

#[test]
fn check() {
    let input = SCENARIO;

    let v = Verifier::run(input).unwrap();
    assert_eq!(v.resolver.judgements.len(), 10);
}

#[test]
fn stops_at_minus_one() {
    let v = Verifier::run("0 sort\n-1\n1 nonsense\n").unwrap();
    assert_eq!(v.resolver.judgements.len(), 1);
}

#[test]
fn accepts_carriage_returns_and_no_final_newline() {
    let v = Verifier::run("0 sort\r\n1 var 0 A").unwrap();
    assert_eq!(v.resolver.judgements.len(), 2);
}

#[test]
fn wrong_line_number() {
    let mut v = Verifier::new();
    v.run_line("0 sort").unwrap();
    v.run_line("1 sort").unwrap();
    v.run_line("2 sort").unwrap();
    assert_eq!(v.run_line("7 sort"), Err(Error::LineNumberMismatch { expected: 3, found: 7 }));
    assert_eq!(v.resolver.judgements.len(), 3);
}

#[test]
fn wrong_line_number_in_a_script() {
    assert_eq!(
        Verifier::run("0 sort\n1 sort\n3 sort\n").unwrap_err(),
        Failure { line: 2, error: Error::LineNumberMismatch { expected: 2, found: 3 } },
    );
}

#[test]
fn duplicate_definition_in_a_script() {
    assert_eq!(
        Verifier::run("0 sort\n1 def 0 0 foo\n2 def 1 1 foo\n").unwrap_err(),
        Failure { line: 2, error: Error::DuplicateDefinition },
    );
}

#[test]
fn premise_failure_names_the_line() {
    assert_eq!(
        Verifier::run("0 sort\n1 var 0 A\n2 var 1 x\n3 var 2 y\n").unwrap_err(),
        Failure { line: 3, error: Error::PremiseMismatch(Premise::SortType) },
    );
}

#[test]
fn unknown_instruction() {
    let mut v = Verifier::new();
    assert_eq!(v.run_line("0 jump"), Err(Error::UnknownInstruction));
    assert_eq!(v.resolver.judgements.len(), 0);
}

#[test]
fn malformed_lines() {
    let mut v = Verifier::new();
    assert_eq!(v.run_line("x sort"), Err(Error::Parse(ParseError::BadNumber)));
    assert_eq!(v.run_line("0"), Err(Error::Parse(ParseError::MissingOperand)));
    assert_eq!(v.run_line("0 sort 1"), Err(Error::Parse(ParseError::ExtraOperand)));
    assert_eq!(v.run_line("0 sort"), Ok(0));
    assert_eq!(v.run_line("1 var 0 AB"), Err(Error::Parse(ParseError::ExpectingVariable)));
    assert_eq!(v.run_line("1 var"), Err(Error::Parse(ParseError::MissingOperand)));
    assert_eq!(v.run_line("1 var 99999999999999999999999 A"), Err(Error::Parse(ParseError::BadNumber)));
    assert_eq!(v.resolver.judgements.len(), 1);
}

#[test]
fn every_instruction() {
    let script = "0 sort\n1 var 0 B\n2 weak 0 0 B\n3 var 2 A\n4 weak 2 2 A\n5 form 2 4\n6 abst 3 5\n7 appl 6 1\n8 conv 3 4\n9 cp 7\n10 sp 4 2\n11 defpr 0 1 foo\n12 inst 11 1 11 1\n13 def 11 11 bar\n";
    let v = Verifier::run(script).unwrap();
    assert_eq!(v.resolver.judgements.len(), 14);
}
