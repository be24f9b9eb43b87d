use pts_checker::model::{generate_free_var_gte, Expr, Var};

fn e(s: &str) -> Expr {
    s.parse().unwrap()
}

fn same(a: &str, b: &str) -> bool {
    e(a).de_bruijn() == e(b).de_bruijn()
}

#[test]
fn homework_cases() {
    let a: Expr = "$x:(*).($x:(x).(x))".parse().unwrap();
    let b: Expr = "$x:(*).($x:(y).(x))".parse().unwrap();
    let c: Expr = "$x:(*).($y:(x).(y))".parse().unwrap();
    assert!(a.de_bruijn() != b.de_bruijn());
    assert!(a.de_bruijn() == c.de_bruijn());
    assert!(b.de_bruijn() != c.de_bruijn());
}

fn check_substitution(src: &str, v: char, sub: &str, expected: &str) {
    assert_eq!(
        e(src).alpha_substitution(Var(v), e(sub)).de_bruijn(),
        e(expected).de_bruijn(),
    );
}

#[test]
fn substitution_variable() {
    check_substitution("x", 'x', "z", "z");
}

#[test]
fn substitution_application() {
    check_substitution("%(x)(x)", 'x', "z", "%(z)(z)");
}

#[test]
fn substitution_under_shadowing_binder() {
    check_substitution("%($x:(*).(x))(x)", 'x', "z", "%($x:(*).(x))(z)");
}

#[test]
fn substitution_renames_capturing_binder() {
    check_substitution("$y:(*).(%(y)(x))", 'x', "%(x)(y)", "$z:(*).(%(z)(%(x)(y)))");
}

#[test]
fn substitution_of_bound_name() {
    check_substitution("$x:(*).(%(y)(x))", 'x', "%(x)(y)", "$z:(*).(%(y)(z))");
}

#[test]
fn substitution_nested_capture() {
    check_substitution(
        "$x:(*).($y:(*).(%(z)(%(z)(x))))",
        'z',
        "y",
        "$x:(*).($v:(*).(%(y)(%(y)(x))))",
    );
}

#[test]
fn substitution_result_reads_back_without_capture() {
    // The outer binder is renamed to `b`; the inner one, also written `b`,
    // must then be renamed too, or it would capture the outer variable.
    let r = e("$a:(*).($b:(*).(%(a)(x)))").alpha_substitution(Var('x'), e("a"));
    assert_eq!(r.de_bruijn(), e("$p:(*).($q:(*).(%(p)(a)))").de_bruijn());
}

#[test]
fn substitution_for_absent_variable_is_identity() {
    let src = e("$y:(*).(%(y)(w))");
    let r = src.alpha_substitution(Var('x'), e("%(y)(y)"));
    assert_eq!(r.de_bruijn(), src.de_bruijn());
}

#[test]
fn alpha_equivalence_true() {
    assert!(same("%($x:(*).(%(x)($z:(*).(%(x)(y)))))(z)", "%($x:(*).(%(x)($z:(*).(%(x)(y)))))(z)"));
    assert!(same("%($x:(*).(%(x)($z:(*).(%(x)(y)))))(z)", "%($u:(*).(%(u)($z:(*).(%(u)(y)))))(z)"));
    assert!(same("%($x:(*).(%(x)($z:(*).(%(x)(y)))))(z)", "%($z:(*).(%(z)($x:(*).(%(z)(y)))))(z)"));
    assert!(same("$x:(*).($y:(*).(%(%(x)(z))(y)))", "$v:(*).($y:(*).(%(%(v)(z))(y)))"));
    assert!(same("$x:(*).($y:(*).(%(%(x)(z))(y)))", "$v:(*).($u:(*).(%(%(v)(z))(u)))"));
}

#[test]
fn alpha_equivalence_false() {
    assert!(!same("%($x:(*).(%(x)($z:(*).(%(x)(y)))))(z)", "%($y:(*).(%(y)($z:(*).(%(y)(y)))))(z)"));
    assert!(!same("%($x:(*).(%(x)($z:(*).(%(x)(y)))))(z)", "%($z:(*).(%(z)($z:(*).(%(z)(y)))))(z)"));
    assert!(!same("%($x:(*).(%(x)($z:(*).(%(x)(y)))))(z)", "%($u:(*).(%(u)($z:(*).(%(u)(y)))))(v)"));
    assert!(!same("$x:(*).($y:(*).(%(%(x)(z))(y)))", "$y:(*).($y:(*).(%(%(y)(z))(y)))"));
    assert!(!same("$x:(*).($y:(*).(%(%(x)(z))(y)))", "$z:(*).($y:(*).(%(%(z)(z))(y)))"));
}

#[test]
fn alpha_key_ignores_binder_names_of_pi() {
    assert!(same("?x:(*).(x)", "?y:(*).(y)"));
    assert!(!same("?x:(*).(x)", "$x:(*).(x)"));
}

#[test]
fn alpha_key_of_definitions() {
    assert!(same("ab[($x:(*).(x)),(y)]", "ab[($z:(*).(z)),(y)]"));
    assert!(!same("ab[(y)]", "ac[(y)]"));
    assert!(!same("ab[(y)]", "ab[(y),(y)]"));
}

fn free(s: &str) -> Vec<char> {
    let mut v: Vec<char> = e(s).free_vars().into_iter().map(|v| v.0).collect();
    v.sort();
    v
}

#[test]
fn free_vars_cases() {
    assert_eq!(free("x"), vec!['x']);
    assert_eq!(free("%(x)(y)"), vec!['x', 'y']);
    assert_eq!(free("$x:(*).(x)"), Vec::<char>::new());
    assert_eq!(free("$x:(*).(%(x)(y))"), vec!['y']);
    assert_eq!(free("$x:(x).(x)"), vec!['x']);
    assert_eq!(free("ab[(x),(%(y)(x))]"), vec!['x', 'y']);
}

#[test]
fn fresh_name_keeps_a_free_name() {
    assert_eq!(generate_free_var_gte(&vec![Var('a')], Var('x')), Var('x'));
}

#[test]
fn fresh_name_counts_up() {
    assert_eq!(generate_free_var_gte(&vec![Var('x'), Var('y')], Var('x')), Var('z'));
}

#[test]
fn fresh_name_cycles_past_z() {
    assert_eq!(generate_free_var_gte(&vec![Var('z')], Var('z')), Var('A'));
    assert_eq!(generate_free_var_gte(&vec![Var('Z')], Var('Z')), Var('a'));
}

#[test]
fn fresh_name_when_letters_run_out() {
    let all: Vec<Var> = ('A'..='Z').chain('a'..='z').map(Var).collect();
    assert_eq!(generate_free_var_gte(&all, Var('q')), Var('q'));
}

#[test]
fn variable_from_text() {
    assert_eq!("x".parse::<Var>(), Ok(Var('x')));
    assert!("xy".parse::<Var>().is_err());
    assert!("".parse::<Var>().is_err());
}

#[test]
fn capture_below_the_top_changes_the_key() {
    assert!(!same("$w:(*).($x:(*).(%(x)(y)))", "$w:(*).($y:(*).(%(y)(y)))"));
    assert!(same("$w:(*).($x:(*).(%(x)(y)))", "$w:(*).($v:(*).(%(v)(y)))"));
}
