use pts_checker::error::{Error, Premise};
use pts_checker::in_tree::InTree;
use pts_checker::model::{Expr, Var};
use pts_checker::rule::{DefinitionEntry, Resolver};

fn e(s: &str) -> Expr {
    s.parse().unwrap()
}

fn key(x: &Expr) -> pts_checker::de_bruijn::Expr {
    x.de_bruijn()
}

#[test]
fn homework() {
    let mut book = Resolver::new();

    book.sort();
    book.var(0, Var('A')).unwrap();
    book.weak(0, 0, Var('A')).unwrap();
    book.var(2, Var('B')).unwrap();
    book.weak(2, 2, Var('B')).unwrap();
    book.weak(1, 2, Var('B')).unwrap();
    book.var(5, Var('a')).unwrap();
    book.weak(4, 5, Var('a')).unwrap();
    book.weak(3, 5, Var('a')).unwrap();
    assert_eq!(book.form(5, 8), Ok(9));

    let j = &book.judgements[9];
    assert_eq!(key(&j.m), key(&e("?a:(A).(B)")));
    assert!(matches!(j.n, Expr::Asterisk));
    assert_eq!(j.context, book.judgements[5].context);
    println!("{book:?}");
}

#[test]
fn sort_is_star_in_square() {
    let mut book = Resolver::new();
    assert_eq!(book.sort(), 0);
    let j = &book.judgements[0];
    assert_eq!((j.definitions, j.context), (0, 0));
    assert!(matches!(j.m, Expr::Asterisk));
    assert!(matches!(j.n, Expr::Square));
}

#[test]
fn var_needs_a_sort() {
    let mut book = Resolver::new();
    book.sort();
    book.var(0, Var('A')).unwrap();
    assert_eq!(book.var(1, Var('x')), Ok(2));
    assert_eq!(book.var(2, Var('y')), Err(Error::PremiseMismatch(Premise::SortType)));
    assert_eq!(book.judgements.len(), 3);
}

#[test]
fn out_of_range_is_undefined() {
    let mut book = Resolver::new();
    book.sort();
    assert_eq!(book.var(1, Var('A')), Err(Error::UndefinedReference));
    assert_eq!(book.weak(0, 4, Var('A')), Err(Error::UndefinedReference));
    assert_eq!(book.cp(1), Err(Error::UndefinedReference));
    assert_eq!(book.judgements.len(), 1);
}

#[test]
fn weak_needs_same_context() {
    let mut book = Resolver::new();
    book.sort();
    book.var(0, Var('A')).unwrap();
    assert_eq!(book.weak(0, 1, Var('x')), Err(Error::PremiseMismatch(Premise::SameContext)));
}

#[test]
fn same_binding_gives_same_context() {
    let mut book = Resolver::new();
    book.sort();
    book.var(0, Var('A')).unwrap();
    book.var(0, Var('A')).unwrap();
    book.var(0, Var('B')).unwrap();
    assert_eq!(book.judgements[1].context, book.judgements[2].context);
    assert_ne!(book.judgements[1].context, book.judgements[3].context);
}

#[test]
fn hash_consing_identity() {
    let mut t: InTree<(Var, Expr)> = InTree::new();
    let a = t.create(0, (Var('x'), e("*")));
    let b = t.create(0, (Var('x'), e("*")));
    let c = t.create(0, (Var('y'), e("*")));
    let d = t.create(a, (Var('x'), e("*")));
    assert_eq!(a, b);
    assert_ne!(a, c);
    assert_ne!(a, d);
    assert_eq!(t.len(d), 2);
    assert_eq!(t.parent(d), Some(a));
    assert_eq!(t.parent(0), None);
    assert_eq!(t.traverse(d, 1).map(|n| n.len), Some(1));
    assert!(t.traverse(d, 3).is_none());
    assert!(t.get(0).is_none());
    assert_eq!(t.resolve(d, |b| b.0 == Var('x')).map(|b| b.0), Some(Var('x')));
    let names: Vec<char> = t.path_values(d).iter().map(|b| (b.0).0).collect();
    assert_eq!(names, vec!['x', 'x']);
    assert!(t.path_values(0).is_empty());
    assert!(t.resolve(d, |b| b.0 == Var('z')).is_none());
}

fn star_context(book: &mut Resolver) {
    // 0: ⊢ * : @   1: B:* ⊢ B : *   2: B:* ⊢ * : @
    // 3: B:*, A:* ⊢ A : *   4: B:*, A:* ⊢ * : @
    book.sort();
    book.var(0, Var('B')).unwrap();
    book.weak(0, 0, Var('B')).unwrap();
    book.var(2, Var('A')).unwrap();
    book.weak(2, 2, Var('A')).unwrap();
}

#[test]
fn form_abst_appl() {
    let mut book = Resolver::new();
    star_context(&mut book);
    assert_eq!(book.form(2, 4), Ok(5));
    assert_eq!(key(&book.judgements[5].m), key(&e("?A:(*).(*)")));
    assert_eq!(book.abst(3, 5), Ok(6));
    assert_eq!(key(&book.judgements[6].m), key(&e("$A:(*).(A)")));
    assert_eq!(book.appl(6, 1), Ok(7));
    assert_eq!(key(&book.judgements[7].m), key(&e("%($A:(*).(A))(B)")));
    assert!(matches!(book.judgements[7].n, Expr::Asterisk));
}

#[test]
fn appl_substitutes_in_the_type() {
    let mut book = Resolver::new();
    star_context(&mut book);
    // 5: B:*, A:* ⊢ ?x:(A).(A) : *  via  A:*, x:A ⊢ A : *
    book.var(3, Var('x')).unwrap(); // 5: B,A,x:A ⊢ x : A
    book.weak(3, 3, Var('x')).unwrap(); // 6: B,A,x:A ⊢ A : *
    assert_eq!(book.form(3, 6), Ok(7)); // B,A ⊢ ?x:(A).(A) : *
    assert_eq!(book.abst(5, 7), Ok(8)); // B,A ⊢ $x:(A).(x) : ?x:(A).(A)
    assert_eq!(book.form(2, 4), Ok(9)); // B ⊢ ?A:(*).(*) : @
    // Π over A: the identity's type, abstracted over A.
    book.var(2, Var('A')).unwrap(); // 10
    assert_eq!(book.appl(8, 3), Err(Error::PremiseMismatch(Premise::ArgumentType)));
    assert_eq!(book.appl(3, 3), Err(Error::PremiseMismatch(Premise::PiType)));
    assert_eq!(book.appl(8, 1), Err(Error::PremiseMismatch(Premise::SameContext)));
    assert_eq!(book.weak(8, 3, Var('x')), Ok(11)); // B,A,x:A ⊢ $x:(A).(x) : ?x:(A).(A)
    assert_eq!(book.appl(11, 5), Ok(12)); // B,A,x:A ⊢ %($x:(A).(x))(x) : A
    assert_eq!(key(&book.judgements[12].n), key(&e("A")));
    assert_eq!(book.judgements[12].context, book.judgements[5].context);
}

#[test]
fn form_premises() {
    let mut book = Resolver::new();
    star_context(&mut book);
    assert_eq!(book.form(2, 3), Ok(5));
    assert_eq!(book.form(1, 4), Err(Error::PremiseMismatch(Premise::BindingType)));
    assert_eq!(book.form(0, 0), Err(Error::PremiseMismatch(Premise::ContextExtends)));
    assert_eq!(book.form(4, 4), Err(Error::PremiseMismatch(Premise::ContextExtends)));
}

#[test]
fn abst_premises() {
    let mut book = Resolver::new();
    star_context(&mut book);
    book.form(2, 4).unwrap(); // 5: B ⊢ ?A:(*).(*) : @
    assert_eq!(book.abst(1, 5), Err(Error::PremiseMismatch(Premise::ContextExtends)));
    book.var(0, Var('A')).unwrap(); // 6: A:* ⊢ A : *
    assert_eq!(book.abst(3, 1), Err(Error::PremiseMismatch(Premise::PiType)));
    book.var(2, Var('C')).unwrap(); // 7: B, C:* ⊢ C : *
    assert_eq!(book.abst(7, 5), Err(Error::PremiseMismatch(Premise::BinderName)));
    assert_eq!(book.abst(4, 5), Err(Error::PremiseMismatch(Premise::BodyType)));
}

#[test]
fn conv_replaces_the_type() {
    let mut book = Resolver::new();
    star_context(&mut book);
    assert_eq!(book.conv(3, 4), Ok(5));
    assert!(matches!(book.judgements[5].n, Expr::Asterisk));
    assert_eq!(book.conv(3, 1), Err(Error::PremiseMismatch(Premise::SameContext)));
}

#[test]
fn cp_copies() {
    let mut book = Resolver::new();
    star_context(&mut book);
    assert_eq!(book.cp(3), Ok(5));
    assert_eq!(book.judgements[5].context, book.judgements[3].context);
    assert_eq!(key(&book.judgements[5].m), key(&book.judgements[3].m));
}

#[test]
fn sp_projects_a_binding() {
    let mut book = Resolver::new();
    star_context(&mut book);
    assert_eq!(book.sp(4, 1), Ok(5));
    assert!(matches!(book.judgements[5].m, Expr::Var(Var('B'))));
    assert_eq!(book.sp(4, 2), Ok(6));
    assert!(matches!(book.judgements[6].m, Expr::Var(Var('A'))));
    assert_eq!(book.sp(4, 3), Err(Error::UndefinedReference));
    assert_eq!(book.sp(4, 0), Err(Error::UndefinedReference));
}

#[test]
fn duplicate_definition() {
    let mut book = Resolver::new();
    book.sort();
    assert_eq!(book.def(0, 0, "foo".to_string()), Ok(1));
    assert_eq!(book.def(1, 1, "foo".to_string()), Err(Error::DuplicateDefinition));
    assert_eq!(book.def_prim(1, 1, "foo".to_string()), Err(Error::DuplicateDefinition));
    assert_eq!(book.def(1, 1, "bar".to_string()), Ok(2));
    assert_eq!(book.def(0, 2, "baz".to_string()), Err(Error::PremiseMismatch(Premise::SameDefinitions)));
}

#[test]
fn primitive_definition_and_instance() {
    let mut book = Resolver::new();
    book.sort();
    book.var(0, Var('A')).unwrap(); // 1: A:* ⊢ A : *
    assert_eq!(book.def_prim(0, 1, "foo".to_string()), Ok(2));
    let d = book.judgements[2].definitions;
    let entry: &DefinitionEntry = &book.definitions.get(d).unwrap().value;
    assert!(entry.m.is_none());
    assert_eq!(entry.name, "foo");
    assert_eq!(book.inst_ix(2, &[2], 1), Ok(3));
    assert_eq!(key(&book.judgements[3].m), key(&e("foo[(*)]")));
    assert!(matches!(book.judgements[3].n, Expr::Asterisk));
    assert_eq!(book.inst(2, &[2], "foo".to_string()), Ok(4));
    assert_eq!(book.inst(2, &[2], "bar".to_string()), Err(Error::UndefinedReference));
    assert_eq!(book.inst_ix(2, &[2], 2), Err(Error::UndefinedReference));
    assert_eq!(book.inst_ix(2, &[], 1), Err(Error::PremiseMismatch(Premise::ArgumentCount)));
    assert_eq!(book.inst_ix(2, &[0], 1), Err(Error::PremiseMismatch(Premise::SameDefinitions)));
    assert_eq!(book.inst_ix(3, &[2], 1), Err(Error::PremiseMismatch(Premise::KindJudgement)));
}

#[test]
fn judgements_are_never_rewritten() {
    let mut book = Resolver::new();
    star_context(&mut book);
    let before: Vec<_> = book.judgements.iter().map(|j| (j.definitions, j.context, key(&j.m), key(&j.n))).collect();
    book.form(2, 4).unwrap();
    let _ = book.appl(0, 0);
    book.cp(1).unwrap();
    for (i, b) in before.iter().enumerate() {
        let j = &book.judgements[i];
        assert_eq!(&(j.definitions, j.context, key(&j.m), key(&j.n)), b);
    }
}
