//! The surface syntax of expressions: every subterm in parentheses, one
//! letter for a variable, two or more for a definition's name.
use crate::error::ParseError;
use crate::model::{Application, Definition, Expr, Lambda, Pi, Term, Var};
use vstd::prelude::*;

verus! {

/// The text of a term.
pub open spec fn print(t: Term) -> Seq<char>
    decreases t,
{
    match t {
        Term::Var(x) => seq![x],
        Term::Star => seq!['*'],
        Term::Square => seq!['@'],
        Term::App(f, a) => seq!['%', '('] + print(*f) + seq![')', '('] + print(*a) + seq![')'],
        Term::Lam(x, m, n) => seq!['$', x, ':', '('] + print(*m) + seq![')', '.', '('] + print(*n)
            + seq![')'],
        Term::Pi(x, m, n) => seq!['?', x, ':', '('] + print(*m) + seq![')', '.', '('] + print(*n)
            + seq![')'],
        Term::Def(name, args) => name + seq!['['] + print_args(args) + seq![']'],
    }
}

/// The text of the arguments of a definition: each in parentheses, separated
/// by commas.
pub open spec fn print_args(args: Seq<Term>) -> Seq<char>
    decreases args,
{
    if args.len() == 0 {
        Seq::empty()
    } else {
        seq!['('] + print(args[0]) + seq![')'] + print_more(args.drop_first())
    }
}

/// The text of further arguments: each after a comma, in parentheses.
pub open spec fn print_more(args: Seq<Term>) -> Seq<char>
    decreases args,
{
    if args.len() == 0 {
        Seq::empty()
    } else {
        seq![',', '('] + print(args[0]) + seq![')'] + print_more(args.drop_first())
    }
}

/// Whether a term has a text: variables and binders are letters, the name
/// of a definition is two letters or more.
pub open spec fn writable(t: Term) -> bool
    decreases t,
{
    match t {
        Term::Var(x) => is_letter(x),
        Term::Star | Term::Square => true,
        Term::Lam(x, m, n) => is_letter(x) && writable(*m) && writable(*n),
        Term::Pi(x, m, n) => is_letter(x) && writable(*m) && writable(*n),
        Term::App(f, a) => writable(*f) && writable(*a),
        Term::Def(name, args) => name.len() >= 2 && (forall|i: int| 0 <= i < name.len() ==> is_letter(#[trigger] name[i]))
            && writable_all(args),
    }
}

pub open spec fn writable_all(s: Seq<Term>) -> bool
    decreases s,
{
    if s.len() == 0 {
        true
    } else {
        writable(s[0]) && writable_all(s.drop_first())
    }
}

/// Whether `s` is the text of `t` followed by `rest`, with nothing in `rest`
/// that would run on into it (a letter after a variable).
pub open spec fn reads_as(s: Seq<char>, t: Term, rest: Seq<char>) -> bool {
    &&& writable(t)
    &&& s == print(t) + rest
    &&& t is Var ==> rest.len() == 0 || !is_letter(rest[0])
}

/// The text of an abstraction after its sign: `x:(M).(N)`.
pub open spec fn binder_text(x: char, m: Term, n: Term) -> Seq<char> {
    seq![x, ':', '('] + print(m) + seq![')', '.', '('] + print(n) + seq![')']
}

pub open spec fn binder_reads(s: Seq<char>, x: char, m: Term, n: Term, rest: Seq<char>) -> bool {
    is_letter(x) && writable(m) && writable(n) && s == binder_text(x, m, n) + rest
}

/// The text of an application after its sign: `(M)(N)`.
pub open spec fn app_text(f: Term, a: Term) -> Seq<char> {
    seq!['('] + print(f) + seq![')', '('] + print(a) + seq![')']
}

pub open spec fn app_reads(s: Seq<char>, f: Term, a: Term, rest: Seq<char>) -> bool {
    writable(f) && writable(a) && s == app_text(f, a) + rest
}

/// An ASCII letter.
pub open spec fn is_letter(c: char) -> bool {
    ('a' <= c && c <= 'z') || ('A' <= c && c <= 'Z')
}

fn letter(c: char) -> (r: bool)
    ensures
        r == is_letter(c),
{
    ('a' <= c && c <= 'z') || ('A' <= c && c <= 'Z')
}

fn take_one(input: &mut &[char]) -> (r: Result<char, ParseError>)
    ensures
        old(input)@.len() == 0 <==> r is Err,
        r is Err ==> r == Err::<char, ParseError>(ParseError::UnexpectedEnd) && final(input)@ == old(input)@,
        r is Ok ==> r->Ok_0 == old(input)@[0] && final(input)@ == old(input)@.subrange(1, old(input)@.len() as int),
{
    if input.len() == 0 {
        return Err(ParseError::UnexpectedEnd);
    }
    let c = input[0];
    *input = &input[1..input.len()];
    Ok(c)
}

fn take_var(input: &mut &[char]) -> (r: Result<Var, ParseError>)
    ensures
        r is Ok <==> old(input)@.len() > 0 && is_letter(old(input)@[0]),
        r is Ok ==> r->Ok_0.0 == old(input)@[0] && final(input)@ == old(input)@.subrange(1, old(input)@.len() as int),
{
    let v = take_one(input)?;
    if letter(v) {
        Ok(Var(v))
    } else {
        Err(ParseError::ExpectingVariable)
    }
}

fn take_exact(input: &mut &[char], e: char) -> (r: Result<(), ParseError>)
    ensures
        r is Ok <==> old(input)@.len() > 0 && old(input)@[0] == e,
        r is Ok ==> final(input)@ == old(input)@.subrange(1, old(input)@.len() as int),
        r is Err ==> final(input)@ == old(input)@,
{
    if input.len() == 0 {
        return Err(ParseError::UnexpectedEnd);
    }
    let v = input[0];
    if v == e {
        take_one(input)?;
        Ok(())
    } else {
        Err(ParseError::Expecting(e))
    }
}

/// What follows `M` in the text of an abstraction `x:(M).(N)` ending `rest`.
pub open spec fn after_domain(n: Term, rest: Seq<char>) -> Seq<char> {
    seq![')', '.', '('] + print(n) + seq![')'] + rest
}

/// The parts of the text of an abstraction.
proof fn lemma_binder_parts(s0: Seq<char>, x: char, m: Term, n: Term, rest: Seq<char>)
    requires
        s0 == binder_text(x, m, n) + rest,
    ensures
        s0.len() >= 3,
        s0[0] == x,
        s0[1] == ':',
        s0[2] == '(',
        s0.subrange(3, s0.len() as int) == print(m) + after_domain(n, rest),
{
    assert(s0 =~= seq![x, ':', '('] + (print(m) + after_domain(n, rest)));
    assert(s0.subrange(3, s0.len() as int) =~= print(m) + after_domain(n, rest));
}

/// The parts of what follows the domain.
proof fn lemma_after_domain(s: Seq<char>, n: Term, rest: Seq<char>)
    requires
        s == after_domain(n, rest),
    ensures
        s.len() >= 3,
        s[0] == ')',
        s[1] == '.',
        s[2] == '(',
        s.subrange(3, s.len() as int) == print(n) + (seq![')'] + rest),
{
    assert(s.subrange(3, s.len() as int) =~= print(n) + (seq![')'] + rest));
}

/// A nonempty sequence without its first element.
proof fn lemma_tail(s: Seq<char>, t: Seq<char>)
    requires
        s.len() > 0,
        t == s.subrange(1, s.len() as int),
    ensures
        forall|i: int| 0 <= i < t.len() ==> t[i] == s[i + 1],
        t.len() == s.len() - 1,
{
}

/// Reads `x:(M).(N)`, the part of an abstraction after its sign.
#[verifier::rlimit(60)]
fn take_binder(input: &mut &[char]) -> (r: Result<(Var, Expr, Expr), ParseError>)
    ensures
        r is Ok ==> ({
            let (x, m, n) = r->Ok_0;
            binder_reads(old(input)@, x.0, m@, n@, final(input)@)
        }),
        forall|x: char, m: Term, n: Term, rest: Seq<char>|
            #[trigger] binder_reads(old(input)@, x, m, n, rest) ==> r is Ok && r->Ok_0.0.0 == x && r->Ok_0.1@
                == m && r->Ok_0.2@ == n && final(input)@ == rest,
    decreases old(input)@.len(), 0int,
{
    let ghost s0 = input@;
    let x = match take_var(input) {
        Ok(x) => x,
        Err(e) => {
            proof {
                assert forall|x2: char, m2: Term, n2: Term, rest2: Seq<char>| !#[trigger] binder_reads(s0, x2, m2, n2, rest2) by {
                    if binder_reads(s0, x2, m2, n2, rest2) {
                        lemma_binder_parts(s0, x2, m2, n2, rest2);
                    }
                }
            }
            return Err(e);
        },
    };
    let ghost s1 = input@;
    let ghost s3 = s0.subrange(3, s0.len() as int);
    let ok1 = take_exact(input, ':');
    let ghost s2 = input@;
    let ok2 = if ok1.is_ok() { take_exact(input, '(') } else { ok1 };
    if let Err(err) = ok2 {
        proof {
            assert forall|x2: char, m2: Term, n2: Term, rest2: Seq<char>| !#[trigger] binder_reads(s0, x2, m2, n2, rest2) by {
                if binder_reads(s0, x2, m2, n2, rest2) {
                    lemma_binder_parts(s0, x2, m2, n2, rest2);
                    lemma_tail(s0, s1);
                    if ok1.is_ok() {
                        lemma_tail(s1, s2);
                    }
                }
            }
        }
        return Err(err);
    }
    proof {
        lemma_tail(s0, s1);
        lemma_tail(s1, s2);
        lemma_tail(s2, input@);
        assert(input@ =~= s3);
    }
    let m = match take_expr(input) {
        Ok(m) => m,
        Err(e) => {
            proof {
                assert forall|x2: char, m2: Term, n2: Term, rest2: Seq<char>| !#[trigger] binder_reads(s0, x2, m2, n2, rest2) by {
                    if binder_reads(s0, x2, m2, n2, rest2) {
                        lemma_binder_parts(s0, x2, m2, n2, rest2);
                        assert(after_domain(n2, rest2)[0] == ')');
                        assert(reads_as(s3, m2, after_domain(n2, rest2)));
                    }
                }
            }
            return Err(e);
        },
    };
    let ghost s4 = input@;
    assert(s4.len() <= s3.len());
    let ok3 = take_exact(input, ')');
    let ghost s5 = input@;
    let ok4 = if ok3.is_ok() { take_exact(input, '.') } else { ok3 };
    let ghost s6 = input@;
    let ok5 = if ok4.is_ok() { take_exact(input, '(') } else { ok4 };
    if let Err(err) = ok5 {
        proof {
            assert forall|x2: char, m2: Term, n2: Term, rest2: Seq<char>| !#[trigger] binder_reads(s0, x2, m2, n2, rest2) by {
                if binder_reads(s0, x2, m2, n2, rest2) {
                    lemma_binder_parts(s0, x2, m2, n2, rest2);
                    assert(after_domain(n2, rest2)[0] == ')');
                    assert(reads_as(s3, m2, after_domain(n2, rest2)));
                    lemma_after_domain(s4, n2, rest2);
                    if ok3.is_ok() {
                        lemma_tail(s4, s5);
                        if ok4.is_ok() {
                            lemma_tail(s5, s6);
                        }
                    }
                }
            }
        }
        return Err(err);
    }
    let ghost s7 = input@;
    let ghost s7e = s4.subrange(3, s4.len() as int);
    proof {
        lemma_tail(s4, s5);
        lemma_tail(s5, s6);
        lemma_tail(s6, s7);
        assert(s7 =~= s7e);
    }
    assert(s7.len() < s0.len());
    let n = match take_expr(input) {
        Ok(n) => n,
        Err(e) => {
            proof {
                assert forall|x2: char, m2: Term, n2: Term, rest2: Seq<char>| !#[trigger] binder_reads(s0, x2, m2, n2, rest2) by {
                    if binder_reads(s0, x2, m2, n2, rest2) {
                        lemma_binder_parts(s0, x2, m2, n2, rest2);
                        assert(after_domain(n2, rest2)[0] == ')');
                        assert(reads_as(s3, m2, after_domain(n2, rest2)));
                        lemma_after_domain(s4, n2, rest2);
                        assert((seq![')'] + rest2)[0] == ')');
                        assert(reads_as(s7, n2, seq![')'] + rest2));
                    }
                }
            }
            return Err(e);
        },
    };
    let ghost s8 = input@;
    let ok6 = take_exact(input, ')');
    if let Err(err) = ok6 {
        proof {
            assert forall|x2: char, m2: Term, n2: Term, rest2: Seq<char>| !#[trigger] binder_reads(s0, x2, m2, n2, rest2) by {
                if binder_reads(s0, x2, m2, n2, rest2) {
                    lemma_binder_parts(s0, x2, m2, n2, rest2);
                    assert(after_domain(n2, rest2)[0] == ')');
                    assert(reads_as(s3, m2, after_domain(n2, rest2)));
                    lemma_after_domain(s4, n2, rest2);
                    assert((seq![')'] + rest2)[0] == ')');
                    assert(reads_as(s7, n2, seq![')'] + rest2));
                }
            }
        }
        return Err(err);
    }
    proof {
        lemma_tail(s8, input@);
        assert(s8 =~= seq![')'] + input@);
        assert(s4[0] == ')');
        assert(s5[0] == '.');
        assert(s6[0] == '(');
        assert(s4 =~= seq![')', '.', '('] + s7);
        assert(s0[0] == x.0);
        assert(s1[0] == ':');
        assert(s2[0] == '(');
        assert(s0 =~= seq![x.0, ':', '('] + s3);
        assert(s4 =~= after_domain(n@, input@));
        assert(s0 =~= binder_text(x.0, m@, n@) + input@);
        assert forall|x2: char, m2: Term, n2: Term, rest2: Seq<char>|
            #[trigger] binder_reads(s0, x2, m2, n2, rest2) implies x.0 == x2 && m@ == m2 && n@ == n2 && input@ == rest2 by {
            lemma_binder_parts(s0, x2, m2, n2, rest2);
            assert(after_domain(n2, rest2)[0] == ')');
            assert(reads_as(s3, m2, after_domain(n2, rest2)));
            lemma_after_domain(s4, n2, rest2);
            assert((seq![')'] + rest2)[0] == ')');
            assert(reads_as(s7, n2, seq![')'] + rest2));
            lemma_tail(s8, input@);
            assert(rest2 =~= input@);
        }
    }
    Ok((x, m, n))
}

fn take_pi(input: &mut &[char]) -> (r: Result<Pi, ParseError>)
    ensures
        r is Ok ==> binder_reads(old(input)@, r->Ok_0.0.0, r->Ok_0.1@, r->Ok_0.2@, final(input)@),
        forall|x: char, m: Term, n: Term, rest: Seq<char>|
            #[trigger] binder_reads(old(input)@, x, m, n, rest) ==> r is Ok && r->Ok_0.0.0 == x && r->Ok_0.1@
                == m && r->Ok_0.2@ == n && final(input)@ == rest,
    decreases old(input)@.len(), 1int,
{
    let (x, m, n) = take_binder(input)?;
    Ok(Pi(x, m, n))
}

fn take_lambda(input: &mut &[char]) -> (r: Result<Lambda, ParseError>)
    ensures
        r is Ok ==> binder_reads(old(input)@, r->Ok_0.0.0, r->Ok_0.1@, r->Ok_0.2@, final(input)@),
        forall|x: char, m: Term, n: Term, rest: Seq<char>|
            #[trigger] binder_reads(old(input)@, x, m, n, rest) ==> r is Ok && r->Ok_0.0.0 == x && r->Ok_0.1@
                == m && r->Ok_0.2@ == n && final(input)@ == rest,
    decreases old(input)@.len(), 1int,
{
    let (x, m, n) = take_binder(input)?;
    Ok(Lambda(x, m, n))
}

/// What follows `M` in the text of an application `(M)(N)` ending `rest`.
pub open spec fn after_fun(a: Term, rest: Seq<char>) -> Seq<char> {
    seq![')', '('] + print(a) + seq![')'] + rest
}

proof fn lemma_app_parts(s0: Seq<char>, f: Term, a: Term, rest: Seq<char>)
    requires
        s0 == app_text(f, a) + rest,
    ensures
        s0.len() >= 1,
        s0[0] == '(',
        s0.subrange(1, s0.len() as int) == print(f) + after_fun(a, rest),
        after_fun(a, rest)[0] == ')',
        after_fun(a, rest)[1] == '(',
        after_fun(a, rest).subrange(2, after_fun(a, rest).len() as int) == print(a) + (seq![')'] + rest),
        (seq![')'] + rest)[0] == ')',
{
    assert(s0 =~= seq!['('] + (print(f) + after_fun(a, rest)));
    assert(s0.subrange(1, s0.len() as int) =~= print(f) + after_fun(a, rest));
    assert(after_fun(a, rest).subrange(2, after_fun(a, rest).len() as int) =~= print(a) + (seq![')'] + rest));
}

fn take_application(input: &mut &[char]) -> (r: Result<Application, ParseError>)
    ensures
        r is Ok ==> app_reads(old(input)@, r->Ok_0.0@, r->Ok_0.1@, final(input)@),
        forall|f: Term, a: Term, rest: Seq<char>|
            #[trigger] app_reads(old(input)@, f, a, rest) ==> r is Ok && r->Ok_0.0@ == f && r->Ok_0.1@ == a
                && final(input)@ == rest,
    decreases old(input)@.len(), 1int,
{
    let ghost s0 = input@;
    if let Err(err) = take_exact(input, '(') {
        proof {
            assert forall|f: Term, a: Term, rest: Seq<char>| !#[trigger] app_reads(s0, f, a, rest) by {
                if app_reads(s0, f, a, rest) {
                    lemma_app_parts(s0, f, a, rest);
                }
            }
        }
        return Err(err);
    }
    let ghost s1 = input@;
    let m = match take_expr(input) {
        Ok(m) => m,
        Err(e) => {
            proof {
                assert forall|f: Term, a: Term, rest: Seq<char>| !#[trigger] app_reads(s0, f, a, rest) by {
                    if app_reads(s0, f, a, rest) {
                        lemma_app_parts(s0, f, a, rest);
                        assert(reads_as(s1, f, after_fun(a, rest)));
                    }
                }
            }
            return Err(e);
        },
    };
    let ghost s2 = input@;
    let ok1 = take_exact(input, ')');
    let ghost s3 = input@;
    let ok2 = if ok1.is_ok() { take_exact(input, '(') } else { ok1 };
    if let Err(err) = ok2 {
        proof {
            assert forall|f: Term, a: Term, rest: Seq<char>| !#[trigger] app_reads(s0, f, a, rest) by {
                if app_reads(s0, f, a, rest) {
                    lemma_app_parts(s0, f, a, rest);
                    assert(reads_as(s1, f, after_fun(a, rest)));
                    if ok1.is_ok() {
                        lemma_tail(s2, s3);
                    }
                }
            }
        }
        return Err(err);
    }
    let ghost s4 = input@;
    proof {
        lemma_tail(s2, s3);
        lemma_tail(s3, s4);
        assert(s4 =~= s2.subrange(2, s2.len() as int));
    }
    assert(s2.len() <= s1.len());
    assert(s4.len() < s0.len());
    let n = match take_expr(input) {
        Ok(n) => n,
        Err(e) => {
            proof {
                assert forall|f: Term, a: Term, rest: Seq<char>| !#[trigger] app_reads(s0, f, a, rest) by {
                    if app_reads(s0, f, a, rest) {
                        lemma_app_parts(s0, f, a, rest);
                        assert(reads_as(s1, f, after_fun(a, rest)));
                        assert(reads_as(s4, a, seq![')'] + rest));
                    }
                }
            }
            return Err(e);
        },
    };
    let ghost s5 = input@;
    if let Err(err) = take_exact(input, ')') {
        proof {
            assert forall|f: Term, a: Term, rest: Seq<char>| !#[trigger] app_reads(s0, f, a, rest) by {
                if app_reads(s0, f, a, rest) {
                    lemma_app_parts(s0, f, a, rest);
                    assert(reads_as(s1, f, after_fun(a, rest)));
                    assert(reads_as(s4, a, seq![')'] + rest));
                }
            }
        }
        return Err(err);
    }
    proof {
        lemma_tail(s5, input@);
        assert(s5 =~= seq![')'] + input@);
        assert(s2[0] == ')');
        assert(s3[0] == '(');
        assert(s2 =~= seq![')', '('] + s4);
        assert(s0[0] == '(');
        lemma_tail(s0, s1);
        assert(s0 =~= seq!['('] + s1);
        assert(s2 =~= after_fun(n@, input@));
        assert(s0 =~= app_text(m@, n@) + input@);
        assert forall|f: Term, a: Term, rest: Seq<char>|
            #[trigger] app_reads(s0, f, a, rest) implies m@ == f && n@ == a && input@ == rest by {
            lemma_app_parts(s0, f, a, rest);
            assert(reads_as(s1, f, after_fun(a, rest)));
            assert(reads_as(s4, a, seq![')'] + rest));
            assert(rest =~= input@);
        }
    }
    Ok(Application(m, n))
}

/// Whether `s` is the text of further arguments `args` followed by `rest`,
/// which does not go on with a comma.
pub open spec fn more_reads(s: Seq<char>, args: Seq<Term>, rest: Seq<char>) -> bool {
    writable_all(args) && s == print_more(args) + rest && !(rest.len() > 0 && rest[0] == ',')
}

proof fn lemma_more_parts(s0: Seq<char>, args: Seq<Term>, rest: Seq<char>)
    requires
        more_reads(s0, args, rest),
        args.len() > 0,
    ensures
        s0.len() >= 2,
        s0[0] == ',',
        s0[1] == '(',
        writable(args[0]),
        reads_as(s0.subrange(2, s0.len() as int), args[0], seq![')'] + print_more(args.drop_first()) + rest),
        more_reads(print_more(args.drop_first()) + rest, args.drop_first(), rest),
{
    let tail = seq![')'] + print_more(args.drop_first()) + rest;
    assert(s0 =~= seq![',', '('] + (print(args[0]) + tail));
    assert(s0.subrange(2, s0.len() as int) =~= print(args[0]) + tail);
    assert(tail[0] == ')');
}

/// Reads further arguments `,(E)` as long as a comma follows, appending
/// them to `d`.
fn take_more_args(input: &mut &[char], d: &mut Vec<Expr>) -> (r: Result<(), ParseError>)
    ensures
        final(d)@.len() >= old(d)@.len(),
        final(d)@.subrange(0, old(d)@.len() as int) == old(d)@,
        r is Ok ==> more_reads(
            old(input)@,
            crate::model::terms(final(d)@.subrange(old(d)@.len() as int, final(d)@.len() as int)),
            final(input)@,
        ),
        forall|args: Seq<Term>, rest: Seq<char>|
            #[trigger] more_reads(old(input)@, args, rest) ==> r is Ok && crate::model::terms(
                final(d)@.subrange(old(d)@.len() as int, final(d)@.len() as int),
            ) == args && final(input)@ == rest,
    decreases old(input)@.len(), 1int,
{
    let ghost s0 = input@;
    let ghost d0 = d@;
    if input.len() == 0 || input[0] != ',' {
        proof {
            assert(d@.subrange(0, d0.len() as int) =~= d0);
            assert(d@.subrange(d0.len() as int, d@.len() as int) =~= Seq::<Expr>::empty());
            assert(crate::model::terms(Seq::<Expr>::empty()) == Seq::<Term>::empty());
            assert(s0 =~= print_more(Seq::<Term>::empty()) + s0);
            assert forall|args: Seq<Term>, rest: Seq<char>| #[trigger] more_reads(s0, args, rest) implies Seq::<Term>::empty() == args && s0 == rest by {
                if args.len() > 0 {
                    lemma_more_parts(s0, args, rest);
                }
                assert(s0 =~= rest);
            }
        }
        return Ok(());
    }
    let ghost s1 = s0.subrange(2, s0.len() as int);
    let _comma = take_exact(input, ',');
    let ghost sa = input@;
    proof {
        lemma_tail(s0, sa);
    }
    let ok = take_exact(input, '(');
    if let Err(err) = ok {
        proof {
            assert(d@.subrange(0, d0.len() as int) =~= d0);
            assert forall|args: Seq<Term>, rest: Seq<char>| !#[trigger] more_reads(s0, args, rest) by {
                if more_reads(s0, args, rest) {
                    if args.len() > 0 {
                        lemma_more_parts(s0, args, rest);
                    } else {
                        assert(s0 =~= rest);
                    }
                }
            }
        }
        return Err(err);
    }
    proof {
        lemma_tail(sa, input@);
    }
    assert(input@ =~= s1);
    assert(s0 =~= seq![',', '('] + s1);
    let e = match take_expr(input) {
        Ok(e) => e,
        Err(err) => {
            proof {
                assert(d@.subrange(0, d0.len() as int) =~= d0);
                assert forall|args: Seq<Term>, rest: Seq<char>| !#[trigger] more_reads(s0, args, rest) by {
                    if more_reads(s0, args, rest) {
                        if args.len() > 0 {
                            lemma_more_parts(s0, args, rest);
                        } else {
                            assert(s0 =~= rest);
                        }
                    }
                }
            }
            return Err(err);
        },
    };
    let ghost s2 = input@;
    if let Err(err) = take_exact(input, ')') {
        proof {
            assert(d@.subrange(0, d0.len() as int) =~= d0);
            assert forall|args: Seq<Term>, rest: Seq<char>| !#[trigger] more_reads(s0, args, rest) by {
                if more_reads(s0, args, rest) {
                    if args.len() > 0 {
                        lemma_more_parts(s0, args, rest);
                    } else {
                        assert(s0 =~= rest);
                    }
                }
            }
        }
        return Err(err);
    }
    let ghost s3 = input@;
    proof {
        lemma_tail(s2, s3);
    }
    d.push(e);
    let ghost d1 = d@;
    let r = take_more_args(input, d);
    proof {
        let dn = d@;
        assert(dn.subrange(0, d1.len() as int) == d1);
        assert(dn.subrange(0, d0.len() as int) =~= d0) by {
            assert(d1.subrange(0, d0.len() as int) =~= d0);
        }
        let newp = dn.subrange(d0.len() as int, dn.len() as int);
        let later = dn.subrange(d1.len() as int, dn.len() as int);
        assert(d1[d0.len() as int] == e);
        assert(dn.subrange(0, d1.len() as int)[d0.len() as int] == dn[d0.len() as int]);
        assert(newp[0] == e);
        assert(newp.drop_first() =~= later);
        crate::model::lemma_terms(newp);
        crate::model::lemma_terms(later);
        assert(crate::model::terms(newp).drop_first() =~= crate::model::terms(later));
        assert(crate::model::terms(newp)[0] == e@);
        if r is Ok {
            assert(s2 =~= seq![')'] + s3);
            let tn = crate::model::terms(newp);
            assert(print_more(tn) == seq![',', '('] + print(tn[0]) + seq![')'] + print_more(tn.drop_first()));
            assert(s0 =~= print_more(tn) + input@);
        }
        assert forall|args: Seq<Term>, rest: Seq<char>|
            #[trigger] more_reads(s0, args, rest) implies r is Ok && crate::model::terms(newp) == args && input@ == rest by {
            if args.len() > 0 {
                lemma_more_parts(s0, args, rest);
                assert(s3 =~= print_more(args.drop_first()) + rest);
                assert(more_reads(s3, args.drop_first(), rest));
                assert(crate::model::terms(newp) =~= seq![args[0]] + args.drop_first());
                assert(args =~= seq![args[0]] + args.drop_first());
            } else {
                assert(s0 =~= rest);
            }
        }
    }
    r
}

/// Whether `s` is the text of the arguments `args` followed by `rest`,
/// which goes on with neither a parenthesis nor a comma.
pub open spec fn args_reads(s: Seq<char>, args: Seq<Term>, rest: Seq<char>) -> bool {
    writable_all(args) && s == print_args(args) + rest && !(rest.len() > 0 && (rest[0] == '(' || rest[0]
        == ','))
}

/// Reads the arguments of a definition: none, or `(E)` and further ones.
fn take_args(input: &mut &[char]) -> (r: Result<Vec<Expr>, ParseError>)
    ensures
        r is Ok ==> writable_all(crate::model::terms(r->Ok_0@)) && old(input)@ == print_args(
            crate::model::terms(r->Ok_0@),
        ) + final(input)@,
        forall|args: Seq<Term>, rest: Seq<char>|
            #[trigger] args_reads(old(input)@, args, rest) ==> r is Ok && crate::model::terms(r->Ok_0@) == args
                && final(input)@ == rest,
    decreases old(input)@.len(), 2int,
{
    let ghost s0 = input@;
    let mut d: Vec<Expr> = Vec::new();
    if let Err(err) = take_exact(input, '(') {
        proof {
            assert(crate::model::terms(d@) =~= Seq::<Term>::empty());
            assert(s0 =~= print_args(Seq::<Term>::empty()) + s0);
            assert forall|args: Seq<Term>, rest: Seq<char>| #[trigger] args_reads(s0, args, rest) implies args
                == Seq::<Term>::empty() && s0 == rest by {
                if args.len() > 0 {
                    assert(s0[0] == '(');
                }
                assert(s0 =~= rest);
            }
        }
        return Ok(d);
    }
    let ghost s2 = input@;
    proof {
        lemma_tail(s0, s2);
        assert(s0 =~= seq!['('] + s2);
    }
    let m = match take_expr(input) {
        Ok(m) => m,
        Err(e) => {
            proof {
                assert forall|args: Seq<Term>, rest: Seq<char>| !#[trigger] args_reads(s0, args, rest) by {
                    if args_reads(s0, args, rest) {
                        if args.len() > 0 {
                            let tail = seq![')'] + print_more(args.drop_first()) + rest;
                            assert(s2 =~= print(args[0]) + tail);
                            assert(tail[0] == ')');
                            assert(reads_as(s2, args[0], tail));
                        } else {
                            assert(s0 =~= rest);
                        }
                    }
                }
            }
            return Err(e);
        },
    };
    let ghost s3 = input@;
    if let Err(err) = take_exact(input, ')') {
        proof {
            assert forall|args: Seq<Term>, rest: Seq<char>| !#[trigger] args_reads(s0, args, rest) by {
                if args_reads(s0, args, rest) {
                    if args.len() > 0 {
                        let tail = seq![')'] + print_more(args.drop_first()) + rest;
                        assert(s2 =~= print(args[0]) + tail);
                        assert(tail[0] == ')');
                        assert(reads_as(s2, args[0], tail));
                    } else {
                        assert(s0 =~= rest);
                    }
                }
            }
        }
        return Err(err);
    }
    let ghost s4 = input@;
    proof {
        lemma_tail(s3, s4);
        assert(s3 =~= seq![')'] + s4);
    }
    d.push(m);
    let ghost d1 = d@;
    assert(d1 =~= seq![m]);
    assert(s4.len() < s0.len());
    let r = take_more_args(input, &mut d);
    proof {
        assert(d@.subrange(0, 1) == d1);
        assert(d@.subrange(0, 1)[0] == d@[0]);
        let later = d@.subrange(1, d@.len() as int);
        crate::model::lemma_terms(d@);
        crate::model::lemma_terms(later);
        assert(d@[0] == m);
        assert(crate::model::terms(d@).drop_first() =~= crate::model::terms(later));
        assert(crate::model::terms(d@)[0] == m@);
        let ts = crate::model::terms(d@);
        if r is Ok {
            assert(print_args(ts) == seq!['('] + print(ts[0]) + seq![')'] + print_more(ts.drop_first()));
            assert(s0 =~= print_args(ts) + input@);
        }
        assert forall|args: Seq<Term>, rest: Seq<char>|
            #[trigger] args_reads(s0, args, rest) implies r is Ok && ts == args && input@ == rest by {
            if args.len() > 0 {
                let tail = seq![')'] + print_more(args.drop_first()) + rest;
                assert(s2 =~= print(args[0]) + tail);
                assert(tail[0] == ')');
                assert(reads_as(s2, args[0], tail));
                assert(s4 =~= print_more(args.drop_first()) + rest);
                assert(more_reads(s4, args.drop_first(), rest));
                assert(ts =~= seq![args[0]] + args.drop_first());
                assert(args =~= seq![args[0]] + args.drop_first());
            } else {
                assert(s0 =~= rest);
            }
        }
    }
    match r {
        Ok(()) => Ok(d),
        Err(e) => Err(e),
    }
}

/// Whether `s` is `[A₁,…,Aₖ]` followed by `rest`.
pub open spec fn def_reads(s: Seq<char>, args: Seq<Term>, rest: Seq<char>) -> bool {
    writable_all(args) && s == seq!['['] + print_args(args) + seq![']'] + rest
}

fn take_definition(name: String, input: &mut &[char]) -> (r: Result<Definition, ParseError>)
    ensures
        r is Ok ==> r->Ok_0.0@ == name@ && def_reads(old(input)@, crate::model::terms(r->Ok_0.1@), final(input)@),
        forall|args: Seq<Term>, rest: Seq<char>|
            #[trigger] def_reads(old(input)@, args, rest) ==> r is Ok && crate::model::terms(r->Ok_0.1@) == args
                && final(input)@ == rest,
    decreases old(input)@.len(), 2int,
{
    let ghost s0 = input@;
    if let Err(err) = take_exact(input, '[') {
        proof {
            assert forall|args: Seq<Term>, rest: Seq<char>| !#[trigger] def_reads(s0, args, rest) by {
                if def_reads(s0, args, rest) {
                    assert(s0[0] == '[');
                }
            }
        }
        return Err(err);
    }
    let ghost s1 = input@;
    proof {
        lemma_tail(s0, s1);
        assert(s0 =~= seq!['['] + s1);
        assert forall|args: Seq<Term>, rest: Seq<char>| #[trigger] def_reads(s0, args, rest) implies args_reads(s1, args, seq![']'] + rest) by {
            assert(s1 =~= print_args(args) + (seq![']'] + rest));
            assert((seq![']'] + rest)[0] == ']');
        }
    }
    let d = match take_args(input) {
        Ok(d) => d,
        Err(e) => {
            proof {
                assert forall|args: Seq<Term>, rest: Seq<char>| !#[trigger] def_reads(s0, args, rest) by {
                    if def_reads(s0, args, rest) {
                        assert(args_reads(s1, args, seq![']'] + rest));
                    }
                }
            }
            return Err(e);
        },
    };
    let ghost s5 = input@;
    if let Err(err) = take_exact(input, ']') {
        proof {
            assert forall|args: Seq<Term>, rest: Seq<char>| !#[trigger] def_reads(s0, args, rest) by {
                if def_reads(s0, args, rest) {
                    assert(args_reads(s1, args, seq![']'] + rest));
                }
            }
        }
        return Err(err);
    }
    proof {
        lemma_tail(s5, input@);
        assert(s5 =~= seq![']'] + input@);
        let ts = crate::model::terms(d@);
        assert(s0 =~= seq!['['] + print_args(ts) + seq![']'] + input@);
        assert forall|args: Seq<Term>, rest: Seq<char>|
            #[trigger] def_reads(s0, args, rest) implies ts == args && input@ == rest by {
            assert(args_reads(s1, args, seq![']'] + rest));
            assert(rest =~= input@);
        }
    }
    Ok(Definition(name, d))
}

/// How a text that reads as `t` begins, by the shape of `t`.
proof fn lemma_reads_shape(s0: Seq<char>, t: Term, rest: Seq<char>)
    requires
        reads_as(s0, t, rest),
    ensures
        s0.len() >= 1,
        match t {
            Term::Var(x) => s0[0] == x && is_letter(x) && s0.subrange(1, s0.len() as int) == rest && (s0.len()
                == 1 || !is_letter(s0[1])),
            Term::Star => s0[0] == '*' && s0.subrange(1, s0.len() as int) == rest,
            Term::Square => s0[0] == '@' && s0.subrange(1, s0.len() as int) == rest,
            Term::App(f, a) => s0[0] == '%' && app_reads(s0.subrange(1, s0.len() as int), *f, *a, rest),
            Term::Lam(x, m, n) => s0[0] == '$' && binder_reads(s0.subrange(1, s0.len() as int), x, *m, *n, rest),
            Term::Pi(x, m, n) => s0[0] == '?' && binder_reads(s0.subrange(1, s0.len() as int), x, *m, *n, rest),
            Term::Def(name, args) => name.len() >= 2 && name.len() < s0.len() && (forall|j: int|
                0 <= j < name.len() ==> s0[j] == name[j] && is_letter(#[trigger] s0[j])) && s0[name.len() as int]
                == '[' && def_reads(s0.subrange(name.len() as int, s0.len() as int), args, rest),
        },
{
    match t {
        Term::Var(x) => {
            assert(s0 =~= seq![x] + rest);
            assert(s0.subrange(1, s0.len() as int) =~= rest);
        },
        Term::Star => {
            assert(s0 =~= seq!['*'] + rest);
            assert(s0.subrange(1, s0.len() as int) =~= rest);
        },
        Term::Square => {
            assert(s0 =~= seq!['@'] + rest);
            assert(s0.subrange(1, s0.len() as int) =~= rest);
        },
        Term::App(f, a) => {
            assert(s0 =~= seq!['%'] + (app_text(*f, *a) + rest));
            assert(s0.subrange(1, s0.len() as int) =~= app_text(*f, *a) + rest);
        },
        Term::Lam(x, m, n) => {
            assert(s0 =~= seq!['$'] + (binder_text(x, *m, *n) + rest));
            assert(s0.subrange(1, s0.len() as int) =~= binder_text(x, *m, *n) + rest);
        },
        Term::Pi(x, m, n) => {
            assert(s0 =~= seq!['?'] + (binder_text(x, *m, *n) + rest));
            assert(s0.subrange(1, s0.len() as int) =~= binder_text(x, *m, *n) + rest);
        },
        Term::Def(name, args) => {
            let tail = seq!['['] + print_args(args) + seq![']'] + rest;
            assert(s0 =~= name + tail);
            assert(s0.subrange(name.len() as int, s0.len() as int) =~= tail);
            assert forall|j: int| 0 <= j < name.len() implies s0[j] == name[j] && is_letter(#[trigger] s0[j]) by {
                assert(is_letter(name[j]));
            }
        },
    }
}

/// Reads one expression from the front of `input`: it succeeds exactly when
/// `input` starts with the text of an expression, and then reads that one.
pub fn take_expr(input: &mut &[char]) -> (r: Result<Expr, ParseError>)
    ensures
        r is Ok ==> reads_as(old(input)@, r->Ok_0@, final(input)@),
        forall|t: Term, rest: Seq<char>|
            #[trigger] reads_as(old(input)@, t, rest) ==> r is Ok && r->Ok_0@ == t && final(input)@ == rest,
    decreases old(input)@.len(), 3int,
{
    let ghost s0 = input@;
    let mut i: usize = 0;
    while i < input.len() && letter(input[i])
        invariant
            i <= input@.len(),
            input@ == s0,
            forall|j: int| 0 <= j < i ==> is_letter(#[trigger] input@[j]),
        decreases input@.len() - i,
    {
        i = i + 1;
    }
    if i == 1 {
        let c = take_one(input)?;
        proof {
            assert(writable(Term::Var(c)));
            assert(s0 =~= print(Term::Var(c)) + input@);
            assert forall|t: Term, rest: Seq<char>| #[trigger] reads_as(s0, t, rest) implies t == Term::Var(c) && input@ == rest by {
                lemma_reads_shape(s0, t, rest);
                if let Term::Def(name, _) = t {
                    assert(is_letter(s0[1]));
                }
            }
        }
        return Ok(Expr::Var(Var(c)));
    } else if i > 1 {
        let mut name = String::new();
        let mut j: usize = 0;
        while j < i
            invariant
                j <= i <= input@.len(),
                input@ == s0,
                name@ == input@.subrange(0, j as int),
            decreases i - j,
        {
            push_char(&mut name, input[j]);
            j = j + 1;
        }
        *input = &input[i..input.len()];
        let ghost s1 = input@;
        let ghost nm = name@;
        proof {
            assert forall|t: Term, rest: Seq<char>| #[trigger] reads_as(s0, t, rest) implies (t is Def && t->Def_0 == nm) by {
                lemma_reads_shape(s0, t, rest);
                match t {
                    Term::Var(x) => {
                        assert(is_letter(s0[1]));
                    },
                    Term::Def(name2, _) => {
                        if name2.len() < i {
                            assert(is_letter(s0[name2.len() as int]));
                        } else if name2.len() > i {
                            if i < s0.len() {
                                assert(is_letter(s0[i as int]));
                            }
                        }
                        assert(name2 =~= nm);
                    },
                    _ => {
                        assert(is_letter(s0[0]));
                    },
                }
            }
        }
        let d = match take_definition(name, input) {
            Ok(d) => d,
            Err(e) => {
                proof {
                    assert forall|t: Term, rest: Seq<char>| !#[trigger] reads_as(s0, t, rest) by {
                        if reads_as(s0, t, rest) {
                            lemma_reads_shape(s0, t, rest);
                            if let Term::Def(name2, args) = t {
                                assert(name2.len() == i);
                                assert(def_reads(s1, args, rest));
                            }
                        }
                    }
                }
                return Err(e);
            },
        };
        proof {
            let t = Term::Def(nm, crate::model::terms(d.1@));
            assert forall|k: int| 0 <= k < nm.len() implies is_letter(#[trigger] nm[k]) by {
                assert(nm[k] == s0[k]);
            }
            assert(writable(t));
            assert(s0 =~= nm + s1);
            assert(s0 =~= print(t) + input@);
            assert forall|t2: Term, rest: Seq<char>| #[trigger] reads_as(s0, t2, rest) implies t2 == t && input@ == rest by {
                lemma_reads_shape(s0, t2, rest);
                if let Term::Def(name2, args) = t2 {
                    assert(name2.len() == i);
                    assert(def_reads(s1, args, rest));
                }
            }
        }
        return Ok(Expr::Definition(d));
    }
    let c = match take_one(input) {
        Ok(c) => c,
        Err(e) => {
            proof {
                assert forall|t: Term, rest: Seq<char>| !#[trigger] reads_as(s0, t, rest) by {
                    if reads_as(s0, t, rest) {
                        lemma_reads_shape(s0, t, rest);
                    }
                }
            }
            return Err(e);
        },
    };
    let ghost s1 = input@;
    proof {
        lemma_tail(s0, s1);
        assert(!is_letter(s0[0]));
        assert forall|t: Term, rest: Seq<char>| #[trigger] reads_as(s0, t, rest) implies !(t is Var) && !(t is Def) by {
            lemma_reads_shape(s0, t, rest);
            if let Term::Def(name2, _) = t {
                assert(is_letter(s0[0]));
            }
        }
    }
    match c {
        '*' => {
            proof {
                assert(s0 =~= print(Term::Star) + input@);
                assert forall|t: Term, rest: Seq<char>| #[trigger] reads_as(s0, t, rest) implies t == Term::Star && input@ == rest by {
                    lemma_reads_shape(s0, t, rest);
                }
            }
            Ok(Expr::Asterisk)
        },
        '@' => {
            proof {
                assert(s0 =~= print(Term::Square) + input@);
                assert forall|t: Term, rest: Seq<char>| #[trigger] reads_as(s0, t, rest) implies t == Term::Square && input@ == rest by {
                    lemma_reads_shape(s0, t, rest);
                }
            }
            Ok(Expr::Square)
        },
        '%' => {
            let a = match take_application(input) {
                Ok(a) => a,
                Err(e) => {
                    proof {
                        assert forall|t: Term, rest: Seq<char>| !#[trigger] reads_as(s0, t, rest) by {
                            if reads_as(s0, t, rest) {
                                lemma_reads_shape(s0, t, rest);
                            }
                        }
                    }
                    return Err(e);
                },
            };
            proof {
                let t = Term::App(Box::new(a.0@), Box::new(a.1@));
                assert(s0 =~= seq!['%'] + s1);
                assert(s0 =~= print(t) + input@);
                assert forall|t2: Term, rest: Seq<char>| #[trigger] reads_as(s0, t2, rest) implies t2 == t && input@ == rest by {
                    lemma_reads_shape(s0, t2, rest);
                }
            }
            Ok(Expr::Application(Box::new(a)))
        },
        '$' => {
            let l = match take_lambda(input) {
                Ok(l) => l,
                Err(e) => {
                    proof {
                        assert forall|t: Term, rest: Seq<char>| !#[trigger] reads_as(s0, t, rest) by {
                            if reads_as(s0, t, rest) {
                                lemma_reads_shape(s0, t, rest);
                            }
                        }
                    }
                    return Err(e);
                },
            };
            proof {
                let t = Term::Lam(l.0.0, Box::new(l.1@), Box::new(l.2@));
                assert(s0 =~= seq!['$'] + s1);
                assert(s0 =~= print(t) + input@);
                assert forall|t2: Term, rest: Seq<char>| #[trigger] reads_as(s0, t2, rest) implies t2 == t && input@ == rest by {
                    lemma_reads_shape(s0, t2, rest);
                }
            }
            Ok(Expr::Lambda(Box::new(l)))
        },
        '?' => {
            let p = match take_pi(input) {
                Ok(p) => p,
                Err(e) => {
                    proof {
                        assert forall|t: Term, rest: Seq<char>| !#[trigger] reads_as(s0, t, rest) by {
                            if reads_as(s0, t, rest) {
                                lemma_reads_shape(s0, t, rest);
                            }
                        }
                    }
                    return Err(e);
                },
            };
            proof {
                let t = Term::Pi(p.0.0, Box::new(p.1@), Box::new(p.2@));
                assert(s0 =~= seq!['?'] + s1);
                assert(s0 =~= print(t) + input@);
                assert forall|t2: Term, rest: Seq<char>| #[trigger] reads_as(s0, t2, rest) implies t2 == t && input@ == rest by {
                    lemma_reads_shape(s0, t2, rest);
                }
            }
            Ok(Expr::Pi(Box::new(p)))
        },
        _ => {
            proof {
                assert forall|t: Term, rest: Seq<char>| !#[trigger] reads_as(s0, t, rest) by {
                    if reads_as(s0, t, rest) {
                        lemma_reads_shape(s0, t, rest);
                    }
                }
            }
            Err(ParseError::Unexpected(c))
        },
    }
}

/// Reads a whole text as one expression.
pub fn parse_expr(text: &[char]) -> (r: Result<Expr, ParseError>)
    ensures
        r is Ok ==> reads_as(text@, r->Ok_0@, Seq::empty()),
        forall|t: Term| #[trigger] reads_as(text@, t, Seq::empty()) ==> r is Ok && r->Ok_0@ == t,
{
    let mut input = text;
    let e = take_expr(&mut input)?;
    if input.len() != 0 {
        proof {
            assert forall|t: Term| !#[trigger] reads_as(text@, t, Seq::empty()) by {
                if reads_as(text@, t, Seq::empty()) {
                    assert(reads_as(text@, t, Seq::<char>::empty()));
                }
            }
        }
        return Err(ParseError::TrailingInput);
    }
    assert(input@ =~= Seq::<char>::empty());
    Ok(e)
}

impl std::str::FromStr for Expr {
    type Err = ParseError;

    fn from_str(s: &str) -> Result<Expr, ParseError> {
        let v = crate::script::chars_of(s);
        parse_expr(v.as_slice())
    }
}

/// Relies on String::push: appends the character at the end.
#[verifier::external_body]
pub(crate) fn push_char(s: &mut String, c: char)
    ensures
        final(s)@ == old(s)@.push(c),
{
    s.push(c);
}

} // verus!
