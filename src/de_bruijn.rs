//! De Bruijn forms: the α-key of an expression, and capture-avoiding
//! substitution folded into the same walk.
use crate::model;
use crate::model::{Term, free_in, free_in_all, generate_free_var_gte, names};
use vstd::prelude::*;

verus! {

/// A variable occurrence in de Bruijn form. A bound occurrence keeps the name
/// it is printed with, which equality ignores.
#[derive(Clone, Copy, Debug)]
pub enum Var {
    Free(model::Var),
    Bound(usize, model::Var),
}

/// A λ-abstraction in de Bruijn form; the name is only for printing.
#[derive(Debug)]
pub struct Lambda(pub model::Var, pub Expr, pub Expr);

/// A Π-abstraction in de Bruijn form; the name is only for printing.
#[derive(Debug)]
pub struct Pi(pub model::Var, pub Expr, pub Expr);

/// A definition invocation in de Bruijn form.
#[derive(Debug)]
pub struct Definition(pub String, pub Vec<Expr>);

/// An application in de Bruijn form.
#[derive(Debug)]
pub struct Application(pub Expr, pub Expr);

/// An expression in de Bruijn form: its view is its α-key.
#[derive(Debug)]
pub enum Expr {
    Var(Var),
    Asterisk,
    Square,
    Lambda(Box<Lambda>),
    Pi(Box<Pi>),
    Definition(Definition),
    Application(Box<Application>),
}

/// A nameless term: bound variables are counted outwards from 1, free ones
/// keep their name.
pub enum Key {
    Bound(nat),
    Free(char),
    Star,
    Square,
    Lam(Box<Key>, Box<Key>),
    Pi(Box<Key>, Box<Key>),
    Def(Seq<char>, Seq<Key>),
    App(Box<Key>, Box<Key>),
}

/// The distance of the innermost binder of `x` in `ctx` (innermost last),
/// counted from 1, if `x` is bound there.
pub open spec fn bound_index(ctx: Seq<char>, x: char) -> Option<nat>
    decreases ctx.len(),
{
    if ctx.len() == 0 {
        None
    } else if ctx.last() == x {
        Some(1)
    } else {
        match bound_index(ctx.drop_last(), x) {
            Some(i) => Some(i + 1),
            None => None,
        }
    }
}

/// The α-key of `t` under the binders `ctx` (innermost last).
pub open spec fn alpha_key(t: Term, ctx: Seq<char>) -> Key
    decreases t,
{
    match t {
        Term::Var(x) => match bound_index(ctx, x) {
            Some(i) => Key::Bound(i),
            None => Key::Free(x),
        },
        Term::Star => Key::Star,
        Term::Square => Key::Square,
        Term::Lam(x, m, n) => Key::Lam(
            Box::new(alpha_key(*m, ctx)),
            Box::new(alpha_key(*n, ctx.push(x))),
        ),
        Term::Pi(x, m, n) => Key::Pi(Box::new(alpha_key(*m, ctx)), Box::new(alpha_key(*n, ctx.push(x)))),
        Term::Def(name, args) => Key::Def(name, alpha_keys(args, ctx)),
        Term::App(f, a) => Key::App(Box::new(alpha_key(*f, ctx)), Box::new(alpha_key(*a, ctx))),
    }
}

/// The α-keys of a sequence of terms.
pub open spec fn alpha_keys(s: Seq<Term>, ctx: Seq<char>) -> Seq<Key>
    decreases s,
{
    if s.len() == 0 {
        Seq::empty()
    } else {
        alpha_keys(s.drop_last(), ctx).push(alpha_key(s.last(), ctx))
    }
}

/// The α-key of a closed-off expression: its de Bruijn form.
pub open spec fn debruijn(t: Term) -> Key {
    alpha_key(t, Seq::empty())
}

/// Replaces each free `x` of `k` by `u`, where `s` is `Some((x, u))`.
pub open spec fn subst(k: Key, s: Option<(char, Key)>) -> Key
    decreases k,
{
    match k {
        Key::Free(y) => match s {
            Some((x, u)) => if x == y {
                u
            } else {
                k
            },
            None => k,
        },
        Key::Lam(a, b) => Key::Lam(Box::new(subst(*a, s)), Box::new(subst(*b, s))),
        Key::Pi(a, b) => Key::Pi(Box::new(subst(*a, s)), Box::new(subst(*b, s))),
        Key::Def(name, args) => Key::Def(name, subst_all(args, s)),
        Key::App(f, a) => Key::App(Box::new(subst(*f, s)), Box::new(subst(*a, s))),
        _ => k,
    }
}

pub open spec fn subst_all(ks: Seq<Key>, s: Option<(char, Key)>) -> Seq<Key>
    decreases ks,
{
    if ks.len() == 0 {
        Seq::empty()
    } else {
        subst_all(ks.drop_last(), s).push(subst(ks.last(), s))
    }
}

impl Expr {
    /// The α-key: this expression with the printing names dropped.
    pub open spec fn key(&self) -> Key
        decreases self,
    {
        match self {
            Expr::Var(Var::Free(v)) => Key::Free(v.0),
            Expr::Var(Var::Bound(i, _)) => Key::Bound(*i as nat),
            Expr::Asterisk => Key::Star,
            Expr::Square => Key::Square,
            Expr::Lambda(l) => Key::Lam(Box::new(l.1.key()), Box::new(l.2.key())),
            Expr::Pi(p) => Key::Pi(Box::new(p.1.key()), Box::new(p.2.key())),
            Expr::Definition(d) => Key::Def(d.0@, keys(d.1@)),
            Expr::Application(a) => Key::App(Box::new(a.0.key()), Box::new(a.1.key())),
        }
    }

    /// The expression as printed: every variable under the name it carries.
    pub open spec fn named(&self) -> Term
        decreases self,
    {
        match self {
            Expr::Var(Var::Free(v)) => Term::Var(v.0),
            Expr::Var(Var::Bound(_, v)) => Term::Var(v.0),
            Expr::Asterisk => Term::Star,
            Expr::Square => Term::Square,
            Expr::Lambda(l) => Term::Lam(l.0.0, Box::new(l.1.named()), Box::new(l.2.named())),
            Expr::Pi(p) => Term::Pi(p.0.0, Box::new(p.1.named()), Box::new(p.2.named())),
            Expr::Definition(d) => Term::Def(d.0@, named_all(d.1@)),
            Expr::Application(a) => Term::App(Box::new(a.0.named()), Box::new(a.1.named())),
        }
    }
}

pub open spec fn keys(s: Seq<Expr>) -> Seq<Key>
    decreases s,
{
    if s.len() == 0 {
        Seq::empty()
    } else {
        keys(s.drop_last()).push(s.last().key())
    }
}

pub open spec fn named_all(s: Seq<Expr>) -> Seq<Term>
    decreases s,
{
    if s.len() == 0 {
        Seq::empty()
    } else {
        named_all(s.drop_last()).push(s.last().named())
    }
}

/// The names that occur free in a key.
pub open spec fn key_free(k: Key) -> Set<char>
    decreases k,
{
    match k {
        Key::Free(y) => set![y],
        Key::Lam(a, b) => key_free(*a).union(key_free(*b)),
        Key::Pi(a, b) => key_free(*a).union(key_free(*b)),
        Key::Def(_, args) => key_free_all(args),
        Key::App(f, a) => key_free(*f).union(key_free(*a)),
        _ => Set::empty(),
    }
}

pub open spec fn key_free_all(ks: Seq<Key>) -> Set<char>
    decreases ks,
{
    if ks.len() == 0 {
        Set::empty()
    } else {
        key_free_all(ks.drop_last()).union(key_free(ks.last()))
    }
}

/// Whether `e`, printed under binders named `scope` (innermost last), reads
/// back to its own key: each bound variable is printed with the name of its
/// binder and no binder in between carries that name, and no free name is
/// the name of an enclosing binder.
pub open spec fn well_named(e: Expr, scope: Seq<char>) -> bool
    decreases e,
{
    match e {
        Expr::Var(Var::Free(v)) => !scope.contains(v.0),
        Expr::Var(Var::Bound(i, v)) => bound_index(scope, v.0) == Some(i as nat),
        Expr::Asterisk | Expr::Square => true,
        Expr::Lambda(l) => well_named(l.1, scope) && well_named(l.2, scope.push(l.0.0)),
        Expr::Pi(p) => well_named(p.1, scope) && well_named(p.2, scope.push(p.0.0)),
        Expr::Definition(d) => well_named_all(d.1@, scope),
        Expr::Application(a) => well_named(a.0, scope) && well_named(a.1, scope),
    }
}

pub open spec fn well_named_all(s: Seq<Expr>, scope: Seq<char>) -> bool
    decreases s,
{
    if s.len() == 0 {
        true
    } else {
        well_named_all(s.drop_last(), scope) && well_named(s.last(), scope)
    }
}

/// Whether every binder of `t` has a body with few enough free names that,
/// with `k` more names to avoid, a letter is left to rename it to.
///
/// A binder with body `N` avoids the free names of the substituted
/// expression (`k` of them), those of `N`, and the printing names of the
/// enclosing binders that `N` refers to, at most one per free name of `N`:
/// at most `k + 2·|free(N)|` names. Below 52, the number of letters, a fresh
/// letter is sure to exist; this bound is what the renaming relies on.
pub open spec fn fits(t: Term, k: nat) -> bool
    decreases t,
{
    match t {
        Term::Lam(_, m, n) => k + 2 * free_in(*n).len() < 52 && fits(*m, k) && fits(*n, k),
        Term::Pi(_, m, n) => k + 2 * free_in(*n).len() < 52 && fits(*m, k) && fits(*n, k),
        Term::Def(_, args) => fits_all(args, k),
        Term::App(f, a) => fits(*f, k) && fits(*a, k),
        _ => true,
    }
}

pub open spec fn fits_all(s: Seq<Term>, k: nat) -> bool
    decreases s,
{
    if s.len() == 0 {
        true
    } else {
        fits_all(s.drop_last(), k) && fits(s.last(), k)
    }
}

/// How many names a binder must avoid for the substitution `sub`.
pub open spec fn sub_size(sub: Option<(char, Term)>) -> nat {
    match sub {
        Some((_, u)) => free_in(u).len(),
        None => 0,
    }
}

/// Whether the free names of `t`, met under binders written `written` and
/// printed `renames`, print right: a bound one under a name no binder in
/// between takes, a substituted one with none of the substitute's free
/// names taken by a binder, any other one under no binder's name.
pub open spec fn good(t: Term, written: Seq<char>, renames: Seq<char>, sub: Option<(char, Term)>) -> bool {
    forall|z: char| #[trigger]
        free_in(t).contains(z) ==> match bound_index(written, z) {
            Some(i) => bound_index(renames, renames[renames.len() - i]) == Some(i),
            None => match sub {
                Some((x, u)) => if x == z {
                    forall|w: char| free_in(u).contains(w) ==> !renames.contains(w)
                } else {
                    !renames.contains(z)
                },
                None => !renames.contains(z),
            },
        }
}

/// Whether `y` is free in the substituted expression, if any.
pub open spec fn sub_avoids(sub: Option<(char, Term)>, y: char) -> bool {
    match sub {
        Some((_, u)) => !free_in(u).contains(y),
        None => true,
    }
}

/// Whether each binder of `t`, in the converted form `r`, is printed with a
/// name free neither in its body nor in the substituted expression, wherever
/// `k` names to avoid for the substitution and twice the free names of the
/// body leave a letter to spare.
pub open spec fn binders_fresh(t: Term, r: Expr, sub: Option<(char, Term)>, k: nat) -> bool
    decreases t,
{
    match (t, r) {
        (Term::Lam(_, m, n), Expr::Lambda(l)) => (k + 2 * free_in(*n).len() < 52 ==> !free_in(*n).contains(
            l.0.0,
        ) && sub_avoids(sub, l.0.0)) && binders_fresh(*m, l.1, sub, k) && binders_fresh(*n, l.2, sub, k),
        (Term::Pi(_, m, n), Expr::Pi(p)) => (k + 2 * free_in(*n).len() < 52 ==> !free_in(*n).contains(p.0.0)
            && sub_avoids(sub, p.0.0)) && binders_fresh(*m, p.1, sub, k) && binders_fresh(*n, p.2, sub, k),
        (Term::App(f, a), Expr::Application(ap)) => binders_fresh(*f, ap.0, sub, k) && binders_fresh(
            *a,
            ap.1,
            sub,
            k,
        ),
        (Term::Def(_, args), Expr::Definition(d)) => binders_fresh_all(args, d.1@, sub, k),
        _ => true,
    }
}

pub open spec fn binders_fresh_all(ts: Seq<Term>, rs: Seq<Expr>, sub: Option<(char, Term)>, k: nat) -> bool
    decreases ts,
{
    if ts.len() == 0 {
        true
    } else {
        rs.len() == ts.len() && binders_fresh_all(ts.drop_last(), rs.drop_last(), sub, k) && binders_fresh(
            ts.last(),
            rs.last(),
            sub,
            k,
        )
    }
}

pub proof fn lemma_binders_fresh_all(ts: Seq<Term>, rs: Seq<Expr>, sub: Option<(char, Term)>, k: nat)
    requires
        rs.len() == ts.len(),
        forall|i: int| 0 <= i < ts.len() ==> binders_fresh(#[trigger] ts[i], rs[i], sub, k),
    ensures
        binders_fresh_all(ts, rs, sub, k),
    decreases ts.len(),
{
    if ts.len() > 0 {
        assert forall|i: int| 0 <= i < ts.drop_last().len() implies binders_fresh(#[trigger] ts.drop_last()[i], rs.drop_last()[i], sub, k) by {
            assert(ts.drop_last()[i] == ts[i]);
            assert(rs.drop_last()[i] == rs[i]);
        }
        lemma_binders_fresh_all(ts.drop_last(), rs.drop_last(), sub, k);
        assert(binders_fresh(ts[ts.len() - 1], rs[rs.len() - 1], sub, k));
    }
}

/// Whether the substituted expression, if any, fits on its own.
pub open spec fn sub_fits(sub: Option<(char, Term)>) -> bool {
    match sub {
        Some((_, u)) => fits(u, 0),
        None => true,
    }
}

/// Whether `y` may print a binder whose body is `n`: no free name of `n` or
/// of the substituted expression, and not the printing name of a binder that
/// `n` refers to.
pub open spec fn fresh(y: char, n: Term, written: Seq<char>, renames: Seq<char>, sub: Option<(char, Term)>) -> bool {
    &&& !free_in(n).contains(y)
    &&& match sub {
        Some((_, u)) => !free_in(u).contains(y),
        None => true,
    }
    &&& forall|z: char| #[trigger] free_in(n).contains(z) && bound_index(written, z) is Some ==> renames[renames.len() - bound_index(written, z)->0] != y
}

impl View for Expr {
    type V = Key;

    open spec fn view(&self) -> Key {
        self.key()
    }
}

pub proof fn lemma_keys(s: Seq<Expr>)
    ensures
        keys(s).len() == s.len(),
        forall|i: int| 0 <= i < s.len() ==> #[trigger] keys(s)[i] == s[i].key(),
    decreases s.len(),
{
    if s.len() > 0 {
        lemma_keys(s.drop_last());
    }
}

pub proof fn lemma_named_all(s: Seq<Expr>)
    ensures
        named_all(s).len() == s.len(),
        forall|i: int| 0 <= i < s.len() ==> #[trigger] named_all(s)[i] == s[i].named(),
    decreases s.len(),
{
    if s.len() > 0 {
        lemma_named_all(s.drop_last());
    }
}

pub proof fn lemma_alpha_keys(s: Seq<Term>, ctx: Seq<char>)
    ensures
        alpha_keys(s, ctx).len() == s.len(),
        forall|i: int| 0 <= i < s.len() ==> #[trigger] alpha_keys(s, ctx)[i] == alpha_key(s[i], ctx),
    decreases s.len(),
{
    if s.len() > 0 {
        lemma_alpha_keys(s.drop_last(), ctx);
    }
}

pub proof fn lemma_subst_all(ks: Seq<Key>, sub: Option<(char, Key)>)
    ensures
        subst_all(ks, sub).len() == ks.len(),
        forall|i: int| 0 <= i < ks.len() ==> #[trigger] subst_all(ks, sub)[i] == subst(ks[i], sub),
    decreases ks.len(),
{
    if ks.len() > 0 {
        lemma_subst_all(ks.drop_last(), sub);
    }
}

/// Whether two de Bruijn forms are the same α-key.
fn same_key(a: &Expr, b: &Expr) -> (r: bool)
    ensures
        r == (a@ == b@),
    decreases a,
{
    match (a, b) {
        (Expr::Var(Var::Free(x)), Expr::Var(Var::Free(y))) => x.0 == y.0,
        (Expr::Var(Var::Bound(i, _)), Expr::Var(Var::Bound(j, _))) => *i == *j,
        (Expr::Asterisk, Expr::Asterisk) => true,
        (Expr::Square, Expr::Square) => true,
        (Expr::Lambda(l1), Expr::Lambda(l2)) => same_key(&l1.1, &l2.1) && same_key(&l1.2, &l2.2),
        (Expr::Pi(p1), Expr::Pi(p2)) => same_key(&p1.1, &p2.1) && same_key(&p1.2, &p2.2),
        (Expr::Application(a1), Expr::Application(a2)) => same_key(&a1.0, &a2.0) && same_key(
            &a1.1,
            &a2.1,
        ),
        (Expr::Definition(d1), Expr::Definition(d2)) => {
            proof {
                lemma_keys(d1.1@);
                lemma_keys(d2.1@);
            }
            if d1.0 != d2.0 || d1.1.len() != d2.1.len() {
                proof {
                    if d1.1.len() == d2.1.len() {
                        assert(a@ != b@);
                    }
                }
                return false;
            }
            assert forall|k: int| 0 <= k < d1.1@.len() implies decreases_to!(a => d1.1@[k]) by {
                assert(decreases_to!(d1.1 => d1.1@));
                assert(decreases_to!(d1.1@ => d1.1@[k]));
            }
            let mut i: usize = 0;
            while i < d1.1.len()
                invariant
                    i <= d1.1@.len(),
                    d1.1@.len() == d2.1@.len(),
                    forall|k: int| 0 <= k < d1.1@.len() ==> decreases_to!(a => d1.1@[k]),
                    forall|k: int| 0 <= k < i ==> d1.1@[k].key() == d2.1@[k].key(),
                    a@ == Key::Def(d1.0@, keys(d1.1@)),
                    b@ == Key::Def(d2.0@, keys(d2.1@)),
                decreases d1.1@.len() - i,
            {
                if !same_key(&d1.1[i], &d2.1[i]) {
                    proof {
                        lemma_keys(d1.1@);
                        lemma_keys(d2.1@);
                    }
                    assert(keys(d1.1@)[i as int] != keys(d2.1@)[i as int]);
                    return false;
                }
                i = i + 1;
            }
            proof {
                lemma_keys(d1.1@);
                lemma_keys(d2.1@);
            }
            assert(keys(d1.1@) =~= keys(d2.1@));
            true
        },
        _ => false,
    }
}

impl Clone for Expr {
    fn clone(&self) -> (r: Self)
        ensures
            r@ == self@,
            r.named() == self.named(),
        decreases self,
    {
        match self {
            Expr::Var(v) => Expr::Var(*v),
            Expr::Asterisk => Expr::Asterisk,
            Expr::Square => Expr::Square,
            Expr::Lambda(l) => Expr::Lambda(Box::new(Lambda(l.0, l.1.clone(), l.2.clone()))),
            Expr::Pi(p) => Expr::Pi(Box::new(Pi(p.0, p.1.clone(), p.2.clone()))),
            Expr::Definition(d) => {
                let mut args: Vec<Expr> = Vec::new();
                let mut i: usize = 0;
                assert forall|k: int| 0 <= k < d.1@.len() implies decreases_to!(self => d.1@[k]) by {
                    assert(decreases_to!(d.1 => d.1@));
                    assert(decreases_to!(d.1@ => d.1@[k]));
                }
                while i < d.1.len()
                    invariant
                        i <= d.1@.len(),
                        forall|k: int| 0 <= k < d.1@.len() ==> decreases_to!(self => d.1@[k]),
                        args@.len() == i,
                        forall|k: int| 0 <= k < i ==> (#[trigger] args@[k])@ == d.1@[k]@ && args@[k].named() == d.1@[k].named(),
                    decreases d.1@.len() - i,
                {
                    args.push(d.1[i].clone());
                    i = i + 1;
                }
                proof {
                    lemma_keys(args@);
                    lemma_keys(d.1@);
                    lemma_named_all(args@);
                    lemma_named_all(d.1@);
                    assert(keys(args@) =~= keys(d.1@));
                    assert(named_all(args@) =~= named_all(d.1@));
                }
                Expr::Definition(Definition(d.0.clone(), args))
            },
            Expr::Application(a) => Expr::Application(
                Box::new(Application(a.0.clone(), a.1.clone())),
            ),
        }
    }
}

impl PartialEq for Expr {
    fn eq(&self, other: &Expr) -> (r: bool) {
        same_key(self, other)
    }
}

impl vstd::std_specs::cmp::PartialEqSpecImpl for Expr {
    open spec fn obeys_eq_spec() -> bool {
        true
    }

    open spec fn eq_spec(&self, other: &Expr) -> bool {
        self@ == other@
    }
}

#[derive(Clone, Copy, Debug)]
struct Binding {
    written: model::Var,
    rename: model::Var,
}

/// The binders that enclose the part of an expression being converted, and
/// the substitution `x := U` to perform on the way, if any.
#[derive(Debug)]
pub struct Bindings {
    stack: Vec<Binding>,
    substitution: Option<(model::Var, model::Expr)>,
    /// The de Bruijn form of the substituted expression.
    converted: Option<Expr>,
}

/// What a variable occurrence turns into.
enum IndexResult {
    Free,
    Index { index: usize, rename: model::Var },
    Substitution(model::Expr),
}

impl Bindings {
    /// The names of the enclosing binders as written, innermost last.
    pub closed spec fn written(&self) -> Seq<char> {
        Seq::new(self.stack@.len(), |i: int| self.stack@[i].written.0)
    }

    /// The names that the enclosing binders are printed with, innermost last.
    pub closed spec fn renames(&self) -> Seq<char> {
        Seq::new(self.stack@.len(), |i: int| self.stack@[i].rename.0)
    }

    /// The substitution to perform, if any.
    pub closed spec fn substitution_term(&self) -> Option<(char, Term)> {
        match self.substitution {
            Some((v, e)) => Some((v.0, e@)),
            None => None,
        }
    }

    /// The substitution to perform, on α-keys.
    pub open spec fn substitution_key(&self) -> Option<(char, Key)> {
        match self.substitution_term() {
            Some((x, u)) => Some((x, debruijn(u))),
            None => None,
        }
    }

    /// The de Bruijn form kept for the substituted expression is its own.
    pub closed spec fn wf(&self) -> bool {
        match (self.substitution, self.converted) {
            (Some((_, u)), Some(c)) => c@ == debruijn(u@) && (fits(u@, 0) ==> well_named(c, Seq::empty())),
            (None, None) => true,
            _ => false,
        }
    }

    /// The α-key that converting `t` under these bindings yields.
    pub open spec fn key_of(&self, t: Term) -> Key {
        subst(alpha_key(t, self.written()), self.substitution_key())
    }

    /// No enclosing binder; the substitution given, if any.
    pub fn new(substitution: Option<(model::Var, model::Expr)>) -> (r: Self)
        ensures
            r.wf(),
            r.written() == Seq::<char>::empty(),
            r.renames() == Seq::<char>::empty(),
            r.substitution_term() == match substitution {
                Some((v, e)) => Some((v.0, e@)),
                None => None::<(char, Term)>,
            },
    {
        let converted = match &substitution {
            Some((_, u)) => {
                let plain = Bindings { stack: Vec::new(), substitution: None, converted: None };
                assert(plain.written() =~= Seq::<char>::empty());
                assert(plain.renames() =~= Seq::<char>::empty());
                assert(good(u@, plain.written(), plain.renames(), plain.substitution_term()));
                let c = de_bruijn(u, &plain);
                proof {
                    lemma_subst_none(debruijn(u@));
                }
                Some(c)
            },
            None => None,
        };
        let r = Bindings { stack: Vec::new(), substitution, converted };
        assert(r.written() =~= Seq::<char>::empty());
        assert(r.renames() =~= Seq::<char>::empty());
        r
    }

    /// The names free in the expression substituted, if any.
    pub fn substitution_free_vars(&self) -> (r: Vec<model::Var>)
        ensures
            r@.no_duplicates(),
            names(r@) == match self.substitution_term() {
                Some((_, u)) => free_in(u),
                None => Set::<char>::empty(),
            },
    {
        match &self.substitution {
            Some((_, body)) => body.free_vars(),
            None => {
                let r: Vec<model::Var> = Vec::new();
                assert(names(r@) =~= Set::<char>::empty());
                r
            },
        }
    }

    /// These bindings under one more binder `written`, printed as `rename`.
    fn with(&self, written: model::Var, rename: model::Var) -> (r: Self)
        requires
            self.wf(),
        ensures
            r.wf(),
            r.written() == self.written().push(written.0),
            r.renames() == self.renames().push(rename.0),
            r.substitution_term() == self.substitution_term(),
    {
        let mut stack: Vec<Binding> = Vec::new();
        let mut i: usize = 0;
        while i < self.stack.len()
            invariant
                i <= self.stack@.len(),
                stack@ == self.stack@.subrange(0, i as int),
            decreases self.stack@.len() - i,
        {
            stack.push(self.stack[i]);
            i = i + 1;
        }
        stack.push(Binding { written, rename });
        let substitution = match &self.substitution {
            Some((v, e)) => Some((*v, e.clone())),
            None => None,
        };
        let converted = match &self.converted {
            Some(c) => {
                let k = c.clone();
                proof {
                    if well_named(*c, Seq::empty()) {
                        lemma_well_named_same(*c, k, Seq::empty());
                    }
                }
                Some(k)
            },
            None => None,
        };
        let r = Bindings { stack, substitution, converted };
        assert(r.written() =~= self.written().push(written.0));
        assert(r.renames() =~= self.renames().push(rename.0));
        r
    }

    fn index(&self, search: &model::Var) -> (r: IndexResult)
        ensures
            match bound_index(self.written(), search.0) {
                Some(i) => r is Index && r->index as nat == i && r->rename.0 == self.renames()[self.renames().len() - i] && 1 <= i <= self.stack@.len(),
                None => match self.substitution_term() {
                    Some((x, u)) => if x == search.0 {
                        r is Substitution && r->Substitution_0@ == u
                    } else {
                        r is Free
                    },
                    None => r is Free,
                },
            },
    {
        let n = self.stack.len();
        let mut i: usize = n;
        while i > 0
            invariant
                i <= n == self.stack@.len(),
                forall|j: int| i <= j < n ==> self.written()[j] != search.0,
            decreases i,
        {
            if self.stack[i - 1].written.0 == search.0 {
                proof {
                    lemma_bound_index_suffix(self.written(), search.0, i as int);
                }
                return IndexResult::Index { index: n - i + 1, rename: self.stack[i - 1].rename };
            }
            i = i - 1;
        }
        proof {
            lemma_bound_index_suffix(self.written(), search.0, 0);
        }
        if let Some((sub_v, sub_e)) = &self.substitution {
            if sub_v.0 == search.0 {
                return IndexResult::Substitution(sub_e.clone());
            }
        }
        IndexResult::Free
    }
}

impl Bindings {
    /// The de Bruijn form of one variable occurrence.
    fn get_binding_or_substitution(&self, search: model::Var) -> (r: Expr)
        requires
            self.wf(),
        ensures
            r@ == self.key_of(Term::Var(search.0)),
            sub_fits(self.substitution_term()) && good(
                Term::Var(search.0),
                self.written(),
                self.renames(),
                self.substitution_term(),
            ) ==> well_named(r, self.renames()),
    {
        assert(free_in(Term::Var(search.0)).contains(search.0));
        match self.index(&search) {
            IndexResult::Index { index, rename } => {
                assert(bound_index(self.written(), search.0) is Some);
                assert(bound_index(self.written(), search.0) == Some(index as nat));
                assert(alpha_key(Term::Var(search.0), self.written()) == Key::Bound(index as nat));
                Expr::Var(Var::Bound(index, rename))
            },
            IndexResult::Free => {
                assert(alpha_key(Term::Var(search.0), self.written()) == Key::Free(search.0));
                Expr::Var(Var::Free(search))
            },
            IndexResult::Substitution(_) => match &self.converted {
                Some(c) => {
                    let r = c.clone();
                    proof {
                        let rho = self.renames();
                        if sub_fits(self.substitution_term()) && good(
                            Term::Var(search.0),
                            self.written(),
                            rho,
                            self.substitution_term(),
                        ) {
                            let (_, u) = self.substitution_term()->0;
                            lemma_key_free(u, Seq::empty());
                            assert forall|y: char| #[trigger] key_free(c.key()).contains(y) implies !rho.contains(y) by {
                                assert(free_in(u).contains(y));
                            }
                            lemma_well_named_lift(*c, rho, Seq::empty());
                            assert(rho + Seq::<char>::empty() == rho);
                            lemma_well_named_same(*c, r, rho);
                        }
                    }
                    r
                },
                None => Expr::Var(Var::Free(search)),
            },
        }
    }
}

/// The name given to a binder `var` whose body is `body`: a letter close to
/// `var` that is free neither in the substituted expression nor in `body`, and
/// that does not hide an enclosing binder that `body` refers to.
fn binder_name(bindings: &Bindings, var: model::Var, body: &model::Expr) -> (r: model::Var)
    ensures
        sub_size(bindings.substitution_term()) + 2 * free_in(body@).len() < 52 ==> fresh(
            r.0,
            body@,
            bindings.written(),
            bindings.renames(),
            bindings.substitution_term(),
        ),
{
    let ghost o = bindings.written();
    let ghost rho = bindings.renames();
    let ghost sub = bindings.substitution_term();
    let mut avoid = bindings.substitution_free_vars();
    proof {
        model::lemma_names_len(avoid@);
    }
    let ghost base = names(avoid@);
    let fv = body.free_vars();
    let mut i: usize = 0;
    while i < fv.len()
        invariant
            i <= fv@.len(),
            o == bindings.written(),
            rho == bindings.renames(),
            sub == bindings.substitution_term(),
            avoid@.len() <= sub_size(sub) + 2 * i,
            base.subset_of(names(avoid@)),
            forall|j: int| 0 <= j < i ==> names(avoid@).contains(#[trigger] fv@[j].0),
            forall|j: int|
                0 <= j < i && bound_index(o, #[trigger] fv@[j].0) is Some ==> names(avoid@).contains(
                    rho[rho.len() - bound_index(o, fv@[j].0)->0],
                ),
        decreases fv@.len() - i,
    {
        let ghost before = avoid@;
        avoid.push(fv[i]);
        proof {
            model::lemma_names_push(before, fv@[i as int]);
        }
        let found = bindings.index(&fv[i]);
        if let IndexResult::Index { rename, .. } = found {
            let ghost mid = avoid@;
            avoid.push(rename);
            proof {
                model::lemma_names_push(mid, rename);
                assert(names(avoid@).contains(rename.0));
            }
        }
        assert(found is Index ==> names(avoid@).contains(found->rename.0));
        proof {
            if bound_index(o, fv@[i as int].0) is Some {
                assert(found is Index);
                assert(found->rename.0 == rho[rho.len() - bound_index(o, fv@[i as int].0)->0]);
            }
            assert(names(before).subset_of(names(avoid@)));
            assert(names(avoid@).contains(fv@[i as int].0));
            assert forall|j: int|
                0 <= j <= i && bound_index(o, #[trigger] fv@[j].0) is Some implies names(avoid@).contains(
                    rho[rho.len() - bound_index(o, fv@[j].0)->0],
                ) by {
                if j < i {
                    assert(names(before).contains(rho[rho.len() - bound_index(o, fv@[j].0)->0]));
                }
            }
        }
        i = i + 1;
    }
    proof {
        model::lemma_names_len(fv@);
        if sub_size(sub) + 2 * free_in(body@).len() < 52 {
            model::lemma_free_letter(var.0, avoid@);
        }
    }
    let r = generate_free_var_gte(&avoid, var);
    proof {
        if sub_size(sub) + 2 * free_in(body@).len() < 52 {
            assert forall|z: char| #[trigger] free_in(body@).contains(z) implies names(avoid@).contains(z) && (bound_index(o, z) is Some ==> names(avoid@).contains(rho[rho.len() - bound_index(o, z)->0])) by {
                let j = choose|j: int| 0 <= j < fv@.len() && (#[trigger] fv@[j]).0 == z;
            }
        }
    }
    r
}

/// Converts `e` to de Bruijn form under `bindings`, performing their
/// substitution on the free occurrences of its variable.
pub fn de_bruijn(e: &model::Expr, bindings: &Bindings) -> (r: Expr)
    requires
        bindings.wf(),
    ensures
        r@ == bindings.key_of(e@),
        fits(e@, sub_size(bindings.substitution_term())) && sub_fits(bindings.substitution_term())
            && good(e@, bindings.written(), bindings.renames(), bindings.substitution_term())
            ==> well_named(r, bindings.renames()),
        binders_fresh(e@, r, bindings.substitution_term(), sub_size(bindings.substitution_term())),
    decreases e,
{
    let ghost o = bindings.written();
    let ghost rho = bindings.renames();
    let ghost sub = bindings.substitution_term();
    let ghost k = sub_size(sub);
    let ghost cond = fits(e@, k) && sub_fits(sub) && good(e@, o, rho, sub);
    match e {
        model::Expr::Var(var) => {
            bindings.get_binding_or_substitution(*var)
        },
        model::Expr::Asterisk => Expr::Asterisk,
        model::Expr::Square => Expr::Square,
        model::Expr::Lambda(lambda) => {
            let var = lambda.0;
            let rename = binder_name(bindings, var, &lambda.2);
            let inner = bindings.with(var, rename);
            proof {
                if cond {
                    lemma_good_sub(lambda.1@, e@, o, rho, sub);
                    lemma_good_body(var.0, rename.0, lambda.2@, e@, o, rho, sub);
                }
            }
            Expr::Lambda(
                Box::new(Lambda(rename, de_bruijn(&lambda.1, bindings), de_bruijn(&lambda.2, &inner))),
            )
        },
        model::Expr::Pi(pi) => {
            let var = pi.0;
            let rename = binder_name(bindings, var, &pi.2);
            let inner = bindings.with(var, rename);
            proof {
                if cond {
                    lemma_good_sub(pi.1@, e@, o, rho, sub);
                    lemma_good_body(var.0, rename.0, pi.2@, e@, o, rho, sub);
                }
            }
            Expr::Pi(Box::new(Pi(rename, de_bruijn(&pi.1, bindings), de_bruijn(&pi.2, &inner))))
        },
        model::Expr::Definition(d) => {
            let ghost ctx = bindings.written();
            let ghost skey = bindings.substitution_key();
            assert forall|k: int| 0 <= k < d.1@.len() implies decreases_to!(e => d.1@[k]) by {
                assert(decreases_to!(d.1 => d.1@));
                assert(decreases_to!(d.1@ => d.1@[k]));
            }
            let mut args: Vec<Expr> = Vec::new();
            let mut i: usize = 0;
            while i < d.1.len()
                invariant
                    i <= d.1@.len(),
                    forall|k: int| 0 <= k < d.1@.len() ==> decreases_to!(e => d.1@[k]),
                    bindings.wf(),
                    args@.len() == i,
                    forall|k: int| 0 <= k < i ==> (#[trigger] args@[k])@ == bindings.key_of(d.1@[k]@),
                    o == bindings.written(),
                    rho == bindings.renames(),
                    sub == bindings.substitution_term(),
                    k == sub_size(sub),
                    cond == (fits(e@, k) && sub_fits(sub) && good(e@, o, rho, sub)),
                    e@ == Term::Def(d.0@, model::terms(d.1@)),
                    cond ==> forall|j: int| 0 <= j < i ==> well_named(#[trigger] args@[j], rho),
                    forall|j: int| 0 <= j < i ==> binders_fresh(d.1@[j]@, #[trigger] args@[j], sub, k),
                decreases d.1@.len() - i,
            {
                proof {
                    if cond {
                        model::lemma_terms(d.1@);
                        lemma_fits_all(model::terms(d.1@), k);
                        assert(fits(model::terms(d.1@)[i as int], k));
                        model::lemma_free_in_all(model::terms(d.1@), i as int);
                        lemma_good_sub(d.1@[i as int]@, e@, o, rho, sub);
                    }
                }
                args.push(de_bruijn(&d.1[i], bindings));
                i = i + 1;
            }
            proof {
                lemma_keys(args@);
                model::lemma_terms(d.1@);
                lemma_alpha_keys(model::terms(d.1@), ctx);
                lemma_subst_all(alpha_keys(model::terms(d.1@), ctx), skey);
                assert(keys(args@) =~= subst_all(alpha_keys(model::terms(d.1@), ctx), skey));
                lemma_well_named_all(args@, rho);
                assert forall|j: int| 0 <= j < model::terms(d.1@).len() implies binders_fresh(#[trigger] model::terms(d.1@)[j], args@[j], sub, k) by {
                    assert(binders_fresh(d.1@[j]@, args@[j], sub, k));
                }
                lemma_binders_fresh_all(model::terms(d.1@), args@, sub, k);
            }
            Expr::Definition(Definition(d.0.clone(), args))
        },
        model::Expr::Application(a) => {
            proof {
                if cond {
                    lemma_good_sub(a.0@, e@, o, rho, sub);
                    lemma_good_sub(a.1@, e@, o, rho, sub);
                }
            }
            Expr::Application(
                Box::new(Application(de_bruijn(&a.0, bindings), de_bruijn(&a.1, bindings))),
            )
        },
    }
}

/// Good for a term, good for any term with no more free names.
pub proof fn lemma_good_sub(t1: Term, t2: Term, o: Seq<char>, rho: Seq<char>, sub: Option<(char, Term)>)
    requires
        free_in(t1).subset_of(free_in(t2)),
        good(t2, o, rho, sub),
    ensures
        good(t1, o, rho, sub),
{
    assert forall|z: char| #[trigger] free_in(t1).contains(z) implies match bound_index(o, z) {
        Some(i) => bound_index(rho, rho[rho.len() - i]) == Some(i),
        None => match sub {
            Some((x, u)) => if x == z {
                forall|w: char| free_in(u).contains(w) ==> !rho.contains(w)
            } else {
                !rho.contains(z)
            },
            None => !rho.contains(z),
        },
    } by {
        assert(free_in(t2).contains(z));
    }
}

pub proof fn lemma_push_not_contains(s: Seq<char>, a: char, w: char)
    requires
        !s.contains(w),
        a != w,
    ensures
        !s.push(a).contains(w),
{
    if s.push(a).contains(w) {
        let j = choose|j: int| 0 <= j < s.push(a).len() && s.push(a)[j] == w;
        assert(s[j] == w);
    }
}

/// Entering a binder `x` printed `y`, with `y` fresh for its body `n`, keeps
/// the body's names printing right.
pub proof fn lemma_good_body(x: char, y: char, n: Term, t: Term, o: Seq<char>, rho: Seq<char>, sub: Option<(char, Term)>)
    requires
        o.len() == rho.len(),
        free_in(n).remove(x).subset_of(free_in(t)),
        good(t, o, rho, sub),
        fresh(y, n, o, rho, sub),
    ensures
        good(n, o.push(x), rho.push(y), sub),
{
    let o2 = o.push(x);
    let r2 = rho.push(y);
    assert(o2.drop_last() == o);
    assert(r2.drop_last() == rho);
    assert forall|z: char| #[trigger] free_in(n).contains(z) implies match bound_index(o2, z) {
        Some(i) => bound_index(r2, r2[r2.len() - i]) == Some(i),
        None => match sub {
            Some((x0, u)) => if x0 == z {
                forall|w: char| free_in(u).contains(w) ==> !r2.contains(w)
            } else {
                !r2.contains(z)
            },
            None => !r2.contains(z),
        },
    } by {
        if z == x {
            assert(bound_index(o2, z) == Some(1nat));
            assert(r2[r2.len() - 1] == y);
        } else {
            assert(free_in(n).remove(x).contains(z));
            assert(free_in(t).contains(z));
            lemma_bound_index(o, z);
            match bound_index(o, z) {
                Some(i) => {
                    assert(bound_index(o2, z) == Some(i + 1));
                    let w = rho[rho.len() - i];
                    assert(r2[r2.len() - (i + 1)] == w);
                    assert(w != y);
                    assert(bound_index(r2, w) == Some(i + 1));
                },
                None => {
                    assert(bound_index(o2, z) is None);
                    match sub {
                        Some((x0, u)) => {
                            if x0 == z {
                                assert forall|w: char| free_in(u).contains(w) implies !r2.contains(w) by {
                                    lemma_push_not_contains(rho, y, w);
                                }
                            } else {
                                lemma_push_not_contains(rho, y, z);
                            }
                        },
                        None => {
                            lemma_push_not_contains(rho, y, z);
                        },
                    }
                },
            }
        }
    }
}

impl Expr {
    /// The ordinary expression this form prints as: each variable under the
    /// name it carries.
    pub fn read_back(&self) -> (r: model::Expr)
        ensures
            r@ == self.named(),
        decreases self,
    {
        match self {
            Expr::Var(Var::Bound(_, v)) => model::Expr::Var(*v),
            Expr::Var(Var::Free(v)) => model::Expr::Var(*v),
            Expr::Asterisk => model::Expr::Asterisk,
            Expr::Square => model::Expr::Square,
            Expr::Lambda(l) => model::Expr::Lambda(
                Box::new(model::Lambda(l.0, l.1.read_back(), l.2.read_back())),
            ),
            Expr::Pi(p) => model::Expr::Pi(
                Box::new(model::Pi(p.0, p.1.read_back(), p.2.read_back())),
            ),
            Expr::Definition(d) => {
                let mut args: Vec<model::Expr> = Vec::new();
                let mut i: usize = 0;
                assert forall|k: int| 0 <= k < d.1@.len() implies decreases_to!(self => d.1@[k]) by {
                    assert(decreases_to!(d.1 => d.1@));
                    assert(decreases_to!(d.1@ => d.1@[k]));
                }
                while i < d.1.len()
                    invariant
                        i <= d.1@.len(),
                        forall|k: int| 0 <= k < d.1@.len() ==> decreases_to!(self => d.1@[k]),
                        args@.len() == i,
                        forall|k: int| 0 <= k < i ==> (#[trigger] args@[k])@ == d.1@[k].named(),
                    decreases d.1@.len() - i,
                {
                    args.push(d.1[i].read_back());
                    i = i + 1;
                }
                proof {
                    model::lemma_terms(args@);
                    lemma_named_all(d.1@);
                    assert(model::terms(args@) =~= named_all(d.1@));
                }
                model::Expr::Definition(model::Definition(d.0.clone(), args))
            },
            Expr::Application(a) => model::Expr::Application(
                Box::new(model::Application(a.0.read_back(), a.1.read_back())),
            ),
        }
    }
}

pub proof fn lemma_well_named_all(s: Seq<Expr>, scope: Seq<char>)
    ensures
        well_named_all(s, scope) <==> forall|i: int| 0 <= i < s.len() ==> #[trigger] well_named(s[i], scope),
    decreases s.len(),
{
    if s.len() > 0 {
        let d = s.drop_last();
        lemma_well_named_all(d, scope);
        if well_named_all(s, scope) {
            assert forall|i: int| 0 <= i < s.len() implies #[trigger] well_named(s[i], scope) by {
                if i < s.len() - 1 {
                    assert(d[i] == s[i]);
                }
            }
        }
        if forall|i: int| 0 <= i < s.len() ==> #[trigger] well_named(s[i], scope) {
            assert forall|i: int| 0 <= i < d.len() implies #[trigger] well_named(d[i], scope) by {
                assert(d[i] == s[i]);
            }
            assert(well_named(s[s.len() - 1], scope));
        }
    }
}

pub proof fn lemma_fits_all(s: Seq<Term>, k: nat)
    ensures
        fits_all(s, k) <==> forall|i: int| 0 <= i < s.len() ==> #[trigger] fits(s[i], k),
    decreases s.len(),
{
    if s.len() > 0 {
        let d = s.drop_last();
        lemma_fits_all(d, k);
        if fits_all(s, k) {
            assert forall|i: int| 0 <= i < s.len() implies #[trigger] fits(s[i], k) by {
                if i < s.len() - 1 {
                    assert(d[i] == s[i]);
                }
            }
        }
        if forall|i: int| 0 <= i < s.len() ==> #[trigger] fits(s[i], k) {
            assert forall|i: int| 0 <= i < d.len() implies #[trigger] fits(d[i], k) by {
                assert(d[i] == s[i]);
            }
            assert(fits(s[s.len() - 1], k));
        }
    }
}

pub proof fn lemma_key_free_all(ks: Seq<Key>)
    ensures
        forall|i: int, y: char| 0 <= i < ks.len() && #[trigger] key_free(ks[i]).contains(y) ==> key_free_all(ks).contains(y),
        forall|y: char| #[trigger] key_free_all(ks).contains(y) ==> exists|i: int| 0 <= i < ks.len() && #[trigger] key_free(ks[i]).contains(y),
    decreases ks.len(),
{
    if ks.len() > 0 {
        let d = ks.drop_last();
        lemma_key_free_all(d);
        assert forall|y: char| #[trigger] key_free_all(ks).contains(y) implies exists|i: int| 0 <= i < ks.len() && #[trigger] key_free(ks[i]).contains(y) by {
            if key_free_all(d).contains(y) {
                let i = choose|i: int| 0 <= i < d.len() && #[trigger] key_free(d[i]).contains(y);
                assert(d[i] == ks[i]);
            } else {
                assert(key_free(ks[ks.len() - 1]).contains(y));
            }
        }
        assert forall|i: int, y: char| 0 <= i < ks.len() && #[trigger] key_free(ks[i]).contains(y) implies key_free_all(ks).contains(y) by {
            if i < ks.len() - 1 {
                assert(d[i] == ks[i]);
                assert(key_free(d[i]).contains(y));
            }
        }
    }
}

/// The binder found for `x` is a binder of `x`; none is found exactly when
/// `ctx` does not hold `x`.
pub proof fn lemma_bound_index(ctx: Seq<char>, x: char)
    ensures
        bound_index(ctx, x) is None <==> !ctx.contains(x),
        bound_index(ctx, x) is Some ==> {
            let i = bound_index(ctx, x)->0;
            1 <= i <= ctx.len() && ctx[ctx.len() - i] == x
        },
    decreases ctx.len(),
{
    if ctx.len() > 0 {
        lemma_bound_index(ctx.drop_last(), x);
        if ctx.last() != x {
            if ctx.contains(x) {
                let j = choose|j: int| 0 <= j < ctx.len() && ctx[j] == x;
                assert(ctx.drop_last()[j] == x);
            }
            if ctx.drop_last().contains(x) {
                let j = choose|j: int| 0 <= j < ctx.drop_last().len() && ctx.drop_last()[j] == x;
                assert(ctx[j] == x);
            }
        } else {
            assert(ctx[ctx.len() - 1] == x);
        }
    }
}

/// Binders added outside do not change which binder a bound name refers to.
pub proof fn lemma_bound_index_append(s1: Seq<char>, s2: Seq<char>, x: char)
    requires
        bound_index(s2, x) is Some,
    ensures
        bound_index(s1 + s2, x) == bound_index(s2, x),
    decreases s2.len(),
{
    if s2.last() != x {
        assert((s1 + s2).drop_last() == s1 + s2.drop_last());
        lemma_bound_index_append(s1, s2.drop_last(), x);
    }
    assert((s1 + s2).last() == s2.last());
}

/// The free names of an α-key are free names of the term and not bound by
/// the binders around it.
pub proof fn lemma_key_free(t: Term, ctx: Seq<char>)
    ensures
        forall|y: char| #[trigger] key_free(alpha_key(t, ctx)).contains(y) ==> free_in(t).contains(y) && !ctx.contains(y),
    decreases t,
{
    match t {
        Term::Var(x) => {
            lemma_bound_index(ctx, x);
            assert forall|y: char| #[trigger] key_free(alpha_key(t, ctx)).contains(y) implies free_in(t).contains(y) && !ctx.contains(y) by {
                if bound_index(ctx, x) is None {
                    assert(key_free(alpha_key(t, ctx)) == set![x]);
                    assert(y == x);
                } else {
                    assert(key_free(alpha_key(t, ctx)) == Set::<char>::empty());
                }
            }
        },
        Term::Lam(x, m, n) => {
            lemma_key_free(*m, ctx);
            lemma_key_free(*n, ctx.push(x));
            assert forall|y: char| !ctx.push(x).contains(y) implies !ctx.contains(y) && y != x by {
                if ctx.contains(y) {
                    let j = choose|j: int| 0 <= j < ctx.len() && ctx[j] == y;
                    assert(ctx.push(x)[j] == y);
                }
                if y == x {
                    assert(ctx.push(x)[ctx.len() as int] == y);
                }
            }
            assert forall|y: char| #[trigger] key_free(alpha_key(t, ctx)).contains(y) implies free_in(t).contains(y) && !ctx.contains(y) by {
                if key_free(alpha_key(*m, ctx)).contains(y) {
                } else {
                    assert(key_free(alpha_key(*n, ctx.push(x))).contains(y));
                }
            }
        },
        Term::Pi(x, m, n) => {
            lemma_key_free(*m, ctx);
            lemma_key_free(*n, ctx.push(x));
            assert forall|y: char| !ctx.push(x).contains(y) implies !ctx.contains(y) && y != x by {
                if ctx.contains(y) {
                    let j = choose|j: int| 0 <= j < ctx.len() && ctx[j] == y;
                    assert(ctx.push(x)[j] == y);
                }
                if y == x {
                    assert(ctx.push(x)[ctx.len() as int] == y);
                }
            }
            assert forall|y: char| #[trigger] key_free(alpha_key(t, ctx)).contains(y) implies free_in(t).contains(y) && !ctx.contains(y) by {
                if key_free(alpha_key(*m, ctx)).contains(y) {
                } else {
                    assert(key_free(alpha_key(*n, ctx.push(x))).contains(y));
                }
            }
        },
        Term::App(f, a) => {
            lemma_key_free(*f, ctx);
            lemma_key_free(*a, ctx);
            assert forall|y: char| #[trigger] key_free(alpha_key(t, ctx)).contains(y) implies free_in(t).contains(y) && !ctx.contains(y) by {
                if key_free(alpha_key(*f, ctx)).contains(y) {
                } else {
                    assert(key_free(alpha_key(*a, ctx)).contains(y));
                }
            }
        },
        Term::Def(_, args) => {
            lemma_alpha_keys(args, ctx);
            lemma_key_free_all(alpha_keys(args, ctx));
            assert forall|y: char| #[trigger] key_free(alpha_key(t, ctx)).contains(y) implies free_in(t).contains(y) && !ctx.contains(y) by {
                assert(key_free_all(alpha_keys(args, ctx)).contains(y));
                let i = choose|i: int| 0 <= i < alpha_keys(args, ctx).len() && #[trigger] key_free(alpha_keys(args, ctx)[i]).contains(y);
                assert(decreases_to!(t => args[i]));
                lemma_key_free(args[i], ctx);
                model::lemma_free_in_all(args, i);
            }
        },
        Term::Star => {
            assert(key_free(alpha_key(t, ctx)) =~= Set::<char>::empty());
        },
        Term::Square => {
            assert(key_free(alpha_key(t, ctx)) =~= Set::<char>::empty());
        },
    }
}

/// A well-named form stays well-named under further binders outside that
/// take none of its free names.
pub proof fn lemma_well_named_lift(e: Expr, s1: Seq<char>, s2: Seq<char>)
    requires
        well_named(e, s2),
        forall|y: char| #[trigger] key_free(e.key()).contains(y) ==> !s1.contains(y),
    ensures
        well_named(e, s1 + s2),
    decreases e,
{
    match e {
        Expr::Var(Var::Free(v)) => {
            assert(key_free(e.key()).contains(v.0));
            if (s1 + s2).contains(v.0) {
                let j = choose|j: int| 0 <= j < (s1 + s2).len() && (s1 + s2)[j] == v.0;
                if j < s1.len() {
                    assert(s1[j] == v.0);
                } else {
                    assert(s2[j - s1.len()] == v.0);
                }
            }
        },
        Expr::Var(Var::Bound(i, v)) => {
            lemma_bound_index_append(s1, s2, v.0);
        },
        Expr::Lambda(l) => {
            assert forall|y: char| #[trigger] key_free(l.1.key()).contains(y) implies !s1.contains(y) by {
                assert(key_free(e.key()).contains(y));
            }
            assert forall|y: char| #[trigger] key_free(l.2.key()).contains(y) implies !s1.contains(y) by {
                assert(key_free(e.key()).contains(y));
            }
            lemma_well_named_lift(l.1, s1, s2);
            assert(s1 + s2.push(l.0.0) == (s1 + s2).push(l.0.0));
            lemma_well_named_lift(l.2, s1, s2.push(l.0.0));
        },
        Expr::Pi(p) => {
            assert forall|y: char| #[trigger] key_free(p.1.key()).contains(y) implies !s1.contains(y) by {
                assert(key_free(e.key()).contains(y));
            }
            assert forall|y: char| #[trigger] key_free(p.2.key()).contains(y) implies !s1.contains(y) by {
                assert(key_free(e.key()).contains(y));
            }
            lemma_well_named_lift(p.1, s1, s2);
            assert(s1 + s2.push(p.0.0) == (s1 + s2).push(p.0.0));
            lemma_well_named_lift(p.2, s1, s2.push(p.0.0));
        },
        Expr::Application(a) => {
            assert forall|y: char| #[trigger] key_free(a.0.key()).contains(y) implies !s1.contains(y) by {
                assert(key_free(e.key()).contains(y));
            }
            assert forall|y: char| #[trigger] key_free(a.1.key()).contains(y) implies !s1.contains(y) by {
                assert(key_free(e.key()).contains(y));
            }
            lemma_well_named_lift(a.0, s1, s2);
            lemma_well_named_lift(a.1, s1, s2);
        },
        Expr::Definition(d) => {
            lemma_well_named_all(d.1@, s2);
            lemma_well_named_all(d.1@, s1 + s2);
            lemma_keys(d.1@);
            lemma_key_free_all(keys(d.1@));
            assert forall|k: int| 0 <= k < d.1@.len() implies #[trigger] well_named(d.1@[k], s1 + s2) by {
                assert(decreases_to!(e => d.1));
                assert(decreases_to!(d.1 => d.1@));
                assert(decreases_to!(d.1@ => d.1@[k]));
                assert(keys(d.1@)[k] == d.1@[k].key());
                assert forall|y: char| #[trigger] key_free(d.1@[k].key()).contains(y) implies !s1.contains(y) by {
                    assert(key_free(keys(d.1@)[k]).contains(y));
                    assert(key_free(e.key()).contains(y));
                }
                lemma_well_named_lift(d.1@[k], s1, s2);
            }
        },
        _ => {},
    }
}

/// Two forms with the same key and the same names are well-named alike.
pub proof fn lemma_well_named_same(e1: Expr, e2: Expr, scope: Seq<char>)
    requires
        e1.key() == e2.key(),
        e1.named() == e2.named(),
        well_named(e1, scope),
    ensures
        well_named(e2, scope),
    decreases e1,
{
    match (e1, e2) {
        (Expr::Lambda(l1), Expr::Lambda(l2)) => {
            lemma_well_named_same(l1.1, l2.1, scope);
            lemma_well_named_same(l1.2, l2.2, scope.push(l1.0.0));
        },
        (Expr::Pi(p1), Expr::Pi(p2)) => {
            lemma_well_named_same(p1.1, p2.1, scope);
            lemma_well_named_same(p1.2, p2.2, scope.push(p1.0.0));
        },
        (Expr::Application(a1), Expr::Application(a2)) => {
            lemma_well_named_same(a1.0, a2.0, scope);
            lemma_well_named_same(a1.1, a2.1, scope);
        },
        (Expr::Definition(d1), Expr::Definition(d2)) => {
            lemma_keys(d1.1@);
            lemma_keys(d2.1@);
            lemma_named_all(d1.1@);
            lemma_named_all(d2.1@);
            lemma_well_named_all(d1.1@, scope);
            lemma_well_named_all(d2.1@, scope);
            assert(keys(d1.1@) == keys(d2.1@));
            assert forall|k: int| 0 <= k < d2.1@.len() implies #[trigger] well_named(d2.1@[k], scope) by {
                assert(decreases_to!(e1 => d1.1));
                assert(decreases_to!(d1.1 => d1.1@));
                assert(decreases_to!(d1.1@ => d1.1@[k]));
                assert(keys(d1.1@)[k] == keys(d2.1@)[k]);
                assert(named_all(d1.1@)[k] == named_all(d2.1@)[k]);
                lemma_well_named_same(d1.1@[k], d2.1@[k], scope);
            }
        },
        _ => {},
    }
}

/// A well-named form reads back to an expression with its own α-key.
pub proof fn lemma_read_back(e: Expr, scope: Seq<char>)
    requires
        well_named(e, scope),
    ensures
        alpha_key(e.named(), scope) == e.key(),
    decreases e,
{
    match e {
        Expr::Var(Var::Free(v)) => {
            lemma_bound_index(scope, v.0);
        },
        Expr::Lambda(l) => {
            lemma_read_back(l.1, scope);
            lemma_read_back(l.2, scope.push(l.0.0));
        },
        Expr::Pi(p) => {
            lemma_read_back(p.1, scope);
            lemma_read_back(p.2, scope.push(p.0.0));
        },
        Expr::Application(a) => {
            lemma_read_back(a.0, scope);
            lemma_read_back(a.1, scope);
        },
        Expr::Definition(d) => {
            lemma_keys(d.1@);
            lemma_named_all(d.1@);
            lemma_alpha_keys(named_all(d.1@), scope);
            lemma_well_named_all(d.1@, scope);
            assert forall|k: int| 0 <= k < d.1@.len() implies #[trigger] alpha_keys(named_all(d.1@), scope)[k] == keys(d.1@)[k] by {
                assert(decreases_to!(e => d.1));
                assert(decreases_to!(d.1 => d.1@));
                assert(decreases_to!(d.1@ => d.1@[k]));
                lemma_read_back(d.1@[k], scope);
            }
            assert(alpha_keys(named_all(d.1@), scope) =~= keys(d.1@));
        },
        _ => {},
    }
}

/// Whether `t2` under binders `ctx2` is `t1` under `ctx1` with bound
/// variables renamed consistently: the same shape, each bound occurrence
/// bound by the binder in the same position, each free one unchanged.
pub open spec fn renamed(t1: Term, ctx1: Seq<char>, t2: Term, ctx2: Seq<char>) -> bool
    decreases t1,
{
    match (t1, t2) {
        (Term::Var(x), Term::Var(y)) => bound_index(ctx1, x) == bound_index(ctx2, y) && (bound_index(
            ctx1,
            x,
        ) is None ==> x == y),
        (Term::Star, Term::Star) => true,
        (Term::Square, Term::Square) => true,
        (Term::Lam(x, m1, n1), Term::Lam(y, m2, n2)) => renamed(*m1, ctx1, *m2, ctx2) && renamed(
            *n1,
            ctx1.push(x),
            *n2,
            ctx2.push(y),
        ),
        (Term::Pi(x, m1, n1), Term::Pi(y, m2, n2)) => renamed(*m1, ctx1, *m2, ctx2) && renamed(
            *n1,
            ctx1.push(x),
            *n2,
            ctx2.push(y),
        ),
        (Term::App(f1, a1), Term::App(f2, a2)) => renamed(*f1, ctx1, *f2, ctx2) && renamed(
            *a1,
            ctx1,
            *a2,
            ctx2,
        ),
        (Term::Def(n1, s1), Term::Def(n2, s2)) => n1 == n2 && renamed_all(s1, ctx1, s2, ctx2),
        _ => false,
    }
}

pub open spec fn renamed_all(s1: Seq<Term>, ctx1: Seq<char>, s2: Seq<Term>, ctx2: Seq<char>) -> bool
    decreases s1,
{
    if s1.len() == 0 {
        s2.len() == 0
    } else {
        s2.len() == s1.len() && renamed_all(s1.drop_last(), ctx1, s2.drop_last(), ctx2) && renamed(
            s1.last(),
            ctx1,
            s2.last(),
            ctx2,
        )
    }
}

/// Consistently renamed terms have the same α-key, under any binders.
pub proof fn lemma_renamed_key(t1: Term, ctx1: Seq<char>, t2: Term, ctx2: Seq<char>)
    requires
        renamed(t1, ctx1, t2, ctx2),
    ensures
        alpha_key(t1, ctx1) == alpha_key(t2, ctx2),
    decreases t1,
{
    match (t1, t2) {
        (Term::Lam(x, m1, n1), Term::Lam(y, m2, n2)) => {
            lemma_renamed_key(*m1, ctx1, *m2, ctx2);
            lemma_renamed_key(*n1, ctx1.push(x), *n2, ctx2.push(y));
        },
        (Term::Pi(x, m1, n1), Term::Pi(y, m2, n2)) => {
            lemma_renamed_key(*m1, ctx1, *m2, ctx2);
            lemma_renamed_key(*n1, ctx1.push(x), *n2, ctx2.push(y));
        },
        (Term::App(f1, a1), Term::App(f2, a2)) => {
            lemma_renamed_key(*f1, ctx1, *f2, ctx2);
            lemma_renamed_key(*a1, ctx1, *a2, ctx2);
        },
        (Term::Def(n1, s1), Term::Def(n2, s2)) => {
            lemma_renamed_keys(t1, s1, ctx1, s2, ctx2);
        },
        _ => {},
    }
}

proof fn lemma_renamed_keys(t1: Term, s1: Seq<Term>, ctx1: Seq<char>, s2: Seq<Term>, ctx2: Seq<char>)
    requires
        renamed_all(s1, ctx1, s2, ctx2),
        forall|i: int| 0 <= i < s1.len() ==> decreases_to!(t1 => #[trigger] s1[i]),
    ensures
        alpha_keys(s1, ctx1) == alpha_keys(s2, ctx2),
    decreases t1, s1.len(),
{
    if s1.len() > 0 {
        assert forall|i: int| 0 <= i < s1.drop_last().len() implies decreases_to!(t1 => #[trigger] s1.drop_last()[i]) by {
            assert(s1.drop_last()[i] == s1[i]);
        }
        lemma_renamed_keys(t1, s1.drop_last(), ctx1, s2.drop_last(), ctx2);
        assert(decreases_to!(t1 => s1[s1.len() - 1]));
        lemma_renamed_key(s1.last(), ctx1, s2.last(), ctx2);
    }
}

/// α-key soundness: renaming the bound variables of an expression
/// consistently leaves its de Bruijn form as it is.
pub proof fn lemma_alpha_key_sound(e1: Term, e2: Term)
    requires
        renamed(e1, Seq::empty(), e2, Seq::empty()),
    ensures
        debruijn(e1) == debruijn(e2),
{
    lemma_renamed_key(e1, Seq::empty(), e2, Seq::empty());
}

/// `t` with the free occurrences of `x` written `y`, whether or not a binder
/// then captures them.
pub open spec fn rename_free(t: Term, x: char, y: char) -> Term
    decreases t,
{
    match t {
        Term::Var(z) => if z == x {
            Term::Var(y)
        } else {
            t
        },
        Term::Lam(z, m, n) => Term::Lam(
            z,
            Box::new(rename_free(*m, x, y)),
            Box::new(
                if z == x {
                    *n
                } else {
                    rename_free(*n, x, y)
                },
            ),
        ),
        Term::Pi(z, m, n) => Term::Pi(
            z,
            Box::new(rename_free(*m, x, y)),
            Box::new(
                if z == x {
                    *n
                } else {
                    rename_free(*n, x, y)
                },
            ),
        ),
        Term::App(f, a) => Term::App(Box::new(rename_free(*f, x, y)), Box::new(rename_free(*a, x, y))),
        Term::Def(name, args) => Term::Def(name, rename_free_all(args, x, y)),
        _ => t,
    }
}

pub open spec fn rename_free_all(s: Seq<Term>, x: char, y: char) -> Seq<Term>
    decreases s,
{
    if s.len() == 0 {
        Seq::empty()
    } else {
        rename_free_all(s.drop_last(), x, y).push(rename_free(s.last(), x, y))
    }
}

/// Every free name of a term not bound around it is free in its α-key.
pub proof fn lemma_key_free_complete(t: Term, ctx: Seq<char>)
    ensures
        forall|y: char| free_in(t).contains(y) && !ctx.contains(y) ==> #[trigger] key_free(alpha_key(t, ctx)).contains(y),
    decreases t,
{
    match t {
        Term::Var(x) => {
            lemma_bound_index(ctx, x);
            assert forall|y: char| free_in(t).contains(y) && !ctx.contains(y) implies #[trigger] key_free(alpha_key(t, ctx)).contains(y) by {
                assert(y == x);
            }
        },
        Term::Lam(x, m, n) => {
            lemma_key_free_complete(*m, ctx);
            lemma_key_free_complete(*n, ctx.push(x));
            assert forall|y: char| free_in(t).contains(y) && !ctx.contains(y) implies #[trigger] key_free(alpha_key(t, ctx)).contains(y) by {
                if free_in(*n).remove(x).contains(y) {
                    crate::de_bruijn::lemma_push_not_contains(ctx, x, y);
                    assert(key_free(alpha_key(*n, ctx.push(x))).contains(y));
                } else {
                    assert(key_free(alpha_key(*m, ctx)).contains(y));
                }
            }
        },
        Term::Pi(x, m, n) => {
            lemma_key_free_complete(*m, ctx);
            lemma_key_free_complete(*n, ctx.push(x));
            assert forall|y: char| free_in(t).contains(y) && !ctx.contains(y) implies #[trigger] key_free(alpha_key(t, ctx)).contains(y) by {
                if free_in(*n).remove(x).contains(y) {
                    crate::de_bruijn::lemma_push_not_contains(ctx, x, y);
                    assert(key_free(alpha_key(*n, ctx.push(x))).contains(y));
                } else {
                    assert(key_free(alpha_key(*m, ctx)).contains(y));
                }
            }
        },
        Term::App(f, a) => {
            lemma_key_free_complete(*f, ctx);
            lemma_key_free_complete(*a, ctx);
            assert forall|y: char| free_in(t).contains(y) && !ctx.contains(y) implies #[trigger] key_free(alpha_key(t, ctx)).contains(y) by {
                if free_in(*f).contains(y) {
                    assert(key_free(alpha_key(*f, ctx)).contains(y));
                } else {
                    assert(key_free(alpha_key(*a, ctx)).contains(y));
                }
            }
        },
        Term::Def(_, args) => {
            lemma_alpha_keys(args, ctx);
            lemma_key_free_all(alpha_keys(args, ctx));
            assert forall|y: char| free_in(t).contains(y) && !ctx.contains(y) implies #[trigger] key_free(alpha_key(t, ctx)).contains(y) by {
                let i = lemma_free_in_all_member(args, y);
                assert(decreases_to!(t => args[i]));
                lemma_key_free_complete(args[i], ctx);
                assert(key_free(alpha_keys(args, ctx)[i]).contains(y));
            }
        },
        _ => {},
    }
}

/// A free name of a sequence of terms is free in one of them.
pub proof fn lemma_free_in_all_member(s: Seq<Term>, y: char) -> (i: int)
    requires
        free_in_all(s).contains(y),
    ensures
        0 <= i < s.len() && free_in(s[i]).contains(y),
    decreases s.len(),
{
    if free_in_all(s.drop_last()).contains(y) {
        let i = lemma_free_in_all_member(s.drop_last(), y);
        assert(s.drop_last()[i] == s[i]);
        i
    } else {
        (s.len() - 1) as int
    }
}

/// Whether `t2` is `t1` with exactly one binder, somewhere in it, renamed
/// naively to a name that is free in its body and not bound around it (so
/// that the renaming captures it), under enclosing binders `ctx`.
pub open spec fn captured(t1: Term, t2: Term, ctx: Seq<char>) -> bool
    decreases t1,
{
    match (t1, t2) {
        (Term::Lam(x, a, n), Term::Lam(y, a2, n2)) => (a == a2 && x != y && free_in(*n).contains(y)
            && !ctx.contains(y) && *n2 == rename_free(*n, x, y)) || (x == y && ((captured(*a, *a2, ctx)
            && n == n2) || (a == a2 && captured(*n, *n2, ctx.push(x))))),
        (Term::Pi(x, a, n), Term::Pi(y, a2, n2)) => (a == a2 && x != y && free_in(*n).contains(y)
            && !ctx.contains(y) && *n2 == rename_free(*n, x, y)) || (x == y && ((captured(*a, *a2, ctx)
            && n == n2) || (a == a2 && captured(*n, *n2, ctx.push(x))))),
        (Term::App(f, a), Term::App(f2, a2)) => (captured(*f, *f2, ctx) && a == a2) || (f == f2 && captured(
            *a,
            *a2,
            ctx,
        )),
        (Term::Def(n1, s1), Term::Def(n2, s2)) => n1 == n2 && captured_all(s1, s2, ctx),
        _ => false,
    }
}

pub open spec fn captured_all(s1: Seq<Term>, s2: Seq<Term>, ctx: Seq<char>) -> bool
    decreases s1,
{
    if s1.len() == 0 {
        false
    } else {
        s2.len() == s1.len() && ((captured_all(s1.drop_last(), s2.drop_last(), ctx) && s1.last()
            == s2.last()) || (s1.drop_last() == s2.drop_last() && captured(s1.last(), s2.last(), ctx)))
    }
}

/// Renaming the binder `x` of a body `n` to a name `y` free in `n` and not
/// bound around it changes the α-key of the body.
proof fn lemma_capture_body(x: char, y: char, n: Term, ctx: Seq<char>)
    requires
        x != y,
        free_in(n).contains(y),
        !ctx.contains(y),
    ensures
        alpha_key(n, ctx.push(x)) != alpha_key(rename_free(n, x, y), ctx.push(y)),
{
    lemma_push_not_contains(ctx, x, y);
    lemma_key_free_complete(n, ctx.push(x));
    assert(key_free(alpha_key(n, ctx.push(x))).contains(y));
    lemma_key_free(rename_free(n, x, y), ctx.push(y));
    assert(ctx.push(y)[ctx.len() as int] == y);
    assert(!key_free(alpha_key(rename_free(n, x, y), ctx.push(y))).contains(y));
}

/// A capturing renaming anywhere in a term changes its α-key.
pub proof fn lemma_captured_key(t1: Term, t2: Term, ctx: Seq<char>)
    requires
        captured(t1, t2, ctx),
    ensures
        alpha_key(t1, ctx) != alpha_key(t2, ctx),
    decreases t1,
{
    match (t1, t2) {
        (Term::Lam(x, a, n), Term::Lam(y, a2, n2)) => {
            if a == a2 && x != y && free_in(*n).contains(y) && !ctx.contains(y) && *n2 == rename_free(*n, x, y) {
                lemma_capture_body(x, y, *n, ctx);
            } else if captured(*a, *a2, ctx) && n == n2 {
                lemma_captured_key(*a, *a2, ctx);
            } else {
                lemma_captured_key(*n, *n2, ctx.push(x));
            }
        },
        (Term::Pi(x, a, n), Term::Pi(y, a2, n2)) => {
            if a == a2 && x != y && free_in(*n).contains(y) && !ctx.contains(y) && *n2 == rename_free(*n, x, y) {
                lemma_capture_body(x, y, *n, ctx);
            } else if captured(*a, *a2, ctx) && n == n2 {
                lemma_captured_key(*a, *a2, ctx);
            } else {
                lemma_captured_key(*n, *n2, ctx.push(x));
            }
        },
        (Term::App(f, a), Term::App(f2, a2)) => {
            if captured(*f, *f2, ctx) && a == a2 {
                lemma_captured_key(*f, *f2, ctx);
            } else {
                lemma_captured_key(*a, *a2, ctx);
            }
        },
        (Term::Def(n1, s1), Term::Def(n2, s2)) => {
            lemma_captured_keys(t1, s1, s2, ctx);
        },
        _ => {},
    }
}

proof fn lemma_captured_keys(t1: Term, s1: Seq<Term>, s2: Seq<Term>, ctx: Seq<char>)
    requires
        captured_all(s1, s2, ctx),
        forall|i: int| 0 <= i < s1.len() ==> decreases_to!(t1 => #[trigger] s1[i]),
    ensures
        alpha_keys(s1, ctx) != alpha_keys(s2, ctx),
    decreases t1, s1.len(),
{
    lemma_alpha_keys(s1, ctx);
    lemma_alpha_keys(s2, ctx);
    let l = s1.len() - 1;
    if captured_all(s1.drop_last(), s2.drop_last(), ctx) && s1.last() == s2.last() {
        assert forall|i: int| 0 <= i < s1.drop_last().len() implies decreases_to!(t1 => #[trigger] s1.drop_last()[i]) by {
            assert(s1.drop_last()[i] == s1[i]);
        }
        lemma_captured_keys(t1, s1.drop_last(), s2.drop_last(), ctx);
        assert(alpha_keys(s1, ctx).drop_last() == alpha_keys(s1.drop_last(), ctx));
        assert(alpha_keys(s2, ctx).drop_last() == alpha_keys(s2.drop_last(), ctx));
    } else {
        assert(decreases_to!(t1 => s1[l]));
        lemma_captured_key(s1.last(), s2.last(), ctx);
        assert(alpha_keys(s1, ctx)[l] != alpha_keys(s2, ctx)[l]);
    }
}

/// The α-key distinguishes capture: renaming one binder of an expression,
/// at any depth, and the occurrences it binds, to a name free in its body
/// and free in the expression there, changes the de Bruijn form.
pub proof fn lemma_alpha_key_capture(e1: Term, e2: Term)
    requires
        captured(e1, e2, Seq::empty()),
    ensures
        debruijn(e1) != debruijn(e2),
{
    lemma_captured_key(e1, e2, Seq::empty());
}

/// Substituting for a name that is not free leaves a key as it is.
pub proof fn lemma_subst_absent(k: Key, x: char, u: Key)
    requires
        !key_free(k).contains(x),
    ensures
        subst(k, Some((x, u))) == k,
    decreases k,
{
    match k {
        Key::Lam(a, b) => {
            lemma_subst_absent(*a, x, u);
            lemma_subst_absent(*b, x, u);
        },
        Key::Pi(a, b) => {
            lemma_subst_absent(*a, x, u);
            lemma_subst_absent(*b, x, u);
        },
        Key::App(a, b) => {
            lemma_subst_absent(*a, x, u);
            lemma_subst_absent(*b, x, u);
        },
        Key::Def(name, args) => {
            lemma_key_free_all(args);
            lemma_subst_all(args, Some((x, u)));
            assert forall|i: int| 0 <= i < args.len() implies subst(args[i], Some((x, u))) == args[i] by {
                if key_free(args[i]).contains(x) {
                    assert(key_free_all(args).contains(x));
                }
                lemma_subst_absent(args[i], x, u);
            }
            assert(subst_all(args, Some((x, u))) =~= args);
        },
        Key::Free(y) => {
            assert(key_free(k).contains(y));
        },
        _ => {},
    }
}

/// Substitution for a name not free in `e` gives back `e`'s de Bruijn form.
pub proof fn lemma_substitution_absent(e: Term, x: char, u: Term)
    requires
        !free_in(e).contains(x),
    ensures
        subst(debruijn(e), Some((x, debruijn(u)))) == debruijn(e),
{
    lemma_key_free(e, Seq::empty());
    lemma_subst_absent(debruijn(e), x, debruijn(u));
}

/// With no substitution, [`subst`] leaves a key as it is.
pub proof fn lemma_subst_none(k: Key)
    ensures
        subst(k, None) == k,
    decreases k,
{
    match k {
        Key::Lam(a, b) => {
            lemma_subst_none(*a);
            lemma_subst_none(*b);
        },
        Key::Pi(a, b) => {
            lemma_subst_none(*a);
            lemma_subst_none(*b);
        },
        Key::App(a, b) => {
            lemma_subst_none(*a);
            lemma_subst_none(*b);
        },
        Key::Def(name, args) => {
            assert forall|i: int| 0 <= i < args.len() implies subst(args[i], None) == args[i] by {
                lemma_subst_none(args[i]);
            }
            lemma_subst_all(args, None);
            assert(subst_all(args, None) =~= args);
        },
        _ => {},
    }
}

/// Where `ctx` does not hold `x` from `i` on, the binder of `x` is found at
/// `i - 1` or before.
pub proof fn lemma_bound_index_suffix(ctx: Seq<char>, x: char, i: int)
    requires
        0 <= i <= ctx.len(),
        forall|j: int| i <= j < ctx.len() ==> ctx[j] != x,
    ensures
        i > 0 && ctx[i - 1] == x ==> bound_index(ctx, x) == Some((ctx.len() - i + 1) as nat),
        i == 0 ==> bound_index(ctx, x) is None,
    decreases ctx.len(),
{
    if ctx.len() > i {
        lemma_bound_index_suffix(ctx.drop_last(), x, i);
    } else if i == 0 {
    }
}

} // verus!
