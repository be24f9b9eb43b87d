//! The abstract syntax of expressions.
use crate::de_bruijn::{debruijn, fits, good, subst};
use vstd::prelude::*;

verus! {

/// A variable name: one character.
#[derive(Clone, Copy, Debug, PartialEq, Eq, Structural, Hash, PartialOrd, Ord)]
pub struct Var(pub char);

impl std::str::FromStr for Var {
    type Err = crate::error::ParseError;

    fn from_str(s: &str) -> Result<Var, crate::error::ParseError> {
        let v = crate::script::chars_of(s);
        if v.len() == 1 {
            Ok(Var(v[0]))
        } else {
            Err(crate::error::ParseError::ExpectingVariable)
        }
    }
}

/// The sort of types, written `*`.
#[derive(Clone, Copy, Debug)]
pub struct Asterisk;

/// The sort of kinds, written `@`.
#[derive(Clone, Copy, Debug)]
pub struct Square;

/// `λ x:M.N`.
#[derive(Debug)]
pub struct Lambda(pub Var, pub Expr, pub Expr);

/// `Π x:M.N`.
#[derive(Debug)]
pub struct Pi(pub Var, pub Expr, pub Expr);

/// `name[E₁,…,Eₖ]`: an invocation of a definition.
#[derive(Debug)]
pub struct Definition(pub String, pub Vec<Expr>);

/// `M N`.
#[derive(Debug)]
pub struct Application(pub Expr, pub Expr);

/// An expression of the calculus.
#[derive(Debug)]
pub enum Expr {
    Var(Var),
    Asterisk,
    Square,
    Lambda(Box<Lambda>),
    Pi(Box<Pi>),
    Definition(Definition),
    Application(Box<Application>),
}

/// The mathematical value of an [`Expr`].
pub enum Term {
    Var(char),
    Star,
    Square,
    Lam(char, Box<Term>, Box<Term>),
    Pi(char, Box<Term>, Box<Term>),
    Def(Seq<char>, Seq<Term>),
    App(Box<Term>, Box<Term>),
}

impl Expr {
    pub open spec fn term(&self) -> Term
        decreases self,
    {
        match self {
            Expr::Var(v) => Term::Var(v.0),
            Expr::Asterisk => Term::Star,
            Expr::Square => Term::Square,
            Expr::Lambda(l) => Term::Lam(l.0.0, Box::new(l.1.term()), Box::new(l.2.term())),
            Expr::Pi(p) => Term::Pi(p.0.0, Box::new(p.1.term()), Box::new(p.2.term())),
            Expr::Definition(d) => Term::Def(d.0@, terms(d.1@)),
            Expr::Application(a) => Term::App(Box::new(a.0.term()), Box::new(a.1.term())),
        }
    }
}

/// The values of a sequence of expressions.
pub open spec fn terms(s: Seq<Expr>) -> Seq<Term>
    decreases s,
{
    if s.len() == 0 {
        Seq::empty()
    } else {
        terms(s.drop_last()).push(s.last().term())
    }
}

impl View for Expr {
    type V = Term;

    open spec fn view(&self) -> Term {
        self.term()
    }
}

/// The names that occur free in a term.
pub open spec fn free_in(t: Term) -> Set<char>
    decreases t,
{
    match t {
        Term::Var(x) => set![x],
        Term::Star | Term::Square => Set::empty(),
        Term::Lam(x, m, n) => free_in(*n).remove(x).union(free_in(*m)),
        Term::Pi(x, m, n) => free_in(*n).remove(x).union(free_in(*m)),
        Term::Def(_, args) => free_in_all(args),
        Term::App(f, a) => free_in(*f).union(free_in(*a)),
    }
}

/// The names that occur free in any of a sequence of terms.
pub open spec fn free_in_all(s: Seq<Term>) -> Set<char>
    decreases s,
{
    if s.len() == 0 {
        Set::empty()
    } else {
        free_in_all(s.drop_last()).union(free_in(s.last()))
    }
}

/// The names held by a sequence of variables.
pub open spec fn names(s: Seq<Var>) -> Set<char> {
    Set::new(|c: char| exists|i: int| 0 <= i < s.len() && (#[trigger] s[i]).0 == c)
}

pub open spec fn is_sort_term(t: Term) -> bool {
    t is Star || t is Square
}

impl Expr {
    /// Whether this is one of the two sorts `*` and `@`.
    pub fn is_sort(&self) -> (r: bool)
        ensures
            r == is_sort_term(self@),
    {
        match self {
            Expr::Asterisk | Expr::Square => true,
            _ => false,
        }
    }
}

/// Whether `v` is among `s`.
pub fn contains_var(s: &Vec<Var>, v: Var) -> (r: bool)
    ensures
        r == names(s@).contains(v.0),
{
    let mut i: usize = 0;
    while i < s.len()
        invariant
            i <= s@.len(),
            forall|j: int| 0 <= j < i ==> s@[j].0 != v.0,
        decreases s@.len() - i,
    {
        if s[i].0 == v.0 {
            return true;
        }
        i = i + 1;
    }
    false
}

/// Adds to `acc` each variable of `other` that it does not hold yet.
fn add_all(acc: &mut Vec<Var>, other: &Vec<Var>)
    requires
        old(acc)@.no_duplicates(),
    ensures
        final(acc)@.no_duplicates(),
        names(final(acc)@) == names(old(acc)@).union(names(other@)),
{
    let mut i: usize = 0;
    while i < other.len()
        invariant
            i <= other@.len(),
            acc@.no_duplicates(),
            names(acc@) == names(old(acc)@).union(names(other@.subrange(0, i as int))),
        decreases other@.len() - i,
    {
        let v = other[i];
        let ghost prev = acc@;
        if !contains_var(acc, v) {
            acc.push(v);
            assert forall|a: int, b: int| 0 <= a < b < acc@.len() implies acc@[a] != acc@[b] by {
                if b == acc@.len() - 1 {
                    assert(names(prev).contains(acc@[a].0));
                }
            }
        }
        assert(names(acc@) =~= names(old(acc)@).union(names(other@.subrange(0, i as int + 1)))) by {
            assert forall|c: char| names(other@.subrange(0, i as int + 1)).contains(c) implies names(acc@).contains(c) by {
                let j = choose|j: int| 0 <= j < i + 1 && (#[trigger] other@.subrange(0, i as int + 1)[j]).0 == c;
                if j < i {
                    assert(other@.subrange(0, i as int)[j].0 == c);
                    assert(names(prev).contains(c));
                    let k = choose|k: int| 0 <= k < prev.len() && (#[trigger] prev[k]).0 == c;
                    assert(acc@[k].0 == c);
                } else if names(prev).contains(c) {
                    let k = choose|k: int| 0 <= k < prev.len() && (#[trigger] prev[k]).0 == c;
                    assert(acc@[k].0 == c);
                } else {
                    assert(acc@[acc@.len() - 1].0 == c);
                }
            }
            assert forall|c: char| names(acc@).contains(c) implies names(old(acc)@).union(names(other@.subrange(0, i as int + 1))).contains(c) by {
                let k = choose|k: int| 0 <= k < acc@.len() && (#[trigger] acc@[k]).0 == c;
                if k < prev.len() {
                    assert(names(prev).contains(c));
                    if names(other@.subrange(0, i as int)).contains(c) {
                        let j = choose|j: int| 0 <= j < i && (#[trigger] other@.subrange(0, i as int)[j]).0 == c;
                        assert(other@.subrange(0, i as int + 1)[j].0 == c);
                    }
                } else {
                    assert(other@.subrange(0, i as int + 1)[i as int].0 == c);
                }
            }
            assert forall|c: char| names(old(acc)@).contains(c) implies names(acc@).contains(c) by {
                assert(names(prev).contains(c));
                let k = choose|k: int| 0 <= k < prev.len() && (#[trigger] prev[k]).0 == c;
                assert(acc@[k].0 == c);
            }
        }
        i = i + 1;
    }
    assert(other@.subrange(0, other@.len() as int) == other@);
}

/// Removes `v` from `s`.
fn remove_var(s: &Vec<Var>, v: Var) -> (r: Vec<Var>)
    requires
        s@.no_duplicates(),
    ensures
        r@.no_duplicates(),
        names(r@) == names(s@).remove(v.0),
{
    let mut r: Vec<Var> = Vec::new();
    let mut i: usize = 0;
    while i < s.len()
        invariant
            i <= s@.len(),
            s@.no_duplicates(),
            r@.no_duplicates(),
            forall|k: int| 0 <= k < r@.len() ==> r@[k].0 != v.0,
            forall|k: int| 0 <= k < r@.len() ==> exists|j: int| 0 <= j < i && s@[j] == #[trigger] r@[k],
            forall|j: int| 0 <= j < i && s@[j].0 != v.0 ==> exists|k: int| 0 <= k < r@.len() && r@[k] == #[trigger] s@[j],
        decreases s@.len() - i,
    {
        if s[i].0 != v.0 {
            let ghost prev = r@;
            r.push(s[i]);
            assert(r@[r@.len() - 1] == s@[i as int]);
            assert forall|k: int| 0 <= k < r@.len() implies exists|j: int| 0 <= j < i + 1 && s@[j] == #[trigger] r@[k] by {
                if k < prev.len() {
                    assert(r@[k] == prev[k]);
                }
            }
            assert forall|j: int| 0 <= j < i + 1 && s@[j].0 != v.0 implies exists|k: int| 0 <= k < r@.len() && r@[k] == #[trigger] s@[j] by {
                if j < i {
                    let k = choose|k: int| 0 <= k < prev.len() && prev[k] == s@[j];
                    assert(r@[k] == s@[j]);
                } else {
                    assert(r@[r@.len() - 1] == s@[j]);
                }
            }
            assert forall|a: int, b: int| 0 <= a < b < r@.len() implies r@[a] != r@[b] by {
                if b == r@.len() - 1 {
                    let ja = choose|j: int| 0 <= j < i && s@[j] == #[trigger] prev[a];
                    assert(r@[a] == prev[a]);
                }
            }
        }
        i = i + 1;
    }
    assert(names(r@) =~= names(s@).remove(v.0)) by {
        assert forall|c: char| names(r@).contains(c) implies names(s@).remove(v.0).contains(c) by {
            let k = choose|k: int| 0 <= k < r@.len() && (#[trigger] r@[k]).0 == c;
            let j = choose|j: int| 0 <= j < i && s@[j] == #[trigger] r@[k];
        }
        assert forall|c: char| names(s@).remove(v.0).contains(c) implies names(r@).contains(c) by {
            let j = choose|j: int| 0 <= j < s@.len() && (#[trigger] s@[j]).0 == c;
            let k = choose|k: int| 0 <= k < r@.len() && r@[k] == #[trigger] s@[j];
        }
    }
    r
}

pub proof fn lemma_terms(s: Seq<Expr>)
    ensures
        terms(s).len() == s.len(),
        forall|i: int| 0 <= i < s.len() ==> #[trigger] terms(s)[i] == s[i]@,
    decreases s.len(),
{
    if s.len() > 0 {
        lemma_terms(s.drop_last());
    }
}

/// Facts about the free names of a sequence of terms.
pub proof fn lemma_free_in_all(s: Seq<Term>, i: int)
    requires
        0 <= i < s.len(),
    ensures
        free_in(s[i]).subset_of(free_in_all(s)),
    decreases s.len(),
{
    if i < s.len() - 1 {
        lemma_free_in_all(s.drop_last(), i);
    }
}

impl Expr {
    /// The set of names that occur free in this expression.
    pub fn free_vars(&self) -> (r: Vec<Var>)
        ensures
            r@.no_duplicates(),
            names(r@) == free_in(self@),
        decreases self,
    {
        match self {
            Expr::Asterisk | Expr::Square => {
                let r: Vec<Var> = Vec::new();
                assert(names(r@) =~= Set::empty());
                r
            },
            Expr::Var(v) => {
                let r: Vec<Var> = vec![*v];
                assert(names(r@) =~= set![v.0]) by {
                    assert(r@[0].0 == v.0);
                }
                r
            },
            Expr::Lambda(l) => {
                let body = l.2.free_vars();
                let mut fv = remove_var(&body, l.0);
                let dom = l.1.free_vars();
                add_all(&mut fv, &dom);
                fv
            },
            Expr::Pi(p) => {
                let body = p.2.free_vars();
                let mut fv = remove_var(&body, p.0);
                let dom = p.1.free_vars();
                add_all(&mut fv, &dom);
                fv
            },
            Expr::Definition(d) => {
                let mut fv: Vec<Var> = Vec::new();
                let mut i: usize = 0;
                assert forall|k: int| 0 <= k < d.1@.len() implies decreases_to!(self => d.1@[k]) by {
                    assert(decreases_to!(d.1 => d.1@));
                    assert(decreases_to!(d.1@ => d.1@[k]));
                }
                assert(names(fv@) =~= Set::empty());
                while i < d.1.len()
                    invariant
                        i <= d.1@.len(),
                        forall|k: int| 0 <= k < d.1@.len() ==> decreases_to!(self => d.1@[k]),
                        fv@.no_duplicates(),
                        names(fv@) == free_in_all(terms(d.1@.subrange(0, i as int))),
                    decreases d.1@.len() - i,
                {
                    let e = d.1[i].free_vars();
                    let ghost sub = d.1@.subrange(0, i as int + 1);
                    assert(sub.drop_last() == d.1@.subrange(0, i as int));
                    assert(terms(sub) == terms(d.1@.subrange(0, i as int)).push(d.1@[i as int]@));
                    assert(terms(sub).drop_last() == terms(d.1@.subrange(0, i as int)));
                    add_all(&mut fv, &e);
                    i = i + 1;
                }
                assert(d.1@.subrange(0, d.1@.len() as int) == d.1@);
                fv
            },
            Expr::Application(a) => {
                let mut fv = a.0.free_vars();
                let arg = a.1.free_vars();
                add_all(&mut fv, &arg);
                fv
            },
        }
    }
}

/// The letters in order: `A`..`Z`, then `a`..`z`.
pub open spec fn letter(k: int) -> char
    recommends
        0 <= k < 52,
{
    if k < 26 {
        ((65 + k) as u8) as char
    } else {
        ((97 + k - 26) as u8) as char
    }
}

/// The position among the letters of the first letter not below `v`
/// (wrapping to `A` past `z`).
pub open spec fn letter_start(v: char) -> int {
    let c = v as u32;
    if c < 65 {
        0
    } else if c <= 90 {
        c - 65
    } else if c < 97 {
        26
    } else if c <= 122 {
        26 + (c - 97)
    } else {
        0
    }
}

/// The `k`-th letter tried for a fresh name close to `v`: the letters from
/// the first one not below `v`, cycling from `z` back to `A`.
pub open spec fn candidate(v: char, k: int) -> char {
    letter((letter_start(v) + k) % 52)
}

/// A sequence of distinct variables holds as many names as it is long.
pub proof fn lemma_names_len(s: Seq<Var>)
    requires
        s.no_duplicates(),
    ensures
        names(s).finite(),
        names(s).len() == s.len(),
{
    let m = s.map_values(|v: Var| v.0);
    assert(names(s) =~= m.to_set()) by {
        assert forall|c: char| names(s).contains(c) implies m.to_set().contains(c) by {
            let i = choose|i: int| 0 <= i < s.len() && (#[trigger] s[i]).0 == c;
            assert(m[i] == c);
        }
        assert forall|c: char| m.to_set().contains(c) implies names(s).contains(c) by {
            let i = choose|i: int| 0 <= i < m.len() && m[i] == c;
            assert(s[i].0 == c);
        }
    }
    assert(m.no_duplicates()) by {
        assert forall|i: int, j: int| 0 <= i < m.len() && 0 <= j < m.len() && i != j implies m[i] != m[j] by {
            assert(s[i] != s[j]);
        }
    }
    m.unique_seq_to_set();
}

/// Pushing a variable adds its name.
pub proof fn lemma_names_push(s: Seq<Var>, v: Var)
    ensures
        names(s.push(v)) == names(s).insert(v.0),
{
    assert forall|c: char| names(s.push(v)).contains(c) implies names(s).insert(v.0).contains(c) by {
        let i = choose|i: int| 0 <= i < s.push(v).len() && (#[trigger] s.push(v)[i]).0 == c;
        if i < s.len() {
            assert(s[i] == s.push(v)[i]);
        }
    }
    assert forall|c: char| names(s).insert(v.0).contains(c) implies names(s.push(v)).contains(c) by {
        if c == v.0 {
            assert(s.push(v)[s.len() as int] == v);
        } else {
            let i = choose|i: int| 0 <= i < s.len() && (#[trigger] s[i]).0 == c;
            assert(s.push(v)[i] == s[i]);
        }
    }
    assert(names(s.push(v)) =~= names(s).insert(v.0));
}

/// Fewer than 52 variables leave one of the 52 letters tried free.
pub proof fn lemma_free_letter(v: char, s: Seq<Var>)
    requires
        s.len() < 52,
    ensures
        exists|k: int| 0 <= k < 52 && !names(s).contains(#[trigger] candidate(v, k)),
{
    let c = Seq::new(52, |k: int| candidate(v, k));
    let m = s.map_values(|x: Var| x.0);
    if forall|k: int| 0 <= k < 52 ==> names(s).contains(#[trigger] candidate(v, k)) {
        assert(c.no_duplicates()) by {
            assert forall|i: int, j: int| 0 <= i < 52 && 0 <= j < 52 && i != j implies c[i] != c[j] by {
                let a = (letter_start(v) + i) % 52;
                let b = (letter_start(v) + j) % 52;
                assert(a != b);
                assert(letter(a) as u32 != letter(b) as u32);
            }
        }
        c.unique_seq_to_set();
        assert(c.to_set().subset_of(m.to_set())) by {
            assert forall|x: char| c.to_set().contains(x) implies m.to_set().contains(x) by {
                let k = choose|k: int| 0 <= k < c.len() && c[k] == x;
                assert(names(s).contains(candidate(v, k)));
                let i = choose|i: int| 0 <= i < s.len() && (#[trigger] s[i]).0 == x;
                assert(m[i] == x);
            }
        }
        m.lemma_cardinality_of_set();
        vstd::set_lib::lemma_len_subset(c.to_set(), m.to_set());
        assert(false);
    }
}

fn letter_at(k: u32) -> (r: char)
    requires
        k < 52,
    ensures
        r == letter(k as int),
{
    if k < 26 {
        ((65 + k) as u8) as char
    } else {
        ((97 + k - 26) as u8) as char
    }
}

/// Picks a fresh name for a binder called `v`, avoiding the names in `fv`:
/// the first letter, counting up from `v` and cycling from `z` back to `A`,
/// that `fv` does not hold. When `fv` holds every letter, `v` itself comes
/// back.
pub fn generate_free_var_gte(fv: &Vec<Var>, v: Var) -> (r: Var)
    ensures
        (exists|k: int| 0 <= k < 52 && !names(fv@).contains(#[trigger] candidate(v.0, k))) ==> (
        exists|k: int|
            0 <= k < 52 && r.0 == candidate(v.0, k) && !names(fv@).contains(r.0) && forall|j: int|
                0 <= j < k ==> names(fv@).contains(#[trigger] candidate(v.0, j))),
        (forall|k: int| 0 <= k < 52 ==> names(fv@).contains(#[trigger] candidate(v.0, k))) ==> r
            == v,
{
    let c = v.0 as u32;
    let start: u32 = if c < 65 {
        0
    } else if c <= 90 {
        c - 65
    } else if c < 97 {
        26
    } else if c <= 122 {
        26 + (c - 97)
    } else {
        0
    };
    let mut k: u32 = 0;
    while k < 52
        invariant
            k <= 52,
            start == letter_start(v.0),
            start < 52,
            forall|j: int| 0 <= j < k ==> names(fv@).contains(#[trigger] candidate(v.0, j)),
        decreases 52 - k,
    {
        let cand = Var(letter_at((start + k) % 52));
        assert(cand.0 == candidate(v.0, k as int));
        if !contains_var(fv, cand) {
            return cand;
        }
        k = k + 1;
    }
    v
}

impl Expr {
    /// The α-key of this expression.
    pub fn de_bruijn(&self) -> (r: crate::de_bruijn::Expr)
        ensures
            r@ == debruijn(self@),
    {
        let r = crate::de_bruijn::de_bruijn(self, &crate::de_bruijn::Bindings::new(None));
        proof {
            crate::de_bruijn::lemma_subst_none(debruijn(self@));
        }
        r
    }

    /// This expression with `expr` put for the free occurrences of `var`,
    /// binders renamed where they would capture a free name of `expr`.
    ///
    /// The de Bruijn form of the result is that of this expression with the
    /// de Bruijn form of `expr` put for the free `var`, whenever the letters
    /// suffice to rename the binders (see [`fits`]).
    pub fn alpha_substitution(&self, var: Var, expr: Expr) -> (r: Expr)
        ensures
            fits(self@, free_in(expr@).len()) && fits(expr@, 0) ==> debruijn(r@) == subst(
                debruijn(self@),
                Some((var.0, debruijn(expr@))),
            ),
    {
        let ghost u = expr@;
        let b = crate::de_bruijn::Bindings::new(Some((var, expr)));
        assert(good(self@, b.written(), b.renames(), b.substitution_term()));
        let c = crate::de_bruijn::de_bruijn(self, &b);
        let r = c.read_back();
        proof {
            if fits(self@, free_in(u).len()) && fits(u, 0) {
                crate::de_bruijn::lemma_read_back(c, Seq::empty());
            }
        }
        r
    }
}

impl Expr {
    /// Whether the two expressions are the same, names of binders included.
    pub fn same_as(&self, other: &Expr) -> (r: bool)
        ensures
            r == (self@ == other@),
        decreases self,
    {
        match (self, other) {
            (Expr::Var(x), Expr::Var(y)) => x.0 == y.0,
            (Expr::Asterisk, Expr::Asterisk) => true,
            (Expr::Square, Expr::Square) => true,
            (Expr::Lambda(l1), Expr::Lambda(l2)) => l1.0.0 == l2.0.0 && l1.1.same_as(&l2.1)
                && l1.2.same_as(&l2.2),
            (Expr::Pi(p1), Expr::Pi(p2)) => p1.0.0 == p2.0.0 && p1.1.same_as(&p2.1) && p1.2.same_as(
                &p2.2,
            ),
            (Expr::Application(a1), Expr::Application(a2)) => a1.0.same_as(&a2.0) && a1.1.same_as(
                &a2.1,
            ),
            (Expr::Definition(d1), Expr::Definition(d2)) => {
                proof {
                    lemma_terms(d1.1@);
                    lemma_terms(d2.1@);
                }
                if d1.0 != d2.0 || d1.1.len() != d2.1.len() {
                    proof {
                        if d1.1.len() == d2.1.len() {
                            assert(self@ != other@);
                        }
                    }
                    return false;
                }
                assert forall|k: int| 0 <= k < d1.1@.len() implies decreases_to!(self => d1.1@[k]) by {
                    assert(decreases_to!(d1.1 => d1.1@));
                    assert(decreases_to!(d1.1@ => d1.1@[k]));
                }
                let mut i: usize = 0;
                while i < d1.1.len()
                    invariant
                        i <= d1.1@.len(),
                        d1.1@.len() == d2.1@.len(),
                        forall|k: int| 0 <= k < d1.1@.len() ==> decreases_to!(self => d1.1@[k]),
                        forall|k: int| 0 <= k < i ==> d1.1@[k]@ == d2.1@[k]@,
                        self@ == Term::Def(d1.0@, terms(d1.1@)),
                        other@ == Term::Def(d2.0@, terms(d2.1@)),
                    decreases d1.1@.len() - i,
                {
                    if !d1.1[i].same_as(&d2.1[i]) {
                        proof {
                            lemma_terms(d1.1@);
                            lemma_terms(d2.1@);
                        }
                        assert(terms(d1.1@)[i as int] != terms(d2.1@)[i as int]);
                        return false;
                    }
                    i = i + 1;
                }
                proof {
                    lemma_terms(d1.1@);
                    lemma_terms(d2.1@);
                }
                assert(terms(d1.1@) =~= terms(d2.1@));
                true
            },
            _ => false,
        }
    }
}

/// The modulus of fingerprints: a prime below 2³⁰.
pub const FINGERPRINT_MODULUS: u64 = 1_000_000_007;

/// One step of a fingerprint: `h` followed by `x`.
pub open spec fn mix(h: int, x: int) -> int {
    (h * 31 + x) % (FINGERPRINT_MODULUS as int)
}

pub fn mix_exec(h: u64, x: u64) -> (r: u64)
    requires
        h < FINGERPRINT_MODULUS,
        x < 0x1_0000_0000,
    ensures
        r == mix(h as int, x as int),
        r < FINGERPRINT_MODULUS,
{
    (h * 31 + x) % FINGERPRINT_MODULUS
}

/// A fingerprint of a sequence of characters.
pub open spec fn chars_fingerprint(s: Seq<char>) -> int
    decreases s.len(),
{
    if s.len() == 0 {
        0
    } else {
        mix(chars_fingerprint(s.drop_last()), s.last() as u32 as int)
    }
}

/// A fingerprint of a term: equal terms have equal fingerprints.
pub open spec fn term_fingerprint(t: Term) -> int
    decreases t,
{
    match t {
        Term::Var(c) => mix(1, c as u32 as int),
        Term::Star => 2,
        Term::Square => 3,
        Term::Lam(c, m, n) => mix(mix(mix(4, c as u32 as int), term_fingerprint(*m)), term_fingerprint(*n)),
        Term::Pi(c, m, n) => mix(mix(mix(5, c as u32 as int), term_fingerprint(*m)), term_fingerprint(*n)),
        Term::App(f, a) => mix(mix(6, term_fingerprint(*f)), term_fingerprint(*a)),
        Term::Def(name, args) => mix(mix(7, chars_fingerprint(name)), terms_fingerprint(args)),
    }
}

pub open spec fn terms_fingerprint(s: Seq<Term>) -> int
    decreases s,
{
    if s.len() == 0 {
        0
    } else {
        mix(terms_fingerprint(s.drop_last()), term_fingerprint(s.last()))
    }
}

/// The fingerprint of a string's characters.
pub fn string_fingerprint(s: &String) -> (r: u64)
    ensures
        r == chars_fingerprint(s@),
        r < FINGERPRINT_MODULUS,
{
    let n = s.as_str().unicode_len();
    let mut h: u64 = 0;
    let mut i: usize = 0;
    while i < n
        invariant
            i <= n == s@.len(),
            h == chars_fingerprint(s@.subrange(0, i as int)),
            h < FINGERPRINT_MODULUS,
        decreases n - i,
    {
        let c = s.as_str().get_char(i);
        assert(s@.subrange(0, i as int + 1).drop_last() == s@.subrange(0, i as int));
        h = mix_exec(h, c as u32 as u64);
        i = i + 1;
    }
    assert(s@.subrange(0, n as int) == s@);
    h
}

impl Expr {
    /// A fingerprint of this expression, names of binders included; see
    /// [`term_fingerprint`].
    pub fn fingerprint(&self) -> (r: u64)
        ensures
            r == term_fingerprint(self@),
            r < FINGERPRINT_MODULUS,
        decreases self,
    {
        match self {
            Expr::Var(v) => mix_exec(1, v.0 as u32 as u64),
            Expr::Asterisk => 2,
            Expr::Square => 3,
            Expr::Lambda(l) => {
                let h = mix_exec(4, l.0.0 as u32 as u64);
                let h = mix_exec(h, l.1.fingerprint());
                mix_exec(h, l.2.fingerprint())
            },
            Expr::Pi(p) => {
                let h = mix_exec(5, p.0.0 as u32 as u64);
                let h = mix_exec(h, p.1.fingerprint());
                mix_exec(h, p.2.fingerprint())
            },
            Expr::Application(a) => {
                let h = mix_exec(6, a.0.fingerprint());
                mix_exec(h, a.1.fingerprint())
            },
            Expr::Definition(d) => {
                let h = mix_exec(7, string_fingerprint(&d.0));
                let mut acc: u64 = 0;
                let mut i: usize = 0;
                assert forall|k: int| 0 <= k < d.1@.len() implies decreases_to!(self => d.1@[k]) by {
                    assert(decreases_to!(d.1 => d.1@));
                    assert(decreases_to!(d.1@ => d.1@[k]));
                }
                while i < d.1.len()
                    invariant
                        i <= d.1@.len(),
                        forall|k: int| 0 <= k < d.1@.len() ==> decreases_to!(self => d.1@[k]),
                        acc == terms_fingerprint(terms(d.1@.subrange(0, i as int))),
                        acc < FINGERPRINT_MODULUS,
                    decreases d.1@.len() - i,
                {
                    let ghost sub = d.1@.subrange(0, i as int + 1);
                    assert(sub.drop_last() == d.1@.subrange(0, i as int));
                    assert(terms(sub).drop_last() == terms(d.1@.subrange(0, i as int)));
                    assert(terms(sub).last() == d.1@[i as int]@);
                    acc = mix_exec(acc, d.1[i].fingerprint());
                    i = i + 1;
                }
                assert(d.1@.subrange(0, d.1@.len() as int) == d.1@);
                mix_exec(h, acc)
            },
        }
    }
}

impl Clone for Expr {
    fn clone(&self) -> (r: Self)
        ensures
            r@ == self@,
        decreases self,
    {
        match self {
            Expr::Var(v) => Expr::Var(*v),
            Expr::Asterisk => Expr::Asterisk,
            Expr::Square => Expr::Square,
            Expr::Lambda(l) => Expr::Lambda(Box::new(Lambda(l.0, l.1.clone(), l.2.clone()))),
            Expr::Pi(p) => Expr::Pi(Box::new(Pi(p.0, p.1.clone(), p.2.clone()))),
            Expr::Definition(d) => {
                let mut args: Vec<Expr> = Vec::new();
                let mut i: usize = 0;
                assert forall|k: int| 0 <= k < d.1@.len() implies decreases_to!(self => d.1@[k]) by {
                    assert(decreases_to!(d.1 => d.1@));
                    assert(decreases_to!(d.1@ => d.1@[k]));
                }
                while i < d.1.len()
                    invariant
                        i <= d.1@.len(),
                        forall|k: int| 0 <= k < d.1@.len() ==> decreases_to!(self => d.1@[k]),
                        terms(args@) == terms(d.1@.subrange(0, i as int)),
                    decreases d.1@.len() - i,
                {
                    assert(d.1@.subrange(0, i as int + 1).drop_last() == d.1@.subrange(0, i as int));
                    let ghost prev = args@;
                    args.push(d.1[i].clone());
                    assert(args@.drop_last() == prev);
                    i = i + 1;
                }
                assert(d.1@.subrange(0, d.1@.len() as int) == d.1@);
                Expr::Definition(Definition(d.0.clone(), args))
            },
            Expr::Application(a) => Expr::Application(
                Box::new(Application(a.0.clone(), a.1.clone())),
            ),
        }
    }
}

} // verus!
