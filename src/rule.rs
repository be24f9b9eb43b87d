//! The derivation engine: one operation per inference rule. Each checks the
//! rule's premises on judgements already derived and appends the conclusion.
use crate::de_bruijn::{debruijn, fits, subst};
use crate::error::{Error, Premise};
use crate::in_tree::{
    InTree,
    Nodes,
    Payload,
    ancestors,
    created,
    holds,
    lemma_created,
    path,
};
use crate::model::{
    chars_fingerprint,
    free_in,
    is_sort_term,
    mix,
    mix_exec,
    term_fingerprint,
    Application,
    Expr,
    Lambda,
    Pi,
    Term,
    Var,
    FINGERPRINT_MODULUS,
};
use vstd::prelude::*;

verus! {

/// A judgement `Δ ⊢ Γ ▷ M : N`: the ids of its definition list and its
/// context, and the two expressions.
#[derive(Debug)]
pub struct Judgement {
    pub definitions: usize,
    pub context: usize,
    pub m: Expr,
    pub n: Expr,
}

/// The value of a judgement.
pub struct JudgementView {
    pub definitions: usize,
    pub context: usize,
    pub m: Term,
    pub n: Term,
}

impl View for Judgement {
    type V = JudgementView;

    open spec fn view(&self) -> JudgementView {
        JudgementView { definitions: self.definitions, context: self.context, m: self.m@, n: self.n@ }
    }
}

impl Judgement {
    /// A copy of this judgement.
    pub fn duplicate(&self) -> (r: Judgement)
        ensures
            r@ == self@,
    {
        Judgement {
            definitions: self.definitions,
            context: self.context,
            m: self.m.clone(),
            n: self.n.clone(),
        }
    }
}

/// A list of judgements.
#[derive(Debug)]
pub struct Book(pub Vec<Judgement>);

/// One entry of a definition list: `name(Γ) := M : N`, where `Γ` is the
/// context with id `context` and `M` is absent for a primitive definition.
#[derive(Debug)]
pub struct DefinitionEntry {
    pub context: usize,
    pub name: String,
    pub m: Option<Expr>,
    pub n: Expr,
}

/// The value of a definition entry.
pub struct DefinitionModel {
    pub context: usize,
    pub name: Seq<char>,
    pub m: Option<Term>,
    pub n: Term,
}

pub open spec fn binding_model(b: (Var, Expr)) -> (char, Term) {
    let (v, e) = b;
    (v.0, e@)
}

impl Payload for (Var, Expr) {
    type Model = (char, Term);

    open spec fn model(&self) -> (char, Term) {
        binding_model(*self)
    }

    fn same(&self, other: &Self) -> (r: bool) {
        let (v1, e1) = self;
        let (v2, e2) = other;
        v1.0 == v2.0 && e1.same_as(e2)
    }

    fn duplicate(&self) -> (r: Self) {
        let (v, e) = self;
        (*v, e.clone())
    }

    open spec fn fingerprint_of(m: (char, Term)) -> u64 {
        let (c, t) = m;
        mix(mix(8, c as u32 as int), term_fingerprint(t)) as u64
    }

    fn fingerprint(&self) -> (r: u64) {
        let (v, e) = self;
        let h = mix_exec(8, v.0 as u32 as u64);
        mix_exec(h, e.fingerprint())
    }
}

impl Payload for DefinitionEntry {
    type Model = DefinitionModel;

    open spec fn model(&self) -> DefinitionModel {
        DefinitionModel {
            context: self.context,
            name: self.name@,
            m: match self.m {
                Some(e) => Some(e@),
                None => None,
            },
            n: self.n@,
        }
    }

    fn same(&self, other: &Self) -> (r: bool) {
        let same_m = match (&self.m, &other.m) {
            (Some(a), Some(b)) => a.same_as(b),
            (None, None) => true,
            _ => false,
        };
        self.context == other.context && self.name == other.name && same_m && self.n.same_as(&other.n)
    }

    fn duplicate(&self) -> (r: Self) {
        DefinitionEntry {
            context: self.context,
            name: self.name.clone(),
            m: match &self.m {
                Some(e) => Some(e.clone()),
                None => None,
            },
            n: self.n.clone(),
        }
    }

    open spec fn fingerprint_of(m: DefinitionModel) -> u64 {
        let body = match m.m {
            Some(t) => mix(10, term_fingerprint(t)),
            None => 11,
        };
        mix(
            mix(mix(mix(9, m.context as int % (FINGERPRINT_MODULUS as int)), chars_fingerprint(m.name)), body),
            term_fingerprint(m.n),
        ) as u64
    }

    fn fingerprint(&self) -> (r: u64) {
        let body = match &self.m {
            Some(e) => mix_exec(10, e.fingerprint()),
            None => 11,
        };
        let h = mix_exec(9, (self.context as u64) % FINGERPRINT_MODULUS);
        let h = mix_exec(h, crate::model::string_fingerprint(&self.name));
        let h = mix_exec(h, body);
        mix_exec(h, self.n.fingerprint())
    }
}

/// The state of a derivation: the judgements derived so far, by index, and
/// the two trees that their contexts and definition lists live in.
#[derive(Debug)]
pub struct Resolver {
    pub judgements: Vec<Judgement>,
    pub context: InTree<(Var, Expr)>,
    pub definitions: InTree<DefinitionEntry>,
}

/// What the rules see of a state: the judgements, and the two trees.
pub struct ResolverView {
    pub judgements: Seq<JudgementView>,
    pub contexts: Nodes<(char, Term)>,
    pub definitions: Nodes<DefinitionModel>,
}

impl View for Resolver {
    type V = ResolverView;

    open spec fn view(&self) -> ResolverView {
        ResolverView {
            judgements: Seq::new(self.judgements@.len(), |i: int| self.judgements@[i]@),
            contexts: self.context.nodes(),
            definitions: self.definitions.nodes(),
        }
    }
}

/// The view after appending `j`, with the trees as given.
pub open spec fn appended(
    s: ResolverView,
    j: JudgementView,
    contexts: Nodes<(char, Term)>,
    definitions: Nodes<DefinitionModel>,
) -> ResolverView {
    ResolverView { judgements: s.judgements.push(j), contexts, definitions }
}

/// The definition list with id `id` holds a definition named `name`.
pub open spec fn defines(definitions: Nodes<DefinitionModel>, id: int, name: Seq<char>) -> bool {
    exists|k: int| 0 <= k < path(definitions, id).len() && (#[trigger] path(definitions, id)[k]).name == name
}

impl Default for Resolver {
    fn default() -> (r: Self)
        ensures
            r.wf(),
            r@.judgements.len() == 0,
    {
        Self::new()
    }
}

/// Whether two terms are α-equivalent: the same de Bruijn form.
pub open spec fn alpha_eq(a: Term, b: Term) -> bool {
    debruijn(a) == debruijn(b)
}

/// Whether two expressions are α-equivalent.
pub fn alpha_equal(a: &Expr, b: &Expr) -> (r: bool)
    ensures
        r == alpha_eq(a@, b@),
{
    a.de_bruijn() == b.de_bruijn()
}

/// The outcome of a rule that adds no node to either tree: the conclusion,
/// or the first premise that fails.
pub open spec fn outcome_post(
    old: ResolverView,
    new: ResolverView,
    r: Result<usize, Error>,
    outcome: Result<JudgementView, Error>,
) -> bool {
    match outcome {
        Ok(j) => r == Ok::<usize, Error>(old.judgements.len() as usize) && new == appended(
            old,
            j,
            old.contexts,
            old.definitions,
        ),
        Err(e) => r == Err::<usize, Error>(e) && new == old,
    }
}

/// `form J₁ J₂`: from `Δ ⊢ Γ ▷ A : s₁` and `Δ ⊢ Γ, x:A ▷ B : s₂` derives
/// `Δ ⊢ Γ ▷ Π x:A.B : s₂`.
pub open spec fn form_outcome(s: ResolverView, a: usize, b: usize) -> Result<JudgementView, Error> {
    if a >= s.judgements.len() || b >= s.judgements.len() {
        Err(Error::UndefinedReference)
    } else {
        let ja = s.judgements[a as int];
        let jb = s.judgements[b as int];
        if ja.definitions != jb.definitions {
            Err(Error::PremiseMismatch(Premise::SameDefinitions))
        } else if !is_sort_term(ja.n) || !is_sort_term(jb.n) {
            Err(Error::PremiseMismatch(Premise::SortType))
        } else {
            match s.contexts[jb.context as int] {
                Some((parent, (x, ty))) => if parent != ja.context {
                    Err(Error::PremiseMismatch(Premise::ContextExtends))
                } else if !alpha_eq(ty, ja.m) {
                    Err(Error::PremiseMismatch(Premise::BindingType))
                } else {
                    Ok(
                        JudgementView {
                            definitions: ja.definitions,
                            context: ja.context,
                            m: Term::Pi(x, Box::new(ja.m), Box::new(jb.m)),
                            n: jb.n,
                        },
                    )
                },
                None => Err(Error::PremiseMismatch(Premise::ContextExtends)),
            }
        }
    }
}

/// `conv J₁ J₂`: from `Δ ⊢ Γ ▷ A : B₁` and `Δ ⊢ Γ ▷ B₂ : s`, `s` a sort,
/// derives `Δ ⊢ Γ ▷ A : B₂`.
pub open spec fn conv_outcome(s: ResolverView, a: usize, b: usize) -> Result<JudgementView, Error> {
    if a >= s.judgements.len() || b >= s.judgements.len() {
        Err(Error::UndefinedReference)
    } else {
        let ja = s.judgements[a as int];
        let jb = s.judgements[b as int];
        if ja.definitions != jb.definitions {
            Err(Error::PremiseMismatch(Premise::SameDefinitions))
        } else if ja.context != jb.context {
            Err(Error::PremiseMismatch(Premise::SameContext))
        } else if !is_sort_term(jb.n) {
            Err(Error::PremiseMismatch(Premise::SortType))
        } else {
            Ok(JudgementView { definitions: ja.definitions, context: ja.context, m: ja.m, n: jb.m })
        }
    }
}

/// `abst J₁ J₂`: from `Δ ⊢ Γ, x:A ▷ M : B` and `Δ ⊢ Γ ▷ Π x:A.B : s`, `s` a
/// sort, derives `Δ ⊢ Γ ▷ λ x:A.M : Π x:A.B`.
pub open spec fn abst_outcome(s: ResolverView, a: usize, b: usize) -> Result<JudgementView, Error> {
    if a >= s.judgements.len() || b >= s.judgements.len() {
        Err(Error::UndefinedReference)
    } else {
        let ja = s.judgements[a as int];
        let jb = s.judgements[b as int];
        if ja.definitions != jb.definitions {
            Err(Error::PremiseMismatch(Premise::SameDefinitions))
        } else {
            match s.contexts[ja.context as int] {
                Some((parent, (x1, a1))) => if parent != jb.context {
                    Err(Error::PremiseMismatch(Premise::ContextExtends))
                } else {
                    match jb.m {
                        Term::Pi(x2, a2, b2) => if x1 != x2 {
                            Err(Error::PremiseMismatch(Premise::BinderName))
                        } else if !alpha_eq(a1, *a2) {
                            Err(Error::PremiseMismatch(Premise::DomainType))
                        } else if !alpha_eq(ja.n, *b2) {
                            Err(Error::PremiseMismatch(Premise::BodyType))
                        } else if !is_sort_term(jb.n) {
                            Err(Error::PremiseMismatch(Premise::SortType))
                        } else {
                            Ok(
                                JudgementView {
                                    definitions: ja.definitions,
                                    context: jb.context,
                                    m: Term::Lam(x1, Box::new(a1), Box::new(ja.m)),
                                    n: Term::Pi(x1, a2, Box::new(ja.n)),
                                },
                            )
                        },
                        _ => Err(Error::PremiseMismatch(Premise::PiType)),
                    }
                },
                None => Err(Error::PremiseMismatch(Premise::ContextExtends)),
            }
        }
    }
}

/// The premises of `appl J₁ J₂`: `Δ ⊢ Γ ▷ M : Π x:A.B` and `Δ ⊢ Γ ▷ N : A`.
/// The first that fails, if any.
pub open spec fn appl_check(s: ResolverView, a: usize, b: usize) -> Option<Error> {
    if a >= s.judgements.len() || b >= s.judgements.len() {
        Some(Error::UndefinedReference)
    } else {
        let ja = s.judgements[a as int];
        let jb = s.judgements[b as int];
        if ja.definitions != jb.definitions {
            Some(Error::PremiseMismatch(Premise::SameDefinitions))
        } else if ja.context != jb.context {
            Some(Error::PremiseMismatch(Premise::SameContext))
        } else {
            match ja.n {
                Term::Pi(_, a1, _) => if !alpha_eq(jb.n, *a1) {
                    Some(Error::PremiseMismatch(Premise::ArgumentType))
                } else {
                    None
                },
                _ => Some(Error::PremiseMismatch(Premise::PiType)),
            }
        }
    }
}

/// Whether `j` is a conclusion of `appl` from `ja = Δ ⊢ Γ ▷ M : Π x:A.B` and
/// `jb = Δ ⊢ Γ ▷ N : A`: `Δ ⊢ Γ ▷ M N : B[x:=N]`, the substitution exact up
/// to α where the letters suffice to rename binders.
pub open spec fn appl_conclusion(ja: JudgementView, jb: JudgementView, j: JudgementView) -> bool {
    &&& j.definitions == ja.definitions
    &&& j.context == ja.context
    &&& j.m == Term::App(Box::new(ja.m), Box::new(jb.m))
    &&& match ja.n {
        Term::Pi(x, _, body) => fits(*body, free_in(jb.m).len()) && fits(jb.m, 0) ==> debruijn(j.n)
            == subst(debruijn(*body), Some((x, debruijn(jb.m)))),
        _ => false,
    }
}

/// The premises of `def J₁ J₂ name`: `Δ ⊢ Γ ▷ K : L` and `Δ ⊢ Γ′ ▷ M : N`
/// with `name` not defined in `Δ`. The first that fails, if any.
pub open spec fn def_check(s: ResolverView, a: usize, b: usize, name: Seq<char>) -> Option<Error> {
    if a >= s.judgements.len() || b >= s.judgements.len() {
        Some(Error::UndefinedReference)
    } else {
        let ja = s.judgements[a as int];
        let jb = s.judgements[b as int];
        if ja.definitions != jb.definitions {
            Some(Error::PremiseMismatch(Premise::SameDefinitions))
        } else if defines(s.definitions, ja.definitions as int, name) {
            Some(Error::DuplicateDefinition)
        } else {
            None
        }
    }
}

/// The premises of `defpr J₁ J₂ name`: as for `def`, and `N` a sort.
pub open spec fn def_prim_check(s: ResolverView, a: usize, b: usize, name: Seq<char>) -> Option<Error> {
    if a >= s.judgements.len() || b >= s.judgements.len() {
        Some(Error::UndefinedReference)
    } else {
        let ja = s.judgements[a as int];
        let jb = s.judgements[b as int];
        if ja.definitions != jb.definitions {
            Some(Error::PremiseMismatch(Premise::SameDefinitions))
        } else if !is_sort_term(jb.n) {
            Some(Error::PremiseMismatch(Premise::SortType))
        } else if defines(s.definitions, ja.definitions as int, name) {
            Some(Error::DuplicateDefinition)
        } else {
            None
        }
    }
}

/// The state after a definition `entry` is added to the list of `ja` and
/// `ja` is derived again under the longer list.
pub open spec fn defined(s: ResolverView, ja: JudgementView, entry: DefinitionModel) -> ResolverView {
    let (d, definitions) = created(s.definitions, ja.definitions, entry);
    appended(
        s,
        JudgementView { definitions: d as usize, context: ja.context, m: ja.m, n: ja.n },
        s.contexts,
        definitions,
    )
}

/// `sp J k`: from `Δ ⊢ Γ ▷ M : N` derives `Δ ⊢ Γ ▷ xₖ : Aₖ`, where
/// `xₖ : Aₖ` is the `k`-th binding of `Γ`, counted from 1.
pub open spec fn sp_outcome(s: ResolverView, j: usize, k: usize) -> Result<JudgementView, Error> {
    if j >= s.judgements.len() {
        Err(Error::UndefinedReference)
    } else {
        let jj = s.judgements[j as int];
        let p = path(s.contexts, jj.context as int);
        if k < 1 || k > p.len() {
            Err(Error::UndefinedReference)
        } else {
            let (x, a) = p[k - 1];
            Ok(JudgementView { definitions: jj.definitions, context: jj.context, m: Term::Var(x), n: a })
        }
    }
}

/// The error of the last argument of an instantiation, counted from the
/// end, that is out of range or not in the definition list and context of
/// `ja`.
pub open spec fn args_check(s: ResolverView, ja: JudgementView, args: Seq<usize>) -> Option<Error>
    decreases args.len(),
{
    if args.len() == 0 {
        None
    } else {
        let e = args.last();
        if e >= s.judgements.len() {
            Some(Error::UndefinedReference)
        } else if s.judgements[e as int].definitions != ja.definitions {
            Some(Error::PremiseMismatch(Premise::SameDefinitions))
        } else if s.judgements[e as int].context != ja.context {
            Some(Error::PremiseMismatch(Premise::SameContext))
        } else {
            args_check(s, ja, args.drop_last())
        }
    }
}

/// The premises of an instantiation of definition `d` in judgement `ja`
/// with the judgements `args`: as many arguments as parameters, each in the
/// definition list and context of `ja`, and `ja` is `* : @`. The first that
/// fails, if any.
pub open spec fn inst_check(s: ResolverView, ja: JudgementView, args: Seq<usize>, d: DefinitionModel) -> Option<Error> {
    if path(s.contexts, d.context as int).len() != args.len() {
        Some(Error::PremiseMismatch(Premise::ArgumentCount))
    } else if args_check(s, ja, args) is Some {
        args_check(s, ja, args)
    } else if ja.m != Term::Star || ja.n != Term::Square {
        Some(Error::PremiseMismatch(Premise::KindJudgement))
    } else {
        None
    }
}

/// Whether `n` is `n0` with each parameter `xᵢ` replaced by `usᵢ`, for `i`
/// from the last down to the first, every step exact up to α where the
/// letters suffice to rename binders.
pub open spec fn substituted(n0: Term, params: Seq<(char, Term)>, us: Seq<Term>, n: Term) -> bool {
    exists|ns: Seq<Term>|
        ns.len() == us.len() + 1 && ns[0] == n0 && ns[us.len() as int] == n && #[trigger] chain(ns, params, us)
}

/// Each step of `ns` substitutes the next parameter, from the last one.
pub open spec fn chain(ns: Seq<Term>, params: Seq<(char, Term)>, us: Seq<Term>) -> bool {
    forall|t: int|
        0 <= t < us.len() ==> {
            let i = us.len() - 1 - t;
            let (x, _) = params[i];
            fits(#[trigger] ns[t], free_in(us[i]).len()) && fits(us[i], 0) ==> debruijn(ns[t + 1])
                == subst(debruijn(ns[t]), Some((x, debruijn(us[i]))))
        }
}

/// Whether `j` concludes the instantiation of `d` in `ja` with `args`:
/// `Δ ⊢ Γ ▷ name[U₁…Uₖ] : N[x₁:=U₁, …]`.
pub open spec fn inst_conclusion(s: ResolverView, ja: JudgementView, args: Seq<usize>, d: DefinitionModel, j: JudgementView) -> bool {
    let us = Seq::new(args.len(), |i: int| s.judgements[args[i] as int].m);
    &&& j.definitions == ja.definitions
    &&& j.context == ja.context
    &&& j.m == Term::Def(d.name, us)
    &&& substituted(d.n, path(s.contexts, d.context as int), us, j.n)
}

/// Arguments that pass the check are in range.
pub proof fn lemma_args_check(s: ResolverView, ja: JudgementView, args: Seq<usize>)
    requires
        args_check(s, ja, args) is None,
    ensures
        forall|j: int| 0 <= j < args.len() ==> args[j] < s.judgements.len(),
    decreases args.len(),
{
    if args.len() > 0 {
        lemma_args_check(s, ja, args.drop_last());
        assert forall|j: int| 0 <= j < args.len() implies args[j] < s.judgements.len() by {
            if j < args.len() - 1 {
                assert(args.drop_last()[j] == args[j]);
            }
        }
    }
}

/// The definition found is the last one of the name.
pub proof fn lemma_last_named(p: Seq<DefinitionModel>, name: Seq<char>, j: int)
    requires
        0 <= j < p.len(),
        p[j].name == name,
        forall|k: int| j < k < p.len() ==> (#[trigger] p[k]).name != name,
    ensures
        last_named(p, name) == Some(p[j]),
    decreases p.len(),
{
    if j < p.len() - 1 {
        assert(p[p.len() - 1].name != name);
        assert forall|k: int| j < k < p.drop_last().len() implies (#[trigger] p.drop_last()[k]).name != name by {
            assert(p.drop_last()[k] == p[k]);
        }
        lemma_last_named(p.drop_last(), name, j);
    }
}

/// No definition of the name, none found.
pub proof fn lemma_last_named_none(p: Seq<DefinitionModel>, name: Seq<char>)
    requires
        forall|k: int| 0 <= k < p.len() ==> (#[trigger] p[k]).name != name,
    ensures
        last_named(p, name) is None,
    decreases p.len(),
{
    if p.len() > 0 {
        assert(p[p.len() - 1].name != name);
        assert forall|k: int| 0 <= k < p.drop_last().len() implies (#[trigger] p.drop_last()[k]).name != name by {
            assert(p.drop_last()[k] == p[k]);
        }
        lemma_last_named_none(p.drop_last(), name);
    }
}

/// A definition of the name is found exactly when the list holds one.
pub proof fn lemma_defines(p: Seq<DefinitionModel>, name: Seq<char>)
    ensures
        last_named(p, name) is Some <==> exists|k: int| 0 <= k < p.len() && (#[trigger] p[k]).name == name,
        last_named(p, name) is Some ==> last_named(p, name)->0.name == name,
    decreases p.len(),
{
    if p.len() > 0 {
        lemma_defines(p.drop_last(), name);
        if exists|k: int| 0 <= k < p.len() && (#[trigger] p[k]).name == name {
            let k = choose|k: int| 0 <= k < p.len() && (#[trigger] p[k]).name == name;
            if k < p.len() - 1 {
                assert(p.drop_last()[k] == p[k]);
            }
        }
        if exists|k: int| 0 <= k < p.drop_last().len() && (#[trigger] p.drop_last()[k]).name == name {
            let k = choose|k: int| 0 <= k < p.drop_last().len() && (#[trigger] p.drop_last()[k]).name == name;
            assert(p[k] == p.drop_last()[k]);
        }
    }
}

/// What an instantiation of `d` in `ja` with `args` does to the state.
pub open spec fn inst_post(
    old: ResolverView,
    new: ResolverView,
    r: Result<usize, Error>,
    ja: JudgementView,
    args: Seq<usize>,
    d: DefinitionModel,
) -> bool {
    match inst_check(old, ja, args, d) {
        Some(e) => r == Err::<usize, Error>(e) && new == old,
        None => r == Ok::<usize, Error>(old.judgements.len() as usize) && new.contexts == old.contexts
            && new.definitions == old.definitions && new.judgements.len() == old.judgements.len() + 1
            && new.judgements.drop_last() == old.judgements && inst_conclusion(
            old,
            ja,
            args,
            d,
            new.judgements.last(),
        ),
    }
}

/// The definition named `name` nearest the end of `p`, if any.
pub open spec fn last_named(p: Seq<DefinitionModel>, name: Seq<char>) -> Option<DefinitionModel>
    decreases p.len(),
{
    if p.len() == 0 {
        None
    } else if p.last().name == name {
        Some(p.last())
    } else {
        last_named(p.drop_last(), name)
    }
}

/// What `var J x` does; see [`Resolver::var`].
pub open spec fn var_post(old: ResolverView, new: ResolverView, r: Result<usize, Error>, j: usize, x: char) -> bool {
    if j >= old.judgements.len() {
        r == Err::<usize, Error>(Error::UndefinedReference) && new == old
    } else {
        let a = old.judgements[j as int];
        let (c, contexts) = created(old.contexts, a.context, (x, a.m));
        if !is_sort_term(a.n) {
            r == Err::<usize, Error>(Error::PremiseMismatch(Premise::SortType)) && new == old
        } else {
            r == Ok::<usize, Error>(old.judgements.len() as usize) && new == appended(
                old,
                JudgementView { definitions: a.definitions, context: c as usize, m: Term::Var(x), n: a.m },
                contexts,
                old.definitions,
            )
        }
    }
}

/// What `weak J₁ J₂ x` does; see [`Resolver::weak`].
pub open spec fn weak_post(
    old: ResolverView,
    new: ResolverView,
    r: Result<usize, Error>,
    a: usize,
    b: usize,
    x: char,
) -> bool {
    if a >= old.judgements.len() || b >= old.judgements.len() {
        r == Err::<usize, Error>(Error::UndefinedReference) && new == old
    } else {
        let ja = old.judgements[a as int];
        let jb = old.judgements[b as int];
        let (c, contexts) = created(old.contexts, ja.context, (x, jb.m));
        if ja.definitions != jb.definitions {
            r == Err::<usize, Error>(Error::PremiseMismatch(Premise::SameDefinitions)) && new == old
        } else if ja.context != jb.context {
            r == Err::<usize, Error>(Error::PremiseMismatch(Premise::SameContext)) && new == old
        } else if !is_sort_term(jb.n) {
            r == Err::<usize, Error>(Error::PremiseMismatch(Premise::SortType)) && new == old
        } else {
            r == Ok::<usize, Error>(old.judgements.len() as usize) && new == appended(
                old,
                JudgementView { definitions: ja.definitions, context: c as usize, m: ja.m, n: ja.n },
                contexts,
                old.definitions,
            )
        }
    }
}

/// What `appl J₁ J₂` does; see [`Resolver::appl`].
pub open spec fn appl_post(old: ResolverView, new: ResolverView, r: Result<usize, Error>, a: usize, b: usize) -> bool {
    match appl_check(old, a, b) {
        Some(e) => r == Err::<usize, Error>(e) && new == old,
        None => r == Ok::<usize, Error>(old.judgements.len() as usize) && new.contexts == old.contexts
            && new.definitions == old.definitions && new.judgements.len() == old.judgements.len() + 1
            && new.judgements.drop_last() == old.judgements && appl_conclusion(
            old.judgements[a as int],
            old.judgements[b as int],
            new.judgements.last(),
        ),
    }
}

/// What `def J₁ J₂ name` (or, where `primitive`, `defpr J₁ J₂ name`) does.
pub open spec fn def_post(
    old: ResolverView,
    new: ResolverView,
    r: Result<usize, Error>,
    a: usize,
    b: usize,
    name: Seq<char>,
    primitive: bool,
) -> bool {
    let check = if primitive {
        def_prim_check(old, a, b, name)
    } else {
        def_check(old, a, b, name)
    };
    match check {
        Some(e) => r == Err::<usize, Error>(e) && new == old,
        None => r == Ok::<usize, Error>(old.judgements.len() as usize) && new == defined(
            old,
            old.judgements[a as int],
            if primitive {
                DefinitionModel {
                    context: old.judgements[b as int].context,
                    name,
                    m: None,
                    n: old.judgements[b as int].m,
                }
            } else {
                DefinitionModel {
                    context: old.judgements[b as int].context,
                    name,
                    m: Some(old.judgements[b as int].m),
                    n: old.judgements[b as int].n,
                }
            },
        ),
    }
}

/// What `inst J k J₁ … Jₖ d` does; see [`Resolver::inst_ix`].
pub open spec fn inst_ix_post(
    old: ResolverView,
    new: ResolverView,
    r: Result<usize, Error>,
    e1: usize,
    args: Seq<usize>,
    d: usize,
) -> bool {
    if e1 >= old.judgements.len() {
        r == Err::<usize, Error>(Error::UndefinedReference) && new == old
    } else {
        let ja = old.judgements[e1 as int];
        let p = path(old.definitions, ja.definitions as int);
        if d < 1 || d > p.len() {
            r == Err::<usize, Error>(Error::UndefinedReference) && new == old
        } else {
            inst_post(old, new, r, ja, args, p[d - 1])
        }
    }
}

/// `cp J`: a copy of `J`.
pub open spec fn cp_outcome(s: ResolverView, j: usize) -> Result<JudgementView, Error> {
    if j >= s.judgements.len() {
        Err(Error::UndefinedReference)
    } else {
        Ok(s.judgements[j as int])
    }
}

impl Resolver {
    /// Every id that a judgement or a definition names is in its tree.
    pub open spec fn wf(&self) -> bool {
        &&& self.context.wf()
        &&& self.definitions.wf()
        &&& forall|i: int|
            0 <= i < self.judgements@.len() ==> (#[trigger] self.judgements@[i]).definitions
                < self.definitions.size() && self.judgements@[i].context < self.context.size()
        &&& forall|i: int|
            1 <= i < self.definitions.size() ==> (#[trigger] self.definitions.value_at(i)).context
                < self.context.size()
    }

    /// No judgement yet, and both trees empty.
    pub fn new() -> (r: Self)
        ensures
            r.wf(),
            r@.judgements == Seq::<JudgementView>::empty(),
            r@.contexts == seq![None::<(usize, (char, Term))>],
            r@.definitions == seq![None::<(usize, DefinitionModel)>],
    {
        let r = Resolver { judgements: Vec::new(), context: InTree::new(), definitions: InTree::new() };
        assert(r@.judgements =~= Seq::<JudgementView>::empty());
        r
    }

    fn push_judgement(&mut self, j: Judgement) -> (r: usize)
        requires
            old(self).context.wf(),
            old(self).definitions.wf(),
            forall|i: int|
                0 <= i < old(self).judgements@.len() ==> (#[trigger] old(self).judgements@[i]).definitions
                    < old(self).definitions.size() && old(self).judgements@[i].context < old(self).context.size(),
            forall|i: int|
                1 <= i < old(self).definitions.size() ==> (#[trigger] old(self).definitions.value_at(i)).context
                    < old(self).context.size(),
            j.definitions < old(self).definitions.size(),
            j.context < old(self).context.size(),
        ensures
            final(self).wf(),
            r == old(self).judgements@.len(),
            final(self)@ == appended(old(self)@, j@, old(self)@.contexts, old(self)@.definitions),
            final(self).context == old(self).context,
            final(self).definitions == old(self).definitions,
    {
        let ghost prev = self.judgements@;
        let r = self.judgements.len();
        self.judgements.push(j);
        assert(self@.judgements =~= old(self)@.judgements.push(j@)) by {
            assert forall|i: int| 0 <= i < prev.len() implies self.judgements@[i] == prev[i] by {}
        }
        r
    }

    /// Binds `var : ty` at the end of context `parent`.
    fn extend_context(&mut self, parent: usize, var: Var, ty: Expr) -> (c: usize)
        requires
            old(self).wf(),
            parent < old(self).context.size(),
        ensures
            c == created(old(self)@.contexts, parent, (var.0, ty@)).0,
            final(self)@.contexts == created(old(self)@.contexts, parent, (var.0, ty@)).1,
            final(self)@.judgements == old(self)@.judgements,
            final(self).judgements == old(self).judgements,
            final(self).definitions == old(self).definitions,
            final(self).context.wf(),
            c < final(self).context.size(),
            old(self).context.size() <= final(self).context.size(),
    {
        let ghost ty_m = ty@;
        proof {
            self.context.lemma_tree();
            lemma_created(self.context.nodes(), parent, (var.0, ty_m));
        }
        let c = self.context.create(parent, (var, ty));
        assert(self@.judgements =~= old(self)@.judgements);
        c
    }

    /// `var J x`: from `Δ ⊢ Γ ▷ A : s`, `s` a sort, derives
    /// `Δ ⊢ Γ, x:A ▷ x : A`.
    pub fn var(&mut self, j: usize, var: Var) -> (r: Result<usize, Error>)
        requires
            old(self).wf(),
        ensures
            final(self).wf(),
            var_post(old(self)@, final(self)@, r, j, var.0),
    {
        if j >= self.judgements.len() {
            return Err(Error::UndefinedReference);
        }
        if !self.judgements[j].n.is_sort() {
            return Err(Error::PremiseMismatch(Premise::SortType));
        }
        let definitions = self.judgements[j].definitions;
        let context = self.judgements[j].context;
        let m = self.judgements[j].m.clone();
        assert(self.judgements@[j as int].context < self.context.size());
        let c = self.extend_context(context, var, m.clone());
        Ok(self.push_judgement(Judgement { definitions, context: c, m: Expr::Var(var), n: m }))
    }

    /// `weak J₁ J₂ x`: from `Δ ⊢ Γ ▷ M : N` and `Δ ⊢ Γ ▷ A : s`, `s` a sort,
    /// derives `Δ ⊢ Γ, x:A ▷ M : N`.
    pub fn weak(&mut self, a: usize, b: usize, var: Var) -> (r: Result<usize, Error>)
        requires
            old(self).wf(),
        ensures
            final(self).wf(),
            weak_post(old(self)@, final(self)@, r, a, b, var.0),
    {
        if a >= self.judgements.len() || b >= self.judgements.len() {
            return Err(Error::UndefinedReference);
        }
        if self.judgements[a].definitions != self.judgements[b].definitions {
            return Err(Error::PremiseMismatch(Premise::SameDefinitions));
        }
        if self.judgements[a].context != self.judgements[b].context {
            return Err(Error::PremiseMismatch(Premise::SameContext));
        }
        if !self.judgements[b].n.is_sort() {
            return Err(Error::PremiseMismatch(Premise::SortType));
        }
        let definitions = self.judgements[a].definitions;
        let context = self.judgements[a].context;
        let m = self.judgements[a].m.clone();
        let n = self.judgements[a].n.clone();
        let ty = self.judgements[b].m.clone();
        assert(self.judgements@[a as int].context < self.context.size());
        let c = self.extend_context(context, var, ty);
        Ok(self.push_judgement(Judgement { definitions, context: c, m, n }))
    }

    /// `form J₁ J₂`; see [`form_outcome`].
    pub fn form(&mut self, a: usize, b: usize) -> (r: Result<usize, Error>)
        requires
            old(self).wf(),
        ensures
            final(self).wf(),
            outcome_post(old(self)@, final(self)@, r, form_outcome(old(self)@, a, b)),
    {
        if a >= self.judgements.len() || b >= self.judgements.len() {
            return Err(Error::UndefinedReference);
        }
        let ja = &self.judgements[a];
        let jb = &self.judgements[b];
        if ja.definitions != jb.definitions {
            return Err(Error::PremiseMismatch(Premise::SameDefinitions));
        }
        if !ja.n.is_sort() || !jb.n.is_sort() {
            return Err(Error::PremiseMismatch(Premise::SortType));
        }
        assert(jb.context < self.context.size());
        proof {
            self.context.lemma_tree();
        }
        let entry = match self.context.get(jb.context) {
            Some(e) => e,
            None => {
                return Err(Error::PremiseMismatch(Premise::ContextExtends));
            },
        };
        assert(self.context.nodes()[jb.context as int] == Some((entry.parent_index, binding_model(entry.value))));
        if entry.parent_index != ja.context {
            return Err(Error::PremiseMismatch(Premise::ContextExtends));
        }
        let (var, ty) = &entry.value;
        if !alpha_equal(ty, &ja.m) {
            return Err(Error::PremiseMismatch(Premise::BindingType));
        }
        let j = Judgement {
            definitions: ja.definitions,
            context: ja.context,
            m: Expr::Pi(Box::new(Pi(*var, ja.m.clone(), jb.m.clone()))),
            n: jb.n.clone(),
        };
        Ok(self.push_judgement(j))
    }

    /// `conv J₁ J₂`; see [`conv_outcome`].
    pub fn conv(&mut self, a: usize, b: usize) -> (r: Result<usize, Error>)
        requires
            old(self).wf(),
        ensures
            final(self).wf(),
            outcome_post(old(self)@, final(self)@, r, conv_outcome(old(self)@, a, b)),
    {
        if a >= self.judgements.len() || b >= self.judgements.len() {
            return Err(Error::UndefinedReference);
        }
        let ja = &self.judgements[a];
        let jb = &self.judgements[b];
        if ja.definitions != jb.definitions {
            return Err(Error::PremiseMismatch(Premise::SameDefinitions));
        }
        if ja.context != jb.context {
            return Err(Error::PremiseMismatch(Premise::SameContext));
        }
        if !jb.n.is_sort() {
            return Err(Error::PremiseMismatch(Premise::SortType));
        }
        let j = Judgement {
            definitions: ja.definitions,
            context: ja.context,
            m: ja.m.clone(),
            n: jb.m.clone(),
        };
        Ok(self.push_judgement(j))
    }

    /// `abst J₁ J₂`; see [`abst_outcome`].
    pub fn abst(&mut self, a: usize, b: usize) -> (r: Result<usize, Error>)
        requires
            old(self).wf(),
        ensures
            final(self).wf(),
            outcome_post(old(self)@, final(self)@, r, abst_outcome(old(self)@, a, b)),
    {
        if a >= self.judgements.len() || b >= self.judgements.len() {
            return Err(Error::UndefinedReference);
        }
        let ja = &self.judgements[a];
        let jb = &self.judgements[b];
        if ja.definitions != jb.definitions {
            return Err(Error::PremiseMismatch(Premise::SameDefinitions));
        }
        assert(ja.context < self.context.size());
        proof {
            self.context.lemma_tree();
        }
        let entry = match self.context.get(ja.context) {
            Some(e) => e,
            None => {
                return Err(Error::PremiseMismatch(Premise::ContextExtends));
            },
        };
        assert(self.context.nodes()[ja.context as int] == Some((entry.parent_index, binding_model(entry.value))));
        if entry.parent_index != jb.context {
            return Err(Error::PremiseMismatch(Premise::ContextExtends));
        }
        let (x1, a1) = &entry.value;
        let pi = match &jb.m {
            Expr::Pi(pi) => pi,
            _ => {
                return Err(Error::PremiseMismatch(Premise::PiType));
            },
        };
        if x1.0 != pi.0.0 {
            return Err(Error::PremiseMismatch(Premise::BinderName));
        }
        if !alpha_equal(a1, &pi.1) {
            return Err(Error::PremiseMismatch(Premise::DomainType));
        }
        if !alpha_equal(&ja.n, &pi.2) {
            return Err(Error::PremiseMismatch(Premise::BodyType));
        }
        if !jb.n.is_sort() {
            return Err(Error::PremiseMismatch(Premise::SortType));
        }
        let j = Judgement {
            definitions: ja.definitions,
            context: jb.context,
            m: Expr::Lambda(Box::new(Lambda(*x1, a1.clone(), ja.m.clone()))),
            n: Expr::Pi(Box::new(Pi(*x1, pi.1.clone(), ja.n.clone()))),
        };
        Ok(self.push_judgement(j))
    }

    /// `appl J₁ J₂`: from `Δ ⊢ Γ ▷ M : Π x:A.B` and `Δ ⊢ Γ ▷ N : A` derives
    /// `Δ ⊢ Γ ▷ M N : B[x:=N]`; see [`appl_check`] and [`appl_conclusion`].
    pub fn appl(&mut self, a: usize, b: usize) -> (r: Result<usize, Error>)
        requires
            old(self).wf(),
        ensures
            final(self).wf(),
            appl_post(old(self)@, final(self)@, r, a, b),
    {
        if a >= self.judgements.len() || b >= self.judgements.len() {
            return Err(Error::UndefinedReference);
        }
        let ja = &self.judgements[a];
        let jb = &self.judgements[b];
        if ja.definitions != jb.definitions {
            return Err(Error::PremiseMismatch(Premise::SameDefinitions));
        }
        if ja.context != jb.context {
            return Err(Error::PremiseMismatch(Premise::SameContext));
        }
        let pi = match &ja.n {
            Expr::Pi(pi) => pi,
            _ => {
                return Err(Error::PremiseMismatch(Premise::PiType));
            },
        };
        if !alpha_equal(&jb.n, &pi.1) {
            return Err(Error::PremiseMismatch(Premise::ArgumentType));
        }
        let j = Judgement {
            definitions: ja.definitions,
            context: ja.context,
            m: Expr::Application(Box::new(Application(ja.m.clone(), jb.m.clone()))),
            n: pi.2.alpha_substitution(pi.0, jb.m.clone()),
        };
        let r = self.push_judgement(j);
        assert(self@.judgements.drop_last() =~= old(self)@.judgements);
        Ok(r)
    }

    /// The definition named `name` nearest the end of definition list
    /// `definitions`, if any.
    fn lookup(&self, definitions: usize, name: &String) -> (r: Option<&DefinitionEntry>)
        requires
            self.wf(),
            definitions < self.definitions.size(),
        ensures
            match last_named(path(self@.definitions, definitions as int), name@) {
                Some(d) => r is Some && r->0.model() == d && r->0.context < self.context.size(),
                None => r is None,
            },
    {
        let f = |d: &DefinitionEntry| -> (b: bool)
            ensures
                b == (d.name@ == name@),
            { d.name == *name };
        let found = self.definitions.resolve(definitions, f);
        let ghost nodes = self.definitions.nodes();
        let ghost a = ancestors(nodes, definitions as int);
        let ghost p = path(nodes, definitions as int);
        proof {
            self.definitions.lemma_tree();
            crate::in_tree::lemma_path(nodes, definitions as int);
            crate::in_tree::lemma_path_ancestors(nodes, definitions as int);
            assert forall|k: int| 0 <= k < a.len() implies #[trigger] p[k] == self.definitions.value_at(a[k]).model() && 1 <= a[k] < self.definitions.size() by {
                crate::in_tree::lemma_path(nodes, definitions as int);
                self.definitions.lemma_value(a[k]);
            }
            if found is Some {
                let j = choose|j: int|
                    0 <= j < a.len() && *found->0 == self.definitions.value_at(a[j]) && f.ensures(
                        (&self.definitions.value_at(a[j]),),
                        true,
                    ) && forall|k: int|
                        j < k < a.len() ==> #[trigger] f.ensures((&self.definitions.value_at(a[k]),), false);
                assert(p[j].name == name@);
                assert forall|k: int| j < k < p.len() implies (#[trigger] p[k]).name != name@ by {
                    assert(f.ensures((&self.definitions.value_at(a[k]),), false));
                }
                lemma_last_named(p, name@, j);
            } else {
                assert forall|k: int| 0 <= k < p.len() implies (#[trigger] p[k]).name != name@ by {
                    assert(f.ensures((&self.definitions.value_at(a[k]),), false));
                }
                lemma_last_named_none(p, name@);
            }
        }
        found
    }

    /// Whether the definition list `definitions` holds a definition of `name`.
    fn is_defined(&self, definitions: usize, name: &String) -> (r: bool)
        requires
            self.wf(),
            definitions < self.definitions.size(),
        ensures
            r == defines(self@.definitions, definitions as int, name@),
    {
        let found = self.lookup(definitions, name);
        proof {
            lemma_defines(path(self@.definitions, definitions as int), name@);
        }
        found.is_some()
    }

    /// Adds `entry` to the end of definition list `parent`.
    fn extend_definitions(&mut self, parent: usize, entry: DefinitionEntry) -> (d: usize)
        requires
            old(self).wf(),
            parent < old(self).definitions.size(),
            entry.context < old(self).context.size(),
        ensures
            d == created(old(self)@.definitions, parent, entry.model()).0,
            final(self)@.definitions == created(old(self)@.definitions, parent, entry.model()).1,
            final(self)@.judgements == old(self)@.judgements,
            final(self).judgements == old(self).judgements,
            final(self).context == old(self).context,
            final(self).definitions.wf(),
            d < final(self).definitions.size(),
            forall|i: int|
                1 <= i < final(self).definitions.size() ==> (#[trigger] final(self).definitions.value_at(
                    i,
                )).context < final(self).context.size(),
            old(self).definitions.size() <= final(self).definitions.size(),
    {
        let ghost em = entry.model();
        let ghost ec = entry.context;
        proof {
            self.definitions.lemma_tree();
            lemma_created(self.definitions.nodes(), parent, em);
        }
        let d = self.definitions.create(parent, entry);
        proof {
            assert forall|i: int| 1 <= i < self.definitions.size() implies (#[trigger] self.definitions.value_at(i)).context < self.context.size() by {
                if i >= old(self).definitions.size() {
                    assert(i == d);
                    self.definitions.lemma_value(i);
                    if !holds(old(self).definitions.nodes(), d as int, parent, em) {
                        assert(self.definitions.value_at(i).context == ec);
                    }
                } else {
                    assert(self.definitions.value_at(i) == old(self).definitions.value_at(i));
                }
            }
        }
        assert(self@.judgements =~= old(self)@.judgements);
        d
    }

    /// `def J₁ J₂ name`: from `Δ ⊢ Γ ▷ K : L` and `Δ ⊢ Γ′ ▷ M : N`, with
    /// `name` not defined in `Δ`, derives `Δ, name(Γ′) := M : N ⊢ Γ ▷ K : L`.
    pub fn def(&mut self, a: usize, b: usize, name: String) -> (r: Result<usize, Error>)
        requires
            old(self).wf(),
        ensures
            final(self).wf(),
            def_post(old(self)@, final(self)@, r, a, b, name@, false),
    {
        if a >= self.judgements.len() || b >= self.judgements.len() {
            return Err(Error::UndefinedReference);
        }
        if self.judgements[a].definitions != self.judgements[b].definitions {
            return Err(Error::PremiseMismatch(Premise::SameDefinitions));
        }
        let definitions = self.judgements[a].definitions;
        assert(self.judgements@[a as int].definitions < self.definitions.size());
        if self.is_defined(definitions, &name) {
            return Err(Error::DuplicateDefinition);
        }
        let context = self.judgements[a].context;
        let k = self.judgements[a].m.clone();
        let l = self.judgements[a].n.clone();
        assert(self.judgements@[b as int].context < self.context.size());
        let entry = DefinitionEntry {
            context: self.judgements[b].context,
            name,
            m: Some(self.judgements[b].m.clone()),
            n: self.judgements[b].n.clone(),
        };
        let d = self.extend_definitions(definitions, entry);
        assert(self.judgements@[a as int].context < self.context.size());
        Ok(self.push_judgement(Judgement { definitions: d, context, m: k, n: l }))
    }

    /// `defpr J₁ J₂ name`: from `Δ ⊢ Γ ▷ K : L` and `Δ ⊢ Γ′ ▷ N : s`, `s` a
    /// sort and `name` not defined in `Δ`, derives
    /// `Δ, name(Γ′) primitive : N ⊢ Γ ▷ K : L`.
    pub fn def_prim(&mut self, a: usize, b: usize, name: String) -> (r: Result<usize, Error>)
        requires
            old(self).wf(),
        ensures
            final(self).wf(),
            def_post(old(self)@, final(self)@, r, a, b, name@, true),
    {
        if a >= self.judgements.len() || b >= self.judgements.len() {
            return Err(Error::UndefinedReference);
        }
        if self.judgements[a].definitions != self.judgements[b].definitions {
            return Err(Error::PremiseMismatch(Premise::SameDefinitions));
        }
        if !self.judgements[b].n.is_sort() {
            return Err(Error::PremiseMismatch(Premise::SortType));
        }
        let definitions = self.judgements[a].definitions;
        assert(self.judgements@[a as int].definitions < self.definitions.size());
        if self.is_defined(definitions, &name) {
            return Err(Error::DuplicateDefinition);
        }
        let context = self.judgements[a].context;
        let k = self.judgements[a].m.clone();
        let l = self.judgements[a].n.clone();
        assert(self.judgements@[b as int].context < self.context.size());
        let entry = DefinitionEntry {
            context: self.judgements[b].context,
            name,
            m: None,
            n: self.judgements[b].m.clone(),
        };
        let d = self.extend_definitions(definitions, entry);
        assert(self.judgements@[a as int].context < self.context.size());
        Ok(self.push_judgement(Judgement { definitions: d, context, m: k, n: l }))
    }

    /// `sp J k`; see [`sp_outcome`].
    pub fn sp(&mut self, j: usize, ix: usize) -> (r: Result<usize, Error>)
        requires
            old(self).wf(),
        ensures
            final(self).wf(),
            outcome_post(old(self)@, final(self)@, r, sp_outcome(old(self)@, j, ix)),
    {
        if j >= self.judgements.len() {
            return Err(Error::UndefinedReference);
        }
        let jj = &self.judgements[j];
        assert(jj.context < self.context.size());
        let entry = match self.context.traverse(jj.context, ix) {
            Some(e) => e,
            None => {
                return Err(Error::UndefinedReference);
            },
        };
        proof {
            self.context.lemma_tree();
            crate::in_tree::lemma_path_ancestors(self.context.nodes(), jj.context as int);
            assert(self.context.nodes()[ancestors(self.context.nodes(), jj.context as int)[ix - 1]]
                == Some((entry.parent_index, entry.value.model())));
        }
        let (x, a) = &entry.value;
        let out = Judgement { definitions: jj.definitions, context: jj.context, m: Expr::Var(*x), n: a.clone() };
        Ok(self.push_judgement(out))
    }

    /// Instantiates the definition `name` with context `def_context` and type
    /// `def_n` in judgement `a` with the judgements `args`.
    fn instantiate(&mut self, a: usize, args: &[usize], name: String, def_context: usize, def_n: &Expr) -> (r: Result<usize, Error>)
        requires
            old(self).wf(),
            a < old(self).judgements@.len(),
            def_context < old(self).context.size(),
        ensures
            final(self).wf(),
            forall|d: DefinitionModel|
                d.context == def_context && d.name == name@ && d.n == def_n@ ==> #[trigger] inst_post(
                    old(self)@,
                    final(self)@,
                    r,
                    old(self)@.judgements[a as int],
                    args@,
                    d,
                ),
    {
        let ghost s = self@;
        let ghost ja = s.judgements[a as int];
        let ghost nodes = self.context.nodes();
        let ghost params = path(nodes, def_context as int);
        proof {
            self.context.lemma_tree();
            crate::in_tree::lemma_path(nodes, def_context as int);
        }
        let k = self.context.len(def_context);
        if k != args.len() {
            assert(inst_check(s, ja, args@, DefinitionModel { context: def_context, name: name@, m: None, n: def_n@ }) == Some(Error::PremiseMismatch(Premise::ArgumentCount)));
            return Err(Error::PremiseMismatch(Premise::ArgumentCount));
        }
        let definitions = self.judgements[a].definitions;
        let context = self.judgements[a].context;
        let mut i: usize = args.len();
        assert(args@.subrange(0, args@.len() as int) == args@);
        while i > 0
            invariant
                i <= args@.len(),
                s == self@,
                ja == s.judgements[a as int],
                definitions == ja.definitions,
                context == ja.context,
                self.judgements@.len() == s.judgements.len(),
                self.wf(),
                self@ == old(self)@,
                params == path(s.contexts, def_context as int),
                params.len() == args@.len(),
                args_check(s, ja, args@.subrange(0, i as int)) == args_check(s, ja, args@),
            decreases i,
        {
            let e = args[i - 1];
            let ghost pre = args@.subrange(0, i as int);
            assert(pre.last() == e);
            assert(pre.drop_last() == args@.subrange(0, i - 1));
            if e >= self.judgements.len() {
                return Err(Error::UndefinedReference);
            }
            if self.judgements[e].definitions != definitions {
                return Err(Error::PremiseMismatch(Premise::SameDefinitions));
            }
            if self.judgements[e].context != context {
                return Err(Error::PremiseMismatch(Premise::SameContext));
            }
            i = i - 1;
        }
        assert(args@.subrange(0, 0) == Seq::<usize>::empty());
        proof {
            lemma_args_check(s, ja, args@);
        }
        let is_kind = match (&self.judgements[a].m, &self.judgements[a].n) {
            (Expr::Asterisk, Expr::Square) => true,
            _ => false,
        };
        if !is_kind {
            assert(ja.m != Term::Star || ja.n != Term::Square);
            assert(inst_check(s, ja, args@, DefinitionModel { context: def_context, name: name@, m: None, n: def_n@ }) == Some(Error::PremiseMismatch(Premise::KindJudgement)));
            return Err(Error::PremiseMismatch(Premise::KindJudgement));
        }
        let ghost us = Seq::new(args@.len(), |j: int| s.judgements[args@[j] as int].m);
        let mut n = def_n.clone();
        let mut c = def_context;
        let ghost mut ns: Seq<Term> = seq![def_n@];
        i = args.len();
        while i > 0
            invariant
                i <= args@.len() == k == params.len(),
                s == self@,
                nodes == self.context.nodes(),
                self.context.wf(),
                crate::in_tree::tree_wf(nodes),
                c < self.context.size(),
                path(nodes, c as int) == params.subrange(0, i as int),
                us == Seq::new(args@.len(), |j: int| s.judgements[args@[j] as int].m),
                forall|j: int| 0 <= j < args@.len() ==> args@[j] < s.judgements.len(),
                ns.len() == args@.len() - i + 1,
                ns[0] == def_n@,
                ns.last() == n@,
                forall|t: int|
                    0 <= t < ns.len() - 1 ==> {
                        let q = us.len() - 1 - t;
                        let (x, _) = params[q];
                        fits(#[trigger] ns[t], free_in(us[q]).len()) && fits(us[q], 0) ==> debruijn(ns[t + 1])
                            == subst(debruijn(ns[t]), Some((x, debruijn(us[q]))))
                    },
            decreases i,
        {
            proof {
                crate::in_tree::lemma_path(nodes, c as int);
                assert(path(nodes, c as int).len() == i);
            }
            let entry = match self.context.get(c) {
                Some(e) => e,
                None => {
                    assert(false);
                    return Err(Error::UndefinedReference);
                },
            };
            assert(params.subrange(0, i as int).last() == params[i - 1]);
            assert(path(nodes, c as int).last() == entry.value.model());
            let (v, _) = &entry.value;
            let u = self.judgements[args[i - 1]].m.clone();
            let ghost prev = n@;
            n = n.alpha_substitution(*v, u);
            proof {
                ns = ns.push(n@);
                assert(path(nodes, entry.parent_index as int) =~= params.subrange(0, i - 1));
            }
            c = entry.parent_index;
            i = i - 1;
        }
        let mut values: Vec<Expr> = Vec::new();
        let mut j: usize = 0;
        while j < args.len()
            invariant
                j <= args@.len(),
                s == self@,
                forall|q: int| 0 <= q < args@.len() ==> args@[q] < s.judgements.len(),
                values@.len() == j,
                forall|q: int| 0 <= q < j ==> (#[trigger] values@[q])@ == s.judgements[args@[q] as int].m,
            decreases args@.len() - j,
        {
            values.push(self.judgements[args[j]].m.clone());
            j = j + 1;
        }
        proof {
            crate::model::lemma_terms(values@);
            assert(crate::model::terms(values@) =~= us);
            assert(chain(ns, params, us));
        }
        assert(self.judgements@[a as int].definitions < self.definitions.size());
        let out = Judgement {
            definitions,
            context,
            m: Expr::Definition(crate::model::Definition(name, values)),
            n,
        };
        let r = self.push_judgement(out);
        assert(self@.judgements.drop_last() =~= old(self)@.judgements);
        assert(inst_check(s, ja, args@, DefinitionModel { context: def_context, name: name@, m: None, n: def_n@ }) is None);
        assert(inst_conclusion(s, ja, args@, DefinitionModel { context: def_context, name: name@, m: None, n: def_n@ }, self@.judgements.last()));
        Ok(r)
    }

    /// `inst J k J₁ … Jₖ d` with `d` a position in the definition list of
    /// `J`, counted from 1: instantiates the `d`-th definition with the
    /// terms of `J₁ … Jₖ`; see [`inst_check`] and [`inst_conclusion`].
    pub fn inst_ix(&mut self, e1: usize, e2: &[usize], d: usize) -> (r: Result<usize, Error>)
        requires
            old(self).wf(),
        ensures
            final(self).wf(),
            inst_ix_post(old(self)@, final(self)@, r, e1, e2@, d),
    {
        if e1 >= self.judgements.len() {
            return Err(Error::UndefinedReference);
        }
        let definitions = self.judgements[e1].definitions;
        assert(definitions < self.definitions.size());
        let entry = match self.definitions.traverse(definitions, d) {
            Some(e) => e,
            None => {
                return Err(Error::UndefinedReference);
            },
        };
        let ghost nodes = self.definitions.nodes();
        let ghost a = ancestors(nodes, definitions as int)[d - 1];
        proof {
            self.definitions.lemma_tree();
            crate::in_tree::lemma_path(nodes, definitions as int);
            crate::in_tree::lemma_path_ancestors(nodes, definitions as int);
            assert(nodes[a] == Some((entry.parent_index, entry.value.model())));
            assert(1 <= a < self.definitions.size());
        }
        let def_context = entry.value.context;
        let name = entry.value.name.clone();
        let def_n = entry.value.n.clone();
        let ghost dm = entry.value.model();
        let r = self.instantiate(e1, e2, name, def_context, &def_n);
        assert(inst_post(old(self)@, self@, r, old(self)@.judgements[e1 as int], e2@, dm));
        r
    }

    /// `inst J k J₁ … Jₖ name`: instantiates the definition `name` of the
    /// definition list of `J` with the terms of `J₁ … Jₖ`; see
    /// [`inst_check`] and [`inst_conclusion`].
    pub fn inst(&mut self, e1: usize, e2: &[usize], name: String) -> (r: Result<usize, Error>)
        requires
            old(self).wf(),
        ensures
            final(self).wf(),
            e1 >= old(self)@.judgements.len() ==> r == Err::<usize, Error>(Error::UndefinedReference)
                && final(self)@ == old(self)@,
            e1 < old(self)@.judgements.len() ==> ({
                let ja = old(self)@.judgements[e1 as int];
                match last_named(path(old(self)@.definitions, ja.definitions as int), name@) {
                    None => r == Err::<usize, Error>(Error::UndefinedReference) && final(self)@ == old(self)@,
                    Some(d) => inst_post(old(self)@, final(self)@, r, ja, e2@, d),
                }
            }),
    {
        if e1 >= self.judgements.len() {
            return Err(Error::UndefinedReference);
        }
        let definitions = self.judgements[e1].definitions;
        assert(definitions < self.definitions.size());
        let entry = match self.lookup(definitions, &name) {
            Some(e) => e,
            None => {
                return Err(Error::UndefinedReference);
            },
        };
        let def_context = entry.context;
        let def_n = entry.n.clone();
        let ghost dm = entry.model();
        proof {
            lemma_defines(path(self@.definitions, definitions as int), name@);
        }
        let r = self.instantiate(e1, e2, name, def_context, &def_n);
        assert(inst_post(old(self)@, self@, r, old(self)@.judgements[e1 as int], e2@, dm));
        r
    }

    /// `sort`: `∅ ⊢ ∅ ▷ * : @`.
    pub fn sort(&mut self) -> (r: usize)
        requires
            old(self).wf(),
        ensures
            final(self).wf(),
            r == old(self)@.judgements.len(),
            final(self)@ == appended(
                old(self)@,
                JudgementView { definitions: 0, context: 0, m: Term::Star, n: Term::Square },
                old(self)@.contexts,
                old(self)@.definitions,
            ),
    {
        proof {
            self.context.lemma_tree();
            self.definitions.lemma_tree();
        }
        self.push_judgement(Judgement { definitions: 0, context: 0, m: Expr::Asterisk, n: Expr::Square })
    }

    /// `cp J`: a copy of judgement `j`.
    pub fn cp(&mut self, j: usize) -> (r: Result<usize, Error>)
        requires
            old(self).wf(),
        ensures
            final(self).wf(),
            outcome_post(old(self)@, final(self)@, r, cp_outcome(old(self)@, j)),
    {
        if j >= self.judgements.len() {
            return Err(Error::UndefinedReference);
        }
        let c = self.judgements[j].duplicate();
        assert(self.judgements@[j as int].definitions < self.definitions.size());
        Ok(self.push_judgement(c))
    }
}

} // verus!
