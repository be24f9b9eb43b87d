//! The line-oriented driver: each line names its own index, an instruction
//! and its operands, separated by single spaces.
use crate::error::{Error, ParseError};
use crate::model::Var;
use crate::rule::{
    JudgementView,
    Resolver,
    ResolverView,
    abst_outcome,
    appended,
    appl_post,
    conv_outcome,
    cp_outcome,
    def_post,
    form_outcome,
    inst_ix_post,
    outcome_post,
    sp_outcome,
    var_post,
    weak_post,
};
use crate::model::Term;
use vstd::prelude::*;

verus! {

/// `s` cut at each `sep`: one more piece than there are separators.
pub open spec fn split(s: Seq<char>, sep: char) -> Seq<Seq<char>>
    decreases s.len(),
{
    if s.len() == 0 {
        seq![Seq::empty()]
    } else if s.last() == sep {
        split(s.drop_last(), sep).push(Seq::empty())
    } else {
        let r = split(s.drop_last(), sep);
        r.update(r.len() - 1, r.last().push(s.last()))
    }
}

pub proof fn lemma_split_len(s: Seq<char>, sep: char)
    ensures
        split(s, sep).len() >= 1,
    decreases s.len(),
{
    if s.len() > 0 {
        lemma_split_len(s.drop_last(), sep);
    }
}

/// Cuts `s` at each `sep`; see [`split`].
pub fn split_at(s: &[char], sep: char) -> (r: Vec<Vec<char>>)
    ensures
        r@.len() == split(s@, sep).len(),
        forall|i: int| 0 <= i < r@.len() ==> (#[trigger] r@[i])@ == split(s@, sep)[i],
{
    let mut done: Vec<Vec<char>> = Vec::new();
    let mut cur: Vec<char> = Vec::new();
    let mut i: usize = 0;
    while i < s.len()
        invariant
            i <= s@.len(),
            split(s@.subrange(0, i as int), sep).len() == done@.len() + 1,
            forall|k: int| 0 <= k < done@.len() ==> (#[trigger] done@[k])@ == split(s@.subrange(0, i as int), sep)[k],
            cur@ == split(s@.subrange(0, i as int), sep).last(),
        decreases s@.len() - i,
    {
        let c = s[i];
        let ghost pre = s@.subrange(0, i as int);
        let ghost post = s@.subrange(0, i as int + 1);
        assert(post.drop_last() == pre);
        assert(post.last() == c);
        proof {
            lemma_split_len(pre, sep);
        }
        if c == sep {
            let ghost before = done@;
            done.push(cur);
            cur = Vec::new();
            assert forall|k: int| 0 <= k < done@.len() implies (#[trigger] done@[k])@ == split(post, sep)[k] by {
                if k < before.len() {
                    assert(done@[k] == before[k]);
                }
            }
        } else {
            cur.push(c);
        }
        i = i + 1;
    }
    assert(s@.subrange(0, s@.len() as int) == s@);
    done.push(cur);
    proof {
        assert forall|k: int| 0 <= k < done@.len() implies (#[trigger] done@[k])@ == split(s@, sep)[k] by {
        }
    }
    done
}

/// A decimal digit.
pub open spec fn is_digit(c: char) -> bool {
    '0' <= c && c <= '9'
}

/// The value of a string of decimal digits.
pub open spec fn decimal(s: Seq<char>) -> nat
    decreases s.len(),
{
    if s.len() == 0 {
        0
    } else {
        decimal(s.drop_last()) * 10 + (s.last() as u32 - '0' as u32) as nat
    }
}

/// The number a field writes: one or more decimal digits, of a value that
/// fits in a `usize`.
pub open spec fn number(s: Seq<char>) -> Option<usize> {
    if s.len() > 0 && (forall|i: int| 0 <= i < s.len() ==> is_digit(#[trigger] s[i])) && decimal(s)
        <= usize::MAX {
        Some(decimal(s) as usize)
    } else {
        None
    }
}

proof fn lemma_decimal_grows(s: Seq<char>, i: int)
    requires
        0 <= i <= s.len(),
        forall|k: int| 0 <= k < s.len() ==> is_digit(#[trigger] s[k]),
    ensures
        decimal(s.subrange(0, i)) <= decimal(s),
    decreases s.len() - i,
{
    if i < s.len() {
        lemma_decimal_grows(s, i + 1);
        let t = s.subrange(0, i + 1);
        assert(t.drop_last() == s.subrange(0, i));
    } else {
        assert(s.subrange(0, i) == s);
    }
}

/// Reads a field as a number; see [`number`].
pub fn parse_usize(s: &Vec<char>) -> (r: Option<usize>)
    ensures
        r == number(s@),
{
    if s.len() == 0 {
        return None;
    }
    let mut acc: usize = 0;
    let mut i: usize = 0;
    while i < s.len()
        invariant
            i <= s@.len(),
            s@.len() > 0,
            acc == decimal(s@.subrange(0, i as int)),
            forall|k: int| 0 <= k < i ==> is_digit(#[trigger] s@[k]),
        decreases s@.len() - i,
    {
        let c = s[i];
        let ghost t = s@.subrange(0, i as int + 1);
        assert(t.drop_last() == s@.subrange(0, i as int));
        if !('0' <= c && c <= '9') {
            return None;
        }
        let d = (c as u32 - '0' as u32) as usize;
        if acc > (usize::MAX - d) / 10 {
            proof {
                assert(forall|k: int| 0 <= k < i + 1 ==> is_digit(#[trigger] t[k]));
                assert(decimal(t) > usize::MAX) by (nonlinear_arith)
                    requires
                        decimal(t) == acc * 10 + d,
                        acc > (usize::MAX - d) / 10,
                        d <= 9,
                ;
                if forall|k: int| 0 <= k < s@.len() ==> is_digit(#[trigger] s@[k]) {
                    lemma_decimal_grows(s@, i as int + 1);
                }
            }
            return None;
        }
        acc = acc * 10 + d;
        i = i + 1;
    }
    assert(s@.subrange(0, s@.len() as int) == s@);
    Some(acc)
}

/// Relies on str::chars: the characters of `s`, in order.
#[verifier::external_body]
pub(crate) fn chars_of(s: &str) -> (r: Vec<char>)
    ensures
        r@ == s@,
{
    s.chars().collect()
}

/// Whether a field is the word `w`.
fn is_word(field: &Vec<char>, w: &str) -> (r: bool)
    ensures
        r == (field@ == w@),
{
    let n = w.unicode_len();
    if field.len() != n {
        return false;
    }
    let mut i: usize = 0;
    while i < n
        invariant
            i <= n == field@.len() == w@.len(),
            forall|k: int| 0 <= k < i ==> field@[k] == w@[k],
        decreases n - i,
    {
        if field[i] != w.get_char(i) {
            return false;
        }
        i = i + 1;
    }
    assert(field@ =~= w@);
    true
}

/// The fields of one line, read from the front.
pub struct Tokenizer {
    fields: Vec<Vec<char>>,
    pos: usize,
}

impl Tokenizer {
    /// The fields not read yet.
    pub closed spec fn remaining(&self) -> Seq<Seq<char>> {
        Seq::new((self.fields@.len() - self.pos) as nat, |i: int| self.fields@[self.pos + i]@)
    }

    pub closed spec fn wf(&self) -> bool {
        self.pos <= self.fields@.len()
    }

    /// The fields of `line`, cut at single spaces.
    pub fn new(line: &[char]) -> (r: Self)
        ensures
            r.wf(),
            r.remaining() == split(line@, ' '),
    {
        let fields = split_at(line, ' ');
        let r = Tokenizer { fields, pos: 0 };
        assert(r.remaining() =~= split(line@, ' '));
        r
    }

    fn next_field(&mut self) -> (r: Option<Vec<char>>)
        requires
            old(self).wf(),
        ensures
            final(self).wf(),
            old(self).remaining().len() == 0 ==> r is None && final(self).remaining() == old(self).remaining(),
            old(self).remaining().len() > 0 ==> r is Some && r->0@ == old(self).remaining()[0]
                && final(self).remaining() == old(self).remaining().drop_first(),
    {
        if self.pos >= self.fields.len() {
            return None;
        }
        let mut f: Vec<char> = Vec::new();
        let src = &self.fields[self.pos];
        let mut i: usize = 0;
        while i < src.len()
            invariant
                i <= src@.len(),
                f@ == src@.subrange(0, i as int),
            decreases src@.len() - i,
        {
            f.push(src[i]);
            i = i + 1;
        }
        assert(f@ =~= src@);
        self.pos = self.pos + 1;
        assert(self.remaining() =~= old(self).remaining().drop_first());
        Some(f)
    }

    /// Reads a number.
    pub fn take_usize(&mut self) -> (r: Result<usize, Error>)
        requires
            old(self).wf(),
        ensures
            final(self).wf(),
            old(self).remaining().len() == 0 ==> r == Err::<usize, Error>(
                Error::Parse(ParseError::MissingOperand),
            ),
            old(self).remaining().len() > 0 ==> final(self).remaining() == old(self).remaining().drop_first()
                && r == match number(old(self).remaining()[0]) {
                Some(n) => Ok::<usize, Error>(n),
                None => Err(Error::Parse(ParseError::BadNumber)),
            },
    {
        match self.next_field() {
            Some(f) => match parse_usize(&f) {
                Some(n) => Ok(n),
                None => Err(Error::Parse(ParseError::BadNumber)),
            },
            None => Err(Error::Parse(ParseError::MissingOperand)),
        }
    }

    /// Reads the line number.
    pub fn line_number(&mut self) -> (r: Result<usize, Error>)
        requires
            old(self).wf(),
        ensures
            final(self).wf(),
            old(self).remaining().len() == 0 ==> r == Err::<usize, Error>(
                Error::Parse(ParseError::MissingOperand),
            ),
            old(self).remaining().len() > 0 ==> final(self).remaining() == old(self).remaining().drop_first()
                && r == match number(old(self).remaining()[0]) {
                Some(n) => Ok::<usize, Error>(n),
                None => Err(Error::Parse(ParseError::BadNumber)),
            },
    {
        self.take_usize()
    }

    /// Reads the index of a judgement.
    pub fn judgement(&mut self) -> (r: Result<usize, Error>)
        requires
            old(self).wf(),
        ensures
            final(self).wf(),
            old(self).remaining().len() == 0 ==> r == Err::<usize, Error>(
                Error::Parse(ParseError::MissingOperand),
            ),
            old(self).remaining().len() > 0 ==> final(self).remaining() == old(self).remaining().drop_first()
                && r == match number(old(self).remaining()[0]) {
                Some(n) => Ok::<usize, Error>(n),
                None => Err(Error::Parse(ParseError::BadNumber)),
            },
    {
        self.take_usize()
    }

    /// Reads the instruction.
    pub fn instruction(&mut self) -> (r: Result<Vec<char>, Error>)
        requires
            old(self).wf(),
        ensures
            final(self).wf(),
            old(self).remaining().len() == 0 ==> r is Err && r->Err_0 == Error::Parse(ParseError::MissingOperand),
            old(self).remaining().len() > 0 ==> final(self).remaining() == old(self).remaining().drop_first()
                && r is Ok && r->Ok_0@ == old(self).remaining()[0],
    {
        match self.next_field() {
            Some(f) => Ok(f),
            None => Err(Error::Parse(ParseError::MissingOperand)),
        }
    }

    /// Reads a variable: a field of one character.
    pub fn variable(&mut self) -> (r: Result<Var, Error>)
        requires
            old(self).wf(),
        ensures
            final(self).wf(),
            old(self).remaining().len() == 0 ==> r == Err::<Var, Error>(
                Error::Parse(ParseError::MissingOperand),
            ),
            old(self).remaining().len() > 0 ==> final(self).remaining() == old(self).remaining().drop_first()
                && r == if old(self).remaining()[0].len() == 1 {
                Ok::<Var, Error>(Var(old(self).remaining()[0][0]))
            } else {
                Err(Error::Parse(ParseError::ExpectingVariable))
            },
    {
        match self.next_field() {
            Some(f) => if f.len() == 1 {
                Ok(Var(f[0]))
            } else {
                Err(Error::Parse(ParseError::ExpectingVariable))
            },
            None => Err(Error::Parse(ParseError::MissingOperand)),
        }
    }

    /// Reads the name of a definition.
    pub fn constant(&mut self) -> (r: Result<String, Error>)
        requires
            old(self).wf(),
        ensures
            final(self).wf(),
            old(self).remaining().len() == 0 ==> r is Err && r->Err_0 == Error::Parse(ParseError::MissingOperand),
            old(self).remaining().len() > 0 ==> final(self).remaining() == old(self).remaining().drop_first()
                && r is Ok && r->Ok_0@ == old(self).remaining()[0],
    {
        match self.next_field() {
            Some(f) => {
                let mut name = String::new();
                let mut i: usize = 0;
                while i < f.len()
                    invariant
                        i <= f@.len(),
                        name@ == f@.subrange(0, i as int),
                    decreases f@.len() - i,
                {
                    crate::parse::push_char(&mut name, f[i]);
                    i = i + 1;
                }
                assert(name@ =~= f@);
                Ok(name)
            },
            None => Err(Error::Parse(ParseError::MissingOperand)),
        }
    }

    /// Reads exactly one number.
    pub fn read_one(self) -> (r: Result<usize, Error>)
        requires
            self.wf(),
        ensures
            r is Ok <==> self.remaining().len() == 1 && num_at(self.remaining(), 0) is Some,
            r is Ok ==> r->Ok_0 == num_at(self.remaining(), 0)->0,
    {
        let mut t = self;
        let a = t.take_usize()?;
        t.end()?;
        Ok(a)
    }

    /// Reads exactly two numbers.
    pub fn read_two(self) -> (r: Result<(usize, usize), Error>)
        requires
            self.wf(),
        ensures
            r is Ok <==> two_numbers(self.remaining()),
            r is Ok ==> r->Ok_0 == (num_at(self.remaining(), 0)->0, num_at(self.remaining(), 1)->0),
    {
        let mut t = self;
        let ghost f = t.remaining();
        let a = t.take_usize()?;
        let b = t.take_usize()?;
        t.end()?;
        Ok((a, b))
    }

    /// Reads exactly a number and a variable.
    pub fn read_num_var(self) -> (r: Result<(usize, Var), Error>)
        requires
            self.wf(),
        ensures
            r is Ok <==> self.remaining().len() == 2 && num_at(self.remaining(), 0) is Some && var_at(
                self.remaining(),
                1,
            ) is Some,
            r is Ok ==> r->Ok_0.0 == num_at(self.remaining(), 0)->0 && r->Ok_0.1.0 == var_at(self.remaining(), 1)->0,
    {
        let mut t = self;
        let a = t.take_usize()?;
        let x = t.variable()?;
        t.end()?;
        Ok((a, x))
    }

    /// Reads exactly two numbers and a variable.
    pub fn read_two_var(self) -> (r: Result<(usize, usize, Var), Error>)
        requires
            self.wf(),
        ensures
            r is Ok <==> self.remaining().len() == 3 && num_at(self.remaining(), 0) is Some && num_at(
                self.remaining(),
                1,
            ) is Some && var_at(self.remaining(), 2) is Some,
            r is Ok ==> r->Ok_0.0 == num_at(self.remaining(), 0)->0 && r->Ok_0.1 == num_at(self.remaining(), 1)->0
                && r->Ok_0.2.0 == var_at(self.remaining(), 2)->0,
    {
        let mut t = self;
        let a = t.take_usize()?;
        let b = t.take_usize()?;
        let x = t.variable()?;
        t.end()?;
        Ok((a, b, x))
    }

    /// Reads exactly two numbers and a name.
    pub fn read_two_name(self) -> (r: Result<(usize, usize, String), Error>)
        requires
            self.wf(),
        ensures
            r is Ok <==> self.remaining().len() == 3 && num_at(self.remaining(), 0) is Some && num_at(
                self.remaining(),
                1,
            ) is Some,
            r is Ok ==> r->Ok_0.0 == num_at(self.remaining(), 0)->0 && r->Ok_0.1 == num_at(self.remaining(), 1)->0
                && r->Ok_0.2@ == self.remaining()[2],
    {
        let mut t = self;
        let a = t.take_usize()?;
        let b = t.take_usize()?;
        let name = t.constant()?;
        t.end()?;
        Ok((a, b, name))
    }

    /// Reads `J k J₁ … Jₖ d`.
    pub fn read_inst(self) -> (r: Result<(usize, Vec<usize>, usize), Error>)
        requires
            self.wf(),
        ensures
            r is Ok <==> inst_fields(self.remaining()),
            r is Ok ==> ({
                let f = self.remaining();
                let (m, args, d) = r->Ok_0;
                m == num_at(f, 0)->0 && args@ == Seq::new(num_at(f, 1)->0 as nat, |q: int| num_at(f, 2 + q)->0)
                    && d == num_at(f, 2 + num_at(f, 1)->0)->0
            }),
    {
        let mut t = self;
        let ghost f = t.remaining();
        proof {
            if inst_fields(f) {
                assert(num_at(f, 0) is Some);
                assert(num_at(f, 1) is Some);
            }
        }
        let m = match t.take_usize() {
            Ok(m) => m,
            Err(e) => {
                return Err(e);
            },
        };
        let ghost rem1 = t.remaining();
        assert(rem1 =~= f.drop_first());
        let n = match t.take_usize() {
            Ok(n) => n,
            Err(e) => {
                proof {
                    if f.len() >= 2 {
                        assert(rem1[0] == f[1]);
                    }
                }
                return Err(e);
            },
        };
        assert(t.remaining() =~= f.subrange(2, f.len() as int));
        let mut args: Vec<usize> = Vec::new();
        let mut i: usize = 0;
        while i < n
            invariant
                t.wf(),
                i <= n,
                f.len() >= 2,
                num_at(f, 0) == Some(m),
                num_at(f, 1) == Some(n),
                f == self.remaining(),
                f.len() >= 2 + i ==> t.remaining() == f.subrange(2 + i, f.len() as int),
                f.len() < 2 + i ==> false,
                args@.len() == i,
                forall|q: int| 0 <= q < i ==> num_at(f, 2 + q) == Some(#[trigger] args@[q]),
            decreases n - i,
        {
            let ghost rem = t.remaining();
            let a = match t.take_usize() {
                Ok(a) => a,
                Err(e) => {
                    proof {
                        if inst_fields(f) {
                            assert(num_at(f, 2 + i) is Some);
                            assert(f.len() == n + 3);
                            assert(rem.len() > 0);
                            assert(rem[0] == f[2 + i]);
                        }
                    }
                    return Err(e);
                },
            };
            assert(rem[0] == f[2 + i]);
            args.push(a);
            assert(t.remaining() =~= f.subrange(2 + i + 1, f.len() as int));
            i = i + 1;
        }
        let ghost rem = t.remaining();
        let d = match t.take_usize() {
            Ok(d) => d,
            Err(e) => {
                proof {
                    if inst_fields(f) {
                        assert(num_at(f, 2 + n) is Some);
                    }
                }
                return Err(e);
            },
        };
        assert(rem[0] == f[2 + n]);
        let ghost rem2 = t.remaining();
        assert(rem2 =~= f.subrange(3 + n, f.len() as int));
        match t.end() {
            Ok(()) => {},
            Err(e) => {
                assert(f.len() > n + 3);
                return Err(e);
            },
        }
        proof {
            assert(f.len() == n + 3);
            assert forall|q: int| 0 <= q < f.len() implies #[trigger] num_at(f, q) is Some by {
                if q >= 2 && q < 2 + n {
                    assert(num_at(f, 2 + (q - 2)) == Some(args@[q - 2]));
                }
            }
            assert(args@ =~= Seq::new(num_at(f, 1)->0 as nat, |q: int| num_at(f, 2 + q)->0));
        }
        Ok((m, args, d))
    }

    /// Checks that no field is left.
    pub fn end(self) -> (r: Result<(), Error>)
        requires
            self.wf(),
        ensures
            r is Ok <==> self.remaining().len() == 0,
            r is Err ==> r->Err_0 == Error::Parse(ParseError::ExtraOperand),
    {
        if self.pos < self.fields.len() {
            Err(Error::Parse(ParseError::ExtraOperand))
        } else {
            Ok(())
        }
    }
}

/// The number that a line declares for itself: its first field.
pub open spec fn declared(line: Seq<char>) -> Option<usize> {
    number(split(line, ' ')[0])
}

/// The field at `i` read as a number, if it is one.
pub open spec fn num_at(f: Seq<Seq<char>>, i: int) -> Option<usize> {
    if 0 <= i < f.len() {
        number(f[i])
    } else {
        None
    }
}

/// The field at `i` read as a variable, if it is one character.
pub open spec fn var_at(f: Seq<Seq<char>>, i: int) -> Option<char> {
    if 0 <= i < f.len() && f[i].len() == 1 {
        Some(f[i][0])
    } else {
        None
    }
}

/// What a line whose number is right does, given its instruction `op` and
/// the fields `f` that follow: the rule that `op` names, on these operands
/// where they are well formed; an unknown instruction is an error.
pub open spec fn line_post(
    old: ResolverView,
    new: ResolverView,
    r: Result<usize, Error>,
    op: Seq<char>,
    f: Seq<Seq<char>>,
) -> bool {
    if op == "sort"@ {
        f.len() == 0 ==> r == Ok::<usize, Error>(old.judgements.len() as usize) && new == appended(
            old,
            JudgementView { definitions: 0, context: 0, m: Term::Star, n: Term::Square },
            old.contexts,
            old.definitions,
        )
    } else if op == "var"@ {
        f.len() == 2 && num_at(f, 0) is Some && var_at(f, 1) is Some ==> var_post(
            old,
            new,
            r,
            num_at(f, 0)->0,
            var_at(f, 1)->0,
        )
    } else if op == "weak"@ {
        f.len() == 3 && num_at(f, 0) is Some && num_at(f, 1) is Some && var_at(f, 2) is Some ==> weak_post(
            old,
            new,
            r,
            num_at(f, 0)->0,
            num_at(f, 1)->0,
            var_at(f, 2)->0,
        )
    } else if op == "form"@ {
        two_numbers(f) ==> outcome_post(old, new, r, form_outcome(old, num_at(f, 0)->0, num_at(f, 1)->0))
    } else if op == "appl"@ {
        two_numbers(f) ==> appl_post(old, new, r, num_at(f, 0)->0, num_at(f, 1)->0)
    } else if op == "abst"@ {
        two_numbers(f) ==> outcome_post(old, new, r, abst_outcome(old, num_at(f, 0)->0, num_at(f, 1)->0))
    } else if op == "conv"@ {
        two_numbers(f) ==> outcome_post(old, new, r, conv_outcome(old, num_at(f, 0)->0, num_at(f, 1)->0))
    } else if op == "def"@ {
        f.len() == 3 && num_at(f, 0) is Some && num_at(f, 1) is Some ==> def_post(
            old,
            new,
            r,
            num_at(f, 0)->0,
            num_at(f, 1)->0,
            f[2],
            false,
        )
    } else if op == "defpr"@ {
        f.len() == 3 && num_at(f, 0) is Some && num_at(f, 1) is Some ==> def_post(
            old,
            new,
            r,
            num_at(f, 0)->0,
            num_at(f, 1)->0,
            f[2],
            true,
        )
    } else if op == "inst"@ {
        inst_fields(f) ==> inst_ix_post(
            old,
            new,
            r,
            num_at(f, 0)->0,
            Seq::new(num_at(f, 1)->0 as nat, |q: int| num_at(f, 2 + q)->0),
            num_at(f, 2 + num_at(f, 1)->0)->0,
        )
    } else if op == "cp"@ {
        f.len() == 1 && num_at(f, 0) is Some ==> outcome_post(old, new, r, cp_outcome(old, num_at(f, 0)->0))
    } else if op == "sp"@ {
        two_numbers(f) ==> outcome_post(old, new, r, sp_outcome(old, num_at(f, 0)->0, num_at(f, 1)->0))
    } else {
        r == Err::<usize, Error>(Error::UnknownInstruction) && new == old
    }
}

/// A step either fails and changes nothing, or appends one judgement at
/// the index it returns.
pub open spec fn advanced(old: ResolverView, new: ResolverView, r: Result<usize, Error>) -> bool {
    &&& r is Err ==> new == old
    &&& r is Ok ==> r->Ok_0 == old.judgements.len() && new.judgements.len() == old.judgements.len() + 1
        && new.judgements.drop_last() == old.judgements
}

/// What checking one line does to a state: it fails and changes nothing or
/// appends one judgement; a line that does not declare the next index fails
/// with [`Error::LineNumberMismatch`] (or a parse error where it declares no
/// number); a line that does applies the rule its instruction names (see
/// [`line_post`]).
pub open spec fn step_post(old: ResolverView, new: ResolverView, r: Result<usize, Error>, line: Seq<char>) -> bool {
    &&& advanced(old, new, r)
    &&& r is Ok ==> declared(line) == Some(r->Ok_0)
    &&& declared(line) is None ==> r is Err && r->Err_0 is Parse
    &&& declared(line) is Some && declared(line)->0 != old.judgements.len() ==> r == Err::<usize, Error>(
        Error::LineNumberMismatch { expected: old.judgements.len() as usize, found: declared(line)->0 },
    )
    &&& declared(line) == Some(old.judgements.len() as usize) && split(line, ' ').len() >= 2 ==> line_post(
        old,
        new,
        r,
        split(line, ' ')[1],
        split(line, ' ').subrange(2, split(line, ' ').len() as int),
    )
}

/// The state of a new session: no judgement, both trees empty.
pub open spec fn start_view() -> ResolverView {
    ResolverView {
        judgements: Seq::empty(),
        contexts: seq![None::<(usize, (char, Term))>],
        definitions: seq![None::<(usize, crate::rule::DefinitionModel)>],
    }
}

/// Whether `states` and `results` are a run of `lines` from a new session:
/// line `i` takes `states[i]` to `states[i + 1]` with result `results[i]`.
pub open spec fn run_trace(lines: Seq<Seq<char>>, states: Seq<ResolverView>, results: Seq<Result<usize, Error>>) -> bool {
    &&& states.len() == lines.len() + 1
    &&& results.len() == lines.len()
    &&& states[0] == start_view()
    &&& forall|i: int| 0 <= i < lines.len() ==> step_post(#[trigger] states[i], states[i + 1], results[i], lines[i])
}

/// A run extended by one more line.
pub proof fn lemma_trace_push(
    lines: Seq<Seq<char>>,
    states: Seq<ResolverView>,
    results: Seq<Result<usize, Error>>,
    line: Seq<char>,
    new: ResolverView,
    r: Result<usize, Error>,
)
    requires
        run_trace(lines, states, results),
        step_post(states.last(), new, r, line),
    ensures
        run_trace(lines.push(line), states.push(new), results.push(r)),
{
    let ls = lines.push(line);
    let st = states.push(new);
    let rs = results.push(r);
    assert forall|k: int| 0 <= k < ls.len() implies step_post(#[trigger] st[k], st[k + 1], rs[k], ls[k]) by {
        if k < lines.len() {
            assert(st[k] == states[k]);
            assert(st[k + 1] == states[k + 1]);
            assert(ls[k] == lines[k]);
        }
    }
}

/// A line without its final carriage return.
fn without_cr(piece: &Vec<char>) -> (line: Vec<char>)
    ensures
        line@ == strip_cr(piece@),
{
    let mut line: Vec<char> = Vec::new();
    let mut len = piece.len();
    if len > 0 && piece[len - 1] == '\r' {
        len = len - 1;
    }
    let mut j: usize = 0;
    while j < len
        invariant
            j <= len <= piece@.len(),
            line@ == piece@.subrange(0, j as int),
        decreases len - j,
    {
        line.push(piece[j]);
        j = j + 1;
    }
    assert(line@ =~= strip_cr(piece@));
    line
}

/// Judgement immutability: along a run of steps, each of which fails and
/// changes nothing or appends one judgement, a judgement once derived is the
/// same at every later state.
pub proof fn lemma_judgements_stable(
    states: Seq<ResolverView>,
    results: Seq<Result<usize, Error>>,
    k: int,
    l: int,
    i: int,
)
    requires
        results.len() + 1 == states.len(),
        forall|t: int| 0 <= t < results.len() ==> advanced(#[trigger] states[t], states[t + 1], results[t]),
        0 <= k <= l < states.len(),
        0 <= i < states[k].judgements.len(),
    ensures
        i < states[l].judgements.len(),
        states[l].judgements[i] == states[k].judgements[i],
    decreases l - k,
{
    if l > k {
        lemma_judgements_stable(states, results, k, l - 1, i);
        assert(advanced(states[l - 1], states[l], results[l - 1]));
        if results[l - 1] is Ok {
            assert(states[l].judgements.drop_last()[i] == states[l].judgements[i]);
        }
    }
}

/// Exactly two fields, both numbers.
pub open spec fn two_numbers(f: Seq<Seq<char>>) -> bool {
    f.len() == 2 && num_at(f, 0) is Some && num_at(f, 1) is Some
}

/// `J k J₁ … Jₖ d`, all numbers.
pub open spec fn inst_fields(f: Seq<Seq<char>>) -> bool {
    &&& num_at(f, 1) is Some
    &&& f.len() == num_at(f, 1)->0 + 3
    &&& forall|q: int| 0 <= q < f.len() ==> #[trigger] num_at(f, q) is Some
}

/// A session: the derivation built so far, one judgement per line.
#[derive(Debug)]
pub struct Verifier {
    pub resolver: Resolver,
}

impl Default for Verifier {
    fn default() -> (r: Self)
        ensures
            r.wf(),
            r.resolver@.judgements.len() == 0,
    {
        Self::new()
    }
}

/// Where and why a script was rejected: the index of the offending line
/// among the lines read, and the error.
#[derive(Clone, Copy, Debug, PartialEq, Eq, Structural)]
pub struct Failure {
    pub line: usize,
    pub error: Error,
}

/// The lines of a script: its text cut at line feeds, a carriage return
/// at the end of a line dropped, and a last empty line (after a final line
/// feed) left out; reading stops before a line `-1`.
pub open spec fn script_lines(input: Seq<char>) -> Seq<Seq<char>> {
    let pieces = split(input, '\n');
    let all = Seq::new(
        if pieces.last().len() == 0 {
            (pieces.len() - 1) as nat
        } else {
            pieces.len()
        },
        |i: int| strip_cr(pieces[i]),
    );
    take_until_end(all)
}

/// A line without its final carriage return, if any.
pub open spec fn strip_cr(s: Seq<char>) -> Seq<char> {
    if s.len() > 0 && s.last() == '\r' {
        s.drop_last()
    } else {
        s
    }
}

/// The lines before the first line `-1`.
pub open spec fn take_until_end(lines: Seq<Seq<char>>) -> Seq<Seq<char>>
    decreases lines.len(),
{
    if lines.len() == 0 {
        lines
    } else if lines[0] == seq!['-', '1'] {
        Seq::empty()
    } else {
        seq![lines[0]] + take_until_end(lines.drop_first())
    }
}

impl Verifier {
    pub open spec fn wf(&self) -> bool {
        self.resolver.wf()
    }

    /// A session with no judgement yet.
    pub fn new() -> (r: Self)
        ensures
            r.wf(),
            r.resolver@ == start_view(),
    {
        let r = Verifier { resolver: Resolver::new() };
        assert(r.resolver@ =~= start_view());
        r
    }

    /// Checks one line, given as characters, and on success appends its
    /// judgement.
    pub fn step(&mut self, line: &[char]) -> (r: Result<usize, Error>)
        requires
            old(self).wf(),
        ensures
            final(self).wf(),
            step_post(old(self).resolver@, final(self).resolver@, r, line@),
    {
        let ghost f = split(line@, ' ');
        let mut t = Tokenizer::new(line);
        proof {
            lemma_split_len(line@, ' ');
        }
        let lineno = t.line_number()?;
        let count = self.resolver.judgements.len();
        if lineno != count {
            return Err(Error::LineNumberMismatch { expected: count, found: lineno });
        }
        let op = t.instruction()?;
        assert(t.remaining() =~= f.subrange(2, f.len() as int));
        let r = self.apply(&op, t);
        assert(declared(line@) == Some(lineno));
        r
    }

    /// Applies the rule that `op` names to the operands left in `t`.
    fn apply(&mut self, op: &Vec<char>, t: Tokenizer) -> (r: Result<usize, Error>)
        requires
            old(self).wf(),
            t.wf(),
        ensures
            final(self).wf(),
            advanced(old(self).resolver@, final(self).resolver@, r),
            line_post(old(self).resolver@, final(self).resolver@, r, op@, t.remaining()),
    {
        let count = self.resolver.judgements.len();
        assert(count == self.resolver@.judgements.len());
        if is_word(op, "sort") {
            t.end()?;
            let r = self.resolver.sort();
            assert(self.resolver@.judgements.drop_last() =~= old(self).resolver@.judgements);
            Ok(r)
        } else if is_word(op, "var") {
            let (j, x) = t.read_num_var()?;
            let r = self.resolver.var(j, x);
            proof {
                if r is Ok {
                    assert(self.resolver@.judgements.drop_last() =~= old(self).resolver@.judgements);
                }
            }
            r
        } else if is_word(op, "weak") {
            let (a, b, x) = t.read_two_var()?;
            let r = self.resolver.weak(a, b, x);
            proof {
                if r is Ok {
                    assert(self.resolver@.judgements.drop_last() =~= old(self).resolver@.judgements);
                }
            }
            r
        } else if is_word(op, "form") {
            let (a, b) = t.read_two()?;
            let r = self.resolver.form(a, b);
            proof {
                if r is Ok {
                    assert(self.resolver@.judgements.drop_last() =~= old(self).resolver@.judgements);
                }
            }
            r
        } else if is_word(op, "appl") {
            let (a, b) = t.read_two()?;
            self.resolver.appl(a, b)
        } else if is_word(op, "abst") {
            let (a, b) = t.read_two()?;
            let r = self.resolver.abst(a, b);
            proof {
                if r is Ok {
                    assert(self.resolver@.judgements.drop_last() =~= old(self).resolver@.judgements);
                }
            }
            r
        } else {
            self.apply_more(op, t)
        }
    }

    /// [`Self::apply`] for the instructions past `abst`.
    fn apply_more(&mut self, op: &Vec<char>, t: Tokenizer) -> (r: Result<usize, Error>)
        requires
            old(self).wf(),
            t.wf(),
            op@ != "sort"@ && op@ != "var"@ && op@ != "weak"@ && op@ != "form"@ && op@ != "appl"@ && op@
                != "abst"@,
        ensures
            final(self).wf(),
            advanced(old(self).resolver@, final(self).resolver@, r),
            line_post(old(self).resolver@, final(self).resolver@, r, op@, t.remaining()),
    {
        let count = self.resolver.judgements.len();
        assert(count == self.resolver@.judgements.len());
        if is_word(op, "conv") {
            let (a, b) = t.read_two()?;
            let r = self.resolver.conv(a, b);
            proof {
                if r is Ok {
                    assert(self.resolver@.judgements.drop_last() =~= old(self).resolver@.judgements);
                }
            }
            r
        } else if is_word(op, "def") {
            let (a, b, name) = t.read_two_name()?;
            let r = self.resolver.def(a, b, name);
            proof {
                if r is Ok {
                    assert(self.resolver@.judgements.drop_last() =~= old(self).resolver@.judgements);
                }
            }
            r
        } else if is_word(op, "defpr") {
            let (a, b, name) = t.read_two_name()?;
            let r = self.resolver.def_prim(a, b, name);
            proof {
                if r is Ok {
                    assert(self.resolver@.judgements.drop_last() =~= old(self).resolver@.judgements);
                }
            }
            r
        } else if is_word(op, "inst") {
            let (m, args, d) = t.read_inst()?;
            self.resolver.inst_ix(m, args.as_slice(), d)
        } else if is_word(op, "cp") {
            let a = t.read_one()?;
            let r = self.resolver.cp(a);
            proof {
                if r is Ok {
                    assert(self.resolver@.judgements.drop_last() =~= old(self).resolver@.judgements);
                }
            }
            r
        } else if is_word(op, "sp") {
            let (a, k) = t.read_two()?;
            let r = self.resolver.sp(a, k);
            proof {
                if r is Ok {
                    assert(self.resolver@.judgements.drop_last() =~= old(self).resolver@.judgements);
                }
            }
            r
        } else {
            Err(Error::UnknownInstruction)
        }
    }

    /// Checks a whole script; see [`script_lines`]. On success the session
    /// holds one judgement per line, each line having declared its own
    /// index; on failure the offending line is named.
    #[verifier::rlimit(60)]
    pub fn run(input: &str) -> (r: Result<Verifier, Failure>)
        ensures
            ({
                let lines = script_lines(input@);
                match r {
                    Ok(v) => v.wf() && v.resolver@.judgements.len() == lines.len() && (forall|i: int|
                        0 <= i < lines.len() ==> declared(#[trigger] lines[i]) == Some(i as usize)) && exists|
                        states: Seq<ResolverView>,
                        results: Seq<Result<usize, Error>>,
                    |
                        #[trigger] run_trace(lines, states, results) && states.last() == v.resolver@ && forall|
                            i: int,
                        | 0 <= i < results.len() ==> #[trigger] results[i] is Ok,
                    Err(f) => f.line < lines.len() && (exists|
                        states: Seq<ResolverView>,
                        results: Seq<Result<usize, Error>>,
                    |
                        #[trigger] run_trace(lines.subrange(0, f.line + 1), states, results) && (forall|i: int|
                            0 <= i < f.line ==> #[trigger] results[i] is Ok) && results[f.line as int]
                            == Err::<usize, Error>(f.error)) && (forall|i: int|
                        0 <= i < f.line ==> declared(#[trigger] lines[i]) == Some(i as usize)) && (declared(
                        lines[f.line as int],
                    ) is None ==> f.error is Parse) && (declared(lines[f.line as int]) is Some
                        && declared(lines[f.line as int])->0 != f.line ==> f.error == Error::LineNumberMismatch {
                        expected: f.line,
                        found: declared(lines[f.line as int])->0,
                    }),
                }
            }),
    {
        let chars = chars_of(input);
        let pieces = split_at(chars.as_slice(), '\n');
        let ghost sp = split(input@, '\n');
        proof {
            lemma_split_len(input@, '\n');
        }
        let mut count = pieces.len();
        if pieces[count - 1].len() == 0 {
            count = count - 1;
        }
        let ghost all = Seq::new(count as nat, |i: int| strip_cr(sp[i]));
        assert(script_lines(input@) == take_until_end(all));
        let mut v = Verifier::new();
        let mut i: usize = 0;
        assert(all.subrange(0, 0) + take_until_end(all.subrange(0, all.len() as int)) =~= take_until_end(all)) by {
            assert(all.subrange(0, all.len() as int) == all);
        }
        let mut stopped = false;
        let ghost mut states: Seq<ResolverView> = seq![v.resolver@];
        let ghost mut results: Seq<Result<usize, Error>> = Seq::empty();
        assert(run_trace(all.subrange(0, 0), states, results));
        while i < count && !stopped
            invariant
                stopped ==> take_until_end(all) == all.subrange(0, i as int),
                i <= count == all.len(),
                count <= pieces@.len(),
                pieces@.len() == sp.len(),
                forall|k: int| 0 <= k < pieces@.len() ==> (#[trigger] pieces@[k])@ == sp[k],
                all == Seq::new(count as nat, |k: int| strip_cr(sp[k])),
                script_lines(input@) == take_until_end(all),
                take_until_end(all) == all.subrange(0, i as int) + take_until_end(all.subrange(i as int, all.len() as int)),
                v.wf(),
                v.resolver@.judgements.len() == i,
                forall|k: int| 0 <= k < i ==> declared(#[trigger] all[k]) == Some(k as usize),
                run_trace(all.subrange(0, i as int), states, results),
                states.last() == v.resolver@,
                forall|k: int| 0 <= k < results.len() ==> #[trigger] results[k] is Ok,
            decreases count - i + (if stopped { 0int } else { 1int }),
        {
            let line = without_cr(&pieces[i]);
            assert(line@ == all[i as int]);
            let ghost rest = all.subrange(i as int, all.len() as int);
            assert(rest[0] == all[i as int]);
            if line.len() == 2 && line[0] == '-' && line[1] == '1' {
                assert(line@ =~= seq!['-', '1']);
                assert(take_until_end(all) =~= all.subrange(0, i as int));
                stopped = true;
            } else {
            assert(rest.drop_first() =~= all.subrange(i + 1, all.len() as int));
            assert(take_until_end(all) =~= all.subrange(0, i + 1) + take_until_end(all.subrange(i + 1, all.len() as int)));
            let ghost before = v.resolver@;
            let r = v.step(line.as_slice());
            proof {
                let ls = all.subrange(0, i + 1);
                lemma_trace_push(all.subrange(0, i as int), states, results, line@, v.resolver@, r);
                assert(all.subrange(0, i as int).push(line@) =~= ls);
                states = states.push(v.resolver@);
                results = results.push(r);
                assert(take_until_end(all).subrange(0, i + 1) =~= ls);
            }
            match r {
                Ok(_) => {},
                Err(e) => {
                    proof {
                        assert(take_until_end(all)[i as int] == all[i as int]);
                        assert(results[i as int] == Err::<usize, Error>(e));
                        assert forall|k: int| 0 <= k < i implies #[trigger] results[k] is Ok by {
                            assert(results[k] == results.drop_last()[k]);
                        }
                    }
                    return Err(Failure { line: i, error: e });
                },
            }
            proof {
                assert forall|k: int| 0 <= k < results.len() implies #[trigger] results[k] is Ok by {
                    if k < i {
                        assert(results[k] == results.drop_last()[k]);
                    }
                }
            }
            i = i + 1;
            }
        }
        proof {
            if !stopped {
                assert(all.subrange(i as int, all.len() as int) =~= Seq::<Seq<char>>::empty());
                assert(take_until_end(all) =~= all.subrange(0, i as int));
            }
            assert forall|k: int| 0 <= k < take_until_end(all).len() implies declared(#[trigger] take_until_end(all)[k]) == Some(k as usize) by {
                assert(take_until_end(all)[k] == all[k]);
            }
            assert(run_trace(script_lines(input@), states, results));
        }
        Ok(v)
    }

    /// Checks one line and on success appends its judgement.
    pub fn run_line(&mut self, line: &str) -> (r: Result<usize, Error>)
        requires
            old(self).wf(),
        ensures
            final(self).wf(),
            step_post(old(self).resolver@, final(self).resolver@, r, line@),
    {
        let chars = chars_of(line);
        self.step(chars.as_slice())
    }
}

} // verus!
