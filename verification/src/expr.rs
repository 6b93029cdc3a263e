//! The expression capability: a pure AST over variable references, the set of
//! names an expression mentions, and evaluation against an environment.
//! Evaluation fails on a missing reference, on an operand that is not a
//! decimal integer, and on a result that does not fit in `i64`.

use vstd::prelude::*;

use crate::names::{Value, VarName};
use crate::numtext::{int_to_text, parsed_i64, render_int, text_to_int};

verus! {

/// An environment: variable names bound to values, earlier entries shadowing
/// later ones.
pub struct Env {
    pub entries: Vec<(VarName, Value)>,
}

/// The map denoted by an association list: the first entry for a name wins.
pub open spec fn assoc_view(s: Seq<(VarName, Value)>) -> Map<Seq<char>, Seq<char>>
    decreases s.len(),
{
    if s.len() == 0 {
        Map::empty()
    } else {
        assoc_view(s.drop_first()).insert(s[0].0@, s[0].1@)
    }
}

/// An entry whose name matches, with no earlier match, gives the name's image
/// in the association list's map.
pub proof fn lemma_assoc_first_match(s: Seq<(VarName, Value)>, k: Seq<char>, i: int)
    requires
        0 <= i < s.len(),
        s[i].0@ == k,
        forall|j: int| 0 <= j < i ==> (#[trigger] s[j]).0@ != k,
    ensures
        assoc_view(s).contains_key(k),
        assoc_view(s)[k] == s[i].1@,
    decreases i,
{
    if i > 0 {
        lemma_assoc_first_match(s.drop_first(), k, i - 1);
    }
}

/// A name that no entry carries is not in the association list's map.
pub proof fn lemma_assoc_no_match(s: Seq<(VarName, Value)>, k: Seq<char>)
    requires
        forall|j: int| 0 <= j < s.len() ==> (#[trigger] s[j]).0@ != k,
    ensures
        !assoc_view(s).contains_key(k),
    decreases s.len(),
{
    if s.len() > 0 {
        lemma_assoc_no_match(s.drop_first(), k);
    }
}

/// A name is in the association list's map exactly when some entry carries
/// it.
pub proof fn lemma_assoc_dom(s: Seq<(VarName, Value)>, k: Seq<char>)
    ensures
        assoc_view(s).contains_key(k) <==> exists|j: int| 0 <= j < s.len() && (#[trigger] s[j]).0@
            == k,
    decreases s.len(),
{
    if s.len() > 0 {
        lemma_assoc_dom(s.drop_first(), k);
        if s[0].0@ == k {
            assert(s[0].0@ == k);
        } else if exists|j: int| 0 <= j < s.drop_first().len() && (#[trigger] s.drop_first()[j]).0@
            == k {
            let j = choose|j: int|
                0 <= j < s.drop_first().len() && (#[trigger] s.drop_first()[j]).0@ == k;
            assert(s[j + 1].0@ == k);
        } else {
            assert forall|j: int| 0 <= j < s.len() implies (#[trigger] s[j]).0@ != k by {
                if j > 0 {
                    assert(s.drop_first()[j - 1] == s[j]);
                }
            }
        }
    }
}

/// Overwriting the value of the first entry for a name updates the name's
/// image in the association list's map and nothing else.
pub proof fn lemma_assoc_update(s: Seq<(VarName, Value)>, i: int, p: (VarName, Value), k: Seq<char>)
    requires
        0 <= i < s.len(),
        s[i].0@ == k,
        p.0@ == k,
        forall|j: int| 0 <= j < i ==> (#[trigger] s[j]).0@ != k,
    ensures
        assoc_view(s.update(i, p)) == assoc_view(s).insert(k, p.1@),
    decreases i,
{
    let t = s.update(i, p);
    if i == 0 {
        assert(t.drop_first() =~= s.drop_first());
        assert(assoc_view(t) == assoc_view(s.drop_first()).insert(k, p.1@));
        assert(assoc_view(s.drop_first()).insert(k, s[0].1@).insert(k, p.1@) =~= assoc_view(
            s.drop_first(),
        ).insert(k, p.1@));
    } else {
        lemma_assoc_update(s.drop_first(), i - 1, p, k);
        assert(t.drop_first() =~= s.drop_first().update(i - 1, p));
        assert(s[0].0@ != k);
        assert(assoc_view(t) == assoc_view(s.drop_first()).insert(k, p.1@).insert(
            s[0].0@,
            s[0].1@,
        ));
        assert(assoc_view(s.drop_first()).insert(k, p.1@).insert(s[0].0@, s[0].1@) =~= assoc_view(
            s.drop_first(),
        ).insert(s[0].0@, s[0].1@).insert(k, p.1@));
    }
}

impl View for Env {
    type V = Map<Seq<char>, Seq<char>>;

    open spec fn view(&self) -> Map<Seq<char>, Seq<char>> {
        assoc_view(self.entries@)
    }
}

impl Env {
    /// An environment with no bindings.
    pub fn empty() -> (r: Env)
        ensures
            r@ == Map::<Seq<char>, Seq<char>>::empty(),
    {
        Env { entries: Vec::new() }
    }

    /// Binds a name in front of the existing entries.
    pub fn bind(&mut self, name: VarName, value: Value)
        ensures
            final(self)@ == old(self)@.insert(name@, value@),
    {
        self.entries.insert(0, (name, value));
        proof {
            assert(self.entries@.drop_first() =~= old(self).entries@);
        }
    }

    /// The value bound to a name, if any.
    pub fn get(&self, name: &VarName) -> (r: Option<&Value>)
        ensures
            match r {
                Some(v) => self@.contains_key(name@) && v@ == self@[name@],
                None => !self@.contains_key(name@),
            },
    {
        let n = self.entries.len();
        let mut i: usize = 0;
        while i < n
            invariant
                n == self.entries@.len(),
                i <= n,
                forall|j: int| 0 <= j < i ==> (#[trigger] self.entries@[j]).0@ != name@,
            decreases n - i,
        {
            if self.entries[i].0.same_name(name) {
                proof {
                    lemma_assoc_first_match(self.entries@, name@, i as int);
                }
                return Some(&self.entries[i].1);
            }
            i += 1;
        }
        proof {
            lemma_assoc_no_match(self.entries@, name@);
        }
        None
    }
}

/// A pure, side-effect-free expression over variable references.
#[derive(Debug)]
pub enum Expression {
    /// A constant value.
    Literal(Value),
    /// A reference to a variable, resolved against the environment.
    VarRef(VarName),
    /// Integer addition of the two operands' decimal values.
    Plus(Box<Expression>, Box<Expression>),
    /// Integer subtraction of the two operands' decimal values.
    Minus(Box<Expression>, Box<Expression>),
    /// Integer multiplication of the two operands' decimal values.
    Times(Box<Expression>, Box<Expression>),
}

impl Clone for Expression {
    fn clone(&self) -> (r: Self)
        ensures
            r == *self,
        decreases *self,
    {
        match self {
            Expression::Literal(v) => Expression::Literal(v.clone()),
            Expression::VarRef(n) => Expression::VarRef(n.clone()),
            Expression::Plus(a, b) => Expression::Plus(
                Box::new((**a).clone()),
                Box::new((**b).clone()),
            ),
            Expression::Minus(a, b) => Expression::Minus(
                Box::new((**a).clone()),
                Box::new((**b).clone()),
            ),
            Expression::Times(a, b) => Expression::Times(
                Box::new((**a).clone()),
                Box::new((**b).clone()),
            ),
        }
    }
}

/// Why evaluation failed.
#[derive(Debug)]
pub enum EvalError {
    /// A referenced variable is not bound in the environment.
    UnresolvedVariable(VarName),
    /// An operand of a numeric operator is not a decimal integer.
    NotANumber(Value),
    /// The result of a numeric operator does not fit in `i64`.
    Overflow,
}

/// What evaluating an expression against an environment comes to.
pub enum Outcome {
    /// Evaluation succeeds with this text.
    Val(Seq<char>),
    /// This referenced name is unbound; the leftmost such name.
    MissingVar(Seq<char>),
    /// This operand text is not a decimal integer; the leftmost such operand.
    NotNumeric(Seq<char>),
    /// An operator's result does not fit in `i64`.
    TooLarge,
}

/// The two integer operands of a numeric operator, or the failing outcome: a
/// failing operand wins (left first), and an operand whose text is not a
/// decimal integer that fits in `i64` fails.
pub open spec fn operands_outcome(l: Outcome, r: Outcome) -> Result<(int, int), Outcome> {
    match l {
        Outcome::Val(lt) => match r {
            Outcome::Val(rt) => match parsed_i64(lt) {
                Some(lv) => match parsed_i64(rt) {
                    Some(rv) => Ok((lv, rv)),
                    None => Err(Outcome::NotNumeric(rt)),
                },
                None => Err(Outcome::NotNumeric(lt)),
            },
            _ => Err(r),
        },
        _ => Err(l),
    }
}

/// The outcome of a numeric operator over its operands' outcomes: a failing
/// operand wins (left first), a result outside `i64`'s range fails, and
/// otherwise the result is rendered in decimal.
pub open spec fn binop_outcome(l: Outcome, r: Outcome, f: spec_fn(int, int) -> int) -> Outcome {
    match operands_outcome(l, r) {
        Ok((lv, rv)) => {
            let v = f(lv, rv);
            if v < i64::MIN || v > i64::MAX {
                Outcome::TooLarge
            } else {
                Outcome::Val(render_int(v))
            }
        },
        Err(o) => o,
    }
}

/// What an expression evaluates to against an environment.
pub open spec fn eval_outcome(e: Expression, env: Map<Seq<char>, Seq<char>>) -> Outcome
    decreases e,
{
    match e {
        Expression::Literal(v) => Outcome::Val(v@),
        Expression::VarRef(n) => if env.contains_key(n@) {
            Outcome::Val(env[n@])
        } else {
            Outcome::MissingVar(n@)
        },
        Expression::Plus(a, b) => binop_outcome(
            eval_outcome(*a, env),
            eval_outcome(*b, env),
            (|x: int, y: int| x + y),
        ),
        Expression::Minus(a, b) => binop_outcome(
            eval_outcome(*a, env),
            eval_outcome(*b, env),
            (|x: int, y: int| x - y),
        ),
        Expression::Times(a, b) => binop_outcome(
            eval_outcome(*a, env),
            eval_outcome(*b, env),
            (|x: int, y: int| x * y),
        ),
    }
}

/// The set of variable names an expression references.
pub open spec fn expr_refs(e: Expression) -> Set<Seq<char>>
    decreases e,
{
    match e {
        Expression::Literal(_) => Set::empty(),
        Expression::VarRef(n) => Set::empty().insert(n@),
        Expression::Plus(a, b) => expr_refs(*a).union(expr_refs(*b)),
        Expression::Minus(a, b) => expr_refs(*a).union(expr_refs(*b)),
        Expression::Times(a, b) => expr_refs(*a).union(expr_refs(*b)),
    }
}

/// Evaluation reads only the referenced names: two environments that agree
/// on them give the same outcome.
pub proof fn lemma_eval_agree(
    e: Expression,
    m1: Map<Seq<char>, Seq<char>>,
    m2: Map<Seq<char>, Seq<char>>,
)
    requires
        forall|n: Seq<char>| #[trigger]
            expr_refs(e).contains(n) ==> (m1.contains_key(n) <==> m2.contains_key(n)),
        forall|n: Seq<char>| #[trigger]
            expr_refs(e).contains(n) && m1.contains_key(n) ==> m1[n] == m2[n],
    ensures
        eval_outcome(e, m1) == eval_outcome(e, m2),
    decreases e,
{
    match e {
        Expression::Literal(_) => {},
        Expression::VarRef(n) => {
            assert(expr_refs(e).contains(n@));
        },
        Expression::Plus(a, b) => {
            assert forall|n: Seq<char>| #[trigger]
                expr_refs(*a).contains(n) implies expr_refs(e).contains(n) by {}
            assert forall|n: Seq<char>| #[trigger]
                expr_refs(*b).contains(n) implies expr_refs(e).contains(n) by {}
            lemma_eval_agree(*a, m1, m2);
            lemma_eval_agree(*b, m1, m2);
        },
        Expression::Minus(a, b) => {
            assert forall|n: Seq<char>| #[trigger]
                expr_refs(*a).contains(n) implies expr_refs(e).contains(n) by {}
            assert forall|n: Seq<char>| #[trigger]
                expr_refs(*b).contains(n) implies expr_refs(e).contains(n) by {}
            lemma_eval_agree(*a, m1, m2);
            lemma_eval_agree(*b, m1, m2);
        },
        Expression::Times(a, b) => {
            assert forall|n: Seq<char>| #[trigger]
                expr_refs(*a).contains(n) implies expr_refs(e).contains(n) by {}
            assert forall|n: Seq<char>| #[trigger]
                expr_refs(*b).contains(n) implies expr_refs(e).contains(n) by {}
            lemma_eval_agree(*a, m1, m2);
            lemma_eval_agree(*b, m1, m2);
        },
    }
}

/// An expression that references a name the environment lacks cannot
/// evaluate to a value.
pub proof fn lemma_missing_ref_not_val(e: Expression, m: Map<Seq<char>, Seq<char>>, n: Seq<char>)
    requires
        expr_refs(e).contains(n),
        !m.contains_key(n),
    ensures
        !(eval_outcome(e, m) is Val),
    decreases e,
{
    match e {
        Expression::Literal(_) => {},
        Expression::VarRef(_) => {},
        Expression::Plus(a, b) => {
            if expr_refs(*a).contains(n) {
                lemma_missing_ref_not_val(*a, m, n);
            } else {
                lemma_missing_ref_not_val(*b, m, n);
            }
        },
        Expression::Minus(a, b) => {
            if expr_refs(*a).contains(n) {
                lemma_missing_ref_not_val(*a, m, n);
            } else {
                lemma_missing_ref_not_val(*b, m, n);
            }
        },
        Expression::Times(a, b) => {
            if expr_refs(*a).contains(n) {
                lemma_missing_ref_not_val(*a, m, n);
            } else {
                lemma_missing_ref_not_val(*b, m, n);
            }
        },
    }
}

/// A missing-variable outcome always names a referenced variable that the
/// environment lacks.
pub proof fn lemma_missing_outcome(e: Expression, m: Map<Seq<char>, Seq<char>>)
    ensures
        eval_outcome(e, m) matches Outcome::MissingVar(n) ==> expr_refs(e).contains(n)
            && !m.contains_key(n),
    decreases e,
{
    match e {
        Expression::Literal(_) => {},
        Expression::VarRef(n) => {
            assert(expr_refs(e).contains(n@));
        },
        Expression::Plus(a, b) => {
            lemma_missing_outcome(*a, m);
            lemma_missing_outcome(*b, m);
        },
        Expression::Minus(a, b) => {
            lemma_missing_outcome(*a, m);
            lemma_missing_outcome(*b, m);
        },
        Expression::Times(a, b) => {
            lemma_missing_outcome(*a, m);
            lemma_missing_outcome(*b, m);
        },
    }
}

/// The exec result and the spec outcome agree.
pub open spec fn matches_outcome(r: Result<Value, EvalError>, o: Outcome) -> bool {
    match r {
        Ok(v) => o == Outcome::Val(v@),
        Err(EvalError::UnresolvedVariable(n)) => o == Outcome::MissingVar(n@),
        Err(EvalError::NotANumber(v)) => o == Outcome::NotNumeric(v@),
        Err(EvalError::Overflow) => o == Outcome::TooLarge,
    }
}

impl Expression {
    /// Evaluates the expression against an environment. Succeeds exactly when
    /// every referenced name is bound, every operand of a numeric operator is
    /// a decimal integer, and every intermediate result fits in `i64`.
    pub fn eval(&self, env: &Env) -> (r: Result<Value, EvalError>)
        ensures
            matches_outcome(r, eval_outcome(*self, env@)),
        decreases *self,
    {
        match self {
            Expression::Literal(v) => Ok(v.clone()),
            Expression::VarRef(n) => match env.get(n) {
                Some(v) => Ok(v.clone()),
                None => Err(EvalError::UnresolvedVariable(n.clone())),
            },
            Expression::Plus(a, b) => {
                let lt = a.eval(env)?;
                let rt = b.eval(env)?;
                let (lv, rv) = Self::parse_operands(lt, rt)?;
                match lv.checked_add(rv) {
                    Some(v) => Ok(Value(int_to_text(v))),
                    None => Err(EvalError::Overflow),
                }
            },
            Expression::Minus(a, b) => {
                let lt = a.eval(env)?;
                let rt = b.eval(env)?;
                let (lv, rv) = Self::parse_operands(lt, rt)?;
                match lv.checked_sub(rv) {
                    Some(v) => Ok(Value(int_to_text(v))),
                    None => Err(EvalError::Overflow),
                }
            },
            Expression::Times(a, b) => {
                let lt = a.eval(env)?;
                let rt = b.eval(env)?;
                let (lv, rv) = Self::parse_operands(lt, rt)?;
                match lv.checked_mul(rv) {
                    Some(v) => Ok(Value(int_to_text(v))),
                    None => Err(EvalError::Overflow),
                }
            },
        }
    }

    /// True exactly when the expression references the variable.
    pub fn references(&self, name: &VarName) -> (r: bool)
        ensures
            r == expr_refs(*self).contains(name@),
        decreases *self,
    {
        match self {
            Expression::Literal(_) => {
                proof {
                    assert(expr_refs(*self) == Set::<Seq<char>>::empty());
                }
                false
            },
            Expression::VarRef(n) => n.same_name(name),
            Expression::Plus(a, b) => a.references(name) || b.references(name),
            Expression::Minus(a, b) => a.references(name) || b.references(name),
            Expression::Times(a, b) => a.references(name) || b.references(name),
        }
    }

    /// Collects the variable names the expression references. The result
    /// lists every referenced name, possibly with repeats.
    pub fn var_refs(&self) -> (r: Vec<VarName>)
        ensures
            forall|i: int| 0 <= i < r@.len() ==> expr_refs(*self).contains((#[trigger] r@[i])@),
            forall|n: Seq<char>| #[trigger]
                expr_refs(*self).contains(n) ==> exists|i: int| 0 <= i < r@.len() && r@[i]@ == n,
    {
        let mut out: Vec<VarName> = Vec::new();
        self.collect_refs(&mut out);
        out
    }

    /// Appends the expression's referenced names to the accumulator.
    fn collect_refs(&self, out: &mut Vec<VarName>)
        ensures
            old(out)@.len() <= final(out)@.len(),
            forall|i: int| 0 <= i < old(out)@.len() ==> final(out)@[i] == old(out)@[i],
            forall|i: int|
                old(out)@.len() <= i < final(out)@.len() ==> expr_refs(*self).contains(
                    (#[trigger] final(out)@[i])@,
                ),
            forall|n: Seq<char>| #[trigger]
                expr_refs(*self).contains(n) ==> exists|i: int|
                    old(out)@.len() <= i < final(out)@.len() && final(out)@[i]@ == n,
        decreases *self,
    {
        match self {
            Expression::Literal(_) => {
                proof {
                    assert forall|n: Seq<char>| !(#[trigger] expr_refs(*self).contains(n)) by {
                        assert(expr_refs(*self) == Set::<Seq<char>>::empty());
                    }
                }
            },
            Expression::VarRef(n) => {
                let ghost base = out@;
                out.push(n.clone());
                proof {
                    assert forall|m: Seq<char>| #[trigger]
                        expr_refs(*self).contains(m) implies exists|i: int|
                        base.len() <= i < out@.len() && out@[i]@ == m by {
                        assert(out@[base.len() as int]@ == m);
                    }
                }
            },
            Expression::Plus(a, b) => {
                let ghost base = out@;
                a.collect_refs(out);
                let ghost mid = out@;
                b.collect_refs(out);
                proof {
                    Self::union_refs_covered(**a, **b, *self, base, mid, out@);
                }
            },
            Expression::Minus(a, b) => {
                let ghost base = out@;
                a.collect_refs(out);
                let ghost mid = out@;
                b.collect_refs(out);
                proof {
                    Self::union_refs_covered(**a, **b, *self, base, mid, out@);
                }
            },
            Expression::Times(a, b) => {
                let ghost base = out@;
                a.collect_refs(out);
                let ghost mid = out@;
                b.collect_refs(out);
                proof {
                    Self::union_refs_covered(**a, **b, *self, base, mid, out@);
                }
            },
        }
    }

    /// The accumulator's new tail covers a union of reference sets once each
    /// half's tail covers one of them.
    proof fn union_refs_covered(
        a: Expression,
        b: Expression,
        whole: Expression,
        base: Seq<VarName>,
        mid: Seq<VarName>,
        end: Seq<VarName>,
    )
        requires
            expr_refs(whole) == expr_refs(a).union(expr_refs(b)),
            base.len() <= mid.len() <= end.len(),
            forall|i: int| 0 <= i < mid.len() ==> end[i] == mid[i],
            forall|n: Seq<char>| #[trigger]
                expr_refs(a).contains(n) ==> exists|i: int|
                    base.len() <= i < mid.len() && mid[i]@ == n,
            forall|n: Seq<char>| #[trigger]
                expr_refs(b).contains(n) ==> exists|i: int|
                    mid.len() <= i < end.len() && end[i]@ == n,
        ensures
            forall|n: Seq<char>| #[trigger]
                expr_refs(whole).contains(n) ==> exists|i: int|
                    base.len() <= i < end.len() && end[i]@ == n,
    {
        assert forall|n: Seq<char>| #[trigger]
            expr_refs(whole).contains(n) implies exists|i: int|
            base.len() <= i < end.len() && end[i]@ == n by {
            if expr_refs(a).contains(n) {
                let i = choose|i: int| base.len() <= i < mid.len() && mid[i]@ == n;
                assert(end[i]@ == n);
            } else {
                assert(expr_refs(b).contains(n));
                let i = choose|i: int| mid.len() <= i < end.len() && end[i]@ == n;
                assert(end[i]@ == n);
            }
        }
    }

    /// Reads the two operand texts of a numeric operator as decimal integers.
    fn parse_operands(lt: Value, rt: Value) -> (r: Result<(i64, i64), EvalError>)
        ensures
            match r {
                Ok((lv, rv)) => parsed_i64(lt@) == Some(lv as int) && parsed_i64(rt@) == Some(
                    rv as int,
                ),
                Err(e) => {
                    &&& (e matches EvalError::NotANumber(v) && (v@ == lt@ || v@ == rt@))
                    &&& operands_outcome(Outcome::Val(lt@), Outcome::Val(rt@)) matches Err(o)
                        && matches_outcome(Err(e), o)
                },
            },
    {
        let lv = match text_to_int(lt.0.as_str()) {
            Some(v) => v,
            None => {
                return Err(EvalError::NotANumber(lt));
            },
        };
        let rv = match text_to_int(rt.0.as_str()) {
            Some(v) => v,
            None => {
                return Err(EvalError::NotANumber(rt));
            },
        };
        Ok((lv, rv))
    }
}

} // verus!
