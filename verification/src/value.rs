//! The tagged value type shared by the reader and the evaluator: a list of
//! values serves both as a syntax tree before evaluation and as a list value
//! after it.

use std::collections::vec_deque::VecDeque;

use vstd::prelude::*;

use crate::float::{float_eq, spec_float_eq};
use crate::token::{SpecToken, Token, view_tokens};

verus! {

/// Identifier of a native procedure registered in the global environment.
/// Dispatching through a closed enumeration avoids comparing function
/// pointers for equality.
#[derive(Clone, Copy, Debug)]
pub enum Builtin {
    Add,
    Multiply,
    Substract,
    Divide,
    Car,
    Cdr,
}

/// Everything that can go wrong while reading or evaluating an expression.
/// Any of these aborts the current top-level expression only.
#[derive(Clone, Copy, Debug, PartialEq, Eq, Structural)]
pub enum LispError {
    /// Unbalanced delimiters or premature end of input.
    ParseError,
    /// Operand kind mismatch: mixed numeric kinds, a non-list argument to a
    /// list procedure, or a wrong number of arguments.
    TypeError,
    /// Integer division by zero, or an integer result outside the `i64` range.
    ArithmeticError,
    /// `car` of an empty list.
    IndexError,
}

pub type LispList = Vec<LispValue>;

/// The single tagged union used as syntax tree node, runtime value and
/// argument vector alike. A `Float` carries the IEEE 754 binary64 bit
/// pattern of its number, so the value model stays within the integers.
#[derive(Debug)]
pub enum LispValue {
    Symbol(String),
    True,
    False,
    Int(i64),
    Float(u64),
    Lambda(Builtin),
    List(LispList),
}

/// Mathematical model of a value: strings become character sequences,
/// machine integers become unbounded integers, lists become sequences.
pub enum SpecValue {
    Symbol(Seq<char>),
    True,
    False,
    Int(int),
    Float(u64),
    Lambda(Builtin),
    List(Seq<SpecValue>),
}

pub open spec fn view_value(v: LispValue) -> SpecValue
    decreases v,
{
    match v {
        LispValue::Symbol(s) => SpecValue::Symbol(s@),
        LispValue::True => SpecValue::True,
        LispValue::False => SpecValue::False,
        LispValue::Int(i) => SpecValue::Int(i as int),
        LispValue::Float(b) => SpecValue::Float(b),
        LispValue::Lambda(b) => SpecValue::Lambda(b),
        LispValue::List(l) => SpecValue::List(view_list(l@)),
    }
}

pub open spec fn view_list(s: Seq<LispValue>) -> Seq<SpecValue>
    decreases s,
{
    if s.len() == 0 {
        Seq::empty()
    } else {
        view_list(s.drop_last()).push(view_value(s.last()))
    }
}

impl View for LispValue {
    type V = SpecValue;

    open spec fn view(&self) -> SpecValue {
        view_value(*self)
    }
}

/// The model of a list of values is the pointwise model of its elements.
pub proof fn lemma_view_list(s: Seq<LispValue>)
    ensures
        view_list(s).len() == s.len(),
        forall|i: int| 0 <= i < s.len() ==> view_list(s)[i] == s[i]@,
    decreases s.len(),
{
    if s.len() > 0 {
        lemma_view_list(s.drop_last());
    }
}

/// Structural equality on models, except that floats compare by IEEE 754
/// rules and a procedure equals nothing, not even itself.
pub open spec fn spec_value_eq(a: SpecValue, b: SpecValue) -> bool
    decreases a,
{
    match (a, b) {
        (SpecValue::Symbol(x), SpecValue::Symbol(y)) => x == y,
        (SpecValue::True, SpecValue::True) => true,
        (SpecValue::False, SpecValue::False) => true,
        (SpecValue::Int(x), SpecValue::Int(y)) => x == y,
        (SpecValue::Float(x), SpecValue::Float(y)) => spec_float_eq(x, y),
        (SpecValue::List(x), SpecValue::List(y)) => spec_seq_eq(x, y),
        _ => false,
    }
}

pub open spec fn spec_seq_eq(x: Seq<SpecValue>, y: Seq<SpecValue>) -> bool
    decreases x,
{
    &&& x.len() == y.len()
    &&& (x.len() == 0 || (spec_seq_eq(x.drop_last(), y.drop_last()) && spec_value_eq(
        x.last(),
        y.last(),
    )))
}

/// Two sequences of models compare equal exactly when they have the same
/// length and their elements compare equal position by position.
pub proof fn lemma_seq_eq_pointwise(x: Seq<SpecValue>, y: Seq<SpecValue>)
    ensures
        spec_seq_eq(x, y) <==> (x.len() == y.len() && forall|i: int|
            0 <= i < x.len() ==> spec_value_eq(x[i], y[i])),
    decreases x.len(),
{
    if x.len() > 0 && x.len() == y.len() {
        lemma_seq_eq_pointwise(x.drop_last(), y.drop_last());
        assert forall|i: int| 0 <= i < x.len() - 1 implies x.drop_last()[i] == x[i]
            && y.drop_last()[i] == y[i] by {}
    }
}

fn eq_lists(x: &Vec<LispValue>, y: &Vec<LispValue>) -> (r: bool)
    ensures
        r == spec_seq_eq(view_list(x@), view_list(y@)),
    decreases x,
{
    proof {
        lemma_view_list(x@);
        lemma_view_list(y@);
        lemma_seq_eq_pointwise(view_list(x@), view_list(y@));
    }
    if x.len() != y.len() {
        return false;
    }
    let mut i: usize = 0;
    while i < x.len()
        invariant
            x@.len() == y@.len(),
            i <= x@.len(),
            forall|j: int| 0 <= j < i ==> spec_value_eq(x@[j]@, y@[j]@),
        decreases x@.len() - i,
    {
        if !(x[i] == y[i]) {
            proof {
                lemma_view_list(x@);
                lemma_view_list(y@);
                lemma_seq_eq_pointwise(view_list(x@), view_list(y@));
                assert(view_list(x@)[i as int] == x@[i as int]@);
                assert(!spec_value_eq(view_list(x@)[i as int], view_list(y@)[i as int]));
            }
            return false;
        }
        i = i + 1;
    }
    true
}

impl vstd::std_specs::cmp::PartialEqSpecImpl for LispValue {
    open spec fn obeys_eq_spec() -> bool {
        true
    }

    open spec fn eq_spec(&self, other: &LispValue) -> bool {
        spec_value_eq((*self)@, (*other)@)
    }
}

impl PartialEq for LispValue {
    fn eq(&self, other: &LispValue) -> (r: bool)
        decreases *self,
    {
        match self {
            LispValue::Symbol(x) => match other {
                LispValue::Symbol(y) => x.eq(y),
                _ => false,
            },
            LispValue::True => match other {
                LispValue::True => true,
                _ => false,
            },
            LispValue::False => match other {
                LispValue::False => true,
                _ => false,
            },
            LispValue::Int(x) => match other {
                LispValue::Int(y) => *x == *y,
                _ => false,
            },
            LispValue::Float(x) => match other {
                LispValue::Float(y) => float_eq(*x, *y),
                _ => false,
            },
            LispValue::Lambda(_) => false,
            LispValue::List(x) => match other {
                LispValue::List(y) => eq_lists(x, y),
                _ => false,
            },
        }
    }
}

/// Deep copy with the same model; needed because the environment hands out
/// copies of its bound values.
pub fn clone_value(v: &LispValue) -> (r: LispValue)
    ensures
        r@ == v@,
    decreases *v,
{
    match v {
        LispValue::Symbol(s) => LispValue::Symbol(s.clone()),
        LispValue::True => LispValue::True,
        LispValue::False => LispValue::False,
        LispValue::Int(i) => LispValue::Int(*i),
        LispValue::Float(b) => LispValue::Float(*b),
        LispValue::Lambda(b) => LispValue::Lambda(*b),
        LispValue::List(l) => LispValue::List(clone_list(l)),
    }
}

/// What the reader yields on a token sequence: one value and the tokens
/// left over, or a failure. A close parenthesis with no matching open one,
/// and a stream that ends before an expression is complete, both fail.
pub open spec fn spec_parse(ts: Seq<SpecToken>) -> Result<(SpecValue, Seq<SpecToken>), LispError>
    decreases ts.len(), 0int,
{
    if ts.len() == 0 {
        Err(LispError::ParseError)
    } else {
        match ts[0] {
            SpecToken::OParen => match spec_parse_items(ts.drop_first()) {
                Ok((items, rest)) => Ok((SpecValue::List(items), rest)),
                Err(e) => Err(e),
            },
            SpecToken::CParen => Err(LispError::ParseError),
            SpecToken::Symbol(s) => Ok((SpecValue::Symbol(s), ts.drop_first())),
            SpecToken::Int(i) => Ok((SpecValue::Int(i), ts.drop_first())),
            SpecToken::Float(b) => Ok((SpecValue::Float(b), ts.drop_first())),
            SpecToken::True => Ok((SpecValue::True, ts.drop_first())),
            SpecToken::False => Ok((SpecValue::False, ts.drop_first())),
        }
    }
}

/// The elements of a list up to its close parenthesis, and the tokens left
/// after that parenthesis. The guard on the recursion only restates that a
/// successful read consumes at least one token.
pub open spec fn spec_parse_items(ts: Seq<SpecToken>) -> Result<
    (Seq<SpecValue>, Seq<SpecToken>),
    LispError,
>
    decreases ts.len(), 1int,
{
    if ts.len() == 0 {
        Err(LispError::ParseError)
    } else if ts[0] is CParen {
        Ok((Seq::empty(), ts.drop_first()))
    } else {
        match spec_parse(ts) {
            Err(e) => Err(e),
            Ok((v, rest)) => if rest.len() < ts.len() {
                match spec_parse_items(rest) {
                    Err(e) => Err(e),
                    Ok((items, rest2)) => Ok((seq![v] + items, rest2)),
                }
            } else {
                Err(LispError::ParseError)
            },
        }
    }
}

/// A successful read always consumes at least one token.
pub proof fn lemma_spec_parse_consumes(ts: Seq<SpecToken>)
    ensures
        (spec_parse(ts) matches Ok(p) ==> p.1.len() < ts.len()),
    decreases ts.len(), 0int,
{
    if ts.len() > 0 && ts[0] is OParen {
        lemma_spec_parse_items_consumes(ts.drop_first());
    }
}

/// Reading the elements of a list consumes at least its close parenthesis.
pub proof fn lemma_spec_parse_items_consumes(ts: Seq<SpecToken>)
    ensures
        (spec_parse_items(ts) matches Ok(p) ==> p.1.len() < ts.len()),
    decreases ts.len(), 1int,
{
    if ts.len() > 0 && !(ts[0] is CParen) {
        lemma_spec_parse_consumes(ts);
        if let Ok((v, rest)) = spec_parse(ts) {
            if rest.len() < ts.len() {
                lemma_spec_parse_items_consumes(rest);
            }
        }
    }
}

/// Read exactly one value from the front of the token stream, consuming the
/// tokens it is made of; the leftover tokens stay for a later read. On
/// failure the stream is left in an unspecified intermediate state.
pub fn parse(tokens: &mut VecDeque<Token>) -> (r: Result<LispValue, LispError>)
    ensures
        (match spec_parse(view_tokens(old(tokens)@)) {
            Ok(p) => (r matches Ok(val) && val@ == p.0) && view_tokens(final(tokens)@) == p.1,
            Err(e) => r == Err::<LispValue, LispError>(e),
        }),
    decreases tokens@.len(),
{
    let ghost ts0 = view_tokens(tokens@);
    let t = match tokens.pop_front() {
        None => {
            return Err(LispError::ParseError);
        },
        Some(t) => t,
    };
    proof {
        assert(view_tokens(tokens@) =~= ts0.drop_first());
        assert(ts0[0] == t@);
    }
    match t {
        Token::OParen => {
            let ghost base = ts0.drop_first();
            let mut items: Vec<LispValue> = Vec::new();
            loop
                invariant
                    ts0 == view_tokens(old(tokens)@),
                    ts0.len() == old(tokens)@.len(),
                    ts0.len() > 0,
                    (ts0[0] is OParen),
                    base == ts0.drop_first(),
                    tokens@.len() < ts0.len(),
                    (spec_parse_items(base) == match spec_parse_items(view_tokens(tokens@)) {
                        Ok(p) => Ok::<(Seq<SpecValue>, Seq<SpecToken>), LispError>(
                            (view_list(items@) + p.0, p.1),
                        ),
                        Err(e) => Err::<(Seq<SpecValue>, Seq<SpecToken>), LispError>(e),
                    }),
                decreases tokens@.len(),
            {
                let ghost cur = view_tokens(tokens@);
                if tokens.len() == 0 {
                    return Err(LispError::ParseError);
                }
                proof {
                    assert(cur[0] == tokens@[0]@);
                }
                let is_close = matches!(&tokens[0], Token::CParen);
                if is_close {
                    let _ = tokens.pop_front();
                    proof {
                        assert(view_tokens(tokens@) =~= cur.drop_first());
                        assert(view_list(items@) + Seq::<SpecValue>::empty() =~= view_list(
                            items@,
                        ));
                    }
                    return Ok(LispValue::List(items));
                }
                let v = match parse(tokens) {
                    Err(e) => {
                        return Err(e);
                    },
                    Ok(v) => v,
                };
                proof {
                    lemma_spec_parse_consumes(cur);
                }
                let ghost rest = view_tokens(tokens@);
                proof {
                    if let Ok(q) = spec_parse_items(rest) {
                        assert(items@.push(v).drop_last() =~= items@);
                        assert(items@.push(v).last() == v);
                        assert(view_list(items@.push(v)) =~= view_list(items@).push(v@));
                        assert(view_list(items@) + (seq![v@] + q.0) =~= view_list(
                            items@.push(v),
                        ) + q.0);
                    }
                }
                items.push(v);
            }
        },
        Token::CParen => Err(LispError::ParseError),
        Token::Symbol(s) => Ok(LispValue::Symbol(s)),
        Token::Int(i) => Ok(LispValue::Int(i)),
        Token::Float(b) => Ok(LispValue::Float(b)),
        Token::True => Ok(LispValue::True),
        Token::False => Ok(LispValue::False),
    }
}

/// Deep copy of every element of a list, keeping the model.
pub fn clone_list(l: &Vec<LispValue>) -> (r: Vec<LispValue>)
    ensures
        view_list(r@) == view_list(l@),
        r@.len() == l@.len(),
    decreases l,
{
    let mut out: Vec<LispValue> = Vec::new();
    let mut i: usize = 0;
    while i < l.len()
        invariant
            i <= l@.len(),
            out@.len() == i,
            forall|j: int| 0 <= j < i ==> out@[j]@ == l@[j]@,
        decreases l@.len() - i,
    {
        let c = clone_value(&l[i]);
        out.push(c);
        i = i + 1;
    }
    proof {
        lemma_view_list(out@);
        lemma_view_list(l@);
        assert(view_list(out@) =~= view_list(l@));
    }
    out
}

} // verus!
