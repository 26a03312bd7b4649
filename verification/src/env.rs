//! The chained environment and the evaluator.
//!
//! An environment is a frame of name-to-value bindings plus an optional
//! owned outer environment; lookup walks the chain outward. The global
//! environment holds the built-in procedures and is never mutated after it
//! is built, so only the chain mechanism is general.

use vstd::prelude::*;

use crate::float::{add_bits, div_bits, float_add, float_div, float_mul, float_sub, mul_bits,
    sub_bits};
use crate::value::{
    Builtin, LispError, LispList, LispValue, SpecValue, clone_value, lemma_view_list, view_list,
};

verus! {

/// A frame of bindings and the chain it extends.
pub struct Env {
    variables: Vec<(String, LispValue)>,
    outer: Option<Box<Env>>,
}

/// The value bound to a name in one frame; the earliest binding wins.
pub open spec fn frame_lookup(vars: Seq<(String, LispValue)>, name: Seq<char>) -> Option<
    LispValue,
>
    decreases vars.len(),
{
    if vars.len() == 0 {
        None
    } else if vars[0].0@ == name {
        Some(vars[0].1)
    } else {
        frame_lookup(vars.drop_first(), name)
    }
}

/// What the global environment binds: the six built-in procedures and
/// nothing else.
pub open spec fn global_lookup(n: Seq<char>) -> Option<SpecValue> {
    if n == "+"@ {
        Some(SpecValue::Lambda(Builtin::Add))
    } else if n == "*"@ {
        Some(SpecValue::Lambda(Builtin::Multiply))
    } else if n == "-"@ {
        Some(SpecValue::Lambda(Builtin::Substract))
    } else if n == "/"@ {
        Some(SpecValue::Lambda(Builtin::Divide))
    } else if n == "car"@ {
        Some(SpecValue::Lambda(Builtin::Car))
    } else if n == "cdr"@ {
        Some(SpecValue::Lambda(Builtin::Cdr))
    } else {
        None
    }
}

/// Character-wise string equality.
fn str_eq(a: &str, b: &str) -> (r: bool)
    ensures
        r == (a@ == b@),
{
    let na = a.unicode_len();
    let nb = b.unicode_len();
    if na != nb {
        return false;
    }
    let mut i: usize = 0;
    while i < na
        invariant
            i <= na,
            na == a@.len(),
            na == b@.len(),
            forall|j: int| 0 <= j < i ==> a@[j] == b@[j],
        decreases na - i,
    {
        if a.get_char(i) != b.get_char(i) {
            return false;
        }
        i = i + 1;
    }
    proof {
        assert(a@ =~= b@);
    }
    true
}

impl Env {
    /// The value a name resolves to through the chain of frames, innermost
    /// frame first. Closed over the frame representation; `global` pins its
    /// whole content down.
    pub closed spec fn lookup(self, name: Seq<char>) -> Option<SpecValue>
        decreases self,
    {
        match frame_lookup(self.variables@, name) {
            Some(v) => Some(v@),
            None => match self.outer {
                Some(o) => o.lookup(name),
                None => None,
            },
        }
    }

    /// An unbound name resolves to itself as a symbol: unbound symbols are
    /// not an error.
    pub open spec fn spec_resolve(self, name: Seq<char>) -> SpecValue {
        match self.lookup(name) {
            Some(v) => v,
            None => SpecValue::Symbol(name),
        }
    }

    /// The global environment: the six built-in procedures under their
    /// fixed names, with no outer chain.
    pub fn global() -> (r: Env)
        ensures
            forall|n: Seq<char>| r.lookup(n) == global_lookup(n),
    {
        let mut variables: Vec<(String, LispValue)> = Vec::new();

        // Built-in procedures
        variables.push(("+".to_owned(), LispValue::Lambda(Builtin::Add)));
        variables.push(("*".to_owned(), LispValue::Lambda(Builtin::Multiply)));
        variables.push(("-".to_owned(), LispValue::Lambda(Builtin::Substract)));
        variables.push(("/".to_owned(), LispValue::Lambda(Builtin::Divide)));
        variables.push(("car".to_owned(), LispValue::Lambda(Builtin::Car)));
        variables.push(("cdr".to_owned(), LispValue::Lambda(Builtin::Cdr)));

        let e = Env { variables, outer: None };
        proof {
            reveal_strlit("+");
            reveal_strlit("*");
            reveal_strlit("-");
            reveal_strlit("/");
            reveal_strlit("car");
            reveal_strlit("cdr");
            assert forall|n: Seq<char>| e.lookup(n) == global_lookup(n) by {
                reveal_with_fuel(frame_lookup, 8);
            }
        }
        e
    }

    /// Look a name up in this frame, then outward through the chain.
    pub fn get(&self, key: &str) -> (r: Option<&LispValue>)
        ensures
            (match r {
                Some(v) => self.lookup(key@) == Some(v@),
                None => self.lookup(key@) is None,
            }),
        decreases *self,
    {
        let n = self.variables.len();
        let mut i: usize = 0;
        proof {
            assert(self.variables@.skip(0) =~= self.variables@);
        }
        while i < n
            invariant
                i <= n,
                n == self.variables@.len(),
                frame_lookup(self.variables@, key@) == frame_lookup(
                    self.variables@.skip(i as int),
                    key@,
                ),
            decreases n - i,
        {
            let ghost rest = self.variables@.skip(i as int);
            proof {
                assert(rest[0] == self.variables@[i as int]);
                assert(rest.drop_first() =~= self.variables@.skip(i + 1));
            }
            if str_eq(self.variables[i].0.as_str(), key) {
                return Some(&self.variables[i].1);
            }
            i = i + 1;
        }
        proof {
            assert(self.variables@.skip(n as int) =~= Seq::<(String, LispValue)>::empty());
        }
        match &self.outer {
            Some(o) => o.get(key),
            None => None,
        }
    }

    /// A copy of the bound value, or the name itself as a symbol when it is
    /// bound nowhere in the chain.
    pub fn resolve(&self, ident: String) -> (r: LispValue)
        ensures
            r@ == self.spec_resolve(ident@),
    {
        match self.get(ident.as_str()) {
            Some(v) => clone_value(v),
            None => LispValue::Symbol(ident),
        }
    }
}

/// The four numeric built-ins fold their operator over the arguments.
pub open spec fn is_arith(b: Builtin) -> bool {
    b is Add || b is Multiply || b is Substract || b is Divide
}

/// Truncating integer division, rounding toward zero.
pub open spec fn tdiv(x: int, d: int) -> int {
    if x == 0 {
        0
    } else if x > 0 && d > 0 {
        x / d
    } else if x < 0 && d < 0 {
        (x * -1) / (d * -1)
    } else if x < 0 {
        ((x * -1) / d) * -1
    } else {
        (x / (d * -1)) * -1
    }
}

/// One fold step on unbounded integers; only division can fail here.
pub open spec fn int_step(b: Builtin, acc: int, x: int) -> Result<int, LispError> {
    match b {
        Builtin::Add => Ok(acc + x),
        Builtin::Multiply => Ok(acc * x),
        Builtin::Substract => Ok(acc - x),
        Builtin::Divide => if x == 0 {
            Err(LispError::ArithmeticError)
        } else {
            Ok(tdiv(acc, x))
        },
        _ => Err(LispError::TypeError),
    }
}

/// Left fold of a numeric operator over integer arguments. Division by zero
/// and any intermediate value outside the `i64` range fail arithmetic.
pub open spec fn fold_ints(b: Builtin, acc: int, rest: Seq<int>) -> Result<int, LispError>
    decreases rest.len(),
{
    if rest.len() == 0 {
        Ok(acc)
    } else {
        match int_step(b, acc, rest[0]) {
            Err(e) => Err(e),
            Ok(v) => if v < i64::MIN || v > i64::MAX {
                Err(LispError::ArithmeticError)
            } else {
                fold_ints(b, v, rest.drop_first())
            },
        }
    }
}

/// One fold step on float bit patterns; IEEE 754 arithmetic is total.
pub open spec fn float_step(b: Builtin, acc: u64, x: u64) -> u64 {
    match b {
        Builtin::Add => add_bits(acc, x),
        Builtin::Multiply => mul_bits(acc, x),
        Builtin::Substract => sub_bits(acc, x),
        Builtin::Divide => div_bits(acc, x),
        _ => acc,
    }
}

/// Left fold of a numeric operator over float bit patterns; never fails.
pub open spec fn fold_floats(b: Builtin, acc: u64, rest: Seq<u64>) -> u64
    decreases rest.len(),
{
    if rest.len() == 0 {
        acc
    } else {
        fold_floats(b, float_step(b, acc, rest[0]), rest.drop_first())
    }
}

pub open spec fn as_int(v: SpecValue) -> int {
    match v {
        SpecValue::Int(i) => i,
        _ => 0,
    }
}

pub open spec fn as_float(v: SpecValue) -> u64 {
    match v {
        SpecValue::Float(b) => b,
        _ => 0,
    }
}

pub open spec fn all_ints(args: Seq<SpecValue>) -> bool {
    forall|i: int| 0 <= i < args.len() ==> (#[trigger] args[i]) is Int
}

pub open spec fn all_floats(args: Seq<SpecValue>) -> bool {
    forall|i: int| 0 <= i < args.len() ==> (#[trigger] args[i]) is Float
}

pub open spec fn ints_of(args: Seq<SpecValue>) -> Seq<int> {
    args.map_values(|v: SpecValue| as_int(v))
}

pub open spec fn floats_of(args: Seq<SpecValue>) -> Seq<u64> {
    args.map_values(|v: SpecValue| as_float(v))
}

/// A numeric built-in: at least one argument; the first argument fixes the
/// kind, every other argument must match it exactly; then the left fold.
pub open spec fn spec_arith(b: Builtin, args: Seq<SpecValue>) -> Result<SpecValue, LispError> {
    if args.len() == 0 {
        Err(LispError::TypeError)
    } else {
        match args[0] {
            SpecValue::Int(first) => if !all_ints(args) {
                Err(LispError::TypeError)
            } else {
                match fold_ints(b, first, ints_of(args).drop_first()) {
                    Ok(v) => Ok(SpecValue::Int(v)),
                    Err(e) => Err(e),
                }
            },
            SpecValue::Float(first) => if !all_floats(args) {
                Err(LispError::TypeError)
            } else {
                Ok(SpecValue::Float(fold_floats(b, first, floats_of(args).drop_first())))
            },
            _ => Err(LispError::TypeError),
        }
    }
}

/// What a built-in procedure returns on an evaluated argument vector.
/// `car` of an empty list fails its index; `cdr` of an empty list is the
/// empty list.
pub open spec fn spec_apply(b: Builtin, args: Seq<SpecValue>) -> Result<SpecValue, LispError> {
    match b {
        Builtin::Car => if args.len() != 1 {
            Err(LispError::TypeError)
        } else {
            match args[0] {
                SpecValue::List(l) => if l.len() == 0 {
                    Err(LispError::IndexError)
                } else {
                    Ok(l[0])
                },
                _ => Err(LispError::TypeError),
            }
        },
        Builtin::Cdr => if args.len() != 1 {
            Err(LispError::TypeError)
        } else {
            match args[0] {
                SpecValue::List(l) => if l.len() == 0 {
                    Ok(SpecValue::List(Seq::empty()))
                } else {
                    Ok(SpecValue::List(l.drop_first()))
                },
                _ => Err(LispError::TypeError),
            }
        },
        _ => spec_arith(b, args),
    }
}

pub open spec fn lambda_of(v: SpecValue) -> Builtin {
    match v {
        SpecValue::Lambda(b) => b,
        _ => Builtin::Add,
    }
}

/// The two evaluation rules: an atom evaluates to itself (a symbol to what
/// it resolves to); a list evaluates every element, left to right, then
/// applies the first element if it is a procedure, and otherwise stays a
/// list of the evaluated elements.
pub open spec fn spec_eval(e: Env, v: SpecValue) -> Result<SpecValue, LispError>
    decreases v, 0int,
{
    match v {
        SpecValue::Symbol(s) => Ok(e.spec_resolve(s)),
        SpecValue::List(elems) => match spec_eval_elems(e, elems) {
            Err(err) => Err(err),
            Ok(evd) => if evd.len() > 0 && evd[0] is Lambda {
                spec_apply(lambda_of(evd[0]), evd.drop_first())
            } else {
                Ok(SpecValue::List(evd))
            },
        },
        atom => Ok(atom),
    }
}

/// Evaluate every element of a list, left to right, stopping at the first
/// failure.
pub open spec fn spec_eval_elems(e: Env, elems: Seq<SpecValue>) -> Result<Seq<SpecValue>,
    LispError,
>
    decreases elems, 1int,
{
    if elems.len() == 0 {
        Ok(Seq::empty())
    } else {
        match spec_eval(e, elems[0]) {
            Err(err) => Err(err),
            Ok(v0) => match spec_eval_elems(e, elems.drop_first()) {
                Err(err) => Err(err),
                Ok(rest) => Ok(seq![v0] + rest),
            },
        }
    }
}

/// `car`: one argument, a list; its first element.
pub fn car(args: &LispList) -> (r: Result<LispValue, LispError>)
    ensures
        (match spec_apply(Builtin::Car, view_list(args@)) {
            Ok(v) => (r matches Ok(rv) && rv@ == v),
            Err(e) => r == Err::<LispValue, LispError>(e),
        }),
{
    proof {
        lemma_view_list(args@);
    }
    if args.len() != 1 {
        return Err(LispError::TypeError);
    }
    match &args[0] {
        LispValue::List(l) => {
            proof {
                lemma_view_list(l@);
            }
            if l.len() == 0 {
                Err(LispError::IndexError)
            } else {
                Ok(clone_value(&l[0]))
            }
        },
        _ => Err(LispError::TypeError),
    }
}

/// `cdr`: one argument, a list; all but its first element. The empty list
/// yields the empty list.
pub fn cdr(args: &LispList) -> (r: Result<LispValue, LispError>)
    ensures
        (match spec_apply(Builtin::Cdr, view_list(args@)) {
            Ok(v) => (r matches Ok(rv) && rv@ == v),
            Err(e) => r == Err::<LispValue, LispError>(e),
        }),
{
    proof {
        lemma_view_list(args@);
    }
    if args.len() != 1 {
        return Err(LispError::TypeError);
    }
    match &args[0] {
        LispValue::List(l) => {
            let mut out: Vec<LispValue> = Vec::new();
            let mut k: usize = 1;
            while k < l.len()
                invariant
                    1 <= k <= l@.len() || (l@.len() == 0 && k == 1),
                    out@.len() == k - 1 || (l@.len() == 0 && out@.len() == 0),
                    forall|j: int| 0 <= j < out@.len() ==> out@[j]@ == l@[j + 1]@,
                decreases l@.len() - k,
            {
                let c = clone_value(&l[k]);
                out.push(c);
                k = k + 1;
            }
            proof {
                lemma_view_list(out@);
                lemma_view_list(l@);
                if l@.len() == 0 {
                    assert(view_list(out@) =~= Seq::<SpecValue>::empty());
                } else {
                    assert(view_list(out@) =~= view_list(l@).drop_first());
                }
            }
            Ok(LispValue::List(out))
        },
        _ => Err(LispError::TypeError),
    }
}

/// The shared body of the four numeric built-ins: check every argument
/// against the kind of the first, then fold the operator.
pub fn arith(b: Builtin, args: &LispList) -> (r: Result<LispValue, LispError>)
    requires
        is_arith(b),
    ensures
        (match spec_arith(b, view_list(args@)) {
            Ok(v) => (r matches Ok(rv) && rv@ == v),
            Err(e) => r == Err::<LispValue, LispError>(e),
        }),
{
    proof {
        lemma_view_list(args@);
    }
    let ghost vargs = view_list(args@);
    let n = args.len();
    if n == 0 {
        return Err(LispError::TypeError);
    }
    match &args[0] {
        LispValue::Int(first0) => {
            let first: i64 = *first0;
            let mut nums: Vec<i64> = Vec::new();
            let mut k: usize = 0;
            while k < n
                invariant
                    k <= n,
                    n == args@.len(),
                    vargs == view_list(args@),
                    vargs.len() == n,
                    forall|j: int| 0 <= j < n ==> vargs[j] == args@[j]@,
                    n >= 1,
                    vargs[0] == SpecValue::Int(first as int),
                    nums@.len() == k,
                    forall|j: int| 0 <= j < k ==> (#[trigger] vargs[j]) is Int,
                    forall|j: int| 0 <= j < k ==> nums@[j] == as_int(#[trigger] vargs[j]),
                decreases n - k,
            {
                match &args[k] {
                    LispValue::Int(v) => {
                        nums.push(*v);
                    },
                    _ => {
                        proof {
                            assert(!((vargs[k as int]) is Int));
                        }
                        return Err(LispError::TypeError);
                    },
                }
                k = k + 1;
            }
            proof {
                assert(all_ints(vargs));
            }
            let ghost iv = ints_of(vargs).drop_first();
            proof {
                assert(ints_of(vargs).len() == n);
                assert(iv.len() == n - 1);
                assert(forall|j: int|
                    0 <= j < n - 1 ==> iv[j] == as_int(#[trigger] vargs[j + 1]));
                assert(iv.skip(0) =~= iv);
            }
            let mut acc: i64 = first;
            let mut k: usize = 1;
            while k < n
                invariant
                    1 <= k <= n,
                    n == args@.len(),
                    n == nums@.len(),
                    vargs == view_list(args@),
                    vargs.len() == n,
                    iv == ints_of(vargs).drop_first(),
                    iv.len() == n - 1,
                    forall|j: int| 0 <= j < n - 1 ==> iv[j] == nums@[j + 1],
                    vargs[0] == SpecValue::Int(first as int),
                    all_ints(vargs),
                    fold_ints(b, first as int, iv) == fold_ints(b, acc as int, iv.skip(k - 1)),
                    is_arith(b),
                decreases n - k,
            {
                let ghost suffix = iv.skip(k - 1);
                proof {
                    assert(suffix[0] == iv[k - 1]);
                    assert(suffix.drop_first() =~= iv.skip(k as int));
                }
                let x: i64 = nums[k];
                let step: Option<i64> = match b {
                    Builtin::Add => acc.checked_add(x),
                    Builtin::Multiply => acc.checked_mul(x),
                    Builtin::Substract => acc.checked_sub(x),
                    Builtin::Divide => acc.checked_div(x),
                    _ => {
                        proof {
                            assert(false);
                        }
                        None
                    },
                };
                match step {
                    Some(v) => {
                        acc = v;
                    },
                    None => {
                        return Err(LispError::ArithmeticError);
                    },
                }
                k = k + 1;
            }
            proof {
                assert(iv.skip(n - 1) =~= Seq::<int>::empty());
            }
            Ok(LispValue::Int(acc))
        },
        LispValue::Float(first0) => {
            let first: u64 = *first0;
            let mut bits: Vec<u64> = Vec::new();
            let mut k: usize = 0;
            while k < n
                invariant
                    k <= n,
                    n == args@.len(),
                    vargs == view_list(args@),
                    vargs.len() == n,
                    forall|j: int| 0 <= j < n ==> vargs[j] == args@[j]@,
                    n >= 1,
                    vargs[0] == SpecValue::Float(first),
                    bits@.len() == k,
                    forall|j: int| 0 <= j < k ==> (#[trigger] vargs[j]) is Float,
                    forall|j: int| 0 <= j < k ==> bits@[j] == as_float(#[trigger] vargs[j]),
                decreases n - k,
            {
                match &args[k] {
                    LispValue::Float(v) => {
                        bits.push(*v);
                    },
                    _ => {
                        proof {
                            assert(!((vargs[k as int]) is Float));
                        }
                        return Err(LispError::TypeError);
                    },
                }
                k = k + 1;
            }
            proof {
                assert(all_floats(vargs));
            }
            let ghost fv = floats_of(vargs).drop_first();
            proof {
                assert(floats_of(vargs).len() == n);
                assert(fv.len() == n - 1);
                assert(forall|j: int|
                    0 <= j < n - 1 ==> fv[j] == as_float(#[trigger] vargs[j + 1]));
                assert(fv.skip(0) =~= fv);
            }
            let mut acc: u64 = first;
            let mut k: usize = 1;
            while k < n
                invariant
                    1 <= k <= n,
                    n == args@.len(),
                    n == bits@.len(),
                    vargs == view_list(args@),
                    vargs.len() == n,
                    fv == floats_of(vargs).drop_first(),
                    fv.len() == n - 1,
                    forall|j: int| 0 <= j < n - 1 ==> fv[j] == bits@[j + 1],
                    vargs[0] == SpecValue::Float(first),
                    all_floats(vargs),
                    fold_floats(b, first, fv) == fold_floats(b, acc, fv.skip(k - 1)),
                    is_arith(b),
                decreases n - k,
            {
                let ghost suffix = fv.skip(k - 1);
                proof {
                    assert(suffix[0] == fv[k - 1]);
                    assert(suffix.drop_first() =~= fv.skip(k as int));
                }
                let x: u64 = bits[k];
                acc = match b {
                    Builtin::Add => float_add(acc, x),
                    Builtin::Multiply => float_mul(acc, x),
                    Builtin::Substract => float_sub(acc, x),
                    Builtin::Divide => float_div(acc, x),
                    _ => {
                        proof {
                            assert(false);
                        }
                        acc
                    },
                };
                k = k + 1;
            }
            proof {
                assert(fv.skip(n - 1) =~= Seq::<u64>::empty());
            }
            Ok(LispValue::Float(acc))
        },
        _ => Err(LispError::TypeError),
    }
}

/// `+`: sum of the arguments, kind fixed by the first.
pub fn add(args: &LispList) -> (r: Result<LispValue, LispError>)
    ensures
        (match spec_arith(Builtin::Add, view_list(args@)) {
            Ok(v) => (r matches Ok(rv) && rv@ == v),
            Err(e) => r == Err::<LispValue, LispError>(e),
        }),
{
    arith(Builtin::Add, args)
}

/// `*`: product of the arguments, kind fixed by the first.
pub fn multiply(args: &LispList) -> (r: Result<LispValue, LispError>)
    ensures
        (match spec_arith(Builtin::Multiply, view_list(args@)) {
            Ok(v) => (r matches Ok(rv) && rv@ == v),
            Err(e) => r == Err::<LispValue, LispError>(e),
        }),
{
    arith(Builtin::Multiply, args)
}

/// `-`: left fold of subtraction from the first argument on.
pub fn substract(args: &LispList) -> (r: Result<LispValue, LispError>)
    ensures
        (match spec_arith(Builtin::Substract, view_list(args@)) {
            Ok(v) => (r matches Ok(rv) && rv@ == v),
            Err(e) => r == Err::<LispValue, LispError>(e),
        }),
{
    arith(Builtin::Substract, args)
}

/// `/`: left fold of division from the first argument on; integer division
/// truncates, and by zero fails.
pub fn divide(args: &LispList) -> (r: Result<LispValue, LispError>)
    ensures
        (match spec_arith(Builtin::Divide, view_list(args@)) {
            Ok(v) => (r matches Ok(rv) && rv@ == v),
            Err(e) => r == Err::<LispValue, LispError>(e),
        }),
{
    arith(Builtin::Divide, args)
}

/// Dispatch a built-in procedure on its evaluated arguments.
fn apply_builtin(b: Builtin, args: &LispList) -> (r: Result<LispValue, LispError>)
    ensures
        (match spec_apply(b, view_list(args@)) {
            Ok(v) => (r matches Ok(rv) && rv@ == v),
            Err(e) => r == Err::<LispValue, LispError>(e),
        }),
{
    match b {
        Builtin::Car => car(args),
        Builtin::Cdr => cdr(args),
        Builtin::Add => crate::env::add(args),
        Builtin::Multiply => multiply(args),
        Builtin::Substract => substract(args),
        Builtin::Divide => divide(args),
    }
}

impl Env {
    /// Reduce a value to its result: atoms to themselves, symbols through
    /// the environment, lists by the evaluate-all-then-apply rule.
    pub fn eval(&self, value: &LispValue) -> (r: Result<LispValue, LispError>)
        ensures
            (match spec_eval(*self, value@) {
                Ok(v) => (r matches Ok(rv) && rv@ == v),
                Err(e) => r == Err::<LispValue, LispError>(e),
            }),
        decreases *value, 0int,
    {
        match value {
            LispValue::Symbol(s) => Ok(self.resolve(s.clone())),
            LispValue::List(l) => self.eval_list(l),
            LispValue::True => Ok(LispValue::True),
            LispValue::False => Ok(LispValue::False),
            LispValue::Int(i) => Ok(LispValue::Int(*i)),
            LispValue::Float(b) => Ok(LispValue::Float(*b)),
            LispValue::Lambda(b) => Ok(LispValue::Lambda(*b)),
        }
    }

    /// Evaluate every element, then apply a procedure head or reassemble a
    /// plain list.
    fn eval_list(&self, list: &Vec<LispValue>) -> (r: Result<LispValue, LispError>)
        ensures
            (match spec_eval(*self, SpecValue::List(view_list(list@))) {
                Ok(v) => (r matches Ok(rv) && rv@ == v),
                Err(e) => r == Err::<LispValue, LispError>(e),
            }),
        decreases *list, 1int,
    {
        let ghost full = view_list(list@);
        proof {
            lemma_view_list(list@);
            assert(full.skip(0) =~= full);
        }
        let mut evd: Vec<LispValue> = Vec::new();
        let mut i: usize = 0;
        while i < list.len()
            invariant
                i <= list@.len(),
                full == view_list(list@),
                full.len() == list@.len(),
                forall|j: int| 0 <= j < list@.len() ==> full[j] == list@[j]@,
                (spec_eval_elems(*self, full) == match spec_eval_elems(*self, full.skip(i as int)) {
                    Ok(rest) => Ok::<Seq<SpecValue>, LispError>(view_list(evd@) + rest),
                    Err(e) => Err::<Seq<SpecValue>, LispError>(e),
                }),
            decreases list@.len() - i,
        {
            let ghost suffix = full.skip(i as int);
            proof {
                assert(suffix[0] == full[i as int]);
                assert(suffix.drop_first() =~= full.skip(i + 1));
            }
            let r0 = self.eval(&list[i]);
            let v = match r0 {
                Err(e) => {
                    return Err(e);
                },
                Ok(v) => v,
            };
            proof {
                if let Ok(rest) = spec_eval_elems(*self, full.skip(i + 1)) {
                    assert(evd@.push(v).drop_last() =~= evd@);
                    assert(view_list(evd@.push(v)) =~= view_list(evd@).push(v@));
                    assert(view_list(evd@) + (seq![v@] + rest) =~= view_list(evd@.push(v))
                        + rest);
                }
            }
            evd.push(v);
            i = i + 1;
        }
        proof {
            assert(full.skip(list@.len() as int) =~= Seq::<SpecValue>::empty());
            assert(view_list(evd@) + Seq::<SpecValue>::empty() =~= view_list(evd@));
            lemma_view_list(evd@);
        }
        if evd.len() == 0 {
            return Ok(LispValue::List(evd));
        }
        let ghost evd_full = view_list(evd@);
        let ghost evd_before = evd@;
        let first = evd.remove(0);
        proof {
            assert(evd@ =~= evd_before.drop_first());
            assert(first@ == evd_full[0]);
            lemma_view_list(evd@);
            assert forall|j: int| 0 <= j < evd@.len() implies view_list(evd@)[j]
                == evd_full.drop_first()[j] by {
                assert(evd@[j] == evd_before[j + 1]);
            }
            assert(view_list(evd@) =~= evd_full.drop_first());
        }
        match first {
            LispValue::Lambda(b) => apply_builtin(b, &evd),
            other => {
                evd.insert(0, other);
                proof {
                    assert(evd@ =~= evd_before);
                    assert(view_list(evd@) == evd_full);
                }
                Ok(LispValue::List(evd))
            },
        }
    }
}

/// The elements a successful evaluation yields.
pub open spec fn ok_seq(r: Result<Seq<SpecValue>, LispError>) -> Seq<SpecValue> {
    match r {
        Ok(s) => s,
        Err(_) => Seq::empty(),
    }
}

/// The integer a successful fold yields.
pub open spec fn ok_int(r: Result<int, LispError>) -> int {
    match r {
        Ok(v) => v,
        Err(_) => 0,
    }
}

/// A sequence of elements that each evaluate to themselves evaluates
/// elementwise to itself.
pub proof fn lemma_eval_elems_id(e: Env, items: Seq<SpecValue>)
    requires
        forall|i: int| 0 <= i < items.len() ==> spec_eval(e, #[trigger] items[i]) == Ok::<
            SpecValue,
            LispError,
        >(items[i]),
    ensures
        spec_eval_elems(e, items) == Ok::<Seq<SpecValue>, LispError>(items),
    decreases items.len(),
{
    reveal_with_fuel(spec_eval_elems, 2);
    if items.len() == 0 {
        assert(items =~= Seq::<SpecValue>::empty());
    }
    if items.len() > 0 {
        assert forall|i: int| 0 <= i < items.drop_first().len() implies spec_eval(
            e,
            #[trigger] items.drop_first()[i],
        ) == Ok::<SpecValue, LispError>(items.drop_first()[i]) by {
            assert(items.drop_first()[i] == items[i + 1]);
        }
        lemma_eval_elems_id(e, items.drop_first());
        assert(seq![items[0]] + items.drop_first() =~= items);
    }
}

/// An unbound symbol evaluates to itself, not to an error.
pub proof fn lemma_unbound_symbol(e: Env, s: Seq<char>)
    requires
        e.lookup(s) is None,
    ensures
        spec_eval(e, SpecValue::Symbol(s)) == Ok::<SpecValue, LispError>(SpecValue::Symbol(s)),
{
}

/// A list whose evaluated head is no procedure evaluates to the list of its
/// elements' evaluations, unchanged in shape.
pub proof fn lemma_plain_list(e: Env, items: Seq<SpecValue>)
    requires
        spec_eval_elems(e, items) is Ok,
        ok_seq(spec_eval_elems(e, items)).len() > 0 ==> !(ok_seq(spec_eval_elems(e, items))[0]
            is Lambda),
    ensures
        spec_eval(e, SpecValue::List(items)) == Ok::<SpecValue, LispError>(
            SpecValue::List(ok_seq(spec_eval_elems(e, items))),
        ),
{
}

/// For a name bound to a numeric procedure, a call on integer literals is
/// the left fold of the operator, whenever that fold stays within range and
/// divides by no zero.
pub proof fn lemma_arith_fold_int(e: Env, name: Seq<char>, b: Builtin, vals: Seq<int>)
    requires
        is_arith(b),
        e.lookup(name) == Some(SpecValue::Lambda(b)),
        vals.len() >= 1,
        forall|i: int| 0 <= i < vals.len() ==> i64::MIN <= #[trigger] vals[i] <= i64::MAX,
        fold_ints(b, vals[0], vals.drop_first()) is Ok,
    ensures
        spec_eval(
            e,
            SpecValue::List(
                seq![SpecValue::Symbol(name)] + vals.map_values(|x: int| SpecValue::Int(x)),
            ),
        ) == Ok::<SpecValue, LispError>(
            SpecValue::Int(ok_int(fold_ints(b, vals[0], vals.drop_first()))),
        ),
{
    reveal_with_fuel(spec_eval, 3);
    reveal_with_fuel(spec_eval_elems, 3);
    let items = vals.map_values(|x: int| SpecValue::Int(x));
    let elems = seq![SpecValue::Symbol(name)] + items;
    assert forall|i: int| 0 <= i < items.len() implies spec_eval(e, #[trigger] items[i]) == Ok::<
        SpecValue,
        LispError,
    >(items[i]) by {
        assert(items[i] == SpecValue::Int(vals[i]));
    }
    lemma_eval_elems_id(e, items);
    assert(elems[0] == SpecValue::Symbol(name));
    assert(elems.drop_first() =~= items);
    assert(spec_eval_elems(e, elems) == Ok::<Seq<SpecValue>, LispError>(
        seq![SpecValue::Lambda(b)] + items,
    ));
    let evd = seq![SpecValue::Lambda(b)] + items;
    assert(evd.drop_first() =~= items);
    assert(all_ints(items));
    assert(ints_of(items) =~= vals);
    assert(ints_of(items).drop_first() =~= vals.drop_first());
    assert(items[0] == SpecValue::Int(vals[0]));
}

/// For a name bound to a numeric procedure, a call on float literals is the
/// left fold of the IEEE 754 operation over their bit patterns, always.
pub proof fn lemma_arith_fold_float(e: Env, name: Seq<char>, b: Builtin, bs: Seq<u64>)
    requires
        is_arith(b),
        e.lookup(name) == Some(SpecValue::Lambda(b)),
        bs.len() >= 1,
    ensures
        spec_eval(
            e,
            SpecValue::List(
                seq![SpecValue::Symbol(name)] + bs.map_values(|x: u64| SpecValue::Float(x)),
            ),
        ) == Ok::<SpecValue, LispError>(
            SpecValue::Float(fold_floats(b, bs[0], bs.drop_first())),
        ),
{
    reveal_with_fuel(spec_eval, 3);
    reveal_with_fuel(spec_eval_elems, 3);
    let items = bs.map_values(|x: u64| SpecValue::Float(x));
    let elems = seq![SpecValue::Symbol(name)] + items;
    assert forall|i: int| 0 <= i < items.len() implies spec_eval(e, #[trigger] items[i]) == Ok::<
        SpecValue,
        LispError,
    >(items[i]) by {
        assert(items[i] == SpecValue::Float(bs[i]));
    }
    lemma_eval_elems_id(e, items);
    assert(elems[0] == SpecValue::Symbol(name));
    assert(elems.drop_first() =~= items);
    assert(spec_eval_elems(e, elems) == Ok::<Seq<SpecValue>, LispError>(
        seq![SpecValue::Lambda(b)] + items,
    ));
    let evd = seq![SpecValue::Lambda(b)] + items;
    assert(evd.drop_first() =~= items);
    assert(all_floats(items));
    assert(floats_of(items) =~= bs);
    assert(floats_of(items).drop_first() =~= bs.drop_first());
    assert(items[0] == SpecValue::Float(bs[0]));
}

/// `car` of a literal list is its first element; of an empty literal list,
/// an index failure.
pub proof fn lemma_car_head(e: Env, items: Seq<SpecValue>)
    requires
        e.lookup("car"@) == Some(SpecValue::Lambda(Builtin::Car)),
        forall|i: int| 0 <= i < items.len() ==> spec_eval(e, #[trigger] items[i]) == Ok::<
            SpecValue,
            LispError,
        >(items[i]),
        items.len() > 0 ==> !(items[0] is Lambda),
    ensures
        spec_eval(e, SpecValue::List(seq![SpecValue::Symbol("car"@), SpecValue::List(items)]))
            == if items.len() == 0 {
            Err::<SpecValue, LispError>(LispError::IndexError)
        } else {
            Ok::<SpecValue, LispError>(items[0])
        },
{
    reveal_with_fuel(spec_eval, 4);
    reveal_with_fuel(spec_eval_elems, 4);
    lemma_eval_elems_id(e, items);
    let elems = seq![SpecValue::Symbol("car"@), SpecValue::List(items)];
    assert(elems.drop_first() =~= seq![SpecValue::List(items)]);
    assert(spec_eval(e, SpecValue::List(items)) == Ok::<SpecValue, LispError>(
        SpecValue::List(items),
    ));
    assert(spec_eval_elems(e, seq![SpecValue::List(items)]) == Ok::<Seq<SpecValue>, LispError>(
        seq![SpecValue::List(items)],
    )) by {
        assert(seq![SpecValue::List(items)].drop_first() =~= Seq::<SpecValue>::empty());
        assert(seq![SpecValue::List(items)] + Seq::<SpecValue>::empty()
            =~= seq![SpecValue::List(items)]);
        assert(seq![SpecValue::List(items)][0] == SpecValue::List(items));
    }
    let evd = seq![SpecValue::Lambda(Builtin::Car), SpecValue::List(items)];
    assert(spec_eval_elems(e, elems) == Ok::<Seq<SpecValue>, LispError>(evd)) by {
        assert(seq![SpecValue::Lambda(Builtin::Car)] + seq![SpecValue::List(items)] =~= evd);
    }
    assert(evd.drop_first() =~= seq![SpecValue::List(items)]);
}

/// `cdr` of a literal list is all but its first element; of an empty
/// literal list, the empty list rather than an error.
pub proof fn lemma_cdr_head(e: Env, items: Seq<SpecValue>)
    requires
        e.lookup("cdr"@) == Some(SpecValue::Lambda(Builtin::Cdr)),
        forall|i: int| 0 <= i < items.len() ==> spec_eval(e, #[trigger] items[i]) == Ok::<
            SpecValue,
            LispError,
        >(items[i]),
        items.len() > 0 ==> !(items[0] is Lambda),
    ensures
        spec_eval(e, SpecValue::List(seq![SpecValue::Symbol("cdr"@), SpecValue::List(items)]))
            == Ok::<SpecValue, LispError>(
            SpecValue::List(
                if items.len() == 0 {
                    Seq::<SpecValue>::empty()
                } else {
                    items.drop_first()
                },
            ),
        ),
{
    reveal_with_fuel(spec_eval, 4);
    reveal_with_fuel(spec_eval_elems, 4);
    lemma_eval_elems_id(e, items);
    let elems = seq![SpecValue::Symbol("cdr"@), SpecValue::List(items)];
    assert(elems.drop_first() =~= seq![SpecValue::List(items)]);
    assert(spec_eval(e, SpecValue::List(items)) == Ok::<SpecValue, LispError>(
        SpecValue::List(items),
    ));
    assert(spec_eval_elems(e, seq![SpecValue::List(items)]) == Ok::<Seq<SpecValue>, LispError>(
        seq![SpecValue::List(items)],
    )) by {
        assert(seq![SpecValue::List(items)].drop_first() =~= Seq::<SpecValue>::empty());
        assert(seq![SpecValue::List(items)] + Seq::<SpecValue>::empty()
            =~= seq![SpecValue::List(items)]);
        assert(seq![SpecValue::List(items)][0] == SpecValue::List(items));
    }
    let evd = seq![SpecValue::Lambda(Builtin::Cdr), SpecValue::List(items)];
    assert(spec_eval_elems(e, elems) == Ok::<Seq<SpecValue>, LispError>(evd)) by {
        assert(seq![SpecValue::Lambda(Builtin::Cdr)] + seq![SpecValue::List(items)] =~= evd);
    }
    assert(evd.drop_first() =~= seq![SpecValue::List(items)]);
}

/// Arguments of mixed numeric kinds are a type error: the first argument
/// fixes the kind and no widening happens.
pub proof fn lemma_mixed_kinds(b: Builtin, args: Seq<SpecValue>)
    requires
        is_arith(b),
        args.len() > 0,
        ((args[0] is Int) && !all_ints(args)) || ((args[0] is Float) && !all_floats(args)),
    ensures
        spec_apply(b, args) == Err::<SpecValue, LispError>(LispError::TypeError),
{
}

} // verus!
