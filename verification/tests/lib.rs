use lisp_rs::env::Env;
use lisp_rs::token;
use lisp_rs::token::Token;
use lisp_rs::value;
use lisp_rs::value::{LispError, LispValue};

fn eval_result(s: &str) -> Result<LispValue, LispError> {
    let env = Env::global();
    let mut tokens = token::tokenize(s);
    let list = value::parse(&mut tokens)?;
    env.eval(&list)
}

fn eval_test(s: &str) -> LispValue {
    eval_result(s).unwrap()
}

#[test]
fn test_addition() {
    let actual = eval_test("(+ 1 2 3)");
    assert_eq!(actual, LispValue::Int(6));

    let actual = eval_test("(+ 1.0 2.0 3.0)");
    assert_eq!(actual, LispValue::Float(6.0f64.to_bits()));
}

#[test]
fn test_subtraction() {
    let actual = eval_test("(- 1 2 3)");
    assert_eq!(actual, LispValue::Int(-4));

    let actual = eval_test("(- 1.0 2.0 3.0)");
    assert_eq!(actual, LispValue::Float((-4.0f64).to_bits()));
}

#[test]
fn test_multiplication() {
    let actual = eval_test("(* 1 2 3)");
    assert_eq!(actual, LispValue::Int(6));

    let actual = eval_test("(* 1.0 2.0 3.0)");
    assert_eq!(actual, LispValue::Float(6.0f64.to_bits()));
}

#[test]
fn test_division() {
    let actual = eval_test("(/ 1 2 3)");
    assert_eq!(actual, LispValue::Int(0));

    let actual = eval_test("(/ 1.0 2.0 3.0)");
    assert_eq!(actual, LispValue::Float((1.0f64 / 6.0).to_bits()));
}

#[test]
fn test_car() {
    let actual = eval_test("(car (1 2 3))");
    assert_eq!(actual, LispValue::Int(1));
}

#[test]
fn test_cdr() {
    let actual = eval_test("(cdr (1 2 3))");
    let expected = LispValue::List(vec![LispValue::Int(2), LispValue::Int(3)]);
    assert_eq!(actual, expected);
}

#[test]
fn test_car_of_empty_list_is_index_error() {
    assert!(matches!(eval_result("(car ())"), Err(LispError::IndexError)));
}

#[test]
fn test_car_of_non_list_is_type_error() {
    assert!(matches!(eval_result("(car 5)"), Err(LispError::TypeError)));
}

#[test]
fn test_car_wants_exactly_one_argument() {
    assert!(matches!(
        eval_result("(car (1 2) (3 4))"),
        Err(LispError::TypeError)
    ));
}

#[test]
fn test_cdr_of_empty_list_is_empty_list() {
    let actual = eval_test("(cdr ())");
    assert_eq!(actual, LispValue::List(vec![]));
}

#[test]
fn test_unbound_symbol_evaluates_to_itself() {
    let actual = eval_test("foo");
    assert_eq!(actual, LispValue::Symbol("foo".to_string()));
}

#[test]
fn test_list_without_procedure_head_stays_a_list() {
    let actual = eval_test("(1 2 3)");
    let expected = LispValue::List(vec![
        LispValue::Int(1),
        LispValue::Int(2),
        LispValue::Int(3),
    ]);
    assert_eq!(actual, expected);
}

#[test]
fn test_empty_list_evaluates_to_itself() {
    let actual = eval_test("()");
    assert_eq!(actual, LispValue::List(vec![]));
}

#[test]
fn test_mixed_kinds_are_a_type_error() {
    assert!(matches!(eval_result("(+ 1 2.0)"), Err(LispError::TypeError)));
    assert!(matches!(eval_result("(* 2.0 1)"), Err(LispError::TypeError)));
}

#[test]
fn test_division_by_zero_is_an_arithmetic_error() {
    assert!(matches!(
        eval_result("(/ 1 0)"),
        Err(LispError::ArithmeticError)
    ));
}

#[test]
fn test_integer_overflow_is_an_arithmetic_error() {
    assert!(matches!(
        eval_result("(+ 9223372036854775807 1)"),
        Err(LispError::ArithmeticError)
    ));
}

#[test]
fn test_integer_division_truncates_toward_zero() {
    assert_eq!(eval_test("(/ 7 2)"), LispValue::Int(3));
    assert_eq!(eval_test("(/ -7 2)"), LispValue::Int(-3));
}

#[test]
fn test_nested_call() {
    assert_eq!(eval_test("(+ 1 (* 2 3))"), LispValue::Int(7));
}

#[test]
fn test_unclosed_list_is_a_parse_error() {
    assert!(matches!(eval_result("(+ 1 2"), Err(LispError::ParseError)));
}

#[test]
fn test_stray_close_paren_is_a_parse_error() {
    assert!(matches!(eval_result(")"), Err(LispError::ParseError)));
}

#[test]
fn test_empty_input_is_a_parse_error() {
    assert!(matches!(eval_result(""), Err(LispError::ParseError)));
}

#[test]
fn test_leftover_tokens_stay_for_a_later_read() {
    let mut tokens = token::tokenize("1 2");
    let first = value::parse(&mut tokens).unwrap();
    assert_eq!(first, LispValue::Int(1));
    let second = value::parse(&mut tokens).unwrap();
    assert_eq!(second, LispValue::Int(2));
    assert!(matches!(
        value::parse(&mut tokens),
        Err(LispError::ParseError)
    ));
}

#[test]
fn test_tokenize_classifies_words() {
    let mut tokens = token::tokenize("( foo 42 2.5 )");
    assert!(matches!(tokens.pop_front(), Some(Token::OParen)));
    match tokens.pop_front() {
        Some(Token::Symbol(s)) => assert_eq!(s, "foo"),
        other => panic!("expected a symbol, got {:?}", other),
    }
    assert!(matches!(tokens.pop_front(), Some(Token::Int(42))));
    match tokens.pop_front() {
        Some(Token::Float(bits)) => assert_eq!(bits, 2.5f64.to_bits()),
        other => panic!("expected a float, got {:?}", other),
    }
    assert!(matches!(tokens.pop_front(), Some(Token::CParen)));
    assert!(tokens.pop_front().is_none());
}

#[test]
fn test_parens_need_no_surrounding_whitespace() {
    assert_eq!(eval_test("(+ 1(* 2 3))"), LispValue::Int(7));
}

#[test]
fn test_int_literal_out_of_range_becomes_a_float() {
    let actual = eval_test("9223372036854775808");
    assert_eq!(actual, LispValue::Float(9223372036854775808.0f64.to_bits()));
}

#[test]
fn test_most_negative_int_literal() {
    assert_eq!(
        eval_test("-9223372036854775808"),
        LispValue::Int(i64::MIN)
    );
}

#[test]
fn test_signed_int_literals() {
    assert_eq!(eval_test("(+ -3 +4)"), LispValue::Int(1));
}

#[test]
fn test_float_literal_forms() {
    assert_eq!(eval_test(".5"), LispValue::Float(0.5f64.to_bits()));
    assert_eq!(eval_test("5."), LispValue::Float(5.0f64.to_bits()));
    assert_eq!(eval_test("2e3"), LispValue::Float(2000.0f64.to_bits()));
    assert_eq!(eval_test("-1.25E-2"), LispValue::Float((-0.0125f64).to_bits()));
}

#[test]
fn test_special_float_spellings() {
    assert_eq!(
        eval_test("inf"),
        LispValue::Float(f64::INFINITY.to_bits())
    );
    assert_eq!(
        eval_test("-Infinity"),
        LispValue::Float(f64::NEG_INFINITY.to_bits())
    );
    match eval_test("NaN") {
        LispValue::Float(bits) => assert!(f64::from_bits(bits).is_nan()),
        other => panic!("expected a float, got {:?}", other),
    }
}

#[test]
fn test_word_that_is_no_number_is_a_symbol() {
    assert_eq!(
        eval_test("1.2.3"),
        LispValue::Symbol("1.2.3".to_string())
    );
    assert_eq!(eval_test("1e"), LispValue::Symbol("1e".to_string()));
}

#[test]
fn test_float_division_by_zero_is_infinity() {
    assert_eq!(
        eval_test("(/ 1.0 0.0)"),
        LispValue::Float(f64::INFINITY.to_bits())
    );
}

#[test]
fn test_single_argument_folds() {
    assert_eq!(eval_test("(- 5)"), LispValue::Int(5));
    assert_eq!(eval_test("(/ 5)"), LispValue::Int(5));
}

#[test]
fn test_arith_without_arguments_is_a_type_error() {
    assert!(matches!(eval_result("(+)"), Err(LispError::TypeError)));
}

#[test]
fn test_builtins_called_directly() {
    let args = vec![LispValue::Int(2), LispValue::Int(3)];
    assert_eq!(lisp_rs::env::add(&args), Ok(LispValue::Int(5)));
    assert_eq!(lisp_rs::env::multiply(&args), Ok(LispValue::Int(6)));
    assert_eq!(lisp_rs::env::substract(&args), Ok(LispValue::Int(-1)));
    assert_eq!(lisp_rs::env::divide(&args), Ok(LispValue::Int(0)));

    let one_list = vec![LispValue::List(vec![
        LispValue::Int(7),
        LispValue::Int(8),
    ])];
    assert_eq!(lisp_rs::env::car(&one_list), Ok(LispValue::Int(7)));
    assert_eq!(
        lisp_rs::env::cdr(&one_list),
        Ok(LispValue::List(vec![LispValue::Int(8)]))
    );
}

#[test]
fn test_resolve_copies_the_binding() {
    let env = Env::global();
    let bound = env.resolve("car".to_string());
    assert!(matches!(bound, LispValue::Lambda(_)));
    let unbound = env.resolve("nope".to_string());
    assert_eq!(unbound, LispValue::Symbol("nope".to_string()));
}

#[test]
fn test_procedures_equal_nothing() {
    let env = Env::global();
    let a = env.resolve("car".to_string());
    let b = env.resolve("car".to_string());
    assert!(a != b);
    let c = env.resolve("+".to_string());
    assert!(!(a == c));
}

#[test]
fn test_symbol_head_that_is_unbound_becomes_data() {
    let actual = eval_test("(list 1 2)");
    let expected = LispValue::List(vec![
        LispValue::Symbol("list".to_string()),
        LispValue::Int(1),
        LispValue::Int(2),
    ]);
    assert_eq!(actual, expected);
}
