use tinycalc::{evaluate, evaluate_postfix, format_number, precedence, to_postfix, tokenize};
use tinycalc::{CalcError, Num, Op, Token};

fn eval_text(s: &str) -> Result<Num, CalcError> {
    evaluate(tokenize(s)?)
}

fn as_f64(v: Num) -> f64 {
    v.num as f64 / v.den as f64
}

fn shown(v: Num) -> String {
    format_number(v).iter().collect()
}

fn whole(v: i64) -> Token {
    Token::Number(Num::from_int(v))
}

#[test]
fn precedence_before_addition() {
    let v = eval_text("3+4*2").unwrap();
    assert_eq!(as_f64(v), 11.0);
    assert_eq!(v.num, 11 * v.den);
}

#[test]
fn subtraction_is_left_associative() {
    let v = eval_text("6-2-1").unwrap();
    assert_eq!(as_f64(v), 3.0);
}

#[test]
fn division_by_zero_fails() {
    assert_eq!(eval_text("5/0"), Err(CalcError::DivisionByZero));
}

#[test]
fn remainder_by_zero_fails() {
    assert_eq!(eval_text("7%0"), Err(CalcError::DivisionByZero));
}

#[test]
fn parentheses_group_first() {
    let v = eval_text("(2+3)*4").unwrap();
    assert_eq!(as_f64(v), 20.0);
}

#[test]
fn division_by_zero_after_reduction() {
    assert_eq!(eval_text("5/(2-2)"), Err(CalcError::DivisionByZero));
}

#[test]
fn flat_expression_matches_precedence() {
    // 2 + 3*4 - 10/5 % 3 = 2 + 12 - (2 % 3) = 12
    let v = eval_text("2+3*4-10/5%3").unwrap();
    assert_eq!(as_f64(v), 12.0);
    let w = eval_text("8/4/2").unwrap();
    assert_eq!(as_f64(w), 1.0);
}

#[test]
fn remainder_keeps_fractions() {
    assert_eq!(as_f64(eval_text("7.5%2").unwrap()), 1.5);
    assert_eq!(as_f64(eval_text("7%3").unwrap()), 1.0);
}

#[test]
fn remainder_sign_follows_dividend() {
    let a = Num::from_int(-7);
    let b = Num::from_int(3);
    let r = Num::apply(Op::Rem, a, b).unwrap();
    assert_eq!(as_f64(r), -1.0);
    let r2 = Num::apply(Op::Rem, Num::from_int(7), Num::from_int(-3)).unwrap();
    assert_eq!(as_f64(r2), 1.0);
}

#[test]
fn tokenize_numbers_operators_and_parens() {
    let toks = tokenize("12+(3.5*2)").unwrap();
    assert_eq!(
        toks,
        vec![
            whole(12),
            Token::Operator(Op::Add),
            Token::LeftParen,
            Token::Number(Num { num: 35, den: 10 }),
            Token::Operator(Op::Mul),
            whole(2),
            Token::RightParen,
        ]
    );
}

#[test]
fn tokenize_empty_is_empty() {
    assert_eq!(tokenize("").unwrap(), vec![]);
}

#[test]
fn tokenize_skips_whitespace() {
    assert_eq!(
        tokenize(" 1 + 2 ").unwrap(),
        vec![whole(1), Token::Operator(Op::Add), whole(2)]
    );
}

#[test]
fn tokenize_rejects_letters() {
    assert_eq!(tokenize("2+a"), Err(CalcError::InvalidCharacter('a')));
}

#[test]
fn tokenize_rejects_two_points() {
    assert_eq!(tokenize("1.2.3+1"), Err(CalcError::InvalidNumber));
    assert_eq!(tokenize("."), Err(CalcError::InvalidNumber));
}

#[test]
fn tokenize_leading_and_trailing_point() {
    assert_eq!(tokenize(".5").unwrap(), vec![Token::Number(Num { num: 5, den: 10 })]);
    assert_eq!(tokenize("5.").unwrap(), vec![Token::Number(Num { num: 5, den: 1 })]);
}

#[test]
fn tokenize_rejects_huge_numeral() {
    let s = "1".repeat(40);
    assert_eq!(tokenize(&s), Err(CalcError::InvalidNumber));
}

#[test]
fn overflow_is_reported() {
    let s = format!("{}*{}", "9".repeat(20), "9".repeat(20));
    assert_eq!(eval_text(&s), Err(CalcError::Overflow));
}

#[test]
fn invalid_expressions() {
    assert_eq!(eval_text(""), Err(CalcError::InvalidExpression));
    assert_eq!(eval_text("5+"), Err(CalcError::InvalidExpression));
    assert_eq!(eval_text("(3)(4)"), Err(CalcError::InvalidExpression));
    assert_eq!(eval_text("-3"), Err(CalcError::InvalidExpression));
}

#[test]
fn unmatched_parentheses_are_dropped() {
    assert_eq!(as_f64(eval_text("(2+3").unwrap()), 5.0);
    // the excess `)` closes everything before it: (2+3)*2
    assert_eq!(as_f64(eval_text("2+3)*2").unwrap()), 10.0);
}

#[test]
fn postfix_order() {
    let post = to_postfix(tokenize("1+2*3-4").unwrap());
    assert_eq!(
        post,
        vec![
            whole(1),
            whole(2),
            whole(3),
            Token::Operator(Op::Mul),
            Token::Operator(Op::Add),
            whole(4),
            Token::Operator(Op::Sub),
        ]
    );
}

#[test]
fn postfix_reduction_errors() {
    assert_eq!(
        evaluate_postfix(vec![whole(1), Token::Operator(Op::Add)]),
        Err(CalcError::InvalidExpression)
    );
    assert_eq!(evaluate_postfix(vec![whole(1), whole(2)]), Err(CalcError::InvalidExpression));
    assert_eq!(evaluate_postfix(vec![Token::LeftParen]), Err(CalcError::InvalidExpression));
    assert_eq!(
        evaluate_postfix(vec![Token::Number(Num { num: 1, den: 0 })]),
        Err(CalcError::InvalidNumber)
    );
}

#[test]
fn precedence_tiers() {
    assert_eq!(precedence(Op::Add), 1);
    assert_eq!(precedence(Op::Sub), 1);
    assert_eq!(precedence(Op::Mul), 2);
    assert_eq!(precedence(Op::Div), 2);
    assert_eq!(precedence(Op::Rem), 2);
}

#[test]
fn format_integers_without_point() {
    assert_eq!(shown(Num::from_int(8)), "8");
    assert_eq!(shown(Num::from_int(0)), "0");
    assert_eq!(shown(Num::from_int(-42)), "-42");
    assert_eq!(shown(Num { num: 22, den: 2 }), "11");
}

#[test]
fn format_rounds_to_ten_decimals() {
    assert_eq!(shown(Num { num: 1, den: 3 }), "0.3333333333");
    assert_eq!(shown(Num { num: 2, den: 3 }), "0.6666666667");
    assert_eq!(shown(Num { num: 10, den: 4 }), "2.5");
    assert_eq!(shown(Num { num: -1, den: 8 }), "-0.125");
    assert_eq!(shown(Num { num: 999999999999, den: 1000000000000 }), "1");
}

#[test]
fn format_sums_of_decimals() {
    assert_eq!(shown(eval_text("0.1+0.2").unwrap()), "0.3");
}

#[test]
fn integral_result_round_trips() {
    let v = eval_text("6*7").unwrap();
    let text = shown(v);
    assert_eq!(text, "42");
    let toks = tokenize(&text).unwrap();
    assert_eq!(toks.len(), 1);
    match toks[0] {
        Token::Number(q) => assert_eq!(as_f64(q), as_f64(v)),
        _ => panic!("expected a number"),
    }
}

#[test]
fn tokenize_skips_unicode_whitespace() {
    assert_eq!(
        tokenize("1\u{0C}+\u{3000}2\u{A0}\u{2028}").unwrap(),
        vec![whole(1), Token::Operator(Op::Add), whole(2)]
    );
    assert_eq!(tokenize("1\u{200B}"), Err(CalcError::InvalidCharacter('\u{200B}')));
}

#[test]
fn results_are_in_lowest_terms() {
    let r = Num::apply(Op::Add, Num { num: 1, den: 2 }, Num { num: 1, den: 2 }).unwrap();
    assert_eq!(r, Num { num: 1, den: 1 });
    let q = Num::apply(Op::Div, Num::from_int(6), Num::from_int(-4)).unwrap();
    assert_eq!(q, Num { num: -3, den: 2 });
}

#[test]
fn long_sums_of_decimals_do_not_overflow() {
    let s = vec!["0.1"; 60].join("+");
    let v = eval_text(&s).unwrap();
    assert_eq!(v, Num { num: 6, den: 1 });
    assert_eq!(shown(v), "6");
}

#[test]
fn tiny_negative_keeps_its_sign() {
    assert_eq!(shown(Num { num: -1, den: 1000000000000 }), "-0");
}

#[test]
fn product_checks_only_the_parts_it_uses() {
    let big = Num { num: 1000000000000000000000000000000, den: 1 };
    let small = Num { num: 1, den: 10000000000 };
    let p = Num::apply(Op::Mul, big, small).unwrap();
    assert_eq!(p, Num { num: 100000000000000000000, den: 1 });
    let q = Num::apply(Op::Div, Num { num: 1, den: 10000000000000000000000 }, Num { num: 1, den: 100000000000000000000 }).unwrap();
    assert_eq!(q, Num { num: 1, den: 100 });
}
