use tinycalc::{AppState, CalcError, Calculator, Key, Op, TinyCalc};

fn feed(t: &mut TinyCalc, keys: &[&str]) {
    for k in keys {
        t.handle_button(k);
    }
}

#[test]
fn repeated_operator_is_rejected() {
    let mut t = TinyCalc::new();
    feed(&mut t, &["5", "+", "+", "3", "="]);
    assert_eq!(t.display(), "8");
    let h = t.state().get_history();
    assert_eq!(h.len(), 1);
    assert_eq!(h[0], "5+3 = 8");
}

#[test]
fn delete_until_empty_shows_zero() {
    let mut t = TinyCalc::new();
    feed(&mut t, &["1", "2", "+", "3", "."]);
    assert_eq!(t.display(), "12+3.");
    for _ in 0..10 {
        t.handle_button("DEL");
    }
    assert_eq!(t.display(), "0");
    assert_eq!(t.state().calculator().get_expression(), "");
}

#[test]
fn second_point_in_numeral_is_ignored() {
    let mut t = TinyCalc::new();
    feed(&mut t, &["1", ".", "2", ".", "3", "+", ".", "5", "."]);
    assert_eq!(t.display(), "1.23+.5");
}

#[test]
fn point_on_empty_text_starts_zero_point() {
    let mut t = TinyCalc::new();
    feed(&mut t, &[".", "5"]);
    assert_eq!(t.display(), "0.5");
    assert!(!t.can_add_decimal());
}

#[test]
fn operator_on_empty_text_is_ignored() {
    let mut t = TinyCalc::new();
    feed(&mut t, &["*", "4"]);
    assert_eq!(t.display(), "4");
    t.handle_button("-");
    assert!(t.ends_with_operator());
    assert!(t.can_add_decimal());
}

#[test]
fn digit_after_result_starts_over() {
    let mut t = TinyCalc::new();
    feed(&mut t, &["2", "*", "3", "=", "7"]);
    assert_eq!(t.display(), "7");
}

#[test]
fn point_after_result_starts_zero_point() {
    let mut t = TinyCalc::new();
    feed(&mut t, &["2", "*", "3", "=", "."]);
    assert_eq!(t.display(), "0.");
}

#[test]
fn operator_after_result_chains() {
    let mut t = TinyCalc::new();
    feed(&mut t, &["2", "*", "3", "=", "+", "1", "="]);
    assert_eq!(t.display(), "7");
    let h = t.state().get_history();
    assert_eq!(h.len(), 2);
    assert_eq!(h[1], "6+1 = 7");
}

#[test]
fn failed_equals_keeps_text_and_reports() {
    let mut t = TinyCalc::new();
    feed(&mut t, &["5", "/", "0", "="]);
    assert_eq!(t.display(), "5/0");
    assert_eq!(t.state().get_error_message(), Some(CalcError::DivisionByZero));
    assert_eq!(t.state().get_history().len(), 0);
    t.handle_button("DEL");
    assert_eq!(t.state().get_error_message(), None);
}

#[test]
fn clear_and_clear_entry() {
    let mut t = TinyCalc::new();
    feed(&mut t, &["9", "+", "1", "CE"]);
    assert_eq!(t.display(), "0");
    feed(&mut t, &["4", "=", "C"]);
    assert_eq!(t.display(), "0");
    assert_eq!(t.state().get_history().len(), 1);
}

#[test]
fn unknown_label_does_nothing() {
    let mut t = TinyCalc::new();
    feed(&mut t, &["7", "x", "sqrt"]);
    assert_eq!(t.display(), "7");
}

#[test]
fn equals_on_empty_text_does_nothing() {
    let mut t = TinyCalc::new();
    t.handle_button("=");
    assert_eq!(t.display(), "0");
    assert_eq!(t.state().get_history().len(), 0);
}

#[test]
fn fractional_result_display() {
    let mut t = TinyCalc::new();
    feed(&mut t, &["1", "/", "3", "="]);
    assert_eq!(t.display(), "0.3333333333");
    assert_eq!(t.state().get_history()[0], "1/3 = 0.3333333333");
}

#[test]
fn history_keeps_fifty_newest() {
    let mut s = AppState::new();
    for i in 0..51 {
        let d = format!("{}", i % 10);
        s.handle_button_press("C");
        s.handle_button_press(&d);
        s.handle_button_press("=");
    }
    let h = s.get_history();
    assert_eq!(h.len(), 50);
    assert_eq!(h[0], "1 = 1");
    assert_eq!(h[49], "0 = 0");
    s.clear_history();
    assert_eq!(s.get_history().len(), 0);
}

#[test]
fn calculator_direct_use() {
    let mut c = Calculator::new();
    assert_eq!(c.add_input(Key::Digit(4)), Ok(()));
    assert_eq!(c.add_input(Key::Operator(Op::Mul)), Ok(()));
    assert_eq!(c.add_input(Key::Digit(2)), Ok(()));
    assert_eq!(c.get_expression(), "4*2");
    assert_eq!(c.get_result(), None);
    assert_eq!(c.add_input(Key::Equals), Ok(()));
    assert_eq!(c.get_expression(), "8");
    let r = c.get_result().unwrap();
    assert_eq!(r.num, 8 * r.den);
    c.delete_last();
    assert_eq!(c.get_expression(), "");
    assert_eq!(c.get_result(), None);
    assert_eq!(c.add_input(Key::Digit(12)), Ok(()));
    assert_eq!(c.get_expression(), "");
}

#[test]
fn calculator_reports_errors() {
    let mut c = Calculator::new();
    c.add_input(Key::Digit(7)).unwrap();
    c.add_input(Key::Operator(Op::Rem)).unwrap();
    c.add_input(Key::Digit(0)).unwrap();
    assert_eq!(c.add_input(Key::Equals), Err(CalcError::DivisionByZero));
    assert_eq!(c.get_expression(), "7%0");
    c.clear();
    assert_eq!(c.get_expression(), "");
}

#[test]
fn labels_name_keys() {
    assert_eq!(Key::from_label("7"), Some(Key::Digit(7)));
    assert_eq!(Key::from_label("."), Some(Key::Point));
    assert_eq!(Key::from_label("%"), Some(Key::Operator(Op::Rem)));
    assert_eq!(Key::from_label("="), Some(Key::Equals));
    assert_eq!(Key::from_label("C"), Some(Key::Clear));
    assert_eq!(Key::from_label("CE"), Some(Key::ClearEntry));
    assert_eq!(Key::from_label("DEL"), Some(Key::Delete));
    assert_eq!(Key::from_label("D"), None);
    assert_eq!(Key::from_label(""), None);
}

#[test]
fn clear_entry_keeps_cached_result() {
    let mut c = Calculator::new();
    c.add_input(Key::Digit(4)).unwrap();
    c.add_input(Key::Equals).unwrap();
    c.clear_entry();
    assert_eq!(c.get_expression(), "");
    let r = c.get_result().unwrap();
    assert_eq!(r.num, 4 * r.den);
    let mut t = TinyCalc::new();
    feed(&mut t, &["4", "=", "CE"]);
    assert_eq!(t.display(), "0");
    t.handle_button("+");
    assert_eq!(t.display(), "0");
}

#[test]
fn failed_equals_drops_cached_result() {
    let mut t = TinyCalc::new();
    feed(&mut t, &["2", "-", "7", "="]);
    assert_eq!(t.display(), "-5");
    assert!(t.state().calculator().get_result().is_some());
    t.handle_button("=");
    assert_eq!(t.state().get_error_message(), Some(CalcError::InvalidExpression));
    assert_eq!(t.state().calculator().get_result(), None);
    assert_eq!(t.display(), "-5");
    assert_eq!(t.state().get_history().len(), 1);
}

#[test]
fn calculator_point_check_needs_text() {
    let mut c = Calculator::new();
    assert!(!c.can_add_decimal());
    c.add_input(Key::Digit(3)).unwrap();
    assert!(c.can_add_decimal());
    c.add_input(Key::Point).unwrap();
    assert!(!c.can_add_decimal());
    let t = TinyCalc::new();
    assert!(t.can_add_decimal());
}
