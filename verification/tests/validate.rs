use rpn::rpn_convert::Validate;

#[test]
fn rpn_convert_less_than_3() {
    let input_true = "2a+3.1";
    let input_false = "";
    assert_eq!(true, Validate::validate_len(input_true));
    assert_eq!(false, Validate::validate_len(input_false));
}

#[test]
fn rpn_convert_invalid_char() {
    let input_true = "3.1+8a";
    let input_false = "3@5+7*(8+4)";
    assert_eq!(true, Validate::validate_chars(input_true));
    assert_eq!(false, Validate::validate_chars(input_false));
}

#[test]
fn rpn_convert_invalid_sandwich_operators() {
    let input_true = "2.1+5a-3*(5-2)";
    let input_false = "2++5-3*(5--2)";
    assert_eq!(true, Validate::validate_sandwich_operators(input_true));
    assert_eq!(false, Validate::validate_sandwich_operators(input_false));
}

#[test]
fn rpn_convert_invalid_params() {
    let input_true = "(2.1+3)^2 -(3a+(4^32.3-1)+x^2)";
    let input_false = "(2+3)^2 -(3+(4^32.3-1)+x^2))";
    let input_false_2 = "(()";
    let input_false_3 = "))((";
    assert_eq!(true, Validate::validate_parentheses(input_true));
    assert_eq!(false, Validate::validate_parentheses(input_false));
    assert_eq!(false, Validate::validate_parentheses(input_false_2));
    assert_eq!(false, Validate::validate_parentheses(input_false_3));
}

#[test]
fn rpn_convert_validate_input_integration() {
    assert_eq!((true, "Is_valid"), Validate::validate_input("2+5-1/7*2^(2-1)+a21"));
}

#[test]
fn mod_less_than_3() {
    let input_true = "2a+3.1";
    let input_false = "";
    assert_eq!(true, Validate::validate_len(input_true));
    assert_eq!(false, Validate::validate_len(input_false));
}

#[test]
fn mod_invalid_char() {
    let input_true = "3.1+8a";
    let input_false = "3@5+7*(8+4)";
    assert_eq!(true, Validate::validate_chars(input_true));
    assert_eq!(false, Validate::validate_chars(input_false));
}

#[test]
fn mod_invalid_sandwich_operators() {
    let input_true = "2.1+5a-3*(5-2)";
    let input_false = "2++5-3*(5--2)";
    assert_eq!(true, Validate::validate_sandwich_operators(input_true));
    assert_eq!(false, Validate::validate_sandwich_operators(input_false));
}

#[test]
fn mod_invalid_params() {
    let input_true = "(2.1+3)^2 -(3a+(4^32.3-1)+x^2)";
    let input_false = "(2+3)^2 -(3+(4^32.3-1)+x^2))";
    let input_false_2 = "(()";
    let input_false_3 = "))((";
    assert_eq!(true, Validate::validate_parentheses(input_true));
    assert_eq!(false, Validate::validate_parentheses(input_false));
    assert_eq!(false, Validate::validate_parentheses(input_false_2));
    assert_eq!(false, Validate::validate_parentheses(input_false_3));
}

#[test]
fn mod_validate_input_integration() {
    assert_eq!((true, "Is_valid"), Validate::validate_input("2+5-1/7*2^(2-1)+a21"));
}
