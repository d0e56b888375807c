use rpn::rpn_convert::shunting_yard::convert_in_to_post_fix;

#[test]
fn rpn_convert_test_num_simple() {
    let input = "42 - 4234 * (4-234 + (43*43)) - 10";
    let expected = "42 4234 4 234 - 43 43 * + * - 10 -";
    assert_eq!(expected, convert_in_to_post_fix(input).unwrap().as_string());
}

#[test]
fn rpn_convert_test_num_complex() {
    let input = "(31 + 321)*(32+54)";
    let expected = "31 321 + 32 54 + *";
    assert_eq!(expected, convert_in_to_post_fix(input).unwrap().as_string());
}

#[test]
fn rpn_convert_test_brackets() {
    let input = "(4*((5+4)))^2";
    let expected = "4 5 4 + * 2 ^";
    assert_eq!(expected, convert_in_to_post_fix(input).unwrap().as_string());
}

#[test]
fn rpn_convert_test_alge_simple() {
    let input = "c*(a*(b*b+1) - (d123.32/f9.23))";
    let expected = "c a b b * 1 + * d123.32 f9.23 / - *";
    assert_eq!(expected, convert_in_to_post_fix(input).unwrap().as_string());
}

#[test]
fn rpn_convert_test_alge_complex() {
    let input = "(x + 87.31)*(x-31.23)";
    let expected = "x 87.31 + x 31.23 - *";
    assert_eq!(expected, convert_in_to_post_fix(input).unwrap().as_string());
}

#[test]
fn ast_tree_test_num_simple() {
    let input = "42 - 4234 * (4-234 + (43*43)) - 10";
    let expected = "42 4234 4 234 - 43 43 * + * - 10 -";
    assert_eq!(expected, convert_in_to_post_fix(input).unwrap().as_string());
}

#[test]
fn ast_tree_test_num_complex() {
    let input = "(31 + 321)*(32+54)";
    let expected = "31 321 + 32 54 + *";
    assert_eq!(expected, convert_in_to_post_fix(input).unwrap().as_string());
}

#[test]
fn ast_tree_test_brackets() {
    let input = "(4*((5+4)))^2";
    let expected = "4 5 4 + * 2 ^";
    assert_eq!(expected, convert_in_to_post_fix(input).unwrap().as_string());
}

#[test]
fn ast_tree_test_alge_simple() {
    let input = "c*(a*(b*b+1) - (d123.32/f9.23))";
    let expected = "c a b b * 1 + * d123.32 f9.23 / - *";
    assert_eq!(expected, convert_in_to_post_fix(input).unwrap().as_string());
}

#[test]
fn ast_tree_test_alge_complex() {
    let input = "(x + 87.31)*(x-31.23)";
    let expected = "x 87.31 + x 31.23 - *";
    assert_eq!(expected, convert_in_to_post_fix(input).unwrap().as_string());
}
