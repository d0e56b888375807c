use rpn::rpn_convert::Stack;

#[test]
fn rpn_convert_parser_num() {
    let input = "2^3+(3.1*(7-6)/4.0)";
    let expected = "2 ^ 3 + ( 3.1 * ( 7 - 6 ) / 4 )";
    assert_eq!(expected, Stack::try_from(input).unwrap().as_string());
}

#[test]
fn rpn_convert_parser_alge() {
    let input = "2x^y+(3.1*(x-6)/4.0a)";
    let expected = "2x ^ y + ( 3.1 * ( x - 6 ) / 4.0a )";
    assert_eq!(expected, Stack::try_from(input).unwrap().as_string());
}

#[test]
fn ast_tree_parser_num() {
    let input = "2^3+(3.1*(7-6)/4.0)";
    let expected = "2 ^ 3 + ( 3.1 * ( 7 - 6 ) / 4 )";
    assert_eq!(expected, Stack::try_from(input).unwrap().as_string());
}

#[test]
fn ast_tree_parser_alge() {
    let input = "2x^y+(3.1*(x-6)/4.0a)";
    let expected = "2x ^ y + ( 3.1 * ( x - 6 ) / 4.0a )";
    assert_eq!(expected, Stack::try_from(input).unwrap().as_string());
}
