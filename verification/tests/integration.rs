use rpn::rpn_convert::ConvError;
use rpn::{get_rpn_tree, get_rpn_yard};

type RpnReturn = Result<String, ConvError>;

fn negatives(func: fn(&str) -> RpnReturn) {
    assert_eq!("-5 -5 + -1 *", func("(!5+!5) * !1").unwrap());
}

fn rpn_1(func: fn(&str) -> RpnReturn) {
    assert_eq!("31 321 + 32 54 + *", func("(31 + 321)*(32+54)").unwrap());
}

fn rpn_2(func: fn(&str) -> RpnReturn) {
    assert_eq!(
        "c a b b * 1 + * d123.32 f9.23 / - *",
        func("c*(a*(b*b+1) - (d123.32/f9.23))").unwrap()
    );
}

fn rpn_3(func: fn(&str) -> RpnReturn) {
    assert_eq!(
        "-4.3a b 2 ^ -10 - x 1 2 / / * +",
        func("!4.3a + (b^2-!10)*(x/(1/2))").unwrap()
    );
}

#[test]
fn test_negatives() {
    negatives(get_rpn_yard);
    negatives(get_rpn_tree);
}

#[test]
fn test_rpn_1() {
    rpn_1(get_rpn_yard);
    rpn_1(get_rpn_tree);
}

#[test]
fn test_rpn_2() {
    rpn_2(get_rpn_yard);
    rpn_2(get_rpn_tree);
}

#[test]
fn test_rpn_3() {
    rpn_3(get_rpn_yard);
    rpn_3(get_rpn_tree);
}
