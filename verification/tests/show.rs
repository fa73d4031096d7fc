use countdown::show::push_decimal;
use countdown::step::{BinOp, Op};

#[test]
fn steps_as_text() {
    assert_eq!(BinOp::new(Op::Add, 1, 2).to_text(), "1 + 2");
    assert_eq!(BinOp::new(Op::Sub, 24, 3).to_text(), "24 - 3");
    assert_eq!(BinOp::new(Op::Mul, 6, 4).to_text(), "6 * 4");
    assert_eq!(BinOp::new(Op::Div, 100, 25).to_text(), "100 / 25");
}

#[test]
fn steps_with_their_result() {
    assert_eq!(BinOp::new(Op::Mul, 6, 4).to_equation(), "6 * 4 = 24");
    assert_eq!(BinOp::new(Op::Sub, 24, 3).to_equation(), "24 - 3 = 21");
    assert_eq!(BinOp::new(Op::Div, 0, 7).to_equation(), "0 / 7 = 0");
}

#[test]
fn steps_without_a_result_are_shown_without_one() {
    assert_eq!(BinOp::new(Op::Sub, 3, 24).to_equation(), "3 - 24");
    assert_eq!(BinOp::new(Op::Div, 7, 0).to_equation(), "7 / 0");
}

#[test]
fn decimal_digits() {
    for n in [0u32, 1, 9, 10, 11, 99, 100, 101, 1000, 4096, 65535, 1234567890, u32::MAX] {
        let mut out = String::from(">");
        push_decimal(&mut out, n);
        assert_eq!(out, format!(">{}", n));
    }
}
