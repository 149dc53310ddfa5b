use numerals::bt::{BalancedTernary, Trit};

#[test]
fn bt_test_many_numbers() {
    for i in 0..4321 {
        assert_eq!(i, BalancedTernary::encode(i).value());
    }
}

#[test]
fn trit_from_char() {
    assert_eq!(Trit::from_char('-'), Some(Trit::Minus));
    assert_eq!(Trit::from_char('0'), Some(Trit::Zero));
    assert_eq!(Trit::from_char('+'), Some(Trit::Plus));
    assert_eq!(Trit::from_char('1'), None);
    assert_eq!(Trit::from_char(' '), None);
}

#[test]
fn trit_weights_and_chars() {
    assert_eq!(Trit::Minus.value(), -1);
    assert_eq!(Trit::Zero.value(), 0);
    assert_eq!(Trit::Plus.value(), 1);
    assert_eq!(Trit::Minus.ascii(), '-');
    assert_eq!(Trit::Zero.ascii(), '0');
    assert_eq!(Trit::Plus.ascii(), '+');
}

#[test]
fn bt_parse_then_value() {
    // +-0 is 1*9 - 1*3 + 0 = 6.
    assert_eq!(BalancedTernary::parse("+-0").unwrap().value(), 6);
    assert_eq!(BalancedTernary::parse("+").unwrap().value(), 1);
    assert_eq!(BalancedTernary::parse("-").unwrap().value(), -1);
    assert_eq!(BalancedTernary::parse("").unwrap().value(), 0);
}

#[test]
fn bt_parse_rejects_invalid() {
    assert!(BalancedTernary::parse("+2-").is_none());
    assert!(BalancedTernary::parse("abc").is_none());
}

#[test]
fn bt_encode_then_render() {
    assert_eq!(BalancedTernary::encode(6).render(), "+-0");
    assert_eq!(BalancedTernary::encode(0).render(), "");
    assert_eq!(BalancedTernary::encode(1).render(), "+");
    assert_eq!(BalancedTernary::encode(2).render(), "+-");
    assert_eq!(BalancedTernary::encode(3).render(), "+0");
}

#[test]
fn bt_render_is_repeatable() {
    let b = BalancedTernary::encode(4321);
    assert_eq!(b.render(), b.render());
}
