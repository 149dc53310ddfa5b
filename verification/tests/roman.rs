use numerals::roman::{Numeral, Roman, RomanError};

#[test]
fn roman_test_many_numbers() {
    for i in 1..4321 {
        assert_eq!(i, Roman::encode(i).unwrap().value());
    }
    for i in 1..4321 {
        assert_eq!(Some(i), Roman::encode(i).unwrap().value_checked());
    }
}

#[test]
fn test_big_numbers() {
    for i in 32700..32767 {
        assert_eq!(i, Roman::encode(i).unwrap().value());
    }
    for i in 32700..32767 {
        assert_eq!(Some(i), Roman::encode(i).unwrap().value_checked());
    }
}

#[test]
fn value_checked_err_on_large() {
    assert_eq!(
        Roman::parse("MMMMMMMMMMMMMMMMMMMMMMMMMMMMMMMMMMMMMMMMMMMMMMMMMMMMMM")
            .unwrap()
            .value_checked(),
        None
    );
}

#[test]
fn encode_canonical_examples() {
    assert_eq!(
        Roman::encode(4).unwrap(),
        Roman::from_numerals(vec![Numeral::I, Numeral::V])
    );
    assert_eq!(
        Roman::encode(9).unwrap(),
        Roman::from_numerals(vec![Numeral::I, Numeral::X])
    );
    assert_eq!(
        Roman::encode(40).unwrap(),
        Roman::from_numerals(vec![Numeral::X, Numeral::L])
    );
    assert_eq!(
        Roman::encode(1994).unwrap(),
        Roman::from_numerals(vec![
            Numeral::M,
            Numeral::C,
            Numeral::M,
            Numeral::X,
            Numeral::C,
            Numeral::I,
            Numeral::V,
        ])
    );
    assert_eq!(Roman::encode(1994).unwrap().render_upper(), "MCMXCIV");
}

#[test]
fn render_upper_and_lower() {
    let r = Roman::encode(134).unwrap();
    assert_eq!(r.render_upper(), "CXXXIV");
    assert_eq!(r.render_lower(), "cxxxiv");
}

#[test]
fn render_is_repeatable() {
    let r = Roman::encode(1994).unwrap();
    assert_eq!(r.render_upper(), r.render_upper());
    assert_eq!(r.render_lower(), r.render_lower());
}

#[test]
fn parse_rejects_invalid_input() {
    assert_eq!(
        Roman::parse("XIIA"),
        Err(RomanError::InvalidNumeralText(3))
    );
}

#[test]
fn parse_is_case_insensitive() {
    assert_eq!(Roman::parse("xxvii").unwrap(), Roman::parse("XXVII").unwrap());
    assert_eq!(Roman::parse("mCmXcIv").unwrap().value(), 1994);
}

#[test]
fn parse_then_value() {
    assert_eq!(Roman::parse("XXVII").unwrap().value(), 27);
    assert_eq!(Roman::parse("MCMXCIV").unwrap().value(), 1994);
}

#[test]
fn encode_rejects_non_positive() {
    assert_eq!(Roman::encode(0), Err(RomanError::NonPositiveInput));
    assert_eq!(Roman::encode(-5), Err(RomanError::NonPositiveInput));
}

#[test]
fn empty_sequence_is_zero() {
    assert_eq!(Roman::from_numerals(vec![]).value(), 0);
    assert_eq!(Roman::parse("").unwrap().value(), 0);
    assert_eq!(Roman::parse("").unwrap().render_upper(), "");
}

#[test]
fn non_canonical_sequences_still_decode() {
    // The doc example: X X V I I is 27.
    let seq = vec![Numeral::X, Numeral::X, Numeral::V, Numeral::I, Numeral::I];
    assert_eq!(Roman::from_numerals(seq).value(), 27);
    // A sequence nobody would write decodes mechanically: I I V is -1 -1 +5.
    let odd = vec![Numeral::I, Numeral::I, Numeral::V];
    assert_eq!(Roman::from_numerals(odd).value(), 3);
}

#[test]
fn largest_value_round_trips() {
    let r = Roman::encode(32767).unwrap();
    assert_eq!(r.value(), 32767);
    assert_eq!(r.value_checked(), Some(32767));
    assert_eq!(
        r.render_upper(),
        format!("{}DCCLXVII", "M".repeat(32))
    );
}

#[test]
fn value_checked_near_the_bound() {
    let below = Roman::parse(&"M".repeat(32)).unwrap();
    assert_eq!(below.value_checked(), Some(32000));
    let above = Roman::parse(&"M".repeat(33)).unwrap();
    assert_eq!(above.value_checked(), None);
}

#[test]
fn subtractive_pairs_decode() {
    assert_eq!(Roman::parse("CM").unwrap().value(), 900);
    assert_eq!(Roman::parse("CD").unwrap().value(), 400);
    assert_eq!(Roman::parse("XC").unwrap().value(), 90);
    assert_eq!(Roman::parse("XL").unwrap().value(), 40);
    assert_eq!(Roman::parse("IX").unwrap().value(), 9);
    assert_eq!(Roman::parse("IV").unwrap().value(), 4);
}

#[test]
fn numeral_from_char() {
    assert_eq!(Numeral::from_char('M'), Some(Numeral::M));
    assert_eq!(Numeral::from_char('m'), Some(Numeral::M));
    assert_eq!(Numeral::from_char('i'), Some(Numeral::I));
    assert_eq!(Numeral::from_char('Q'), None);
    assert_eq!(Numeral::from_char('1'), None);
}

#[test]
fn numeral_weights_and_chars() {
    assert_eq!(Numeral::I.value(), 1);
    assert_eq!(Numeral::V.value(), 5);
    assert_eq!(Numeral::X.value(), 10);
    assert_eq!(Numeral::L.value(), 50);
    assert_eq!(Numeral::C.value(), 100);
    assert_eq!(Numeral::D.value(), 500);
    assert_eq!(Numeral::M.value(), 1000);
    assert_eq!(Numeral::D.ascii_upper(), 'D');
    assert_eq!(Numeral::D.ascii_lower(), 'd');
}
