use voting_system::decimal_number_persist::DecimalNumberPersist;
use voting_system::decimal_number_wrapper::{
    checked_add, checked_div, checked_mul, saturating_sub, DecimalNumberWrapper,
};
use voting_system::decimal_text::parse_decimal;
use voting_system::types::VotingSystemError;

fn number(text: &str) -> DecimalNumberWrapper {
    DecimalNumberWrapper::new(text).unwrap()
}

fn pair(whole: u32, fractional: u32) -> DecimalNumberWrapper {
    DecimalNumberWrapper::from_tuple((whole, fractional)).unwrap()
}

fn persist(whole: u32, fractional: u32) -> DecimalNumberPersist {
    DecimalNumberPersist::new(whole, fractional).unwrap()
}

#[test]
fn decimal_number_persist_test_test_add() {
    assert!(DecimalNumberPersist::add(persist(4, 800), persist(5, 500)).as_tuple() == (10, 300));

    assert!(DecimalNumberPersist::add(persist(0, 1), persist(0, 100)).as_tuple() == (0, 101));

    assert!(DecimalNumberPersist::add(persist(0, 1), persist(0, 20)).as_tuple() == (0, 21));
}

#[test]
fn decimal_number_persist_test_test_multiply() {
    assert!(DecimalNumberPersist::mul(persist(5, 0), persist(7, 0)).as_tuple() == (35, 0));

    assert!(DecimalNumberPersist::mul(persist(1, 500), persist(2, 800)).as_tuple() == (4, 200));

    assert!(DecimalNumberPersist::mul(persist(1, 5), persist(2, 8)).as_tuple() == (2, 18));

    assert!(DecimalNumberPersist::mul(persist(1, 320), persist(0, 30)).as_tuple() == (0, 39));
}

#[test]
fn decimal_number_persist_test_test_cmp() {
    assert!(DecimalNumberWrapper::cmp(pair(14, 450), pair(14, 450)) == 0);

    assert!(DecimalNumberWrapper::cmp(pair(15, 450), pair(14, 450)) == 1);

    assert!(DecimalNumberWrapper::cmp(pair(14, 450), pair(114, 450)) == 2);

    assert!(DecimalNumberWrapper::cmp(pair(14, 460), pair(14, 450)) == 1);

    assert!(DecimalNumberWrapper::cmp(pair(14, 450), pair(14, 460)) == 2);
}

#[test]
fn decimal_number_persist_test_test_sub() {
    assert!(DecimalNumberWrapper::sub(pair(12, 360), pair(12, 340)).as_tuple() == (0, 20));
    assert!(DecimalNumberWrapper::sub(pair(12, 360), pair(12, 361)).as_tuple() == (0, 0));
    assert!(DecimalNumberWrapper::sub(pair(13, 360), pair(12, 360)).as_tuple() == (1, 0));
    assert!(DecimalNumberWrapper::sub(pair(13, 360), pair(14, 360)).as_tuple() == (0, 0));
    assert!(DecimalNumberWrapper::sub(pair(14, 360), pair(14, 360)).as_tuple() == (0, 0));
}

#[test]
fn test_test_add() {
    assert!(DecimalNumberPersist::add(persist(4, 800), persist(5, 500)).as_tuple() == (10, 300));

    assert!(DecimalNumberPersist::add(persist(0, 1), persist(0, 100)).as_tuple() == (0, 101));

    assert!(DecimalNumberPersist::add(persist(0, 1), persist(0, 20)).as_tuple() == (0, 21));
}

#[test]
fn test_test_multiply() {
    assert!(DecimalNumberPersist::mul(persist(5, 0), persist(7, 0)).as_tuple() == (35, 0));

    assert!(DecimalNumberPersist::mul(persist(1, 500), persist(2, 800)).as_tuple() == (4, 200));

    assert!(DecimalNumberPersist::mul(persist(1, 5), persist(2, 8)).as_tuple() == (2, 18));

    assert!(DecimalNumberPersist::mul(persist(1, 320), persist(0, 30)).as_tuple() == (0, 39));
}

#[test]
fn test_from_to() {
    let num: u32 = 123456;
    let dnw: DecimalNumberWrapper = num.into();
    assert!(dnw.as_tuple() == (123, 456));
    assert!(dnw.as_raw() == num);

    let dnw: DecimalNumberWrapper = DecimalNumberWrapper::from_tuple((12, 74)).unwrap();
    assert!(dnw.as_tuple() == (12, 74));
    assert!(dnw.as_raw() == 12074);

    let dnw: DecimalNumberWrapper = DecimalNumberWrapper::from_tuple((12, 100)).unwrap();
    assert!(dnw.as_tuple() == (12, 100));
    assert!(dnw.as_raw() == 12100);

    let dnw: DecimalNumberWrapper = DecimalNumberWrapper::new("123.56").unwrap();

    assert!(dnw.as_tuple() == (123, 560));
    assert!(dnw.as_raw() == 123560);

    let dnw: DecimalNumberWrapper = DecimalNumberWrapper::new("44.1").unwrap();
    assert!(dnw.as_tuple() == (44, 100));
    assert!(dnw.as_raw() == 44100);
}

#[test]
fn decimal_number_wrapper_test_test_add() {
    assert!(DecimalNumberWrapper::add(number("4.8"), number("5.5")).as_tuple() == (10, 300));

    assert!(DecimalNumberWrapper::add(number("0.001"), number("0.1")).as_tuple() == (0, 101));

    assert!(DecimalNumberWrapper::add(number("0.001"), number("0.020")).as_tuple() == (0, 21));
}

#[test]
fn decimal_number_wrapper_test_test_multiply() {
    assert!(DecimalNumberWrapper::mul(number("5.0"), number("7.0")).as_tuple() == (35, 0));

    assert!(DecimalNumberWrapper::mul(number("1.5"), number("2.8")).as_tuple() == (4, 200));

    assert!(DecimalNumberWrapper::mul(number("1.5"), number("2.8")).as_tuple() == (4, 200));

    assert!(DecimalNumberWrapper::mul(number("1.32"), number("0.03")).as_tuple() == (0, 39));

    assert!(DecimalNumberWrapper::mul(number("4.4"), number("0.2")).as_tuple() == (0, 880));
}

#[test]
fn decimal_number_wrapper_test_test_cmp() {
    assert!(DecimalNumberWrapper::cmp(number("14.45"), number("14.45")) == 0);

    assert!(DecimalNumberWrapper::cmp(number("15.45"), number("14.45")) == 1);

    assert!(DecimalNumberWrapper::cmp(number("14.45"), number("114.45")) == 2);

    assert!(DecimalNumberWrapper::cmp(number("14.46"), number("14.45")) == 1);

    assert!(DecimalNumberWrapper::cmp(number("14.45"), number("14.46")) == 2);
}

#[test]
fn decimal_number_wrapper_test_test_sub() {
    assert!(DecimalNumberWrapper::sub(number("12.36"), number("12.34")).as_tuple() == (0, 20));
    assert!(DecimalNumberWrapper::sub(number("12.36"), number("12.361")).as_tuple() == (0, 0));
    assert!(DecimalNumberWrapper::sub(number("13.36"), number("12.36")).as_tuple() == (1, 0));
    assert!(DecimalNumberWrapper::sub(number("13.36"), number("14.36")).as_tuple() == (0, 0));
    assert!(DecimalNumberWrapper::sub(number("14.36"), number("14.36")).as_tuple() == (0, 0));
}

#[test]
fn test_divide() {
    assert!(
        DecimalNumberWrapper::div(number("6.0"), number("3.0")).unwrap().as_tuple() == (2, 0)
    );

    assert!(
        DecimalNumberWrapper::div(number("5.0"), number("2.0")).unwrap().as_tuple() == (2, 500)
    );

    assert!(
        DecimalNumberWrapper::div(number("1.345"), number("2.132")).unwrap().as_tuple()
            == (0, 630)
    );
}

#[test]
fn add_and_mul_do_not_depend_on_the_order() {
    let values = [(0, 0), (0, 1), (1, 320), (0, 30), (4, 400), (12, 999), (4_000_000, 7)];
    for a in values {
        for b in values {
            assert_eq!(checked_add(a, b), checked_add(b, a));
            assert_eq!(checked_mul(a, b), checked_mul(b, a));
        }
    }
}

#[test]
fn sub_is_zero_where_the_first_is_not_larger() {
    assert_eq!(saturating_sub((12, 360), (12, 361)), (0, 0));
    assert_eq!(saturating_sub((0, 0), (0, 0)), (0, 0));
    assert_eq!(saturating_sub((7, 1), (7, 1)), (0, 0));
    assert_eq!(saturating_sub((7, 1), (7, 0)), (0, 1));
    assert_eq!(saturating_sub((u32::MAX, 999), (0, 1)), (u32::MAX, 998));
}

#[test]
fn div_fails_exactly_on_a_zero_divisor() {
    assert_eq!(checked_div((5, 0), (0, 0)), Err(VotingSystemError::DivisionByZero));
    assert_eq!(checked_div((0, 0), (0, 0)), Err(VotingSystemError::DivisionByZero));
    assert_eq!(checked_div((0, 0), (0, 1)), Ok((0, 0)));
    assert_eq!(checked_div((1, 0), (0, 1)), Ok((1000, 0)));
    assert_eq!(
        DecimalNumberWrapper::div(pair(1, 0), pair(0, 0)),
        Err(VotingSystemError::DivisionByZero)
    );
}

#[test]
fn encoding_and_decoding_undo_each_other() {
    for raw in [0u32, 1, 999, 1000, 1001, 123456, u32::MAX] {
        let number = DecimalNumberWrapper::from_raw(raw);
        assert!(number.fractional < 1000);
        assert_eq!(number.as_raw(), raw);
        assert_eq!(number.checked_as_raw(), Some(raw));
    }
    assert_eq!(pair(4_294_967, 295).checked_as_raw(), Some(u32::MAX));
    assert_eq!(pair(4_294_967, 296).checked_as_raw(), None);
    assert_eq!(DecimalNumberWrapper::prepare_number(pair(u32::MAX, 999)), 4_294_967_295_999);
    assert_eq!(DecimalNumberPersist::prepare_number(persist(12, 74)), 12074);
    assert_eq!(DecimalNumberPersist::from((12, 74)), persist(12, 74));
    assert_eq!(DecimalNumberPersist::from((12, 7400)).as_tuple(), (12, 7400));
    assert_eq!(DecimalNumberWrapper::from(12074), pair(12, 74));
}

#[test]
fn construction_rejects_a_long_fractional_part() {
    assert_eq!(
        DecimalNumberWrapper::from_tuple((0, 1000)),
        Err(VotingSystemError::InvalidFractional)
    );
    assert_eq!(DecimalNumberWrapper::from_tuple((7, 999)).unwrap().as_tuple(), (7, 999));
    assert_eq!(DecimalNumberPersist::new(1, 1000), Err(VotingSystemError::InvalidFractional));
    assert_eq!(
        DecimalNumberPersist { whole: 3, fractional: 5000 }.validate(),
        Err(VotingSystemError::InvalidFractional)
    );
    assert_eq!(persist(3, 500).validate(), Ok(persist(3, 500)));
    assert_eq!(
        DecimalNumberWrapper { whole: 1, fractional: 1000 }.validate(),
        Err(VotingSystemError::InvalidFractional)
    );
    assert_eq!(checked_add((0, 1000), (0, 0)), Err(VotingSystemError::InvalidFractional));
    assert_eq!(checked_mul((1, 0), (0, 1000)), Err(VotingSystemError::InvalidFractional));
}

#[test]
fn results_that_do_not_fit_are_overflows() {
    assert_eq!(checked_add((u32::MAX, 999), (0, 1)), Err(VotingSystemError::ArithmeticOverflow));
    assert_eq!(checked_add((u32::MAX, 998), (0, 1)), Ok((u32::MAX, 999)));
    assert_eq!(
        checked_mul((65_536, 0), (65_536, 0)),
        Err(VotingSystemError::ArithmeticOverflow)
    );
    assert_eq!(checked_mul((65_535, 0), (65_536, 0)), Ok((4_294_901_760, 0)));
    assert_eq!(checked_mul((u32::MAX, 999), (1, 0)), Ok((u32::MAX, 999)));
    assert_eq!(
        checked_mul((u32::MAX, 999), (u32::MAX, 999)),
        Err(VotingSystemError::ArithmeticOverflow)
    );
    assert_eq!(checked_div((u32::MAX, 0), (0, 1)), Err(VotingSystemError::ArithmeticOverflow));
}

#[test]
fn products_and_quotients_are_truncated() {
    assert_eq!(checked_mul((0, 1), (0, 999)), Ok((0, 0)));
    assert_eq!(checked_mul((0, 33), (0, 33)), Ok((0, 1)));
    assert_eq!(checked_mul((0, 999), (0, 999)), Ok((0, 998)));
    assert_eq!(checked_div((1, 0), (3, 0)), Ok((0, 333)));
    assert_eq!(checked_div((2, 0), (3, 0)), Ok((0, 666)));
}

#[test]
fn text_is_read_as_the_digits_say() {
    assert_eq!(parse_decimal("0.0"), Ok((0, 0)));
    assert_eq!(parse_decimal("1.0"), Ok((1, 0)));
    assert_eq!(parse_decimal("1.000"), Ok((1, 0)));
    assert_eq!(parse_decimal("1.0000"), Ok((1, 0)));
    assert_eq!(parse_decimal("0.001"), Ok((0, 1)));
    assert_eq!(parse_decimal("0.01"), Ok((0, 10)));
    assert_eq!(parse_decimal("0.020"), Ok((0, 20)));
    assert_eq!(parse_decimal("0.1"), Ok((0, 100)));
    assert_eq!(parse_decimal("0.12"), Ok((0, 120)));
    assert_eq!(parse_decimal("12.361"), Ok((12, 361)));
    assert_eq!(parse_decimal(" 7 . 5 "), Ok((7, 500)));
    assert_eq!(parse_decimal("+7.+5"), Ok((7, 500)));
    assert_eq!(parse_decimal("4294967295.999"), Ok((u32::MAX, 999)));
}

#[test]
fn text_that_is_no_number_is_rejected() {
    assert_eq!(parse_decimal(""), Err(VotingSystemError::MalformedDecimal));
    assert_eq!(parse_decimal("12"), Err(VotingSystemError::MalformedDecimal));
    assert_eq!(parse_decimal("1.2.3"), Err(VotingSystemError::MalformedDecimal));
    assert_eq!(parse_decimal(".5"), Err(VotingSystemError::MalformedDecimal));
    assert_eq!(parse_decimal("5."), Err(VotingSystemError::MalformedDecimal));
    assert_eq!(parse_decimal("a.5"), Err(VotingSystemError::MalformedDecimal));
    assert_eq!(parse_decimal("-1.5"), Err(VotingSystemError::MalformedDecimal));
    assert_eq!(parse_decimal("1.5x"), Err(VotingSystemError::MalformedDecimal));
    assert_eq!(parse_decimal("4294967296.0"), Err(VotingSystemError::MalformedDecimal));
    assert_eq!(parse_decimal("1.5000"), Err(VotingSystemError::InvalidFractional));
    assert_eq!(parse_decimal("0.0001"), Err(VotingSystemError::InvalidFractional));
    assert_eq!(parse_decimal("1.1234"), Err(VotingSystemError::InvalidFractional));
    assert_eq!(
        DecimalNumberWrapper::new("1,5"),
        Err(VotingSystemError::MalformedDecimal)
    );
}
