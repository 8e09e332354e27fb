use transaction_processor::numeric::{CurrencyAmount, CurrencyAmountParseError, CurrencyError};

#[test]
fn numeric_test_parse() {
    assert_eq!("12", CurrencyAmount::from_str("12").unwrap().to_text());
    assert_eq!("12", CurrencyAmount::from_str("12.").unwrap().to_text());
    assert_eq!("12.0", CurrencyAmount::from_str("12.0").unwrap().to_text());
    assert_eq!("12.3", CurrencyAmount::from_str("12.3").unwrap().to_text());
    assert_eq!("12.34", CurrencyAmount::from_str("12.34").unwrap().to_text());
    assert_eq!("12.345", CurrencyAmount::from_str("12.345").unwrap().to_text());
    assert_eq!("12.3456", CurrencyAmount::from_str("12.3456").unwrap().to_text());
    assert_eq!("12.34567", CurrencyAmount::from_str("12.34567").unwrap().to_text());
    assert_eq!("0.34567", CurrencyAmount::from_str("00.34567").unwrap().to_text());
    assert_eq!("0.34567", CurrencyAmount::from_str("0.34567").unwrap().to_text());
    assert_eq!("0.34567", CurrencyAmount::from_str(".34567").unwrap().to_text());
    assert_eq!("0.3456", CurrencyAmount::from_str(".3456").unwrap().to_text());
    assert_eq!("0.345", CurrencyAmount::from_str(".345").unwrap().to_text());
    assert_eq!("0.0", CurrencyAmount::from_str("0.0").unwrap().to_text());
    assert_eq!("0", CurrencyAmount::from_str("0.").unwrap().to_text());
    assert_eq!("0.0", CurrencyAmount::from_str(".0").unwrap().to_text());

    assert_eq!(
        format!("{}", i64::MAX),
        CurrencyAmount::from_str(&i64::MAX.to_string()).unwrap().to_text()
    );
}

#[test]
fn test_parse_negative() {
    assert_eq!("-12", CurrencyAmount::from_str("-12").unwrap().to_text());
    assert_eq!("-12", CurrencyAmount::from_str("-12.").unwrap().to_text());
    assert_eq!("-12.0", CurrencyAmount::from_str("-12.0").unwrap().to_text());
    assert_eq!("-12.3", CurrencyAmount::from_str("-12.3").unwrap().to_text());
    assert_eq!("-12.34", CurrencyAmount::from_str("-12.34").unwrap().to_text());
    assert_eq!("-12.345", CurrencyAmount::from_str("-12.345").unwrap().to_text());
    assert_eq!("-12.3456", CurrencyAmount::from_str("-12.3456").unwrap().to_text());
    assert_eq!("-12.34567", CurrencyAmount::from_str("-12.34567").unwrap().to_text());
    assert_eq!("-0.34567", CurrencyAmount::from_str("-00.34567").unwrap().to_text());
    assert_eq!("-0.34567", CurrencyAmount::from_str("-0.34567").unwrap().to_text());
    assert_eq!("-0.34567", CurrencyAmount::from_str("-.34567").unwrap().to_text());
    assert_eq!("-0.3456", CurrencyAmount::from_str("-.3456").unwrap().to_text());
    assert_eq!("-0.345", CurrencyAmount::from_str("-.345").unwrap().to_text());
    assert_eq!("0", CurrencyAmount::from_str("-0").unwrap().to_text());
    assert_eq!("0", CurrencyAmount::from_str("-0.").unwrap().to_text());
    assert_eq!("0.0", CurrencyAmount::from_str("-.0").unwrap().to_text());

    assert_eq!(
        format!("{}", i64::MIN),
        CurrencyAmount::from_str(&i64::MIN.to_string()).unwrap().to_text()
    );
}

#[test]
fn numeric_test_parse_fail() {
    assert_eq!(
        Err(CurrencyAmountParseError::InvalidNumericValue),
        CurrencyAmount::from_str("a")
    );
    assert_eq!(
        Err(CurrencyAmountParseError::InvalidNumericValue),
        CurrencyAmount::from_str("a.0")
    );
    assert_eq!(
        Err(CurrencyAmountParseError::InvalidNumericValue),
        CurrencyAmount::from_str("0.a")
    );
    assert_eq!(
        Err(CurrencyAmountParseError::InvalidNumericValue),
        CurrencyAmount::from_str("..")
    );
    assert_eq!(
        Err(CurrencyAmountParseError::InvalidNumericValue),
        CurrencyAmount::from_str(&i128::MAX.to_string())
    );
    assert_eq!(
        Err(CurrencyAmountParseError::InvalidNumericValue),
        CurrencyAmount::from_str("0.-5")
    );
    assert_eq!(
        Err(CurrencyAmountParseError::InvalidNumericValue),
        CurrencyAmount::from_str(".")
    );
}

#[test]
fn test_add() {
    assert_eq!(
        Ok(CurrencyAmount::from_str("579").unwrap()),
        CurrencyAmount::from_str("123")
            .unwrap()
            .checked_add(CurrencyAmount::from_str("456").unwrap())
    );
    assert_eq!(
        Ok(CurrencyAmount::from_str("123.1").unwrap()),
        CurrencyAmount::from_str("123")
            .unwrap()
            .checked_add(CurrencyAmount::from_str("0.1").unwrap())
    );
    assert_eq!(
        Ok(CurrencyAmount::from_str(&(2_i128.pow(96) - 2).to_string()).unwrap()),
        CurrencyAmount::from_str(&(2_i128.pow(95) - 1).to_string())
            .unwrap()
            .checked_add(CurrencyAmount::from_str(&(2_i128.pow(95) - 1).to_string()).unwrap())
    );
}

#[test]
fn test_sub() {
    assert_eq!(
        Ok(CurrencyAmount::from_str("-333").unwrap()),
        CurrencyAmount::from_str("123")
            .unwrap()
            .checked_sub(CurrencyAmount::from_str("456").unwrap())
    );
    assert_eq!(
        Ok(CurrencyAmount::from_str("122.9").unwrap()),
        CurrencyAmount::from_str("123")
            .unwrap()
            .checked_sub(CurrencyAmount::from_str("0.1").unwrap())
    );
    assert_eq!(
        Ok(CurrencyAmount::from_str("0").unwrap()),
        CurrencyAmount::from_str(&(2_i128.pow(95) - 1).to_string())
            .unwrap()
            .checked_sub(CurrencyAmount::from_str(&(2_i128.pow(95) - 1).to_string()).unwrap())
    );
}

#[test]
fn test_round_trip_keeps_scale() {
    for text in ["12.3456", "0.5000", "-7.10", "0", "0.0", "42"] {
        let a = CurrencyAmount::from_str(text).unwrap();
        let shown = a.to_text();
        let b = CurrencyAmount::from_str(&shown).unwrap();
        assert_eq!(a, b);
        assert_eq!(shown, b.to_text());
    }
    assert_eq!("12.3400", CurrencyAmount::from_str("12.3400").unwrap().to_text());
}

#[test]
fn test_scenario_formatting() {
    assert_eq!("12.3456", CurrencyAmount::from_str("12.3456").unwrap().to_text());
    assert_eq!("0", CurrencyAmount::from_str("-0").unwrap().to_text());
    assert_eq!("0.5", CurrencyAmount::from_str(".5").unwrap().to_text());
}

#[test]
fn test_add_commutes() {
    let a = CurrencyAmount::from_str("12.5").unwrap();
    let b = CurrencyAmount::from_str("-3.25").unwrap();
    assert_eq!(a.checked_add(b), b.checked_add(a));
    assert_eq!(Ok(CurrencyAmount::from_str("9.25").unwrap()), a.checked_add(b));
}

#[test]
fn test_add_keeps_larger_scale() {
    let a = CurrencyAmount::from_str("0.50").unwrap();
    let b = CurrencyAmount::from_str("0.50").unwrap();
    assert_eq!("1.00", a.checked_add(b).unwrap().to_text());
}

#[test]
fn test_add_out_of_bounds() {
    // the largest representable integral amount, added to itself
    let near_limit = CurrencyAmount::from_str("79228162514264337593543950335").unwrap();
    assert_eq!(Err(CurrencyError::OutOfBounds), near_limit.checked_add(near_limit));
}

#[test]
fn test_parse_equates_by_value() {
    let wide = CurrencyAmount::from_str("12.30").unwrap();
    let narrow = CurrencyAmount::from_str("12.3").unwrap();
    assert_eq!(wide, narrow);
    assert_ne!(wide.to_text(), narrow.to_text());
}

#[test]
fn test_compare_and_negate() {
    let a = CurrencyAmount::from_str("1.5").unwrap();
    let b = CurrencyAmount::from_str("2").unwrap();
    assert_eq!(core::cmp::Ordering::Less, a.compare(&b));
    assert_eq!(core::cmp::Ordering::Greater, b.compare(&a));
    assert_eq!(core::cmp::Ordering::Equal, a.compare(&a));
    assert!(!a.is_negative());
    assert!(a.neg().is_negative());
    assert_eq!("-1.5", a.neg().to_text());
    assert_eq!(core::cmp::Ordering::Less, a.neg().compare(&a));
    assert!(!CurrencyAmount::zero().is_negative());
    assert_eq!("0", CurrencyAmount::zero().to_text());
}
