use base_converter::{
    base_to_base, base_to_decimal, check_base, decimal_to_base, CheckBaseError, ConversionError,
    BASE10, BASE16, BASE2, BASE8,
};

#[test]
fn test_check_base() {
    assert_eq!(
        check_base("").unwrap_err(),
        CheckBaseError::BaseLenTooShort(String::from(""))
    );
    assert_eq!(
        check_base("x").unwrap_err(),
        CheckBaseError::BaseLenTooShort(String::from("x"))
    );
    assert_eq!(
        check_base("xx").unwrap_err(),
        CheckBaseError::DuplicateCharInBase {
            base: String::from("xx"),
            c: 'x',
        }
    );
}

#[test]
fn test_base_to_decimal() {
    assert_eq!(51966, base_to_decimal("CAFE", BASE16).unwrap());
    assert_eq!(42, base_to_decimal("101010", BASE2).unwrap());
    assert_eq!(0, base_to_decimal("0", BASE8).unwrap());
    assert_eq!(0, base_to_decimal("", BASE8).unwrap());
}

#[test]
fn test_decimal_to_base() {
    assert_eq!("CAFE", decimal_to_base(51966, BASE16).unwrap());
    assert_eq!("0", decimal_to_base(0, BASE8).unwrap());
    assert_eq!("x", decimal_to_base(0, "xyz").unwrap());
}

#[test]
fn test_base_to_base() {
    let err = base_to_base("25", "01234", "1123").unwrap_err();
    assert_eq!(
        err,
        ConversionError::CharNotFoundInBase {
            base: String::from("01234"),
            c: '5',
        }
    );
}

#[test]
fn test_round_trip_preserves_value() {
    let value = base_to_decimal("2A7", BASE16).unwrap();
    assert_eq!(679, value);
    let in_binary = decimal_to_base(value, BASE2).unwrap();
    let back = base_to_decimal(&in_binary, BASE2).unwrap();
    assert_eq!(value, back);
    assert_eq!("2A7", decimal_to_base(back, BASE16).unwrap());
}

#[test]
fn test_zero_handling() {
    assert_eq!(0, base_to_decimal("", BASE2).unwrap());
    assert_eq!(0, base_to_decimal("", "xyz").unwrap());
    assert_eq!("0", decimal_to_base(0, BASE2).unwrap());
    assert_eq!("x", decimal_to_base(0, "xyz").unwrap());
}

#[test]
fn test_check_base_valid_alphabets() {
    assert!(check_base(BASE2).is_ok());
    assert!(check_base(BASE8).is_ok());
    assert!(check_base(BASE10).is_ok());
    assert!(check_base(BASE16).is_ok());
}

#[test]
fn test_check_base_reports_first_duplicate() {
    assert_eq!(
        check_base("abcb").unwrap_err(),
        CheckBaseError::DuplicateCharInBase {
            base: String::from("abcb"),
            c: 'b',
        }
    );
    assert_eq!(
        check_base("aabb").unwrap_err(),
        CheckBaseError::DuplicateCharInBase {
            base: String::from("aabb"),
            c: 'a',
        }
    );
}

#[test]
fn test_decode_weight_overflow() {
    let number = format!("1{}", "0".repeat(64));
    let err = base_to_decimal(&number, BASE2).unwrap_err();
    assert_eq!(
        err,
        ConversionError::ConversionOverflow {
            base: String::from("01"),
            base_length: 2,
            power: 64,
        }
    );
}

#[test]
fn test_decode_accumulation_overflow() {
    let err = base_to_decimal("99999999999999999999", BASE10).unwrap_err();
    assert_eq!(
        err,
        ConversionError::ConversionOverflow {
            base: String::from("0123456789"),
            base_length: 10,
            power: 19,
        }
    );
}

#[test]
fn test_decode_largest_value() {
    let number = decimal_to_base(usize::MAX, BASE16).unwrap();
    assert_eq!(usize::MAX, base_to_decimal(&number, BASE16).unwrap());
}

#[test]
fn test_decode_invalid_base_errors() {
    assert_eq!(
        base_to_decimal("1", "x").unwrap_err(),
        ConversionError::BaseLenTooShort(String::from("x"))
    );
    assert_eq!(
        base_to_decimal("1", "xx").unwrap_err(),
        ConversionError::DuplicateCharInBase {
            base: String::from("xx"),
            c: 'x',
        }
    );
}

#[test]
fn test_encode_invalid_base_errors() {
    assert_eq!(
        decimal_to_base(5, "").unwrap_err(),
        CheckBaseError::BaseLenTooShort(String::from(""))
    );
    assert_eq!(
        decimal_to_base(5, "zz").unwrap_err(),
        CheckBaseError::DuplicateCharInBase {
            base: String::from("zz"),
            c: 'z',
        }
    );
}

#[test]
fn test_base_to_base_destination_errors() {
    assert_eq!(
        base_to_base("1", "01", "z").unwrap_err(),
        ConversionError::BaseLenTooShort(String::from("z"))
    );
    assert_eq!(
        base_to_base("1", "01", "zz").unwrap_err(),
        ConversionError::DuplicateCharInBase {
            base: String::from("zz"),
            c: 'z',
        }
    );
}

#[test]
fn test_non_ascii_alphabets() {
    assert!(check_base("🦀🚀").is_ok());
    assert_eq!(
        check_base("🦀🦀").unwrap_err(),
        CheckBaseError::DuplicateCharInBase {
            base: String::from("🦀🦀"),
            c: '🦀',
        }
    );
    assert_eq!(5, base_to_decimal("🚀🦀🚀", "🦀🚀").unwrap());
    assert_eq!("5", base_to_base("🚀🦀🚀", "🦀🚀", BASE10).unwrap());
    assert_eq!("🚀🦀🚀", base_to_base("5", BASE10, "🦀🚀").unwrap());
}

#[test]
fn test_base_to_base_known_conversion() {
    assert_eq!("101010", base_to_base("42", BASE10, BASE2).unwrap());
    assert_eq!("CAFE", base_to_base("1100101011111110", BASE2, BASE16).unwrap());
}
