use interval_sets::digits::{arabic_num_to_char, char_to_arabic_num, Digits, DigitsError};

#[test]
fn test_134() {
    let num = "134";
    let digits = Digits::from_string(num, 10, char_to_arabic_num).unwrap();
    assert_eq!(digits.to_string(arabic_num_to_char).unwrap(), num)
}

#[test]
fn test_2978() {
    let num: u64 = 2978;
    let digits = Digits::from_u64(num, 10);
    assert_eq!(digits.to_string(arabic_num_to_char).unwrap(), num.to_string())
}

#[test]
fn test_114514() {
    let num: u64 = 114514;
    let digits = Digits::from_u64(num, 10);
    assert_eq!(digits.to_string(arabic_num_to_char).unwrap(), "114514");
}

#[test]
fn symbols_cover_three_ranges() {
    assert_eq!(arabic_num_to_char(0), Some('0'));
    assert_eq!(arabic_num_to_char(9), Some('9'));
    assert_eq!(arabic_num_to_char(10), Some('a'));
    assert_eq!(arabic_num_to_char(35), Some('z'));
    assert_eq!(arabic_num_to_char(36), Some('A'));
    assert_eq!(arabic_num_to_char(61), Some('Z'));
    assert_eq!(arabic_num_to_char(62), None);
    assert_eq!(char_to_arabic_num('7'), Some(7));
    assert_eq!(char_to_arabic_num('f'), Some(15));
    assert_eq!(char_to_arabic_num('Z'), Some(61));
    assert_eq!(char_to_arabic_num('-'), None);
}

#[test]
fn from_u64_is_least_significant_first() {
    let d = Digits::from_u64(0x1f, 16);
    assert_eq!(d.get_u8_array(), &vec![15, 1]);
    assert_eq!(d.len(), 2);
    assert_eq!(Digits::from_u64(0, 10).len(), 0);
    assert_eq!(Digits::from_u64(255, 2).to_string(arabic_num_to_char).unwrap(), "11111111");
}

#[test]
fn append_rejects_digit_at_base() {
    let mut d = Digits::new(8);
    assert_eq!(d.append(7), Ok(()));
    assert_eq!(d.append(8), Err(DigitsError::DigitExceedLimit(8, 8)));
    assert_eq!(d.len(), 1);
}

#[test]
fn from_string_errors() {
    assert!(matches!(
        Digits::from_string("12-", 10, char_to_arabic_num),
        Err(DigitsError::NoConversionCharToNumRule('-'))
    ));
    assert!(matches!(
        Digits::from_string("1x", 10, char_to_arabic_num),
        Err(DigitsError::DigitExceedLimit(33, 10))
    ));
    assert!(matches!(
        Digits::from_string("19", 8, char_to_arabic_num),
        Err(DigitsError::DigitExceedLimit(9, 8))
    ));
}

#[test]
fn to_string_error_names_the_digit() {
    let d = Digits::from_u64(70, 64);
    assert_eq!(d.to_string(arabic_num_to_char).unwrap(), "16");
    assert_eq!(d.cast_to_string(), "16");
    let e = Digits::from_u64(62 * 64 + 3, 64);
    assert!(matches!(
        e.to_string(arabic_num_to_char),
        Err(DigitsError::NoConversionNumToCharRule(62))
    ));
    assert_eq!(e.cast_to_string(), "[62]3");
    let big = Digits::from_u64(63 * 100 + 5, 100);
    assert_eq!(big.cast_to_string(), "[63]5");
}

fn spelled(d: u8) -> Option<String> {
    match d {
        0 => Some("zero".to_string()),
        1 => Some("one".to_string()),
        _ => None,
    }
}

#[test]
fn to_string_complex_joins_pieces() {
    let d = Digits::from_u64(2, 2);
    assert_eq!(d.to_string_complex(spelled), Some("onezero".to_string()));
    let e = Digits::from_u64(2, 10);
    assert_eq!(e.to_string_complex(spelled), None);
}
