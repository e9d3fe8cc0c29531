use interval_sets::chinese::{Chinese, NumberToChineseParser};
use interval_sets::digits::Digits;
use interval_sets::lang::{LanguageParser, NumToLangParser, NumberConvertError};

fn make(num: u64) -> String {
    NumberToChineseParser::default()
        .number_to_text(Digits::from_u64(num, 10))
        .unwrap()
}

#[test]
fn test_single_digits() {
    let expected = ["", "一", "二", "三", "四", "五", "六", "七", "八", "九"];
    for (i, &ch) in expected.iter().enumerate().skip(1) {
        assert_eq!(make(i as u64), ch, "digit {} failed", i);
    }
}

#[test]
fn test_teens_and_tens() {
    assert_eq!(make(10), "十");
    assert_eq!(make(11), "十一");
    assert_eq!(make(20), "二十");
    assert_eq!(make(21), "二十一");
    assert_eq!(make(99), "九十九");
}

#[test]
fn test_hundreds() {
    assert_eq!(make(100), "一百");
    assert_eq!(make(101), "一百零一");
    assert_eq!(make(110), "一百一十");
    assert_eq!(make(111), "一百一十一");
    assert_eq!(make(999), "九百九十九");
}

#[test]
fn test_thousands() {
    assert_eq!(make(1000), "一千");
    assert_eq!(make(1001), "一千零一");
    assert_eq!(make(1010), "一千零一十");
    assert_eq!(make(1100), "一千一百");
    assert_eq!(make(9999), "九千九百九十九");
}

#[test]
fn test_wan_yi_sections() {
    assert_eq!(make(10_000), "一万");
    assert_eq!(make(10_001), "一万零一");
    assert_eq!(make(10_010), "一万零一十");
    assert_eq!(make(10_100), "一万零一百");
    assert_eq!(make(100_000), "十万");
    assert_eq!(make(999_999), "九十九万九千九百九十九");
}

#[test]
fn test_yi_and_zhao() {
    assert_eq!(make(100_000_000), "一亿");
    assert_eq!(make(1_0000_0001), "一亿零一");
    assert_eq!(make(1_0100_0000), "一亿零一百万");
    assert_eq!(make(2_0000_0000), "二亿");
    assert_eq!(make(10_0000_0000), "十亿");
    assert_eq!(make(1_0000_0000_0000), "一兆");
}

#[test]
fn test_large_magnitudes() {
    assert_eq!(
        make(1_1451_4191_9810),
        "一兆一千四百五十一亿四千一百九十一万九千八百一十"
    );
    assert_eq!(
        make(1234_5678_9012_3456_7890),
        "一千二百三十四京五千六百七十八兆九千零一十二亿三千四百五十六万七千八百九十"
    );
}

#[test]
fn test_zero_behavior() {
    assert_eq!(make(10005), "一万零五");
    assert_eq!(make(10050), "一万零五十");
    assert_eq!(make(1005000), "一百万零五千");
    assert_eq!(make(10000000), "一千万");
    assert_eq!(make(1000000000), "十亿");
    assert_eq!(make(1000000000000), "一兆");
}

#[test]
fn test_traditional_mode() {
    let trad = NumberToChineseParser::new(false, false, true);
    assert_eq!(
        trad.number_to_text(Digits::from_u64(10_0000_0000, 10)).unwrap(),
        "十億"
    );
    assert_eq!(
        trad.number_to_text(Digits::from_u64(1_0000_0000_0000, 10)).unwrap(),
        "一兆"
    );
}

#[test]
fn test_edge_and_error_cases() {
    let c = NumberToChineseParser::new(false, false, false);
    assert!(c.megaunit(999).is_err());
}

#[test]
fn options_change_zero_and_leading_ten() {
    let p = NumberToChineseParser::new(false, true, false);
    assert_eq!(p.number_to_text(Digits::from_u64(1005, 10)).unwrap(), "一千〇五");
    assert_eq!(p.number_to_text(Digits::from_u64(12, 10)).unwrap(), "一十二");
    assert_eq!(p.zero(), '〇');
    assert_eq!(p.digit_to_char(0), '〇');
    assert_eq!(p.digit_to_char(7), '七');
}

#[test]
fn units_and_errors() {
    let p = NumberToChineseParser::default();
    assert_eq!(p.megaunit(0), Ok(""));
    assert_eq!(p.megaunit(1), Ok("万"));
    assert_eq!(p.megaunit(11), Ok("载"));
    assert_eq!(p.megaunit(12), Err(NumberConvertError::NumberOutOfRange));
    assert_eq!(
        p.number_to_text(Digits::from_u64(0, 10)),
        Err(NumberConvertError::InvalidNumber)
    );
    // 10^48 needs a unit past the largest one
    let mut big = Digits::new(10);
    for _ in 0..48 {
        big.append(0).unwrap();
    }
    big.append(1).unwrap();
    assert_eq!(p.number_to_text(big), Err(NumberConvertError::NumberOutOfRange));
    let mut top = Digits::new(10);
    for _ in 0..44 {
        top.append(0).unwrap();
    }
    top.append(3).unwrap();
    assert_eq!(p.number_to_text(top).unwrap(), "三载");
}

#[test]
fn trait_entry_points() {
    let p = NumberToChineseParser::default();
    let via_trait = NumToLangParser::number_to_text(&p, Digits::from_u64(2024, 10)).unwrap();
    assert_eq!(via_trait, "二千零二十四");
    assert_eq!(Chinese::name(), "Chinese");
}
