use text_tools::roman::RomanNumeral;

fn value(numeral: &str) -> u32 {
    let roman = RomanNumeral::build(numeral.to_string()).ok().unwrap();
    assert!(roman.is_convertible());
    roman.to_integer()
}

#[test]
fn converts_a_numeral() {
    assert_eq!(value("MCMXCIV"), 1994);
}

#[test]
fn smaller_symbol_in_front_is_taken_away() {
    assert_eq!(value(""), 0);
    assert_eq!(value("I"), 1);
    assert_eq!(value("III"), 3);
    assert_eq!(value("IV"), 4);
    assert_eq!(value("IX"), 9);
    assert_eq!(value("XL"), 40);
    assert_eq!(value("XC"), 90);
    assert_eq!(value("CD"), 400);
    assert_eq!(value("CM"), 900);
    assert_eq!(value("LVIII"), 58);
    assert_eq!(value("MMXXVI"), 2026);
    assert_eq!(value("MMMCMXCIX"), 3999);
    assert_eq!(value("IIX"), 10);
    assert_eq!(value("IM"), 999);
    assert_eq!(value("VX"), 5);
}

#[test]
fn validity_is_about_the_symbols_only() {
    assert!(RomanNumeral::is_valid("MCMXCIV"));
    assert!(!RomanNumeral::is_valid("ABCD"));
    assert!(RomanNumeral::is_valid("mcmxciv"));
    assert!(RomanNumeral::is_valid("IIII"));
    assert!(RomanNumeral::is_valid(""));
    assert!(!RomanNumeral::is_valid("X I"));
    assert!(!RomanNumeral::is_valid("Ⅳ"));
    assert!(!RomanNumeral::is_valid("i\u{307}"));
}

#[test]
fn lower_case_is_built_but_not_converted() {
    let roman = RomanNumeral::build("xiv".to_string()).ok().unwrap();
    assert!(!roman.is_convertible());
    let roman = RomanNumeral::build("XiV".to_string()).ok().unwrap();
    assert!(!roman.is_convertible());
}

#[test]
fn build_refuses_other_characters() {
    assert_eq!(
        RomanNumeral::build("MMXQ".to_string()).err(),
        Some("Only roman characters are supported 'I, V, X, L, C, D, M'")
    );
}

#[test]
fn numeral_comes_from_the_arguments() {
    let args = vec!["prog".to_string(), "XLII".to_string()];
    let roman = RomanNumeral::build_from(args).ok().unwrap();
    assert_eq!(roman.to_integer(), 42);
    assert_eq!(
        RomanNumeral::build_from(vec!["prog".to_string()]).err(),
        Some("Didn't get a roman string")
    );
    assert_eq!(
        RomanNumeral::build_from(vec!["prog".to_string(), "42".to_string()]).err(),
        Some("Only roman characters are supported 'I, V, X, L, C, D, M'")
    );
}
