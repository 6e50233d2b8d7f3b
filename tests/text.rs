use anki_creator::text::{decimal_text, replace_char, trim};

#[test]
fn trim_removes_surrounding_white_space() {
    assert_eq!(trim("  <div>帯</div>\n\t"), "<div>帯</div>");
    assert_eq!(trim("\u{3000}語\u{3000}"), "語");
    assert_eq!(trim(" \n "), "");
    assert_eq!(trim("a b"), "a b");
}

#[test]
fn decimal_text_of_integers() {
    assert_eq!(decimal_text(0), "0");
    assert_eq!(decimal_text(42), "42");
    assert_eq!(decimal_text(-7), "-7");
    assert_eq!(decimal_text(i64::MAX), "9223372036854775807");
    assert_eq!(decimal_text(i64::MIN), "-9223372036854775808");
}

#[test]
fn replace_char_replaces_every_occurrence() {
    assert_eq!(replace_char("a\"b\"", '"', "\"\""), "a\"\"b\"\"");
    assert_eq!(replace_char("名词｜他动词", '｜', "·"), "名词·他动词");
}
