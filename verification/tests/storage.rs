use flappy::storage::{load_best, save_best};

#[test]
fn nothing_stored_reads_as_zero() {
    assert_eq!(load_best(None), 0);
}

#[test]
fn stored_number_reads_back() {
    assert_eq!(load_best(Some("42")), 42);
    assert_eq!(load_best(Some("0")), 0);
    assert_eq!(load_best(Some("007")), 7);
    assert_eq!(load_best(Some("+7")), 7);
    assert_eq!(load_best(Some("4294967295")), 4294967295);
}

#[test]
fn unreadable_text_reads_as_zero() {
    assert_eq!(load_best(Some("")), 0);
    assert_eq!(load_best(Some("+")), 0);
    assert_eq!(load_best(Some("-1")), 0);
    assert_eq!(load_best(Some("-0")), 0);
    assert_eq!(load_best(Some("++3")), 0);
    assert_eq!(load_best(Some("12a")), 0);
    assert_eq!(load_best(Some(" 5")), 0);
    assert_eq!(load_best(Some("5 ")), 0);
    assert_eq!(load_best(Some("4294967296")), 0);
    assert_eq!(load_best(Some("99999999999999999999")), 0);
    assert_eq!(load_best(Some("٣")), 0);
}

#[test]
fn load_agrees_with_str_parse() {
    for text in ["", "1", "+1", "-1", "00", "4294967295", "4294967296", "1e3", "x", "12345"] {
        let expected: u32 = text.parse().ok().unwrap_or(0);
        assert_eq!(load_best(Some(text)), expected, "text {text:?}");
    }
}

#[test]
fn saved_text_is_the_decimal_writing() {
    assert_eq!(save_best(0), "0");
    assert_eq!(save_best(7), "7");
    assert_eq!(save_best(10), "10");
    assert_eq!(save_best(1234), "1234");
    assert_eq!(save_best(4294967295), "4294967295");
}

#[test]
fn saved_best_reads_back() {
    for v in [0u32, 1, 9, 10, 99, 100, 65535, 4294967294, 4294967295] {
        assert_eq!(save_best(v), v.to_string());
        assert_eq!(load_best(Some(save_best(v).as_str())), v);
    }
}
