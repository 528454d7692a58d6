use elm_json::text::{
    chars_equal, chars_less, chars_of, join_strings, parse_u64, split_chars, str_equal, str_less,
    string_of_chars, u64_to_string,
};

fn cs(text: &str) -> Vec<char> {
    text.chars().collect()
}

#[test]
fn numbers_are_written_in_decimal() {
    assert_eq!(u64_to_string(0), "0");
    assert_eq!(u64_to_string(7), "7");
    assert_eq!(u64_to_string(10), "10");
    assert_eq!(u64_to_string(1234567890), "1234567890");
    assert_eq!(u64_to_string(u64::MAX), "18446744073709551615");
}

#[test]
fn numbers_are_read_from_decimal() {
    assert_eq!(parse_u64(&cs("0")), Some(0));
    assert_eq!(parse_u64(&cs("007")), Some(7));
    assert_eq!(parse_u64(&cs("+42")), Some(42));
    assert_eq!(parse_u64(&cs("18446744073709551615")), Some(u64::MAX));
    assert_eq!(parse_u64(&cs("18446744073709551616")), None);
    assert_eq!(parse_u64(&cs("99999999999999999999999")), None);
    assert_eq!(parse_u64(&cs("")), None);
    assert_eq!(parse_u64(&cs("+")), None);
    assert_eq!(parse_u64(&cs("-1")), None);
    assert_eq!(parse_u64(&cs("1 ")), None);
    assert_eq!(parse_u64(&cs("1a")), None);
    assert_eq!(parse_u64(&cs("١")), None);
}

#[test]
fn text_is_cut_at_every_separator() {
    let pieces: Vec<String> =
        split_chars(&cs("a.bc..d"), '.').iter().map(string_of_chars).collect();
    assert_eq!(pieces, vec!["a", "bc", "", "d"]);
    assert_eq!(split_chars(&cs(""), '.'), vec![Vec::<char>::new()]);
    assert_eq!(split_chars(&cs("."), '.').len(), 2);
    assert_eq!(split_chars(&cs("abc"), '.'), vec![cs("abc")]);
}

#[test]
fn pieces_are_joined_with_the_separator() {
    let parts = vec!["a".to_string(), "b".to_string(), "c".to_string()];
    assert_eq!(join_strings(&parts, ", "), "a, b, c");
    assert_eq!(join_strings(&vec!["only".to_string()], ", "), "only");
    assert_eq!(join_strings(&vec![], ", "), "");
}

#[test]
fn text_compares_in_dictionary_order() {
    assert!(str_less("", "a"));
    assert!(str_less("a", "ab"));
    assert!(str_less("ab", "b"));
    assert!(str_less("a-b", "a/b"));
    assert!(!str_less("b", "ab"));
    assert!(!str_less("a", "a"));
    assert!(str_equal("abc", "abc"));
    assert!(!str_equal("abc", "abd"));
    assert!(!str_equal("abc", "ab"));
    assert!(chars_less(&cs("x"), &cs("y")));
    assert!(chars_equal(&cs("é"), &chars_of("é")));
    assert_eq!(chars_of("héllo").len(), 5);
    assert_eq!(str_less("elm", "elm-explorations"), "elm" < "elm-explorations");
}
