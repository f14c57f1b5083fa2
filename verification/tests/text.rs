use subc::text::{
    chars_of, decimal_chars, join_chars, lines_chars, replace_all_chars, replace_first_chars,
    same_chars, split_chars, starts_with, string_of, trim_chars,
};

fn text(v: &Vec<char>) -> String {
    string_of(v)
}

#[test]
fn split_then_join_gives_back_the_text() {
    let s = chars_of("a,,b,c,");
    let parts = split_chars(&s, ',');
    assert_eq!(parts.len(), 5);
    assert_eq!(text(&join_chars(&parts, &chars_of(","))), "a,,b,c,");
}

#[test]
fn join_then_split_gives_back_the_pieces() {
    let parts = vec![chars_of("x"), chars_of(""), chars_of("yz")];
    let joined = join_chars(&parts, &chars_of(";"));
    assert_eq!(text(&joined), "x;;yz");
    assert_eq!(split_chars(&joined, ';'), parts);
}

#[test]
fn lines_drop_newlines_and_carriage_returns() {
    let ls = lines_chars(&chars_of("a\r\nb\n\nc"));
    let got: Vec<String> = ls.iter().map(text).collect();
    assert_eq!(got, vec!["a", "b", "", "c"]);
    assert!(lines_chars(&chars_of("")).is_empty());
    assert_eq!(lines_chars(&chars_of("x\n")).len(), 1);
}

#[test]
fn replace_all_and_first() {
    let s = chars_of("a//b//c");
    assert_eq!(text(&replace_all_chars(&s, &chars_of("//"), &chars_of(""))), "abc");
    assert_eq!(text(&replace_first_chars(&s, &chars_of("//"), &chars_of(":"))), "a:b//c");
}

#[test]
fn trim_and_compare() {
    assert_eq!(text(&trim_chars(&chars_of(" \t x y \n"))), "x y");
    assert!(starts_with(&chars_of("https://x"), &chars_of("https://")));
    assert!(!starts_with(&chars_of("http"), &chars_of("https://")));
    assert!(same_chars(&chars_of("ab"), &chars_of("ab")));
    assert!(!same_chars(&chars_of("ab"), &chars_of("abc")));
}

#[test]
fn decimal_digits() {
    assert_eq!(text(&decimal_chars(0)), "0");
    assert_eq!(text(&decimal_chars(300)), "300");
    assert_eq!(text(&decimal_chars(u64::MAX)), "18446744073709551615");
}
