use dyard::text::{
    dec_exec, join_exec, lines_exec, parse_uint_exec, replace_all_exec, sort_strings,
    split_char_exec, split_once_exec, strip_suffixes_exec, trim_exec, utf8_size_upto, words_exec,
};

fn c(s: &str) -> Vec<char> {
    s.chars().collect()
}

fn s(v: &Vec<char>) -> String {
    v.iter().collect()
}

fn all(v: &Vec<Vec<char>>) -> Vec<String> {
    v.iter().map(s).collect()
}

#[test]
fn trimming_and_splitting() {
    assert_eq!(s(&trim_exec(&c(" \t x y \n"))), "x y");
    assert_eq!(all(&split_char_exec(&c("a,,b"), ',')), vec!["a", "", "b"]);
    assert_eq!(split_once_exec(&c("k:v:w"), ':').map(|(a, b)| (s(&a), s(&b))), Some(("k".to_string(), "v:w".to_string())));
    assert_eq!(all(&words_exec(&c("  one two\tthree "))), vec!["one", "two", "three"]);
    assert_eq!(all(&lines_exec(&c("a\r\nb\n\nc"))), vec!["a", "b", "", "c"]);
    assert_eq!(all(&lines_exec(&c("a\n"))), vec!["a"]);
    assert_eq!(s(&strip_suffixes_exec(&c("2cpuscpus"), &c("cpus"))), "2");
}

#[test]
fn replacing_joining_and_numbers() {
    assert_eq!(s(&replace_all_exec(&c("${A}-${A}"), &c("${A}"), &c("x"))), "x-x");
    assert_eq!(s(&join_exec(&vec![c("a"), c("b"), c("c")], &c(", "))), "a, b, c");
    assert_eq!(s(&join_exec(&vec![], &c(", "))), "");
    assert_eq!(parse_uint_exec(&c("8080"), 65535), Some(8080));
    assert_eq!(parse_uint_exec(&c("70000"), 65535), None);
    assert_eq!(parse_uint_exec(&c(""), 65535), None);
    assert_eq!(parse_uint_exec(&c("1a"), 65535), None);
    assert_eq!(s(&dec_exec(0)), "0");
    assert_eq!(s(&dec_exec(18446744073709551615)), "18446744073709551615");
}

#[test]
fn sorting_is_by_code_point() {
    let sorted = sort_strings(vec![c("b"), c("B"), c("a"), c("ab"), c("a")]);
    assert_eq!(all(&sorted), vec!["B", "a", "a", "ab", "b"]);
}

#[test]
fn utf8_sizes() {
    assert_eq!(utf8_size_upto(&c("aé€😀"), 100), Some(10));
    assert_eq!(utf8_size_upto(&c("aé€😀"), 5), None);
}
