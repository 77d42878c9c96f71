use tsplat::text::{
    chars_of, contains_exec, parse_unsigned_exec, split_commas_exec, starts_with_exec,
    tokens_of, trim_bounds, trimmed_len,
};

fn c(s: &str) -> Vec<char> {
    s.chars().collect()
}

#[test]
fn characters_of_a_string() {
    assert_eq!(chars_of("añb\u{2580}"), vec!['a', 'ñ', 'b', '\u{2580}']);
    assert!(chars_of("").is_empty());
}

#[test]
fn trimming() {
    assert_eq!(trimmed_len(&c("ab \t\r\n")), 2);
    assert_eq!(trimmed_len(&c("  ")), 0);
    assert_eq!(trim_bounds(&c("  a b\u{2003} ")), (2, 5));
    assert_eq!(trim_bounds(&c("\u{85}")), (0, 0));
}

#[test]
fn words() {
    let t = tokens_of(&c("  element\tvertex   12 "));
    assert_eq!(t, vec![c("element"), c("vertex"), c("12")]);
    assert!(tokens_of(&c(" \u{a0} ")).is_empty());
}

#[test]
fn searching() {
    assert!(starts_with_exec(&c("format ascii"), &c("format")));
    assert!(!starts_with_exec(&c("form"), &c("format")));
    assert!(contains_exec(&c("format binary_little_endian 1.0"), &c("little")));
    assert!(!contains_exec(&c("format binary_big_endian 1.0"), &c("little")));
    assert!(contains_exec(&c("x"), &c("")));
}

#[test]
fn comma_pieces() {
    assert_eq!(split_commas_exec(&c("1,2,,3")), vec![c("1"), c("2"), c(""), c("3")]);
    assert_eq!(split_commas_exec(&c("")), vec![c("")]);
}

#[test]
fn unsigned_numbers() {
    assert_eq!(parse_unsigned_exec(&c("255"), 255), Some(255));
    assert_eq!(parse_unsigned_exec(&c("256"), 255), None);
    assert_eq!(parse_unsigned_exec(&c("+0"), 255), Some(0));
    assert_eq!(parse_unsigned_exec(&c("+"), 255), None);
    assert_eq!(parse_unsigned_exec(&c(""), 255), None);
    assert_eq!(parse_unsigned_exec(&c("1a"), 255), None);
    assert_eq!(parse_unsigned_exec(&c("18446744073709551615"), u64::MAX), Some(u64::MAX));
    assert_eq!(parse_unsigned_exec(&c("18446744073709551616"), u64::MAX), None);
}
