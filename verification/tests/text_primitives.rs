use task_tracker::decimal::{parse_u64, push_decimal};
use task_tracker::ids::{lowest_available_id, sorted_ids};
use task_tracker::text::{
    chars_of, extend, matches_at, slice_of, split_text, string_of, strip_blanks, trim_text,
};

fn pieces(text: &str, sep: &str) -> Vec<String> {
    split_text(&chars_of(text), &chars_of(sep)).iter().map(string_of).collect()
}

fn digits(n: u64) -> String {
    let mut out = Vec::new();
    push_decimal(&mut out, n);
    string_of(&out)
}

#[test]
fn chars_and_back() {
    assert_eq!(chars_of("a€b"), vec!['a', '€', 'b']);
    assert_eq!(chars_of(""), Vec::<char>::new());
    assert_eq!(string_of(&vec!['a', '€', 'b']), "a€b");
    assert_eq!(string_of(&Vec::new()), "");
}

#[test]
fn slice_and_extend() {
    let v = chars_of("hello");
    assert_eq!(slice_of(&v, 1, 3), vec!['e', 'l']);
    assert_eq!(slice_of(&v, 2, 2), Vec::<char>::new());
    assert_eq!(slice_of(&v, 0, 5), v);
    let mut out = chars_of("ab");
    extend(&mut out, &chars_of("cd"));
    assert_eq!(out, chars_of("abcd"));
}

#[test]
fn a_separator_is_matched_where_it_stands() {
    let text = chars_of("a},b}");
    let sep = chars_of("},");
    assert!(matches_at(&text, &sep, 1));
    assert!(!matches_at(&text, &sep, 0));
    assert!(!matches_at(&text, &sep, 4));
    assert!(!matches_at(&text, &sep, 5));
    assert!(!matches_at(&text, &sep, 99));
    assert!(!matches_at(&chars_of("}"), &sep, 0));
}

#[test]
fn split_divides_at_every_separator() {
    assert_eq!(pieces("a,b,c", ","), vec!["a", "b", "c"]);
    assert_eq!(pieces("abc", ","), vec!["abc"]);
    assert_eq!(pieces("", ","), vec![""]);
    assert_eq!(pieces(",", ","), vec!["", ""]);
    assert_eq!(pieces(",a,,b,", ","), vec!["", "a", "", "b", ""]);
    assert_eq!(pieces("a},b},c}", "},"), vec!["a", "b", "c}"]);
    assert_eq!(pieces("a}},b", "},"), vec!["a}", "b"]);
    assert_eq!(pieces("a},,b", "},"), vec!["a", ",b"]);
    assert_eq!(pieces("aaa", "aa"), vec!["", "a"]);
    assert_eq!(pieces("abc", ""), vec!["abc"]);
    assert_eq!(pieces("ab", "abc"), vec!["ab"]);
}

#[test]
fn trim_takes_the_runs_at_both_ends() {
    assert_eq!(string_of(&trim_text(&chars_of("{{a{b}c}}}"), '{', '}')), "a{b}c");
    assert_eq!(string_of(&trim_text(&chars_of("}{a}{"), '{', '}')), "a");
    assert_eq!(string_of(&trim_text(&chars_of("{}{}"), '{', '}')), "");
    assert_eq!(string_of(&trim_text(&chars_of(""), '{', '}')), "");
    assert_eq!(string_of(&trim_text(&chars_of("abc"), '{', '}')), "abc");
    assert_eq!(string_of(&trim_text(&chars_of("\"\"a\"b\""), '"', '"')), "a\"b");
}

#[test]
fn blanks_are_spaces_tabs_and_newlines() {
    assert_eq!(string_of(&strip_blanks(&chars_of(" a\tb\nc d \n"))), "abcd");
    assert_eq!(string_of(&strip_blanks(&chars_of("a\rb"))), "a\rb");
    assert_eq!(string_of(&strip_blanks(&chars_of(" \t\n"))), "");
    assert_eq!(string_of(&strip_blanks(&chars_of(""))), "");
}

#[test]
fn numbers_are_read() {
    assert_eq!(parse_u64(&chars_of("0")), Some(0));
    assert_eq!(parse_u64(&chars_of("007")), Some(7));
    assert_eq!(parse_u64(&chars_of("+15")), Some(15));
    assert_eq!(parse_u64(&chars_of("1700000000")), Some(1700000000));
    assert_eq!(parse_u64(&chars_of("18446744073709551615")), Some(18446744073709551615));
    assert_eq!(parse_u64(&chars_of("0018446744073709551615")), Some(18446744073709551615));
}

#[test]
fn what_is_no_number_is_not_read() {
    assert_eq!(parse_u64(&chars_of("")), None);
    assert_eq!(parse_u64(&chars_of("+")), None);
    assert_eq!(parse_u64(&chars_of("++1")), None);
    assert_eq!(parse_u64(&chars_of("-1")), None);
    assert_eq!(parse_u64(&chars_of("1+")), None);
    assert_eq!(parse_u64(&chars_of("12a")), None);
    assert_eq!(parse_u64(&chars_of(" 12")), None);
    assert_eq!(parse_u64(&chars_of("1.5")), None);
    assert_eq!(parse_u64(&chars_of("١٢")), None);
    assert_eq!(parse_u64(&chars_of("18446744073709551616")), None);
    assert_eq!(parse_u64(&chars_of("99999999999999999999999")), None);
}

#[test]
fn numbers_are_written_without_leading_zeros() {
    assert_eq!(digits(0), "0");
    assert_eq!(digits(9), "9");
    assert_eq!(digits(10), "10");
    assert_eq!(digits(1700000000), "1700000000");
    assert_eq!(digits(18446744073709551615), "18446744073709551615");
}

#[test]
fn written_numbers_are_read_back() {
    for n in [0u64, 1, 9, 10, 99, 100, 12345, u64::MAX - 1, u64::MAX] {
        let mut out = Vec::new();
        push_decimal(&mut out, n);
        assert_eq!(parse_u64(&out), Some(n));
    }
}

#[test]
fn push_decimal_appends() {
    let mut out = chars_of("id:");
    push_decimal(&mut out, 42);
    assert_eq!(string_of(&out), "id:42");
}

#[test]
fn ids_are_sorted_with_their_repeats() {
    assert_eq!(sorted_ids(&vec![3, 1, 2, 1, 0]), vec![0, 1, 1, 2, 3]);
    assert_eq!(sorted_ids(&Vec::new()), Vec::<u64>::new());
    assert_eq!(sorted_ids(&vec![u64::MAX, 0]), vec![0, u64::MAX]);
}

#[test]
fn the_lowest_available_id_is_the_first_gap() {
    assert_eq!(lowest_available_id(&vec![0, 1, 2, 4]), 3);
    assert_eq!(lowest_available_id(&Vec::new()), 0);
    assert_eq!(lowest_available_id(&vec![1, 2, 3]), 0);
    assert_eq!(lowest_available_id(&vec![2, 1, 0]), 3);
    assert_eq!(lowest_available_id(&vec![0, 0, 1, 1, 3]), 2);
    assert_eq!(lowest_available_id(&vec![u64::MAX]), 0);
}
