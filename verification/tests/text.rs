use vimdir::text::{chars_of, comes_before, parse_index, push_decimal};

fn chars(s: &str) -> Vec<char> {
    s.chars().collect()
}

fn digits_of(n: usize) -> String {
    let mut out: Vec<char> = Vec::new();
    push_decimal(&mut out, n);
    out.into_iter().collect()
}

#[test]
fn chars_of_gives_the_characters_in_order() {
    assert_eq!(chars_of("abc"), vec!['a', 'b', 'c']);
    assert_eq!(chars_of(""), Vec::<char>::new());
    assert_eq!(chars_of("a\tb\n"), vec!['a', '\t', 'b', '\n']);
    assert_eq!(chars_of("né"), vec!['n', 'é']);
}

#[test]
fn comes_before_is_the_lexicographic_order() {
    assert!(comes_before("a", "b"));
    assert!(!comes_before("b", "a"));
    assert!(comes_before("a", "ab"));
    assert!(!comes_before("ab", "a"));
    assert!(!comes_before("a", "a"));
    assert!(comes_before("", "a"));
    assert!(!comes_before("", ""));
    assert!(comes_before("B", "a"));
    assert!(comes_before("a-b", "a/b"));
    assert!(comes_before("file10", "file2"));
}

#[test]
fn comes_before_agrees_with_the_order_of_strings() {
    let texts = ["", "a", "b", "ab", "a/b", "a-b", "A", "é", "e", "z", "zz", "日本", "~", "/"];
    for a in texts {
        for b in texts {
            assert_eq!(comes_before(a, b), a < b, "{:?} before {:?}", a, b);
        }
    }
}

#[test]
fn parse_index_reads_decimal_digits() {
    assert_eq!(parse_index(&chars("0")), Some(0));
    assert_eq!(parse_index(&chars("7")), Some(7));
    assert_eq!(parse_index(&chars("42")), Some(42));
    assert_eq!(parse_index(&chars("007")), Some(7));
    assert_eq!(parse_index(&chars("1234567890")), Some(1234567890));
}

#[test]
fn parse_index_accepts_a_plus_sign() {
    assert_eq!(parse_index(&chars("+5")), Some(5));
    assert_eq!(parse_index(&chars("+")), None);
    assert_eq!(parse_index(&chars("++5")), None);
}

#[test]
fn parse_index_refuses_what_is_no_number() {
    assert_eq!(parse_index(&chars("")), None);
    assert_eq!(parse_index(&chars("abc")), None);
    assert_eq!(parse_index(&chars("-1")), None);
    assert_eq!(parse_index(&chars("1 ")), None);
    assert_eq!(parse_index(&chars(" 1")), None);
    assert_eq!(parse_index(&chars("1.5")), None);
    assert_eq!(parse_index(&chars("0x10")), None);
    assert_eq!(parse_index(&chars("１")), None);
}

#[test]
fn parse_index_refuses_what_does_not_fit() {
    let max = usize::MAX.to_string();
    assert_eq!(parse_index(&chars(&max)), Some(usize::MAX));
    let mut beyond = max.clone();
    beyond.push('0');
    assert_eq!(parse_index(&chars(&beyond)), None);
    assert_eq!(parse_index(&chars("99999999999999999999999999999999")), None);
    assert_eq!(parse_index(&chars("18446744073709551616")), "18446744073709551616".parse().ok());
}

#[test]
fn parse_index_agrees_with_std() {
    let texts = [
        "", "0", "00", "1", "+1", "-1", "+", "-", "12a", "a12", "4294967295", "4294967296",
        "18446744073709551615", "18446744073709551616", "+0018446744073709551615", " 3", "3\n",
    ];
    for text in texts {
        assert_eq!(parse_index(&chars(text)), text.parse::<usize>().ok(), "index in {:?}", text);
    }
}

#[test]
fn push_decimal_writes_the_digits() {
    assert_eq!(digits_of(0), "0");
    assert_eq!(digits_of(9), "9");
    assert_eq!(digits_of(10), "10");
    assert_eq!(digits_of(907), "907");
    assert_eq!(digits_of(usize::MAX), usize::MAX.to_string());
}

#[test]
fn push_decimal_appends() {
    let mut out = vec!['x', '='];
    push_decimal(&mut out, 120);
    assert_eq!(out, vec!['x', '=', '1', '2', '0']);
}

#[test]
fn digits_read_back_as_the_number() {
    for n in [0usize, 1, 9, 10, 11, 99, 100, 12345, usize::MAX - 1, usize::MAX] {
        assert_eq!(parse_index(&chars(&digits_of(n))), Some(n));
    }
}
