use vimdir::error::Error;
use vimdir::format::{find, parse_line, piece, push_line, split_lines};

fn chars(s: &str) -> Vec<char> {
    s.chars().collect()
}

fn text_of(chars: &Vec<char>) -> String {
    chars.iter().collect()
}

fn lines(text: &str) -> Vec<String> {
    split_lines(&chars(text)).iter().map(text_of).collect()
}

#[test]
fn lines_end_at_line_feeds() {
    assert_eq!(lines("a\nb\nc\n"), vec!["a", "b", "c"]);
    assert_eq!(lines("0\tx\n1\ty\n"), vec!["0\tx", "1\ty"]);
}

#[test]
fn the_last_line_needs_no_line_feed() {
    assert_eq!(lines("a\nb"), vec!["a", "b"]);
    assert_eq!(lines("a"), vec!["a"]);
}

#[test]
fn an_empty_text_has_no_line() {
    assert_eq!(lines(""), Vec::<String>::new());
}

#[test]
fn empty_lines_are_lines() {
    assert_eq!(lines("\n"), vec![""]);
    assert_eq!(lines("a\n\nb\n"), vec!["a", "", "b"]);
    assert_eq!(lines("\n\n"), vec!["", ""]);
}

#[test]
fn a_carriage_return_before_the_line_feed_is_dropped() {
    assert_eq!(lines("a\r\nb\r\n"), vec!["a", "b"]);
    assert_eq!(lines("a\r\r\n"), vec!["a\r"]);
    assert_eq!(lines("\r\n"), vec![""]);
}

#[test]
fn a_carriage_return_elsewhere_stays() {
    assert_eq!(lines("a\rb\n"), vec!["a\rb"]);
    assert_eq!(lines("a\r"), vec!["a\r"]);
    assert_eq!(lines("a\nb\r"), vec!["a", "b\r"]);
}

#[test]
fn lines_agree_with_std() {
    let texts = [
        "", "\n", "a", "a\n", "a\nb", "a\r\nb", "\r", "\r\n", "a\r", "\n\n\n", "a\n\nb", "x\r\r\n",
        "0\tone\n1\ttwo\n", "é\nü\r\n",
    ];
    for text in texts {
        let expected: Vec<String> = text.lines().map(String::from).collect();
        assert_eq!(lines(text), expected, "lines of {:?}", text);
    }
}

#[test]
fn find_gives_the_first_place() {
    let text = chars("ab\tcd\tef");
    assert_eq!(find(&text, 0, '\t'), 2);
    assert_eq!(find(&text, 2, '\t'), 2);
    assert_eq!(find(&text, 3, '\t'), 5);
    assert_eq!(find(&text, 6, '\t'), 8);
    assert_eq!(find(&text, 8, '\t'), 8);
    assert_eq!(find(&text, 0, 'z'), 8);
}

#[test]
fn piece_copies_a_range() {
    let text = chars("abcdef");
    assert_eq!(piece(&text, 1, 4), vec!['b', 'c', 'd']);
    assert_eq!(piece(&text, 0, 6), text);
    assert_eq!(piece(&text, 3, 3), Vec::<char>::new());
}

#[test]
fn a_line_carries_an_index_and_a_name() {
    assert_eq!(parse_line(&chars("0\tfile.txt")), Ok((0, String::from("file.txt"))));
    assert_eq!(parse_line(&chars("12\ta b")), Ok((12, String::from("a b"))));
    assert_eq!(parse_line(&chars("+3\tx")), Ok((3, String::from("x"))));
}

#[test]
fn the_name_may_be_empty() {
    assert_eq!(parse_line(&chars("1\t")), Ok((1, String::new())));
}

#[test]
fn a_line_with_a_second_tab_is_malformed() {
    assert_eq!(
        parse_line(&chars("0\ta\tb")),
        Err(Error::MalformedInstructionLine(String::from("0\ta\tb")))
    );
    assert_eq!(
        parse_line(&chars("1\t\t")),
        Err(Error::MalformedInstructionLine(String::from("1\t\t")))
    );
    assert_eq!(
        parse_line(&chars("\t\t")),
        Err(Error::MalformedInstructionLine(String::from("\t\t")))
    );
    assert_eq!(
        parse_line(&chars("1\ta\t")),
        Err(Error::MalformedInstructionLine(String::from("1\ta\t")))
    );
}

#[test]
fn a_second_tab_is_found_before_a_bad_index() {
    assert_eq!(
        parse_line(&chars("abc\ta\tb")),
        Err(Error::MalformedInstructionLine(String::from("abc\ta\tb")))
    );
}

#[test]
fn parse_line_with_a_bad_index_fails() {
    assert_eq!(parse_line(&chars("abc\tfile.txt")), Err(Error::BadIndex(String::from("abc"))));
    assert_eq!(parse_line(&chars("\tfile.txt")), Err(Error::BadIndex(String::new())));
    assert_eq!(parse_line(&chars("-1\tfile.txt")), Err(Error::BadIndex(String::from("-1"))));
    assert_eq!(parse_line(&chars("1 \tfile.txt")), Err(Error::BadIndex(String::from("1 "))));
    assert_eq!(
        parse_line(&chars("99999999999999999999999\tx")),
        Err(Error::BadIndex(String::from("99999999999999999999999")))
    );
}

#[test]
fn parse_line_without_a_tab_fails() {
    assert_eq!(
        parse_line(&chars("0 file.txt")),
        Err(Error::MalformedInstructionLine(String::from("0 file.txt")))
    );
    assert_eq!(parse_line(&chars("")), Err(Error::MalformedInstructionLine(String::new())));
    assert_eq!(parse_line(&chars("7")), Err(Error::MalformedInstructionLine(String::from("7"))));
}

#[test]
fn push_line_writes_index_tab_name_and_line_feed() {
    let mut out: Vec<char> = Vec::new();
    push_line(&mut out, 0, "a.txt");
    assert_eq!(text_of(&out), "0\ta.txt\n");
    push_line(&mut out, 15, "b c");
    assert_eq!(text_of(&out), "0\ta.txt\n15\tb c\n");
}

#[test]
fn a_written_line_reads_back() {
    for (index, name) in [(0usize, "a"), (7, "with space"), (1234, "ü.txt"), (9, "")] {
        let mut out: Vec<char> = Vec::new();
        push_line(&mut out, index, name);
        let read = split_lines(&out);
        assert_eq!(read.len(), 1);
        assert_eq!(parse_line(&read[0]), Ok((index, String::from(name))));
    }
}

#[test]
fn a_written_line_with_a_tab_in_the_name_does_not_read_back() {
    let mut out: Vec<char> = Vec::new();
    push_line(&mut out, 3, "tab\tin name");
    let read = split_lines(&out);
    assert_eq!(read.len(), 1);
    assert_eq!(
        parse_line(&read[0]),
        Err(Error::MalformedInstructionLine(String::from("3\ttab\tin name")))
    );
}
