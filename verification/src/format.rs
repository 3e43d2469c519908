use crate::error::{Error, ErrorView};
use crate::text::{decimal, index_in, lemma_index_in_decimal, parse_index, push_decimal, string_of};
use vstd::prelude::*;

verus! {

/// The place of the first `c` in `s`, or the length of `s` where it holds no
/// `c`.
pub open spec fn first_of(s: Seq<char>, c: char) -> int
    decreases s.len(),
{
    if s.len() == 0 || s[0] == c {
        0
    } else {
        1 + first_of(s.drop_first(), c)
    }
}

/// `first_of` is the place `k` where `c` stands at `k`, or `s` ends there,
/// and no `c` stands before `k`.
pub proof fn lemma_first_of(s: Seq<char>, c: char, k: int)
    requires
        0 <= k <= s.len(),
        forall|j: int| 0 <= j < k ==> s[j] != c,
        k < s.len() ==> s[k] == c,
    ensures
        first_of(s, c) == k,
    decreases k,
{
    if k > 0 {
        let rest = s.drop_first();
        assert forall|j: int| 0 <= j < k - 1 implies rest[j] != c by {
            assert(rest[j] == s[j + 1]);
        }
        lemma_first_of(rest, c, k - 1);
    }
}

/// `first_of` lies within `s`, at a `c` unless it is the end, and behind no
/// `c`.
pub proof fn lemma_first_of_is_first(s: Seq<char>, c: char)
    ensures
        0 <= first_of(s, c) <= s.len(),
        first_of(s, c) < s.len() ==> s[first_of(s, c)] == c,
        forall|j: int| 0 <= j < first_of(s, c) ==> s[j] != c,
    decreases s.len(),
{
    if !(s.len() == 0 || s[0] == c) {
        let rest = s.drop_first();
        lemma_first_of_is_first(rest, c);
        assert forall|j: int| 0 <= j < first_of(s, c) implies s[j] != c by {
            if j > 0 {
                assert(rest[j - 1] == s[j]);
            }
        }
    }
}

/// `line` without the carriage return that may stand at its end.
pub open spec fn without_carriage_return(line: Seq<char>) -> Seq<char> {
    if line.len() > 0 && line.last() == '\r' {
        line.drop_last()
    } else {
        line
    }
}

/// The lines of `text`. A line ends at a line feed, which is no part of it,
/// nor is a carriage return just before that line feed; what stands behind
/// the last line feed is a line unless it is empty.
pub open spec fn lines_of(text: Seq<char>) -> Seq<Seq<char>>
    decreases text.len(),
{
    if text.len() == 0 {
        Seq::empty()
    } else {
        let end = first_of(text, '\n');
        if 0 <= end < text.len() {
            seq![without_carriage_return(text.take(end))] + lines_of(text.skip(end + 1))
        } else {
            seq![text]
        }
    }
}

/// What stands before the first tab of `line`.
pub open spec fn index_text(line: Seq<char>) -> Seq<char> {
    line.take(first_of(line, '\t'))
}

/// What stands behind the first tab of `line`.
pub open spec fn name_text(line: Seq<char>) -> Seq<char> {
    line.skip(first_of(line, '\t') + 1)
}

/// `text` holds a tab.
pub open spec fn has_tab(text: Seq<char>) -> bool {
    first_of(text, '\t') < text.len()
}

/// What is wrong with `line`, if anything: it is not made of two parts with
/// one tab between them, or its first part writes no index.
pub open spec fn line_fault(line: Seq<char>) -> Option<ErrorView> {
    if !has_tab(line) || has_tab(name_text(line)) {
        Some(ErrorView::MalformedInstructionLine(line))
    } else if index_in(index_text(line)) is None {
        Some(ErrorView::BadIndex(index_text(line)))
    } else {
        None
    }
}

/// The index that `line` carries. It has one where it has no fault.
pub open spec fn line_index(line: Seq<char>) -> usize {
    index_in(index_text(line)).unwrap()
}

/// The line that says that the entry `index` is to be called `name`.
pub open spec fn line_for(index: usize, name: Seq<char>) -> Seq<char> {
    decimal(index as nat) + seq!['\t'] + name
}

/// A line without a tab is malformed, whatever else it holds.
pub proof fn lemma_line_without_tab(line: Seq<char>)
    requires
        forall|j: int| 0 <= j < line.len() ==> line[j] != '\t',
    ensures
        line_fault(line) == Some(ErrorView::MalformedInstructionLine(line)),
{
    lemma_first_of(line, '\t', line.len() as int);
}

/// A line with more than one tab is malformed, whatever stands between
/// them.
pub proof fn lemma_line_with_two_tabs(first: Seq<char>, second: Seq<char>, third: Seq<char>)
    ensures
        line_fault(first + seq!['\t'] + second + seq!['\t'] + third) == Some(
            ErrorView::MalformedInstructionLine(
                first + seq!['\t'] + second + seq!['\t'] + third,
            ),
        ),
{
    let line = first + seq!['\t'] + second + seq!['\t'] + third;
    lemma_first_of_is_first(line, '\t');
    let tab = first_of(line, '\t');
    assert(line[first.len() as int] == '\t');
    assert(tab <= first.len());
    let rest = name_text(line);
    let later = (first.len() + 1 + second.len()) as int;
    assert(line[later] == '\t');
    assert(rest[later - tab - 1] == '\t');
    lemma_first_of_is_first(rest, '\t');
}

/// A line of two parts, with one tab between them, whose first part writes
/// no index has a bad index: its first part.
pub proof fn lemma_line_with_bad_index(before: Seq<char>, name: Seq<char>)
    requires
        forall|j: int| 0 <= j < before.len() ==> before[j] != '\t',
        forall|j: int| 0 <= j < name.len() ==> name[j] != '\t',
        index_in(before) is None,
    ensures
        line_fault(before + seq!['\t'] + name) == Some(ErrorView::BadIndex(before)),
{
    let line = before + seq!['\t'] + name;
    assert forall|j: int| 0 <= j < before.len() implies line[j] != '\t' by {
        assert(line[j] == before[j]);
    }
    assert(line[before.len() as int] == '\t');
    lemma_first_of(line, '\t', before.len() as int);
    assert(index_text(line) =~= before);
    assert(name_text(line) =~= name);
    lemma_first_of(name, '\t', name.len() as int);
}

/// The characters of `chars` from `from` up to `to`.
pub fn piece(chars: &Vec<char>, from: usize, to: usize) -> (part: Vec<char>)
    requires
        from <= to <= chars.len(),
    ensures
        part@ == chars@.subrange(from as int, to as int),
{
    let mut part: Vec<char> = Vec::new();
    let mut i: usize = from;
    while i < to
        invariant
            from <= i <= to <= chars.len(),
            part@ == chars@.subrange(from as int, i as int),
        decreases to - i,
    {
        part.push(chars[i]);
        assert(part@ =~= chars@.subrange(from as int, i + 1));
        i = i + 1;
    }
    part
}

/// The place of the first `c` at or behind `from`, or the length of `chars`.
pub fn find(chars: &Vec<char>, from: usize, c: char) -> (at: usize)
    requires
        from <= chars.len(),
    ensures
        from <= at <= chars.len(),
        at - from == first_of(chars@.skip(from as int), c),
{
    let mut at: usize = from;
    while at < chars.len() && chars[at] != c
        invariant
            from <= at <= chars.len(),
            forall|j: int| from <= j < at ==> chars@[j] != c,
        decreases chars.len() - at,
    {
        at = at + 1;
    }
    proof {
        lemma_first_of(chars@.skip(from as int), c, at - from);
    }
    at
}

/// The characters of each of `lines`.
pub open spec fn line_views(lines: Seq<Vec<char>>) -> Seq<Seq<char>> {
    lines.map_values(|line: Vec<char>| line@)
}

/// Splits `text` into its lines.
pub fn split_lines(text: &Vec<char>) -> (lines: Vec<Vec<char>>)
    ensures
        line_views(lines@) == lines_of(text@),
{
    let mut lines: Vec<Vec<char>> = Vec::new();
    let mut from: usize = 0;
    assert(text@.skip(0) =~= text@);
    assert(line_views(lines@) =~= Seq::<Seq<char>>::empty());
    while from < text.len()
        invariant
            from <= text.len(),
            lines_of(text@) == line_views(lines@) + lines_of(text@.skip(from as int)),
        decreases text.len() - from,
    {
        let ghost rest = text@.skip(from as int);
        let ghost done = line_views(lines@);
        let end = find(text, from, '\n');
        if end < text.len() {
            let stop = if end > from && text[end - 1] == '\r' {
                end - 1
            } else {
                end
            };
            let line = piece(text, from, stop);
            proof {
                assert(rest.take(end - from) =~= text@.subrange(from as int, end as int));
                assert(line@ =~= without_carriage_return(rest.take(end - from)));
                assert(rest.skip(end - from + 1) =~= text@.skip(end + 1));
            }
            lines.push(line);
            assert(line_views(lines@) =~= done.push(line@));
            from = end + 1;
        } else {
            let line = piece(text, from, end);
            proof {
                assert(line@ =~= rest);
                assert(text@.skip(end as int) =~= Seq::<char>::empty());
            }
            lines.push(line);
            assert(line_views(lines@) =~= done.push(line@));
            from = end;
        }
    }
    assert(lines_of(text@.skip(from as int)) =~= Seq::<Seq<char>>::empty());
    lines
}

/// Reads one line: the index that it carries, and the name behind the tab.
/// A line without a tab, or with more than one, is malformed.
pub fn parse_line(line: &Vec<char>) -> (record: Result<(usize, String), Error>)
    ensures
        match record {
            Ok((index, name)) => line_fault(line@) is None && index == line_index(line@) && name@
                == name_text(line@),
            Err(error) => line_fault(line@) == Some(error@),
        },
{
    assert(line@.skip(0) =~= line@);
    let tab = find(line, 0, '\t');
    if tab >= line.len() {
        return Err(Error::MalformedInstructionLine(string_of(line)));
    }
    let second = find(line, tab + 1, '\t');
    if second < line.len() {
        return Err(Error::MalformedInstructionLine(string_of(line)));
    }
    let digits = piece(line, 0, tab);
    assert(digits@ =~= index_text(line@));
    match parse_index(&digits) {
        Some(index) => {
            let rest = piece(line, tab + 1, line.len());
            assert(rest@ =~= name_text(line@));
            Ok((index, string_of(&rest)))
        },
        None => Err(Error::BadIndex(string_of(&digits))),
    }
}

/// Appends to `out` the line that says that the entry `index` is to be
/// called `name`, and a line feed.
pub fn push_line(out: &mut Vec<char>, index: usize, name: &str)
    ensures
        final(out)@ == old(out)@ + line_for(index, name@) + seq!['\n'],
{
    push_decimal(out, index);
    out.push('\t');
    let ghost before = out@;
    let all = name.chars();
    for c in it: all
        invariant
            it.seq() == name@,
            out@ == before + name@.take(it.index()),
    {
        out.push(c);
        assert(out@ =~= before + name@.take(it.index() + 1));
    }
    assert(name@.take(name@.len() as int) =~= name@);
    out.push('\n');
    assert(out@ =~= old(out)@ + line_for(index, name@) + seq!['\n']);
}

/// A line that was written for an index and a name without tab carries that
/// index and that name.
pub proof fn lemma_line_reads_back(index: usize, name: Seq<char>)
    requires
        !has_tab(name),
    ensures
        line_fault(line_for(index, name)) is None,
        line_index(line_for(index, name)) == index,
        name_text(line_for(index, name)) == name,
{
    let digits = decimal(index as nat);
    let line = line_for(index, name);
    crate::text::lemma_decimal_reads_back(index as nat);
    assert forall|j: int| 0 <= j < digits.len() implies line[j] != '\t' by {
        assert(line[j] == digits[j]);
        assert(crate::text::is_digit(digits[j]));
    }
    assert(line[digits.len() as int] == '\t');
    lemma_first_of(line, '\t', digits.len() as int);
    assert(index_text(line) =~= digits);
    assert(name_text(line) =~= name);
    lemma_index_in_decimal(index);
}

/// What the listing can hold as a file name and read back: no tab, no line
/// feed, and no carriage return at its end.
pub open spec fn can_be_listed(name: Seq<char>) -> bool {
    !has_tab(name) && fits_a_line(name)
}

/// What a line of the text can hold as it is: no line feed, and no carriage
/// return at its end.
pub open spec fn fits_a_line(line: Seq<char>) -> bool {
    &&& forall|j: int| 0 <= j < line.len() ==> line[j] != '\n'
    &&& line.len() > 0 ==> line.last() != '\r'
}

/// A text that ends where a line ends can be read piece by piece: the lines
/// of what follows it follow its lines.
pub proof fn lemma_lines_of_concat(head: Seq<char>, tail: Seq<char>)
    requires
        head.len() == 0 || head.last() == '\n',
    ensures
        lines_of(head + tail) == lines_of(head) + lines_of(tail),
    decreases head.len(),
{
    if head.len() == 0 {
        assert(head + tail =~= tail);
        assert(lines_of(head) + lines_of(tail) =~= lines_of(tail));
    } else {
        let whole = head + tail;
        lemma_first_of_is_first(head, '\n');
        let end = first_of(head, '\n');
        assert(end < head.len()) by {
            if end >= head.len() {
                assert(head[head.len() - 1] != '\n');
            }
        }
        assert forall|j: int| 0 <= j < end implies whole[j] != '\n' by {
            assert(whole[j] == head[j]);
        }
        assert(whole[end] == head[end]);
        lemma_first_of(whole, '\n', end);
        let rest = head.skip(end + 1);
        assert(whole.take(end) =~= head.take(end));
        assert(whole.skip(end + 1) =~= rest + tail);
        if rest.len() > 0 {
            assert(rest.last() == head.last());
        }
        lemma_lines_of_concat(rest, tail);
        assert(lines_of(whole) =~= lines_of(head) + lines_of(tail));
    }
}

/// A line that fits, followed by a line feed, is read as that one line.
pub proof fn lemma_one_line(line: Seq<char>)
    requires
        fits_a_line(line),
    ensures
        lines_of(line + seq!['\n']) == seq![line],
{
    let text = line + seq!['\n'];
    assert forall|j: int| 0 <= j < line.len() implies text[j] != '\n' by {
        assert(text[j] == line[j]);
    }
    assert(text[line.len() as int] == '\n');
    lemma_first_of(text, '\n', line.len() as int);
    assert(text.take(line.len() as int) =~= line);
    assert(text.skip(line.len() as int + 1) =~= Seq::<char>::empty());
    assert(without_carriage_return(line) == line);
    assert(lines_of(text.skip(line.len() as int + 1)) =~= Seq::<Seq<char>>::empty());
    assert(lines_of(text) =~= seq![line]);
}

/// A line that was written for an index and a name fits where the name does.
pub proof fn lemma_written_line_fits(index: usize, name: Seq<char>)
    requires
        fits_a_line(name),
    ensures
        fits_a_line(line_for(index, name)),
{
    let digits = decimal(index as nat);
    let line = line_for(index, name);
    crate::text::lemma_decimal_reads_back(index as nat);
    assert forall|j: int| 0 <= j < line.len() implies line[j] != '\n' by {
        if j < digits.len() {
            assert(line[j] == digits[j]);
            assert(crate::text::is_digit(digits[j]));
        } else if j > digits.len() {
            assert(line[j] == name[j - digits.len() - 1]);
        }
    }
    if name.len() > 0 {
        assert(line.last() == name.last());
    } else {
        assert(line.last() == '\t');
    }
}

} // verus!
