use crate::format::{find, first_of, piece};
use crate::text::{chars_of, decimal, push_decimal, string_of, texts};
use vstd::prelude::*;
use vstd::string::StringExecFns;

verus! {

/// The command that starts the editor: what `editor` holds, else what
/// `visual` holds, else `vi`.
pub open spec fn editor_of(editor: Option<Seq<char>>, visual: Option<Seq<char>>) -> Seq<char> {
    match editor {
        Some(command) => command,
        None => match visual {
            Some(command) => command,
            None => "vi"@,
        },
    }
}

/// Chooses the command that starts the editor, given what the variables
/// `EDITOR` and `VISUAL` hold.
pub fn get_editor_command(editor: Option<String>, visual: Option<String>) -> (command: String)
    ensures
        command@ == editor_of(
            match editor {
                Some(text) => Some(text@),
                None => None,
            },
            match visual {
                Some(text) => Some(text@),
                None => None,
            },
        ),
{
    match editor {
        Some(command) => command,
        None => match visual {
            Some(command) => command,
            None => String::from_str("vi"),
        },
    }
}

/// The pieces of `text` between its spaces. There is one piece more than
/// there are spaces, so some may be empty.
pub open spec fn pieces_of(text: Seq<char>) -> Seq<Seq<char>>
    decreases text.len(),
{
    let end = first_of(text, ' ');
    if 0 <= end < text.len() {
        seq![text.take(end)] + pieces_of(text.skip(end + 1))
    } else {
        seq![text]
    }
}

/// Splits a command at its spaces into the program and its arguments.
pub fn split_command(command: &str) -> (words: Vec<String>)
    ensures
        texts(words@) == pieces_of(command@),
        words.len() > 0,
{
    let text = chars_of(command);
    let mut words: Vec<String> = Vec::new();
    let mut from: usize = 0;
    assert(text@.skip(0) =~= text@);
    loop
        invariant
            from <= text.len(),
            text@ == command@,
            pieces_of(text@) == texts(words@) + pieces_of(text@.skip(from as int)),
        decreases text.len() - from,
    {
        let ghost rest = text@.skip(from as int);
        let ghost done = texts(words@);
        let end = find(&text, from, ' ');
        let word = string_of(&piece(&text, from, end));
        words.push(word);
        proof {
            assert(texts(words@) =~= done.push(word@));
            assert(rest.take(end - from) =~= text@.subrange(from as int, end as int));
        }
        if end == text.len() {
            assert(word@ =~= rest);
            assert(pieces_of(text@) =~= texts(words@));
            return words;
        }
        assert(rest.skip(end - from + 1) =~= text@.skip(end + 1));
        from = end + 1;
    }
}

/// Why the editing did not come to a good end.
#[derive(Debug, Clone, Copy, PartialEq, Eq, Structural)]
pub enum EditorFailure {
    /// The editor ended with this code, which is not zero.
    Exit(i32),
    /// The editor ended without a code.
    NoExit,
}

/// What follows from how the editor ended: all is well where its code is
/// zero.
pub fn editor_outcome(code: Option<i32>) -> (outcome: Result<(), EditorFailure>)
    ensures
        outcome == match code {
            Some(code) => if code == 0 {
                Ok::<(), EditorFailure>(())
            } else {
                Err::<(), EditorFailure>(EditorFailure::Exit(code))
            },
            None => Err::<(), EditorFailure>(EditorFailure::NoExit),
        },
{
    match code {
        Some(0) => Ok(()),
        Some(code) => Err(EditorFailure::Exit(code)),
        None => Err(EditorFailure::NoExit),
    }
}

/// The digits of `n`, behind a minus sign where it is negative.
pub open spec fn signed_decimal(n: int) -> Seq<char> {
    if n < 0 {
        seq!['-'] + decimal((-n) as nat)
    } else {
        decimal(n as nat)
    }
}

/// The message that reports `failure`.
pub open spec fn failure_message(failure: EditorFailure) -> Seq<char> {
    match failure {
        EditorFailure::Exit(code) => "EDITOR quit with non-zero exit code: "@ + signed_decimal(
            code as int,
        ),
        EditorFailure::NoExit => "failed to run EDITOR"@,
    }
}

impl EditorFailure {
    /// The message that reports this failure.
    pub fn message(&self) -> (message: String)
        ensures
            message@ == failure_message(*self),
    {
        match self {
            EditorFailure::Exit(code) => {
                let mut digits: Vec<char> = Vec::new();
                if *code < 0 {
                    digits.push('-');
                    let size: usize = if *code == i32::MIN {
                        2147483648
                    } else {
                        (-*code) as usize
                    };
                    push_decimal(&mut digits, size);
                } else {
                    push_decimal(&mut digits, *code as usize);
                }
                assert(digits@ =~= signed_decimal(*code as int));
                let mut message = String::from_str("EDITOR quit with non-zero exit code: ");
                message.append(string_of(&digits).as_str());
                message
            },
            EditorFailure::NoExit => String::from_str("failed to run EDITOR"),
        }
    }
}

} // verus!
