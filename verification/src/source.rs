//! Where the text comes from, and what is taken of it.

use vstd::prelude::*;
use vstd::string::*;

verus! {

/// What was asked for on the command line.
#[derive(Clone, Debug, PartialEq, Eq)]
pub struct Args {
    /// Decode the HTML entities of the text before the fragments are looked for.
    pub html_decode: bool,
    /// Read the text from standard input.
    pub stdin: bool,
    /// The directory that the fragments are stored in.
    pub output: String,
    /// The file that the text is read from.
    pub input: Option<String>,
}

impl Default for Args {
    /// The arguments of a run that was asked for nothing: no decoding, no
    /// place to read from, and the current directory to write to.
    fn default() -> (args: Args)
        ensures
            !args.html_decode,
            !args.stdin,
            args.output@ == "."@,
            args.input is None,
    {
        Args { html_decode: false, stdin: false, output: ".".to_owned(), input: None }
    }
}

/// The one place that the text is read from.
#[derive(Clone, Debug, PartialEq, Eq)]
pub enum InputSource {
    /// Standard input.
    Stdin,
    /// The file at this path.
    File(String),
}

/// Why the arguments name no place to read from.
#[derive(Clone, Copy, Debug, PartialEq, Eq, Structural)]
pub enum ConfigError {
    /// Both a file and standard input were asked for.
    BothSources,
    /// Neither a file nor standard input was asked for.
    NoSource,
}

/// The place to read from that the arguments name, where they name exactly
/// one.
pub open spec fn source_of(args: Args) -> Result<InputSource, ConfigError> {
    match (args.stdin, args.input) {
        (true, Some(_)) => Err(ConfigError::BothSources),
        (true, None) => Ok(InputSource::Stdin),
        (false, Some(path)) => Ok(InputSource::File(path)),
        (false, None) => Err(ConfigError::NoSource),
    }
}

/// The place to read the text from. Standard input and a file exclude each
/// other, and one of them has to be named.
pub fn select_source(args: &Args) -> (selected: Result<InputSource, ConfigError>)
    ensures
        selected == source_of(*args),
        args.stdin && args.input is Some ==> selected == Err::<InputSource, ConfigError>(
            ConfigError::BothSources,
        ),
{
    if args.stdin {
        match &args.input {
            Some(_) => Err(ConfigError::BothSources),
            None => Ok(InputSource::Stdin),
        }
    } else {
        match &args.input {
            Some(path) => Ok(InputSource::File(path.clone())),
            None => Err(ConfigError::NoSource),
        }
    }
}

/// Whether `char::is_whitespace` holds of a character: whether Unicode
/// lists it under White_Space.
pub uninterp spec fn is_white_space(c: char) -> bool;

/// Calls `char::is_whitespace`. Believed without proof: the answer depends
/// on the character alone.
#[verifier::external_body]
fn char_is_whitespace(c: char) -> (answer: bool)
    ensures
        answer == is_white_space(c),
{
    c.is_whitespace()
}

/// A text without the white space it begins with.
pub open spec fn trimmed_start(text: Seq<char>) -> Seq<char>
    decreases text.len(),
{
    if text.len() > 0 && is_white_space(text.first()) {
        trimmed_start(text.drop_first())
    } else {
        text
    }
}

/// A text without the white space it ends with.
pub open spec fn trimmed_end(text: Seq<char>) -> Seq<char>
    decreases text.len(),
{
    if text.len() > 0 && is_white_space(text.last()) {
        trimmed_end(text.drop_last())
    } else {
        text
    }
}

/// A text without the white space it begins and ends with.
pub open spec fn trimmed(text: Seq<char>) -> Seq<char> {
    trimmed_end(trimmed_start(text))
}

/// Cutting off a run of white space at the start of a text is the first
/// step of trimming that start.
proof fn lemma_trimmed_start_skips(text: Seq<char>, count: int)
    requires
        0 <= count <= text.len(),
        forall|i: int| 0 <= i < count ==> is_white_space(text[i]),
    ensures
        trimmed_start(text) == trimmed_start(text.subrange(count, text.len() as int)),
    decreases count,
{
    if count == 0 {
        assert(text.subrange(0, text.len() as int) =~= text);
    } else {
        let rest = text.drop_first();
        assert forall|i: int| 0 <= i < count - 1 implies is_white_space(rest[i]) by {
            assert(rest[i] == text[i + 1]);
        }
        lemma_trimmed_start_skips(rest, count - 1);
        assert(rest.subrange(count - 1, rest.len() as int) =~= text.subrange(
            count,
            text.len() as int,
        ));
    }
}

/// Cutting off a run of white space at the end of a text is the first step
/// of trimming that end.
proof fn lemma_trimmed_end_skips(text: Seq<char>, end: int)
    requires
        0 <= end <= text.len(),
        forall|i: int| end <= i < text.len() ==> is_white_space(text[i]),
    ensures
        trimmed_end(text) == trimmed_end(text.subrange(0, end)),
    decreases text.len() - end,
{
    if end == text.len() {
        assert(text.subrange(0, end) =~= text);
    } else {
        let rest = text.drop_last();
        lemma_trimmed_end_skips(rest, end);
        assert(rest.subrange(0, end) =~= text.subrange(0, end));
    }
}

/// A text without the white space it begins and ends with.
pub fn trim(text: &str) -> (kept: &str)
    ensures
        kept@ == trimmed(text@),
{
    let total: usize = text.unicode_len();
    let mut start: usize = 0;
    let mut end: usize = 0;
    let mut at: usize = 0;
    for c in chars: text.chars()
        invariant
            total == text@.len(),
            chars.seq() == text@,
            at == chars.index(),
            start <= end <= at,
            end == 0 ==> start == 0,
            end == 0 ==> forall|i: int| 0 <= i < at ==> is_white_space(text@[i]),
            end > 0 ==> forall|i: int| 0 <= i < start ==> is_white_space(text@[i]),
            end > 0 ==> start < end && !is_white_space(text@[start as int]) && !is_white_space(
                text@[end - 1],
            ),
            forall|i: int| end <= i < at ==> is_white_space(text@[i]),
    {
        if !char_is_whitespace(c) {
            if end == 0 {
                start = at;
            }
            end = at + 1;
        }
        at = at + 1;
    }
    proof {
        let tail = text@.subrange(start as int, text@.len() as int);
        if end == 0 {
            lemma_trimmed_start_skips(text@, text@.len() as int);
        } else {
            lemma_trimmed_start_skips(text@, start as int);
            assert forall|i: int| end - start <= i < tail.len() implies is_white_space(tail[i]) by {
                assert(tail[i] == text@[i + start]);
            }
            lemma_trimmed_end_skips(tail, end - start);
            assert(tail.subrange(0, end - start) =~= text@.subrange(start as int, end as int));
        }
    }
    if start == 0 && end == total {
        text
    } else {
        text.substring_char(start, end)
    }
}

/// The text that standard input gave: what was read, without the white
/// space around it, and nothing where reading failed.
pub fn stdin_text(read: Option<&str>) -> (text: String)
    ensures
        text@ == match read {
            Some(raw) => trimmed(raw@),
            None => Seq::<char>::empty(),
        },
{
    match read {
        Some(raw) => trim(raw).to_owned(),
        None => String::new(),
    }
}

} // verus!
