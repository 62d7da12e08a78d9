//! Access-log records and the parser of a request line.

use vstd::prelude::*;
use vstd::string::{StrSliceExecFns, StringExecFns};

verus! {

/// Why a line of input gave no record.
#[derive(Debug, PartialEq, Eq)]
pub enum ParseError {
    /// The request line, given here, holds no verb.
    NoVerb(String),
    /// The request line, given here, holds no path.
    NoPath(String),
    /// The request line, given here, holds no protocol.
    NoProtocol(String),
    /// The record could not be decoded; the text says why.
    Malformed(String),
}

impl ParseError {
    /// The text of the error.
    pub open spec fn text(self) -> Seq<char> {
        match self {
            ParseError::NoVerb(line) => "Invalid line, no verb: "@ + line@,
            ParseError::NoPath(line) => "Invalid line, no path: "@ + line@,
            ParseError::NoProtocol(line) => "Invalid line, no protocol: "@ + line@,
            ParseError::Malformed(text) => text@,
        }
    }

    /// Says what went wrong.
    pub fn message(&self) -> (text: String)
        ensures
            text@ == self.text(),
    {
        match self {
            ParseError::NoVerb(line) => String::from_str("Invalid line, no verb: ").concat(
                line.as_str(),
            ),
            ParseError::NoPath(line) => String::from_str("Invalid line, no path: ").concat(
                line.as_str(),
            ),
            ParseError::NoProtocol(line) => String::from_str("Invalid line, no protocol: ").concat(
                line.as_str(),
            ),
            ParseError::Malformed(text) => text.clone(),
        }
    }
}

/// What the source yields for one line of input.
pub type LogResult = Result<HttpLog, ParseError>;

/// The request of one access-log record: `VERB PATH PROTOCOL`.
#[derive(Debug, PartialEq, Eq)]
pub struct LogRequest {
    /// Verb of the request.
    pub verb: String,
    /// Path of the request.
    pub path: String,
    /// First segment of the path.
    pub section: String,
    /// Protocol of the request.
    pub protocol: String,
}

impl Clone for LogRequest {
    fn clone(&self) -> (res: Self)
        ensures
            res == *self,
    {
        LogRequest {
            verb: self.verb.clone(),
            path: self.path.clone(),
            section: self.section.clone(),
            protocol: self.protocol.clone(),
        }
    }
}

/// One access-log record.
#[derive(Debug, PartialEq, Eq)]
pub struct HttpLog {
    /// The remote host.
    pub remote_host: String,
    /// The RFC 931 identity.
    pub rfc931: String,
    /// The authenticated user.
    pub auth_user: String,
    /// Epoch seconds at which the request arrived.
    pub time: usize,
    /// The request: verb, path, protocol.
    pub request: LogRequest,
    /// The status code of the answer.
    pub status: u16,
    /// The size of the answer in bytes.
    pub bytes: usize,
}

impl Clone for HttpLog {
    fn clone(&self) -> (res: Self)
        ensures
            res == *self,
    {
        HttpLog {
            remote_host: self.remote_host.clone(),
            rfc931: self.rfc931.clone(),
            auth_user: self.auth_user.clone(),
            time: self.time,
            request: self.request.clone(),
            status: self.status,
            bytes: self.bytes,
        }
    }
}

/// Whether `c` is white space, as Unicode has it.
pub open spec fn is_space(c: char) -> bool {
    let n = c as u32;
    ||| 0x09 <= n <= 0x0d
    ||| n == 0x20
    ||| n == 0x85
    ||| n == 0xa0
    ||| n == 0x1680
    ||| 0x2000 <= n <= 0x200a
    ||| n == 0x2028
    ||| n == 0x2029
    ||| n == 0x202f
    ||| n == 0x205f
    ||| n == 0x3000
}

/// The first place at or behind `from` that holds no white space, or the
/// end of `text`.
pub open spec fn skip_spaces(text: Seq<char>, from: int) -> int
    decreases text.len() - from,
{
    if 0 <= from < text.len() && is_space(text[from]) {
        skip_spaces(text, from + 1)
    } else {
        from
    }
}

/// The first place at or behind `from` that holds white space, or the end
/// of `text`.
pub open spec fn skip_word(text: Seq<char>, from: int) -> int
    decreases text.len() - from,
{
    if 0 <= from < text.len() && !is_space(text[from]) {
        skip_word(text, from + 1)
    } else {
        from
    }
}

/// The words of `text` from `from` on: its longest runs without white
/// space, in their order.
pub open spec fn words_from(text: Seq<char>, from: int) -> Seq<Seq<char>>
    decreases text.len() - from,
{
    let start = skip_spaces(text, from);
    if 0 <= from <= start < text.len() {
        let end = skip_word(text, start);
        if start < end <= text.len() {
            seq![text.subrange(start, end)] + words_from(text, end)
        } else {
            Seq::empty()
        }
    } else {
        Seq::empty()
    }
}

/// The words of `text`.
pub open spec fn words(text: Seq<char>) -> Seq<Seq<char>> {
    words_from(text, 0)
}

/// Where the first segment of `path` ends, seen from `from`: before the
/// first `/` that is not the first character, or at the end.
pub open spec fn section_end(path: Seq<char>, from: int) -> int
    decreases path.len() - from,
{
    if 0 <= from < path.len() && (from == 0 || path[from] != '/') {
        section_end(path, from + 1)
    } else {
        from
    }
}

/// The section of `path`: its first segment, from the first character up
/// to the next `/`, which is left out.
pub open spec fn section_of(path: Seq<char>) -> Seq<char> {
    path.subrange(0, section_end(path, 0))
}

/// The model of a request.
pub struct RequestView {
    pub verb: Seq<char>,
    pub path: Seq<char>,
    pub section: Seq<char>,
    pub protocol: Seq<char>,
}

impl View for LogRequest {
    type V = RequestView;

    open spec fn view(&self) -> RequestView {
        RequestView {
            verb: self.verb@,
            path: self.path@,
            section: self.section@,
            protocol: self.protocol@,
        }
    }
}

/// The request that a line of three words or more stands for: verb, path
/// and protocol are its first three words.
pub open spec fn request_of(line: Seq<char>) -> RequestView {
    let found = words(line);
    RequestView {
        verb: found[0],
        path: found[1],
        section: section_of(found[1]),
        protocol: found[2],
    }
}

/// The places that the two scans reach lie between their start and the
/// end of the text.
pub proof fn lemma_scans_bounded(text: Seq<char>, from: int)
    requires
        0 <= from <= text.len(),
    ensures
        from <= skip_spaces(text, from) <= text.len(),
        skip_spaces(text, from) < text.len() ==> !is_space(text[skip_spaces(text, from)]),
        from <= skip_word(text, from) <= text.len(),
        from < text.len() && !is_space(text[from]) ==> from < skip_word(text, from),
        from <= section_end(text, from) <= text.len(),
    decreases text.len() - from,
{
    if from < text.len() {
        lemma_scans_bounded(text, from + 1);
    }
}

/// Whether `c` is white space.
fn is_whitespace(c: char) -> (space: bool)
    ensures
        space == is_space(c),
{
    let n = c as u32;
    (0x09 <= n && n <= 0x0d) || n == 0x20 || n == 0x85 || n == 0xa0 || n == 0x1680 || (0x2000
        <= n && n <= 0x200a) || n == 0x2028 || n == 0x2029 || n == 0x202f || n == 0x205f || n
        == 0x3000
}

/// The characters of `text`, one by one.
fn characters(text: &str) -> (chars: Vec<char>)
    ensures
        chars@ == text@,
{
    let mut chars: Vec<char> = Vec::new();
    for c in it: text.chars()
        invariant
            it.seq() == text@,
            chars@ == text@.take(it.index()),
    {
        chars.push(c);
        assert(chars@ =~= text@.take(it.index() + 1));
    }
    assert(chars@ =~= text@);
    chars
}

/// Passes over white space.
fn pass_spaces(chars: &Vec<char>, from: usize) -> (to: usize)
    requires
        from <= chars.len(),
    ensures
        to == skip_spaces(chars@, from as int),
        from <= to <= chars.len(),
{
    let mut to = from;
    while to < chars.len() && is_whitespace(chars[to])
        invariant
            from <= to <= chars.len(),
            skip_spaces(chars@, from as int) == skip_spaces(chars@, to as int),
        decreases chars.len() - to,
    {
        to += 1;
    }
    to
}

/// Passes over a word.
fn pass_word(chars: &Vec<char>, from: usize) -> (to: usize)
    requires
        from <= chars.len(),
    ensures
        to == skip_word(chars@, from as int),
        from <= to <= chars.len(),
{
    let mut to = from;
    while to < chars.len() && !is_whitespace(chars[to])
        invariant
            from <= to <= chars.len(),
            skip_word(chars@, from as int) == skip_word(chars@, to as int),
        decreases chars.len() - to,
    {
        to += 1;
    }
    to
}

/// The section of a path.
pub fn section(path: &str) -> (name: String)
    ensures
        name@ == section_of(path@),
{
    let chars = characters(path);
    let mut end: usize = 0;
    while end < chars.len() && (end == 0 || chars[end] != '/')
        invariant
            end <= chars.len(),
            section_end(chars@, 0) == section_end(chars@, end as int),
        decreases chars.len() - end,
    {
        end += 1;
    }
    String::from_str(path.substring_char(0, end))
}

impl LogRequest {
    /// Reads a request line: verb, path and protocol are its first three
    /// words, whatever follows them. A line of fewer words is refused, by
    /// the first part that is missing.
    pub fn from_str(line: &str) -> (outcome: Result<Self, ParseError>)
        ensures
            match outcome {
                Ok(request) => words(line@).len() >= 3 && request@ == request_of(line@),
                Err(ParseError::NoVerb(text)) => words(line@).len() == 0 && text@ == line@,
                Err(ParseError::NoPath(text)) => words(line@).len() == 1 && text@ == line@,
                Err(ParseError::NoProtocol(text)) => words(line@).len() == 2 && text@ == line@,
                Err(ParseError::Malformed(_)) => false,
            },
    {
        let chars = characters(line);
        let count = chars.len();
        let verb_start = pass_spaces(&chars, 0);
        proof {
            lemma_scans_bounded(chars@, 0);
        }
        if verb_start >= count {
            return Err(ParseError::NoVerb(String::from_str(line)));
        }
        let verb_end = pass_word(&chars, verb_start);
        proof {
            lemma_scans_bounded(chars@, verb_start as int);
        }
        let path_start = pass_spaces(&chars, verb_end);
        proof {
            lemma_scans_bounded(chars@, verb_end as int);
        }
        if path_start >= count {
            proof {
                assert(words_from(line@, verb_end as int) =~= Seq::<Seq<char>>::empty());
            }
            return Err(ParseError::NoPath(String::from_str(line)));
        }
        let path_end = pass_word(&chars, path_start);
        proof {
            lemma_scans_bounded(chars@, path_start as int);
        }
        let protocol_start = pass_spaces(&chars, path_end);
        proof {
            lemma_scans_bounded(chars@, path_end as int);
        }
        if protocol_start >= count {
            proof {
                assert(words_from(line@, path_end as int) =~= Seq::<Seq<char>>::empty());
                assert(words_from(line@, verb_end as int) == seq![
                    line@.subrange(path_start as int, path_end as int),
                ] + words_from(line@, path_end as int));
            }
            return Err(ParseError::NoProtocol(String::from_str(line)));
        }
        let protocol_end = pass_word(&chars, protocol_start);
        proof {
            lemma_scans_bounded(chars@, protocol_start as int);
            let rest = words_from(line@, protocol_end as int);
            let third = seq![line@.subrange(protocol_start as int, protocol_end as int)] + rest;
            let second = seq![line@.subrange(path_start as int, path_end as int)] + third;
            assert(words_from(line@, path_end as int) == third);
            assert(words_from(line@, verb_end as int) == second);
        }
        let path = line.substring_char(path_start, path_end);
        Ok(
            LogRequest {
                verb: String::from_str(line.substring_char(verb_start, verb_end)),
                path: String::from_str(path),
                section: section(path),
                protocol: String::from_str(line.substring_char(protocol_start, protocol_end)),
            },
        )
    }
}

} // verus!
