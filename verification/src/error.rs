//! Parse failures and the top-level error kind of the analysis pipeline.
use vstd::prelude::*;
use vstd::string::StringExecFns;

use crate::text::dec_str;
use crate::text::push_decimal;

verus! {

/// The transcript field a parse failure refers to.
#[derive(Clone, Copy, Debug, PartialEq, Eq, Structural)]
pub enum FieldKind {
    Tab,
    Name,
    Text,
}

/// What went wrong while parsing one message block.
#[derive(Clone, Copy, Debug, PartialEq, Eq, Structural)]
pub enum ParseErrorKind {
    /// The field is absent from the block.
    MissingField(FieldKind),
    /// The field is present but holds this many text lines instead of one.
    WrongLineCount(FieldKind, usize),
    /// The tab text is not a bracketed, non-empty name.
    InvalidTabFormat,
}

/// A failure while parsing one message block into a log entry.
#[derive(Clone, Copy, Debug, PartialEq, Eq, Structural)]
pub struct ParseError {
    pub kind: ParseErrorKind,
}

/// The deterministic human-readable message for a parse failure: it names
/// the field and the violated rule, with the actual line count where one line
/// was required.
pub open spec fn parse_message_spec(kind: ParseErrorKind) -> Seq<char> {
    match kind {
        ParseErrorKind::MissingField(FieldKind::Tab) => "タブを格納するspanタグが見つかりません"@,
        ParseErrorKind::MissingField(FieldKind::Name) => "名前を格納するspanタグが見つかりません"@,
        ParseErrorKind::MissingField(FieldKind::Text) => "テキストを格納するspanタグが見つかりません"@,
        ParseErrorKind::WrongLineCount(FieldKind::Tab, n) => "タブ名が1行ではなく"@ + dec_str(
            n as int,
        ) + "行あります"@,
        ParseErrorKind::WrongLineCount(FieldKind::Name, n) => "名前が1行ではなく"@ + dec_str(
            n as int,
        ) + "行あります"@,
        ParseErrorKind::WrongLineCount(FieldKind::Text, n) => "テキストが1行ではなく"@ + dec_str(
            n as int,
        ) + "行あります"@,
        ParseErrorKind::InvalidTabFormat => "不正なタブ名です"@,
    }
}

impl ParseError {
    /// Renders this failure's message.
    pub fn message(&self) -> (r: String)
        ensures
            r@ == parse_message_spec(self.kind),
    {
        match self.kind {
            ParseErrorKind::MissingField(FieldKind::Tab) => String::from_str(
                "タブを格納するspanタグが見つかりません",
            ),
            ParseErrorKind::MissingField(FieldKind::Name) => String::from_str(
                "名前を格納するspanタグが見つかりません",
            ),
            ParseErrorKind::MissingField(FieldKind::Text) => String::from_str(
                "テキストを格納するspanタグが見つかりません",
            ),
            ParseErrorKind::WrongLineCount(FieldKind::Tab, n) => {
                let mut s = String::from_str("タブ名が1行ではなく");
                push_decimal(&mut s, n);
                s.append("行あります");
                s
            },
            ParseErrorKind::WrongLineCount(FieldKind::Name, n) => {
                let mut s = String::from_str("名前が1行ではなく");
                push_decimal(&mut s, n);
                s.append("行あります");
                s
            },
            ParseErrorKind::WrongLineCount(FieldKind::Text, n) => {
                let mut s = String::from_str("テキストが1行ではなく");
                push_decimal(&mut s, n);
                s.append("行あります");
                s
            },
            ParseErrorKind::InvalidTabFormat => String::from_str("不正なタブ名です"),
        }
    }
}

/// Either an I/O failure (carried as its message) or a parse failure.
#[derive(Debug)]
pub enum MyError {
    Io(String),
    Parse(ParseError),
}

impl MyError {
    /// Renders this error's message, prefixed with its kind.
    pub fn message(&self) -> (r: String)
        ensures
            match self {
                MyError::Io(m) => r@ == "IO Error: "@ + m@,
                MyError::Parse(e) => r@ == "Parse Error: "@ + parse_message_spec(e.kind),
            },
    {
        match self {
            MyError::Io(m) => {
                let mut s = String::from_str("IO Error: ");
                s.append(m.as_str());
                s
            },
            MyError::Parse(e) => {
                let mut s = String::from_str("Parse Error: ");
                let em = e.message();
                s.append(em.as_str());
                s
            },
        }
    }
}

} // verus!
