//! The errors of the library.
use crate::json::{Json, JsonView};
use crate::{json, text};
use vstd::prelude::*;
use vstd::string::*;

verus! {

/// What went wrong; the texts are the messages of the underlying errors.
#[derive(Debug)]
pub enum Error {
    Http(String),
    Provider { status: u16, body: String },
    Tool(String),
    Store(String),
    Io(String),
    Json(String),
    Regex(String),
    Config(String),
    Cancelled,
    ApprovalClosed,
}

/// What an error holds.
pub enum ErrorView {
    Http(Seq<char>),
    Provider { status: u16, body: Seq<char> },
    Tool(Seq<char>),
    Store(Seq<char>),
    Io(Seq<char>),
    Json(Seq<char>),
    Regex(Seq<char>),
    Config(Seq<char>),
    Cancelled,
    ApprovalClosed,
}

impl ErrorView {
    /// The message of the error.
    pub open spec fn message(self) -> Seq<char> {
        match self {
            ErrorView::Http(m) => "http error: "@ + m,
            ErrorView::Provider { status, body } => "provider returned status "@ + text::decimal(
                status as nat,
            ) + ": "@ + body,
            ErrorView::Tool(m) => "tool error: "@ + m,
            ErrorView::Store(m) => "store error: "@ + m,
            ErrorView::Io(m) => "io error: "@ + m,
            ErrorView::Json(m) => "json error: "@ + m,
            ErrorView::Regex(m) => "regex error: "@ + m,
            ErrorView::Config(m) => "config error: "@ + m,
            ErrorView::Cancelled => "cancelled"@,
            ErrorView::ApprovalClosed => "approval channel closed"@,
        }
    }
}

impl Error {
    pub open spec fn view(self) -> ErrorView {
        match self {
            Error::Http(m) => ErrorView::Http(m@),
            Error::Provider { status, body } => ErrorView::Provider { status, body: body@ },
            Error::Tool(m) => ErrorView::Tool(m@),
            Error::Store(m) => ErrorView::Store(m@),
            Error::Io(m) => ErrorView::Io(m@),
            Error::Json(m) => ErrorView::Json(m@),
            Error::Regex(m) => ErrorView::Regex(m@),
            Error::Config(m) => ErrorView::Config(m@),
            Error::Cancelled => ErrorView::Cancelled,
            Error::ApprovalClosed => ErrorView::ApprovalClosed,
        }
    }

    /// The message of the error.
    pub fn message(&self) -> (r: String)
        ensures
            r@ == self@.message(),
    {
        match self {
            Error::Http(m) => text::concat2("http error: ", m.as_str()),
            Error::Provider { status, body } => {
                let n = text::decimal_of(*status as u64);
                let mut out = text::concat3("provider returned status ", n.as_str(), ": ");
                out.append(body.as_str());
                out
            },
            Error::Tool(m) => text::concat2("tool error: ", m.as_str()),
            Error::Store(m) => text::concat2("store error: ", m.as_str()),
            Error::Io(m) => text::concat2("io error: ", m.as_str()),
            Error::Json(m) => text::concat2("json error: ", m.as_str()),
            Error::Regex(m) => text::concat2("regex error: ", m.as_str()),
            Error::Config(m) => text::concat2("config error: ", m.as_str()),
            Error::Cancelled => "cancelled".to_owned(),
            Error::ApprovalClosed => "approval channel closed".to_owned(),
        }
    }
}

/// Parses a text that holds one JSON value.
pub fn parse_json(s: &str) -> (r: Result<Json, Error>)
    ensures
        match r {
            Ok(j) => json::json_parsed(s@) == Ok::<JsonView, Seq<char>>(j@),
            Err(e) => e@ is Json && json::json_parsed(s@) == Err::<JsonView, Seq<char>>(e@->Json_0),
        },
{
    match json::parse(s) {
        Ok(j) => Ok(j),
        Err(m) => {
            let e = Error::Json(m);
            assert(e@ == ErrorView::Json(m@));
            Err(e)
        },
    }
}

/// The message of an error ends with its cause, whole, behind a few words that tell where it came
/// from.
pub proof fn messages_end_with_the_cause(m: Seq<char>, status: u16)
    ensures
        ErrorView::Http(m).message() == "http error: "@ + m,
        (ErrorView::Provider { status, body: m }).message() == "provider returned status "@
            + text::decimal(status as nat) + ": "@ + m,
        ErrorView::Tool(m).message() == "tool error: "@ + m,
        ErrorView::Store(m).message() == "store error: "@ + m,
        ErrorView::Io(m).message() == "io error: "@ + m,
        ErrorView::Json(m).message() == "json error: "@ + m,
        ErrorView::Regex(m).message() == "regex error: "@ + m,
        ErrorView::Config(m).message() == "config error: "@ + m,
        ErrorView::Cancelled.message() == "cancelled"@,
        ErrorView::ApprovalClosed.message() == "approval channel closed"@,
{
}

} // verus!
