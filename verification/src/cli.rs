//! The configuration of one run.

use crate::text::{append_chars, chars_of, string_of};
use vstd::prelude::*;

verus! {

/// `std::path::PathBuf`. Paths are carried in the configuration and never
/// looked into here.
#[verifier::external_type_specification]
#[verifier::external_body]
pub struct ExPathBuf(std::path::PathBuf);

/// Everything a run is configured with.
#[derive(Debug, Clone)]
pub struct Args {
    /// Input paths. With none, the standard input is read.
    pub paths: Vec<std::path::PathBuf>,
    /// Input format.
    pub input: Input,
    /// Output format.
    pub output: Output,
    /// Substring that the whole line, or the chosen field, must hold.
    pub contains: Option<String>,
    /// Regular expression that the whole line, or the chosen field, must match.
    pub regex: Option<String>,
    /// Dotted path of the field that the text predicates read.
    pub field: Option<String>,
    /// Text that the whole line, or the chosen field, must equal.
    pub equals: Option<String>,
    /// Keep only records with a timestamp at or after this one (RFC 3339).
    pub since: Option<String>,
    /// Keep only records with a timestamp at or before this one (RFC 3339).
    pub until: Option<String>,
    /// Dotted path of the timestamp that `since` and `until` are held against.
    pub time_field: String,
    /// Keep only the first matches.
    pub head: Option<usize>,
    /// Keep only the last matches.
    pub tail: Option<usize>,
    /// Whether a statistics report is wanted.
    pub stats: bool,
    /// Comma-separated dotted paths of the fields to put out.
    pub select: Option<String>,
}

/// How an input line is read.
#[derive(Debug, Copy, Clone, PartialEq, Eq, Structural)]
pub enum Input {
    /// A line that starts like JSON is read as JSON where it parses.
    Auto,
    /// No line is ever read as JSON.
    Text,
    /// Every line must be JSON.
    Json,
}

/// How a matching record is put out.
#[derive(Debug, Copy, Clone, PartialEq, Eq, Structural)]
pub enum Output {
    /// The whole raw line.
    Plain,
    /// One JSON value per line.
    Ndjson,
    /// The text of the chosen field.
    Field,
}

/// Why a configuration cannot be run.
#[derive(Debug, Copy, Clone, PartialEq, Eq, Structural)]
pub enum ConfigError {
    /// The lower time bound is not an RFC 3339 instant.
    InvalidSince,
    /// The upper time bound is not an RFC 3339 instant.
    InvalidUntil,
    /// The regular expression does not compile.
    InvalidRegex,
    /// The output is to be a field and no field is named.
    FieldRequired,
}

/// The text of an optional string, empty where there is none.
pub open spec fn text_or_empty(s: Option<String>) -> Seq<char> {
    match s {
        Some(t) => t@,
        None => Seq::<char>::empty(),
    }
}

/// What to tell the user about `fault` in `args`: what is wrong, and with
/// which value.
pub open spec fn description(fault: ConfigError, args: Args) -> Seq<char> {
    match fault {
        ConfigError::InvalidSince => "invalid --since RFC3339: "@ + text_or_empty(args.since),
        ConfigError::InvalidUntil => "invalid --until RFC3339: "@ + text_or_empty(args.until),
        ConfigError::InvalidRegex => "invalid regex: "@ + text_or_empty(args.regex),
        ConfigError::FieldRequired => "--output field requires --field"@,
    }
}

impl ConfigError {
    /// What to tell the user about this fault in `args`.
    pub fn describe(&self, args: &Args) -> (r: String)
        ensures
            r@ == description(*self, *args),
    {
        let (head, value) = match self {
            ConfigError::InvalidSince => ("invalid --since RFC3339: ", &args.since),
            ConfigError::InvalidUntil => ("invalid --until RFC3339: ", &args.until),
            ConfigError::InvalidRegex => ("invalid regex: ", &args.regex),
            ConfigError::FieldRequired => {
                return string_of(&chars_of("--output field requires --field"));
            },
        };
        let mut out = chars_of(head);
        if let Some(v) = value {
            let more = chars_of(v.as_str());
            append_chars(&mut out, &more);
        }
        assert(out@ =~= description(*self, *args));
        string_of(&out)
    }
}

/// The view of an optional string.
pub open spec fn text_of(s: Option<String>) -> Option<Seq<char>> {
    match s {
        Some(t) => Some(t@),
        None => None,
    }
}

} // verus!
