//! One input line and what was recognised in it.

use crate::cli::Input;
use crate::json::{descend, json_parse, leaf_text, Json, JsonView};
use crate::text::{chars_of, leading_space, split, split_chars, string_of, trim_start, views};
use crate::timestamp::{instant_of, Timestamp};
use vstd::prelude::*;

verus! {

/// One input line: its text, and its structure where it was read as JSON.
#[derive(Debug, Clone, PartialEq, Eq)]
pub struct Record {
    /// The line as it was read, without its terminator.
    pub raw: String,
    /// The structured value of the line, if it has one.
    pub json: Option<Json>,
}

/// The mathematical value of a `Record`.
pub ghost struct RecordView {
    pub raw: Seq<char>,
    pub json: Option<JsonView>,
}

impl View for Record {
    type V = RecordView;

    open spec fn view(&self) -> RecordView {
        RecordView {
            raw: self.raw@,
            json: match self.json {
                Some(j) => Some(j@),
                None => None,
            },
        }
    }
}

/// Why a line gave no record.
#[derive(Debug, Copy, Clone, PartialEq, Eq, Structural)]
pub enum RecordError {
    /// The line had to be JSON and is not.
    InvalidJson,
}

impl RecordError {
    /// What to tell the user about this error.
    pub fn describe(&self) -> (r: String)
        ensures
            r@ == "failed to parse JSON line"@,
    {
        string_of(&chars_of("failed to parse JSON line"))
    }
}

/// Whether a line starts like JSON: its first character after leading
/// white space opens an object or an array.
pub open spec fn starts_like_json(line: Seq<char>) -> bool {
    let rest = trim_start(line);
    rest.len() > 0 && (rest[0] == '{' || rest[0] == '[')
}

/// The record of `line` under `input`, given what parsing the line as JSON
/// yields. `None` only where every line must be JSON and this one is not.
pub open spec fn record_of(line: Seq<char>, input: Input, parsed: Option<JsonView>) -> Option<
    RecordView,
> {
    match input {
        Input::Text => Some(RecordView { raw: line, json: None }),
        Input::Json => match parsed {
            Some(tree) => Some(RecordView { raw: line, json: Some(tree) }),
            None => None,
        },
        Input::Auto => Some(
            RecordView {
                raw: line,
                json: if starts_like_json(line) {
                    parsed
                } else {
                    None
                },
            },
        ),
    }
}

/// The record of `line` under `input`.
pub open spec fn read_record(line: Seq<char>, input: Input) -> Option<RecordView> {
    record_of(line, input, json_parse(line))
}

/// The node of `v` that the dotted path addresses.
pub open spec fn lookup(v: JsonView, dotted: Seq<char>) -> Option<JsonView> {
    descend(v, split(dotted, '.'))
}

/// The node of the record's structure that the dotted path addresses; none
/// where the record has no structure.
pub open spec fn field_of(rec: RecordView, dotted: Seq<char>) -> Option<JsonView> {
    match rec.json {
        Some(v) => lookup(v, dotted),
        None => None,
    }
}

/// The text of the field that the dotted path addresses.
pub open spec fn field_text(rec: RecordView, dotted: Seq<char>) -> Option<Seq<char>> {
    match field_of(rec, dotted) {
        Some(v) => Some(leaf_text(v)),
        None => None,
    }
}

/// The instant that the field at the dotted path denotes.
pub open spec fn timestamp_of(rec: RecordView, dotted: Seq<char>) -> Option<Timestamp> {
    match field_text(rec, dotted) {
        Some(t) => instant_of(t),
        None => None,
    }
}

/// The view of an optional value.
pub open spec fn tree_of(j: Option<Json>) -> Option<JsonView> {
    match j {
        Some(v) => Some(v@),
        None => None,
    }
}

impl Record {
    /// Builds the record of a line from the outcome of parsing it as JSON.
    /// Under `Text` and, where the line does not start like JSON, under
    /// `Auto`, the outcome is not looked at.
    pub fn from_parts(raw: String, input: Input, parsed: Option<Json>) -> (r: Result<
        Record,
        RecordError,
    >)
        ensures
            match record_of(raw@, input, tree_of(parsed)) {
                Some(v) => r matches Ok(rec) && rec@ == v,
                None => r == Err::<Record, RecordError>(RecordError::InvalidJson),
            },
    {
        match input {
            Input::Text => Ok(Record { raw, json: None }),
            Input::Json => match parsed {
                Some(tree) => Ok(Record { raw, json: Some(tree) }),
                None => Err(RecordError::InvalidJson),
            },
            Input::Auto => {
                if looks_like_json(raw.as_str()) {
                    Ok(Record { raw, json: parsed })
                } else {
                    Ok(Record { raw, json: None })
                }
            },
        }
    }

    /// Reads one line under `input`. Only a line that has to be JSON and is
    /// not gives an error.
    pub fn from_line(line: String, input: Input) -> (r: Result<Record, RecordError>)
        ensures
            match read_record(line@, input) {
                Some(v) => r matches Ok(rec) && rec@ == v,
                None => r == Err::<Record, RecordError>(RecordError::InvalidJson),
            },
    {
        let parsed = match input {
            Input::Text => None,
            Input::Json => crate::json::parse(line.as_str()),
            Input::Auto => if looks_like_json(line.as_str()) {
                crate::json::parse(line.as_str())
            } else {
                None
            },
        };
        Record::from_parts(line, input, parsed)
    }

    /// The node that the dotted path addresses.
    pub fn get_field(&self, dotted: &str) -> (r: Option<&Json>)
        ensures
            match r {
                Some(j) => field_of(self@, dotted@) == Some(j@),
                None => field_of(self@, dotted@) is None,
            },
    {
        match &self.json {
            Some(v) => get_dotted(v, dotted),
            None => None,
        }
    }

    /// The instant that the field at the dotted path denotes.
    pub fn get_timestamp(&self, dotted: &str) -> (r: Option<Timestamp>)
        ensures
            r == timestamp_of(self@, dotted@),
    {
        match self.get_field_string(dotted) {
            Some(s) => parse_timestamp(s.as_str()),
            None => None,
        }
    }

    /// The text of the field that the dotted path addresses: a string by its
    /// characters, any other value by its compact JSON text.
    pub fn get_field_string(&self, dotted: &str) -> (r: Option<String>)
        ensures
            match r {
                Some(s) => field_text(self@, dotted@) == Some(s@),
                None => field_text(self@, dotted@) is None,
            },
    {
        match self.get_field(dotted) {
            Some(v) => Some(v.leaf_text()),
            None => None,
        }
    }
}

/// Whether a line starts like JSON.
pub fn looks_like_json(s: &str) -> (r: bool)
    ensures
        r == starts_like_json(s@),
{
    let chars = chars_of(s);
    let n = leading_space(&chars);
    n < chars.len() && (chars[n] == '{' || chars[n] == '[')
}

/// Reads one JSON value.
pub fn parse_json(s: &str) -> (r: Result<Json, RecordError>)
    ensures
        match json_parse(s@) {
            Some(tree) => r matches Ok(j) && j@ == tree,
            None => r == Err::<Json, RecordError>(RecordError::InvalidJson),
        },
{
    match crate::json::parse(s) {
        Some(j) => Ok(j),
        None => Err(RecordError::InvalidJson),
    }
}

/// Walks from `v` along the dotted path: a key at an object, an index at an
/// array. Any step that cannot be taken gives `None`.
pub fn get_dotted<'a>(v: &'a Json, dotted: &str) -> (r: Option<&'a Json>)
    ensures
        match r {
            Some(j) => lookup(v@, dotted@) == Some(j@),
            None => lookup(v@, dotted@) is None,
        },
{
    let chars = chars_of(dotted);
    let parts = split_chars(&chars, '.');
    let ghost all = split(dotted@, '.');
    let mut cur: &'a Json = v;
    let mut i: usize = 0;
    proof {
        assert(all.skip(0) == all);
    }
    while i < parts.len()
        invariant
            i <= parts.len(),
            views(parts@) == all,
            all == split(dotted@, '.'),
            descend(v@, all) == descend(cur@, all.skip(i as int)),
        decreases parts.len() - i,
    {
        proof {
            assert(all.skip(i as int)[0] == parts[i as int]@);
            assert(all.skip(i as int).skip(1) == all.skip(i + 1));
        }
        match cur.child(&parts[i]) {
            Some(next) => {
                cur = next;
            },
            None => {
                proof {
                    assert(crate::json::child(cur@, all.skip(i as int)[0]) is None);
                    assert(descend(cur@, all.skip(i as int)) is None);
                }
                return None;
            },
        }
        i += 1;
    }
    Some(cur)
}

/// Reads an instant: as RFC 3339, or else as `YYYY-MM-DD HH:MM:SS` in UTC.
pub fn parse_timestamp(s: &str) -> (r: Option<Timestamp>)
    ensures
        r == instant_of(s@),
{
    Timestamp::parse(s)
}

} // verus!
