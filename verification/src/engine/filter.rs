//! The predicate that decides which records are kept.

use crate::cli::{text_of, Args, ConfigError};
use crate::engine::record::{field_text, timestamp_of, Record, RecordView};
use crate::pattern::{regex_compiles, regex_finds, Pattern};
use crate::text::{chars_of, contains, contains_chars};
use crate::timestamp::{rfc3339_nanos, within, Timestamp};
use vstd::prelude::*;

verus! {

/// A compiled filter. Every predicate that is configured must hold of a
/// record for the record to match; one that is absent asks nothing.
#[derive(Debug)]
pub struct Filter {
    contains: Option<String>,
    regex: Option<Pattern>,
    field: Option<String>,
    equals: Option<String>,
    since: Option<Timestamp>,
    until: Option<Timestamp>,
    time_field: String,
}

/// The mathematical value of a `Filter`.
pub ghost struct FilterView {
    /// The substring asked for.
    pub contains: Option<Seq<char>>,
    /// The pattern of the regular expression asked for.
    pub regex: Option<Seq<char>>,
    /// The dotted path of the field that the text predicates read.
    pub field: Option<Seq<char>>,
    /// The text asked for.
    pub equals: Option<Seq<char>>,
    /// The inclusive lower time bound.
    pub since: Option<Timestamp>,
    /// The inclusive upper time bound.
    pub until: Option<Timestamp>,
    /// The dotted path of the timestamp.
    pub time_field: Seq<char>,
}

/// The pattern of an optional compiled expression.
pub open spec fn source_of(re: Option<Pattern>) -> Option<Seq<char>> {
    match re {
        Some(p) => Some(p@),
        None => None,
    }
}

impl View for Filter {
    type V = FilterView;

    closed spec fn view(&self) -> FilterView {
        FilterView {
            contains: text_of(self.contains),
            regex: source_of(self.regex),
            field: text_of(self.field),
            equals: text_of(self.equals),
            since: self.since,
            until: self.until,
            time_field: self.time_field@,
        }
    }
}

/// The instant that a configured bound denotes.
pub open spec fn bound_of(text: Option<Seq<char>>) -> Option<Timestamp> {
    match text {
        Some(t) => match rfc3339_nanos(t) {
            Some(n) => Some(Timestamp { nanos: n }),
            None => None,
        },
        None => None,
    }
}

/// What is wrong with the predicates that `args` configures: the first of
/// an unreadable lower bound, an unreadable upper bound and a pattern that
/// does not compile.
pub open spec fn filter_fault(args: Args) -> Option<ConfigError> {
    if args.since is Some && bound_of(text_of(args.since)) is None {
        Some(ConfigError::InvalidSince)
    } else if args.until is Some && bound_of(text_of(args.until)) is None {
        Some(ConfigError::InvalidUntil)
    } else if args.regex matches Some(p) && !regex_compiles(p@) {
        Some(ConfigError::InvalidRegex)
    } else {
        None
    }
}

/// The filter that `args` configures.
pub open spec fn filter_of(args: Args) -> FilterView {
    FilterView {
        contains: text_of(args.contains),
        regex: text_of(args.regex),
        field: text_of(args.field),
        equals: text_of(args.equals),
        since: bound_of(text_of(args.since)),
        until: bound_of(text_of(args.until)),
        time_field: args.time_field@,
    }
}

/// What is wrong with `args`, given what reading its bounds and compiling
/// its pattern gave: the first predicate that is configured and has no
/// outcome.
pub open spec fn assembly_fault(
    args: Args,
    since: Option<Timestamp>,
    until: Option<Timestamp>,
    pattern: Option<Seq<char>>,
) -> Option<ConfigError> {
    if args.since is Some && since is None {
        Some(ConfigError::InvalidSince)
    } else if args.until is Some && until is None {
        Some(ConfigError::InvalidUntil)
    } else if args.regex is Some && pattern is None {
        Some(ConfigError::InvalidRegex)
    } else {
        None
    }
}

/// The filter of `args`, given what reading its bounds and compiling its
/// pattern gave.
pub open spec fn assembled(
    args: Args,
    since: Option<Timestamp>,
    until: Option<Timestamp>,
    pattern: Option<Seq<char>>,
) -> FilterView {
    FilterView {
        contains: text_of(args.contains),
        regex: if args.regex is Some {
            pattern
        } else {
            None
        },
        field: text_of(args.field),
        equals: text_of(args.equals),
        since: if args.since is Some {
            since
        } else {
            None
        },
        until: if args.until is Some {
            until
        } else {
            None
        },
        time_field: args.time_field@,
    }
}

/// The text that the text predicates of `f` are held against: the chosen
/// field, empty where the record has none, or the whole line where no field
/// is chosen.
pub open spec fn target_text(f: FilterView, rec: RecordView) -> Seq<char> {
    match f.field {
        Some(path) => match field_text(rec, path) {
            Some(t) => t,
            None => Seq::<char>::empty(),
        },
        None => rec.raw,
    }
}

/// Whether the time bounds of `f` admit a record whose timestamp is `at`. A
/// record without a timestamp is admitted only where no bound is set.
pub open spec fn time_admits(f: FilterView, at: Option<Timestamp>) -> bool {
    (f.since is Some || f.until is Some) ==> (at matches Some(t) && within(t, f.since, f.until))
}

/// Whether the equality and the substring predicate of `f` admit `target`.
pub open spec fn text_admits(f: FilterView, target: Seq<char>) -> bool {
    &&& f.equals matches Some(e) ==> target == e
    &&& f.contains matches Some(c) ==> contains(target, c)
}

/// Whether the regular expression of `f` admits `target`.
pub open spec fn regex_admits(f: FilterView, target: Seq<char>) -> bool {
    f.regex matches Some(p) ==> regex_finds(p, target)
}

/// Whether `rec` matches `f`: every configured predicate holds.
pub open spec fn accepts(f: FilterView, rec: RecordView) -> bool {
    &&& time_admits(f, timestamp_of(rec, f.time_field))
    &&& text_admits(f, target_text(f, rec))
    &&& regex_admits(f, target_text(f, rec))
}

/// A filter with no predicate configured passes every record.
pub proof fn lemma_unconfigured_accepts(f: FilterView, rec: RecordView)
    requires
        f.contains is None,
        f.regex is None,
        f.equals is None,
        f.since is None,
        f.until is None,
    ensures
        accepts(f, rec),
{
}

/// A text is a substring of itself.
pub proof fn lemma_contains_self(s: Seq<char>)
    ensures
        contains(s, s),
{
    assert(s.subrange(0, s.len() as int) == s);
    assert(crate::text::occurs_at(s, s, 0));
}

/// Equality is stronger than containment: a record that a filter with an
/// equality predicate on `s` matches is also matched when a substring
/// predicate on the same `s` takes the place of whatever substring predicate
/// the filter had. In particular the filter that only asks for equality
/// with `s` matches no record that the filter that only asks for
/// containment of `s` rejects.
pub proof fn lemma_equals_implies_contains(f: FilterView, s: Seq<char>, rec: RecordView)
    requires
        f.equals == Some(s),
        accepts(f, rec),
    ensures
        accepts(FilterView { contains: Some(s), ..f }, rec),
        accepts(FilterView { contains: Some(s), equals: None, ..f }, rec),
{
    lemma_contains_self(s);
    let g = FilterView { contains: Some(s), ..f };
    assert(target_text(g, rec) == target_text(f, rec));
    let h = FilterView { contains: Some(s), equals: None, ..f };
    assert(target_text(h, rec) == target_text(f, rec));
}

/// Time-sliced queries fail closed: with a time bound set, a record whose
/// time field is missing or unreadable never matches, whatever the other
/// predicates are.
pub proof fn lemma_time_fails_closed(f: FilterView, rec: RecordView)
    requires
        f.since is Some || f.until is Some,
        timestamp_of(rec, f.time_field) is None,
    ensures
        !accepts(f, rec),
{
}

impl Filter {
    /// Puts a filter together from `args` and from what reading its bounds
    /// and compiling its pattern gave. An outcome counts only where `args`
    /// configures the predicate; there `None` is a failure.
    pub fn assemble(
        args: &Args,
        since: Option<Timestamp>,
        until: Option<Timestamp>,
        regex: Option<Pattern>,
    ) -> (r: Result<Filter, ConfigError>)
        ensures
            match assembly_fault(*args, since, until, source_of(regex)) {
                Some(fault) => r matches Err(e) && e == fault,
                None => r matches Ok(f) && f@ == assembled(*args, since, until, source_of(regex)),
            },
    {
        if args.since.is_some() && since.is_none() {
            return Err(ConfigError::InvalidSince);
        }
        if args.until.is_some() && until.is_none() {
            return Err(ConfigError::InvalidUntil);
        }
        if args.regex.is_some() && regex.is_none() {
            return Err(ConfigError::InvalidRegex);
        }
        Ok(
            Filter {
                contains: args.contains.clone(),
                regex: if args.regex.is_some() {
                    regex
                } else {
                    None
                },
                field: args.field.clone(),
                equals: args.equals.clone(),
                since: if args.since.is_some() {
                    since
                } else {
                    None
                },
                until: if args.until.is_some() {
                    until
                } else {
                    None
                },
                time_field: args.time_field.clone(),
            },
        )
    }

    /// Compiles the predicates that `args` configures. The bounds must be
    /// RFC 3339 instants and the pattern must compile.
    pub fn build(args: &Args) -> (r: Result<Filter, ConfigError>)
        ensures
            match filter_fault(*args) {
                Some(fault) => r matches Err(e) && e == fault,
                None => r matches Ok(f) && f@ == filter_of(*args),
            },
    {
        let since = match &args.since {
            Some(s) => Timestamp::parse_rfc3339(s.as_str()),
            None => None,
        };
        let until = match &args.until {
            Some(s) => Timestamp::parse_rfc3339(s.as_str()),
            None => None,
        };
        let regex = match &args.regex {
            Some(p) => Pattern::compile(p.as_str()),
            None => None,
        };
        Filter::assemble(args, since, until, regex)
    }

    /// Whether the time bounds admit a record whose timestamp is `at`.
    pub fn admits_time(&self, at: Option<Timestamp>) -> (r: bool)
        ensures
            r == time_admits(self@, at),
    {
        if self.since.is_none() && self.until.is_none() {
            return true;
        }
        match at {
            Some(t) => t.within(self.since, self.until),
            None => false,
        }
    }

    /// Whether the equality and the substring predicate admit `target`.
    pub fn admits_text(&self, target: &String) -> (r: bool)
        ensures
            r == text_admits(self@, target@),
    {
        if let Some(e) = &self.equals {
            if *target != *e {
                return false;
            }
        }
        if let Some(c) = &self.contains {
            let hay = chars_of(target.as_str());
            let needle = chars_of(c.as_str());
            if !contains_chars(&hay, &needle) {
                return false;
            }
        }
        true
    }

    /// Whether `rec` satisfies every configured predicate.
    pub fn matches(&self, rec: &Record) -> (r: bool)
        ensures
            r == accepts(self@, rec@),
    {
        if self.since.is_some() || self.until.is_some() {
            let at = rec.get_timestamp(self.time_field.as_str());
            if !self.admits_time(at) {
                return false;
            }
        }
        let target = match &self.field {
            Some(path) => match rec.get_field_string(path.as_str()) {
                Some(t) => t,
                None => String::new(),
            },
            None => rec.raw.clone(),
        };
        assert(target@ == target_text(self@, rec@));
        if !self.admits_text(&target) {
            return false;
        }
        match &self.regex {
            Some(re) => re.finds(target.as_str()),
            None => true,
        }
    }
}

} // verus!
