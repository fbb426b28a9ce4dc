//! The streaming pass: line in, decision out.
//!
//! An `Engine` is fed one line at a time and answers with what to do about
//! it. `run` feeds it a whole sequence of lines; its contract says what a
//! pass yields without reference to the steps.

pub mod filter;
pub mod read;
pub mod record;
pub mod stats;

use crate::cli::{text_of, Args, ConfigError, Input};
use crate::engine::filter::{accepts, filter_fault, filter_of, Filter, FilterView};
use crate::engine::record::{read_record, Record, RecordView};
use crate::engine::stats::{observed, report, Stats, Tally};
use crate::output::{emit_record, emitted, plan_fault, plan_of, runnable, EmitPlan, PlanView};
use crate::text::views;
use std::collections::VecDeque;
use vstd::prelude::*;

verus! {

/// What a pass is configured with.
pub ghost struct Setup {
    pub filter: FilterView,
    pub plan: PlanView,
    pub input: Input,
    /// How many matches are put out at most.
    pub head: Option<nat>,
    /// How many of the last matches are put out.
    pub tail: Option<nat>,
    /// The field whose values are counted.
    pub field: Option<Seq<char>>,
    /// Whether a report is wanted.
    pub stats: bool,
}

/// How far a pass has come.
pub ghost struct Progress {
    /// Records read.
    pub seen: nat,
    /// Records that matched.
    pub matched: nat,
    /// The counts of the observed field over the matches.
    pub tallies: Seq<Tally>,
    /// The matches held back for the end of the pass.
    pub held: Seq<RecordView>,
    /// Whether the pass is over.
    pub stopped: bool,
}

/// What to do about one line.
pub ghost enum Action {
    /// Nothing is written now.
    Skip,
    /// This line is written now.
    Emit(Seq<char>),
    /// The pass is over: no further line is to be read.
    Stop,
}

/// What one line leads to.
pub ghost struct Turn {
    pub next: Progress,
    pub action: Action,
}

/// The limit that an optional count sets.
pub open spec fn limit_of(n: Option<usize>) -> Option<nat> {
    match n {
        Some(k) => Some(k as nat),
        None => None,
    }
}

/// What is wrong with `args`: the fault of its predicates, or else that of
/// its output.
pub open spec fn setup_fault(args: Args) -> Option<ConfigError> {
    match filter_fault(args) {
        Some(fault) => Some(fault),
        None => plan_fault(args),
    }
}

/// The pass that `args` configures.
pub open spec fn setup_of(args: Args) -> Setup {
    Setup {
        filter: filter_of(args),
        plan: plan_of(args),
        input: args.input,
        head: limit_of(args.head),
        tail: limit_of(args.tail),
        field: text_of(args.field),
        stats: args.stats,
    }
}

/// The state before the first line.
pub open spec fn start() -> Progress {
    Progress {
        seen: 0,
        matched: 0,
        tallies: Seq::<Tally>::empty(),
        held: Seq::<RecordView>::empty(),
        stopped: false,
    }
}

/// The last `limit` of `recs`, or all of them where there are fewer.
pub open spec fn keep_last(recs: Seq<RecordView>, limit: nat) -> Seq<RecordView> {
    if recs.len() > limit {
        recs.skip(recs.len() - limit)
    } else {
        recs
    }
}

/// The line written for `rec`, empty where the plan cannot run.
pub open spec fn line_of(rec: RecordView, plan: PlanView) -> Seq<char> {
    match emitted(rec, plan) {
        Some(text) => text,
        None => Seq::<char>::empty(),
    }
}

/// What the line `line` leads to in the state `now`.
///
/// A line that gives no record changes nothing. A record is counted as
/// seen; one that matches is counted as matched and observed. When the
/// matches then exceed the head limit the pass stops, and this last match is
/// not put out. Otherwise the match is held back where a tail limit is set,
/// of which only the last ones stay, and written at once where none is.
pub open spec fn advance(setup: Setup, now: Progress, line: Seq<char>) -> Turn {
    if now.stopped {
        Turn { next: now, action: Action::Stop }
    } else {
        match read_record(line, setup.input) {
            None => Turn { next: now, action: Action::Skip },
            Some(rec) => {
                let seen = now.seen + 1;
                if !accepts(setup.filter, rec) {
                    Turn { next: Progress { seen, ..now }, action: Action::Skip }
                } else {
                    let matched = now.matched + 1;
                    let tallies = observed(now.tallies, rec, setup.field);
                    if setup.head matches Some(n) && matched > n {
                        Turn {
                            next: Progress { seen, matched, tallies, stopped: true, ..now },
                            action: Action::Stop,
                        }
                    } else {
                        match setup.tail {
                            Some(t) => Turn {
                                next: Progress {
                                    seen,
                                    matched,
                                    tallies,
                                    held: keep_last(now.held.push(rec), t),
                                    ..now
                                },
                                action: Action::Skip,
                            },
                            None => Turn {
                                next: Progress { seen, matched, tallies, ..now },
                                action: Action::Emit(line_of(rec, setup.plan)),
                            },
                        }
                    }
                }
            },
        }
    }
}

/// What the engine says about one line.
#[derive(Debug)]
pub enum Step {
    /// Nothing is to be written now.
    Skipped,
    /// This line is to be written now.
    Emitted(String),
    /// The pass is over: no further line is to be read.
    Stopped,
}

impl View for Step {
    type V = Action;

    open spec fn view(&self) -> Action {
        match self {
            Step::Skipped => Action::Skip,
            Step::Emitted(s) => Action::Emit(s@),
            Step::Stopped => Action::Stop,
        }
    }
}

/// What is left when a pass ends.
#[derive(Debug)]
pub struct Finish {
    /// The lines that were held back, oldest first.
    pub lines: Vec<String>,
    /// The counters.
    pub stats: Stats,
    /// The report on the counters, where one is wanted.
    pub report: Option<String>,
}

/// One pass in progress.
#[derive(Debug)]
pub struct Engine {
    filter: Filter,
    plan: EmitPlan,
    input: Input,
    head: Option<usize>,
    tail: Option<usize>,
    field: Option<String>,
    want_stats: bool,
    stats: Stats,
    buffer: VecDeque<Record>,
    stopped: bool,
}

impl Engine {
    /// What this pass is configured with.
    pub closed spec fn setup(&self) -> Setup {
        Setup {
            filter: self.filter@,
            plan: self.plan@,
            input: self.input,
            head: limit_of(self.head),
            tail: limit_of(self.tail),
            field: text_of(self.field),
            stats: self.want_stats,
        }
    }

    /// How far this pass has come.
    pub closed spec fn progress(&self) -> Progress {
        Progress {
            seen: self.stats.seen as nat,
            matched: self.stats.matched as nat,
            tallies: self.stats.tallies(),
            held: views(self.buffer@),
            stopped: self.stopped,
        }
    }

    /// The engine is well formed: its plan can run, its counters are well
    /// formed and no higher than the number of records seen, and it holds
    /// back no more than the tail limit allows.
    pub closed spec fn wf(&self) -> bool {
        &&& runnable(self.plan@)
        &&& self.stats.wf()
        &&& self.stats.counts_within(self.stats.matched as nat)
        &&& self.stats.matched <= self.stats.seen
        &&& match self.tail {
            Some(t) => self.buffer@.len() <= t,
            None => self.buffer@.len() == 0,
        }
    }

    /// The engine never holds back more than the tail limit, and nothing
    /// where there is none.
    pub proof fn lemma_held_within_tail(&self)
        requires
            self.wf(),
        ensures
            match self.setup().tail {
                Some(t) => self.progress().held.len() <= t,
                None => self.progress().held.len() == 0,
            },
    {
    }

    /// An engine for the pass that `args` configures.
    pub fn new(args: &Args) -> (r: Result<Engine, ConfigError>)
        ensures
            match setup_fault(*args) {
                Some(fault) => r matches Err(e) && e == fault,
                None => r matches Ok(engine) && engine.wf() && engine.setup() == setup_of(*args)
                    && engine.progress() == start(),
            },
    {
        let filter = match Filter::build(args) {
            Ok(f) => f,
            Err(e) => {
                return Err(e);
            },
        };
        let plan = match EmitPlan::build(args) {
            Ok(p) => p,
            Err(e) => {
                return Err(e);
            },
        };
        let engine = Engine {
            filter,
            plan,
            input: args.input,
            head: args.head,
            tail: args.tail,
            field: args.field.clone(),
            want_stats: args.stats,
            stats: Stats::default(),
            buffer: VecDeque::new(),
            stopped: false,
        };
        proof {
            assert(engine.progress().held =~= Seq::<RecordView>::empty());
        }
        Ok(engine)
    }

    /// How many records were read so far.
    pub fn seen(&self) -> (r: usize)
        ensures
            r == self.progress().seen,
    {
        self.stats.seen
    }

    /// Whether the pass is over.
    pub fn is_stopped(&self) -> (r: bool)
        ensures
            r == self.progress().stopped,
    {
        self.stopped
    }

    /// Takes one more line and says what to do about it.
    pub fn push_line(&mut self, line: String) -> (step: Step)
        requires
            old(self).wf(),
            old(self).progress().seen < usize::MAX,
        ensures
            final(self).wf(),
            final(self).setup() == old(self).setup(),
            final(self).progress() == advance(old(self).setup(), old(self).progress(), line@).next,
            step@ == advance(old(self).setup(), old(self).progress(), line@).action,
    {
        if self.stopped {
            return Step::Stopped;
        }
        let rec = match Record::from_line(line, self.input) {
            Ok(r) => r,
            Err(_) => {
                return Step::Skipped;
            },
        };
        self.stats.seen = self.stats.seen + 1;
        if !self.filter.matches(&rec) {
            return Step::Skipped;
        }
        self.stats.matched = self.stats.matched + 1;
        let ghost before = self.stats.tallies();
        match &self.field {
            Some(f) => {
                self.stats.observe(&rec, Some(f.as_str()));
            },
            None => {
                self.stats.observe(&rec, None);
            },
        }
        proof {
            lemma_observed_within(before, rec@, text_of(self.field), self.stats.matched as nat);
        }
        if let Some(max) = self.head {
            if self.stats.matched > max {
                self.stopped = true;
                return Step::Stopped;
            }
        }
        match self.tail {
            Some(cap) => {
                let ghost held = views(self.buffer@);
                self.buffer.push_back(rec);
                assert(views(self.buffer@) =~= held.push(rec@));
                if self.buffer.len() > cap {
                    let _ = self.buffer.pop_front();
                    assert(views(self.buffer@) =~= held.push(rec@).skip(1));
                }
                Step::Skipped
            },
            None => match emit_record(&rec, &self.plan) {
                Ok(text) => Step::Emitted(text),
                Err(_) => Step::Skipped,
            },
        }
    }

    /// Ends the pass: the lines held back, the counters, and the report on
    /// them where one is wanted.
    pub fn finish(self) -> (end: Finish)
        requires
            self.wf(),
        ensures
            views(end.lines@) == texts(self.progress().held, self.setup().plan),
            end.stats.wf(),
            end.stats.seen == self.progress().seen,
            end.stats.matched == self.progress().matched,
            end.stats.tallies() == self.progress().tallies,
            text_of(end.report) == if self.setup().stats {
                Some(
                    report(
                        self.progress().seen,
                        self.progress().matched,
                        self.progress().tallies,
                        self.setup().field,
                    ),
                )
            } else {
                None
            },
    {
        let ghost held = views(self.buffer@);
        let ghost plan = self.plan@;
        let mut lines: Vec<String> = Vec::new();
        let mut i: usize = 0;
        assert(views(lines@) =~= texts(held.take(0), plan));
        while i < self.buffer.len()
            invariant
                i <= self.buffer.len(),
                held == views(self.buffer@),
                plan == self.plan@,
                runnable(plan),
                views(lines@) == texts(held.take(i as int), plan),
            decreases self.buffer.len() - i,
        {
            let ghost before = lines@;
            match emit_record(&self.buffer[i], &self.plan) {
                Ok(text) => {
                    lines.push(text);
                    proof {
                        assert(held[i as int] == self.buffer@[i as int]@);
                        assert(views(lines@) =~= views(before).push(line_of(held[i as int], plan)));
                        assert(texts(held.take(i + 1), plan) =~= texts(
                            held.take(i as int),
                            plan,
                        ).push(line_of(held[i as int], plan)));
                    }
                },
                Err(_) => {},
            }
            i += 1;
        }
        assert(held.take(self.buffer.len() as int) =~= held);
        let report = if self.want_stats {
            match &self.field {
                Some(f) => Some(self.stats.print(Some(f.as_str()))),
                None => Some(self.stats.print(None)),
            }
        } else {
            None
        };
        Finish { lines, stats: self.stats, report }
    }
}

/// The lines written for `recs`, one for one.
pub open spec fn texts(recs: Seq<RecordView>, plan: PlanView) -> Seq<Seq<char>> {
    Seq::new(recs.len(), |i: int| line_of(recs[i], plan))
}

/// Observing one record raises no count above the number of matches.
proof fn lemma_observed_within(
    t: Seq<Tally>,
    rec: RecordView,
    field: Option<Seq<char>>,
    bound: nat,
)
    requires
        bound >= 1,
        forall|i: int| 0 <= i < t.len() ==> (#[trigger] t[i]).count <= bound - 1,
    ensures
        forall|i: int|
            0 <= i < observed(t, rec, field).len() ==> (#[trigger] observed(
                t,
                rec,
                field,
            )[i]).count <= bound,
{
    match field {
        Some(path) => match crate::engine::record::field_of(rec, path) {
            Some(v) => {
                lemma_bumped_within(t, crate::json::leaf_text(v), bound);
            },
            None => {},
        },
        None => {},
    }
}

/// Bumping raises no count by more than one.
proof fn lemma_bumped_within(t: Seq<Tally>, value: Seq<char>, bound: nat)
    requires
        bound >= 1,
        forall|i: int| 0 <= i < t.len() ==> (#[trigger] t[i]).count <= bound - 1,
    ensures
        crate::engine::stats::bumped(t, value).len() >= t.len(),
        forall|i: int|
            0 <= i < crate::engine::stats::bumped(t, value).len() ==> (
            #[trigger] crate::engine::stats::bumped(t, value)[i]).count <= bound,
    decreases t.len(),
{
    if t.len() > 0 && t[0].value != value {
        lemma_bumped_within(t.skip(1), value, bound);
    }
}


/// How many of `lines` give a record.
pub open spec fn readable(lines: Seq<Seq<char>>, input: Input) -> nat
    decreases lines.len(),
{
    if lines.len() == 0 {
        0
    } else {
        readable(lines.drop_last(), input) + if read_record(lines.last(), input) is Some {
            1nat
        } else {
            0nat
        }
    }
}

/// The records of `lines` that match `filter`, in order.
pub open spec fn hits(lines: Seq<Seq<char>>, input: Input, filter: FilterView) -> Seq<RecordView>
    decreases lines.len(),
{
    if lines.len() == 0 {
        Seq::<RecordView>::empty()
    } else {
        let before = hits(lines.drop_last(), input, filter);
        match read_record(lines.last(), input) {
            Some(rec) => if accepts(filter, rec) {
                before.push(rec)
            } else {
                before
            },
            None => before,
        }
    }
}

/// The counts of `field` over `recs`.
pub open spec fn tallied(recs: Seq<RecordView>, field: Option<Seq<char>>) -> Seq<Tally>
    decreases recs.len(),
{
    if recs.len() == 0 {
        Seq::<Tally>::empty()
    } else {
        observed(tallied(recs.drop_last(), field), recs.last(), field)
    }
}

/// The first records, as many as a head limit lets through.
pub open spec fn head_cut(recs: Seq<RecordView>, head: Option<nat>) -> Seq<RecordView> {
    match head {
        Some(n) => if recs.len() > n {
            recs.take(n as int)
        } else {
            recs
        },
        None => recs,
    }
}

/// The last records, as many as a tail limit lets through.
pub open spec fn tail_cut(recs: Seq<RecordView>, tail: Option<nat>) -> Seq<RecordView> {
    match tail {
        Some(t) => keep_last(recs, t),
        None => recs,
    }
}

/// Whether `lines` hold more matches than a head limit lets through.
pub open spec fn exceeds(
    lines: Seq<Seq<char>>,
    input: Input,
    filter: FilterView,
    head: Option<nat>,
) -> bool {
    head matches Some(n) && hits(lines, input, filter).len() > n
}

/// How many of `lines` a pass reads: all of them, unless some line brings
/// the matches above the head limit, which is then the last one read.
pub open spec fn consumed(
    lines: Seq<Seq<char>>,
    input: Input,
    filter: FilterView,
    head: Option<nat>,
) -> nat
    decreases lines.len(),
{
    if lines.len() == 0 {
        0
    } else if exceeds(lines.drop_last(), input, filter, head) {
        consumed(lines.drop_last(), input, filter, head)
    } else {
        lines.len()
    }
}

/// The lines that a pass over `lines` reads.
pub open spec fn read_lines(lines: Seq<Seq<char>>, setup: Setup) -> Seq<Seq<char>> {
    lines.take(consumed(lines, setup.input, setup.filter, setup.head) as int)
}

/// The lines that a pass over `lines` writes: of the matches among the
/// lines read, those that the head limit lets through, of these those that
/// the tail limit lets through, each written as the plan says.
pub open spec fn written(lines: Seq<Seq<char>>, setup: Setup) -> Seq<Seq<char>> {
    texts(
        tail_cut(
            head_cut(hits(read_lines(lines, setup), setup.input, setup.filter), setup.head),
            setup.tail,
        ),
        setup.plan,
    )
}

/// What a pass yields.
#[derive(Debug)]
pub struct Pass {
    /// The lines written, in order.
    pub lines: Vec<String>,
    /// The counters.
    pub stats: Stats,
    /// The report on the counters, where one is wanted.
    pub report: Option<String>,
    /// How many of the input lines were read.
    pub consumed: usize,
}

/// The matches of a prefix are a prefix of the matches.
pub proof fn lemma_hits_prefix(lines: Seq<Seq<char>>, k: int, input: Input, filter: FilterView)
    requires
        0 <= k <= lines.len(),
    ensures
        hits(lines.take(k), input, filter).is_prefix_of(hits(lines, input, filter)),
    decreases lines.len(),
{
    if k == lines.len() {
        assert(lines.take(k) =~= lines);
    } else {
        lemma_hits_prefix(lines.drop_last(), k, input, filter);
        assert(lines.drop_last().take(k) =~= lines.take(k));
    }
}

/// No more lines give a record than there are lines.
proof fn lemma_readable_bound(lines: Seq<Seq<char>>, input: Input)
    ensures
        readable(lines, input) <= lines.len(),
    decreases lines.len(),
{
    if lines.len() > 0 {
        lemma_readable_bound(lines.drop_last(), input);
    }
}

/// A pass reads up to the first line that brings the matches above the
/// head limit, and not one line more.
pub proof fn lemma_consumed(
    lines: Seq<Seq<char>>,
    input: Input,
    filter: FilterView,
    head: Option<nat>,
)
    ensures
        consumed(lines, input, filter, head) <= lines.len(),
        forall|k: int|
            0 <= k < consumed(lines, input, filter, head) ==> !exceeds(
                #[trigger] lines.take(k),
                input,
                filter,
                head,
            ),
        consumed(lines, input, filter, head) < lines.len() ==> exceeds(
            lines.take(consumed(lines, input, filter, head) as int),
            input,
            filter,
            head,
        ),
    decreases lines.len(),
{
    if lines.len() > 0 {
        let shorter = lines.drop_last();
        lemma_consumed(shorter, input, filter, head);
        let c = consumed(lines, input, filter, head);
        if exceeds(shorter, input, filter, head) {
            assert forall|k: int| 0 <= k < c implies !exceeds(
                #[trigger] lines.take(k),
                input,
                filter,
                head,
            ) by {
                assert(shorter.take(k) =~= lines.take(k));
            }
            if c < shorter.len() {
                assert(shorter.take(c as int) =~= lines.take(c as int));
            } else {
                assert(lines.take(c as int) =~= shorter);
            }
        } else {
            assert forall|k: int| 0 <= k < c implies !exceeds(
                #[trigger] lines.take(k),
                input,
                filter,
                head,
            ) by {
                lemma_hits_prefix(shorter, k, input, filter);
                assert(shorter.take(k) =~= lines.take(k));
            }
        }
    }
}

/// The number of lines read is the one number `k` such that the first `k`
/// lines exceed the limit or are all the lines, and the first `k - 1` do
/// not exceed it.
proof fn lemma_consumed_is(
    lines: Seq<Seq<char>>,
    input: Input,
    filter: FilterView,
    head: Option<nat>,
    k: int,
)
    requires
        0 <= k <= lines.len(),
        k > 0 ==> !exceeds(lines.take(k - 1), input, filter, head),
        k < lines.len() ==> exceeds(lines.take(k), input, filter, head),
    ensures
        consumed(lines, input, filter, head) == k,
{
    lemma_consumed(lines, input, filter, head);
    let c = consumed(lines, input, filter, head) as int;
    if c < k {
        lemma_hits_prefix(lines.take(k - 1), c, input, filter);
        assert(lines.take(k - 1).take(c) =~= lines.take(c));
    } else if k < c {
        assert(!exceeds(lines.take(k), input, filter, head));
    }
}

/// With a head limit of `n` and no tail limit a pass writes a prefix, at
/// most `n` long, of what it writes without a head limit. It reads no line
/// beyond the one that brings the matches above the limit: none of the
/// prefixes that end before the last line read exceeds the limit, and where
/// lines are left unread the lines read do exceed it.
pub proof fn lemma_head_writes_prefix(lines: Seq<Seq<char>>, setup: Setup, n: nat)
    requires
        setup.tail is None,
    ensures
        ({
            let bounded = Setup { head: Some(n), ..setup };
            let free = Setup { head: None, ..setup };
            let read = read_lines(lines, bounded);
            &&& written(lines, bounded).len() <= n
            &&& written(lines, bounded).is_prefix_of(written(lines, free))
            &&& read.is_prefix_of(lines)
            &&& forall|k: int|
                0 <= k < read.len() ==> !exceeds(
                    #[trigger] lines.take(k),
                    setup.input,
                    setup.filter,
                    Some(n),
                )
            &&& read.len() < lines.len() ==> exceeds(read, setup.input, setup.filter, Some(n))
        }),
{
    let bounded = Setup { head: Some(n), ..setup };
    let free = Setup { head: None, ..setup };
    lemma_consumed(lines, setup.input, setup.filter, Some(n));
    lemma_consumed_is(lines, setup.input, setup.filter, None, lines.len() as int);
    assert(read_lines(lines, free) =~= lines);
    let read = read_lines(lines, bounded);
    lemma_hits_prefix(lines, read.len() as int, setup.input, setup.filter);
    let part = head_cut(hits(read, setup.input, setup.filter), Some(n));
    let whole = hits(lines, setup.input, setup.filter);
    assert(part.is_prefix_of(whole));
    assert(texts(part, setup.plan) =~= texts(whole, setup.plan).subrange(0, part.len() as int));
}

/// With a tail limit of `t` a pass writes the last `t` of the lines that it
/// writes without a tail limit, in the same order, and all of them where
/// they are fewer.
pub proof fn lemma_tail_writes_suffix(lines: Seq<Seq<char>>, setup: Setup, t: nat)
    ensures
        ({
            let bounded = Setup { tail: Some(t), ..setup };
            let free = Setup { tail: None, ..setup };
            let all = written(lines, free);
            written(lines, bounded) == if all.len() > t {
                all.skip(all.len() - t)
            } else {
                all
            }
        }),
{
    let bounded = Setup { tail: Some(t), ..setup };
    let free = Setup { tail: None, ..setup };
    let kept = head_cut(
        hits(read_lines(lines, free), setup.input, setup.filter),
        setup.head,
    );
    let all = written(lines, free);
    assert(all == texts(kept, setup.plan));
    if kept.len() > t {
        assert(texts(kept.skip(kept.len() - t), setup.plan) =~= all.skip(all.len() - t));
    }
}

/// What a pass holds back once it has read exactly `lines`.
pub open spec fn held_after(lines: Seq<Seq<char>>, setup: Setup) -> Seq<RecordView> {
    match setup.tail {
        Some(t) => keep_last(head_cut(hits(lines, setup.input, setup.filter), setup.head), t),
        None => Seq::<RecordView>::empty(),
    }
}

/// What a pass has written once it has read exactly `lines`.
pub open spec fn shown_after(lines: Seq<Seq<char>>, setup: Setup) -> Seq<Seq<char>> {
    match setup.tail {
        Some(t) => Seq::<Seq<char>>::empty(),
        None => texts(head_cut(hits(lines, setup.input, setup.filter), setup.head), setup.plan),
    }
}

/// The state of a pass that has read exactly `lines`.
pub open spec fn state_after(lines: Seq<Seq<char>>, setup: Setup) -> Progress {
    Progress {
        seen: readable(lines, setup.input),
        matched: hits(lines, setup.input, setup.filter).len(),
        tallies: tallied(hits(lines, setup.input, setup.filter), setup.field),
        held: held_after(lines, setup),
        stopped: exceeds(lines, setup.input, setup.filter, setup.head),
    }
}

/// Step by step is the same as all at once: as long as the head limit is
/// not exceeded, one more line takes the state after a prefix of the lines
/// to the state after the next longer prefix, and what has been written
/// grows by what the step writes.
pub proof fn lemma_turn(all: Seq<Seq<char>>, i: int, setup: Setup)
    requires
        0 <= i < all.len(),
        !exceeds(all.take(i), setup.input, setup.filter, setup.head),
    ensures
        ({
            let turn = advance(setup, state_after(all.take(i), setup), all[i]);
            &&& turn.next == state_after(all.take(i + 1), setup)
            &&& shown_after(all.take(i + 1), setup) == match turn.action {
                Action::Emit(text) => shown_after(all.take(i), setup).push(text),
                _ => shown_after(all.take(i), setup),
            }
        }),
{
    let before = all.take(i);
    let after = all.take(i + 1);
    assert(after.drop_last() =~= before);
    assert(after.last() == all[i]);
    let h = hits(before, setup.input, setup.filter);
    let now = state_after(before, setup);
    let turn = advance(setup, now, all[i]);
    match read_record(all[i], setup.input) {
        None => {},
        Some(rec) => {
            if accepts(setup.filter, rec) {
                let grown = h.push(rec);
                assert(hits(after, setup.input, setup.filter) == grown);
                assert(grown.drop_last() =~= h);
                assert(tallied(grown, setup.field) == observed(
                    tallied(h, setup.field),
                    rec,
                    setup.field,
                ));
                if setup.head is Some && grown.len() > setup.head->0 {
                    assert(h.len() == setup.head->0);
                    assert(head_cut(grown, setup.head) =~= h);
                } else {
                    assert(head_cut(grown, setup.head) == grown);
                    assert(head_cut(h, setup.head) == h);
                    match setup.tail {
                        Some(t) => {
                            assert(keep_last(keep_last(h, t).push(rec), t) =~= keep_last(grown, t));
                        },
                        None => {
                            assert(texts(grown, setup.plan) =~= texts(h, setup.plan).push(
                                line_of(rec, setup.plan),
                            ));
                        },
                    }
                }
            }
        },
    }
}

/// Runs a whole pass over `lines`.
///
/// The lines are read in order up to the one that brings the matches above
/// the head limit, or to the end. Of the matches among them those that the
/// two limits let through are written; the counters cover every line read.
pub fn run(args: &Args, lines: &Vec<String>) -> (r: Result<Pass, ConfigError>)
    ensures
        match setup_fault(*args) {
            Some(fault) => r matches Err(e) && e == fault,
            None => r matches Ok(pass) && ({
                let setup = setup_of(*args);
                let read = read_lines(views(lines@), setup);
                let found = hits(read, setup.input, setup.filter);
                &&& pass.consumed <= lines.len()
                &&& pass.consumed == read.len()
                &&& views(pass.lines@) == written(views(lines@), setup)
                &&& pass.stats.wf()
                &&& pass.stats.seen == readable(read, setup.input)
                &&& pass.stats.matched == found.len()
                &&& pass.stats.tallies() == tallied(found, setup.field)
                &&& text_of(pass.report) == if setup.stats {
                    Some(
                        report(
                            readable(read, setup.input),
                            found.len(),
                            tallied(found, setup.field),
                            setup.field,
                        ),
                    )
                } else {
                    None
                }
            }),
        },
{
    let mut engine = match Engine::new(args) {
        Ok(e) => e,
        Err(e) => {
            return Err(e);
        },
    };
    let ghost setup = setup_of(*args);
    let ghost all = views(lines@);
    let mut out: Vec<String> = Vec::new();
    let mut i: usize = 0;
    proof {
        assert(all.take(0) =~= Seq::<Seq<char>>::empty());
        assert(state_after(all.take(0), setup).tallies =~= start().tallies);
        assert(state_after(all.take(0), setup).held =~= start().held);
        assert(views(out@) =~= shown_after(all.take(0), setup));
    }
    while i < lines.len() && !engine.is_stopped()
        invariant
            i <= lines.len(),
            all == views(lines@),
            engine.wf(),
            engine.setup() == setup,
            engine.progress() == state_after(all.take(i as int), setup),
            i > 0 ==> !exceeds(all.take(i - 1), setup.input, setup.filter, setup.head),
            views(out@) == shown_after(all.take(i as int), setup),
        decreases lines.len() - i,
    {
        let line = lines[i].clone();
        proof {
            lemma_readable_bound(all.take(i as int), setup.input);
            lemma_turn(all, i as int, setup);
            assert(all[i as int] == line@);
        }
        let ghost before = out@;
        let step = engine.push_line(line);
        match step {
            Step::Emitted(text) => {
                out.push(text);
                assert(views(out@) =~= views(before).push(text@));
            },
            _ => {},
        }
        i += 1;
    }
    proof {
        if i < lines.len() {
            lemma_consumed_is(all, setup.input, setup.filter, setup.head, i as int);
        } else {
            assert(all.take(i as int) =~= all);
            if exceeds(all, setup.input, setup.filter, setup.head) {
                lemma_consumed_is(all, setup.input, setup.filter, setup.head, i as int);
            } else {
                if i > 0 {
                    lemma_hits_prefix(all, i - 1, setup.input, setup.filter);
                }
                lemma_consumed_is(all, setup.input, setup.filter, setup.head, i as int);
            }
        }
        assert(read_lines(all, setup) == all.take(i as int));
    }
    let end = engine.finish();
    let Finish { lines: mut held, stats, report } = end;
    let ghost shown = out@;
    let ghost kept = held@;
    out.append(&mut held);
    proof {
        assert(views(out@) =~= views(shown) + views(kept));
        match setup.tail {
            Some(t) => {
                assert(views(shown) =~= Seq::<Seq<char>>::empty());
            },
            None => {
                assert(views(kept) =~= Seq::<Seq<char>>::empty());
            },
        }
        assert(views(out@) =~= written(all, setup));
    }
    Ok(Pass { lines: out, stats, report, consumed: i })
}

} // verus!
