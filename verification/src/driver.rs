//! The trace driver: a state machine that is fed the lines of a trace one by
//! one, keeps the stack of open calls up to date, and attributes each record
//! to the stack that was open when the record came.
use vstd::prelude::*;
use regex::Regex;
use crate::call_stack::{called, classify, inclusion_names, stack_text, CallStack};
use crate::error::TraceError;
use crate::folded::{added, counted, lemma_sum_update, sum, Folded};
use crate::interning::lemma_interned;
use crate::markers::{compile, compiled_from, is_match, pattern_compiles, regex_is_match};
use crate::options::{weighs, Options, Weighting};
use crate::record::{column, columns, exit_flag, is_usable, parse_record, text_of, Record};

verus! {

/// Where in its input a run is.
#[derive(Clone, Copy, Debug, PartialEq, Eq, Structural)]
pub enum Phase {
    /// Before the line that starts the trace.
    Preamble,
    /// Among the records of the trace.
    Tracing,
    /// After the line that ends the trace.
    Finished,
}

/// What a line came to.
#[derive(Debug)]
pub enum Step {
    /// The line is no record: it lies outside the trace, is a marker, or has
    /// too few columns.
    Skipped,
    /// The line is an exit with the timestamp `time` that came with no call
    /// open. It had no effect; the caller may want to warn.
    Discarded { time: String },
    /// The line is a record with the timestamp `time`. Where `slot` is given,
    /// the record's weight belongs to the stack of that slot.
    Record { time: String, slot: Option<usize> },
}

/// The pattern of the line that starts a trace.
pub open spec fn start_pattern() -> Seq<char> {
    "TRACE START"@
}

/// The pattern of the line that ends a trace.
pub open spec fn end_pattern() -> Seq<char> {
    "TRACE END"@
}

/// Whether `after` is what `before` becomes by a record, and `r` what is
/// reported of it.
///
/// An exit with no call open changes nothing. Otherwise the record is first
/// attributed to the stack that is open, if it weighs, and only then takes
/// effect on the stack: an exit closes the innermost call, an entry with a
/// name and a path opens one, any other entry leaves the stack as it is.
pub open spec fn applied(
    before: Collapser,
    after: Collapser,
    is_exit: bool,
    time: Seq<char>,
    name: Option<Seq<char>>,
    path: Option<Seq<char>>,
    r: Result<Step, TraceError>,
) -> bool {
    let stack = before.tracker().stack();
    let weigh = weighs(before.options().weighting, is_exit);
    if is_exit && stack.len() == 0 {
        &&& r matches Ok(Step::Discarded { time: t })
        &&& t@ == time
        &&& after.same(before)
    } else if weigh && before.table().total() == u64::MAX {
        &&& r matches Err(TraceError::Overflow)
        &&& after.same(before)
    } else {
        &&& r matches Ok(Step::Record { time: t, slot })
        &&& t@ == time
        &&& after.same_setup(before)
        &&& if weigh {
            slot matches Some(s) && added(before.table(), after.table(), stack, s)
        } else {
            slot is None && after.table().same(before.table())
        }
        &&& if is_exit {
            &&& after.tracker().names() == before.tracker().names()
            &&& after.tracker().calls() == before.tracker().calls()
            &&& after.tracker().stack() == stack.drop_last()
        } else if name is Some && path is Some {
            called(before.tracker(), after.tracker(), name->0, path->0)
        } else {
            after.tracker().same(before.tracker())
        }
    }
}

/// Whether `after` is what `before` becomes by a line, and `r` what is
/// reported of it; `hit` says whether the marker that the phase waits for
/// matches the line.
pub open spec fn fed(before: Collapser, after: Collapser, line: Seq<char>, hit: bool, r: Result<Step, TraceError>) -> bool {
    match before.phase() {
        Phase::Preamble => {
            &&& r matches Ok(Step::Skipped)
            &&& after.phase() == (if hit { Phase::Tracing } else { Phase::Preamble })
            &&& after.same(before)
        },
        Phase::Finished => {
            &&& r matches Ok(Step::Skipped)
            &&& after.phase() == Phase::Finished
            &&& after.same(before)
        },
        Phase::Tracing => {
            if hit {
                &&& r matches Ok(Step::Skipped)
                &&& after.phase() == Phase::Finished
                &&& after.same(before)
            } else if !is_usable(line) {
                &&& r matches Ok(Step::Skipped)
                &&& after.phase() == Phase::Tracing
                &&& after.same(before)
            } else if exit_flag(line) is None {
                &&& r matches Err(TraceError::ExitFlag { token })
                &&& token@ == columns(line)[2]
                &&& after.phase() == Phase::Tracing
                &&& after.same(before)
            } else {
                &&& after.phase() == Phase::Tracing
                &&& applied(
                    before,
                    after,
                    exit_flag(line)->0,
                    columns(line)[3],
                    if exit_flag(line)->0 { None } else { column(line, 5) },
                    if exit_flag(line)->0 { None } else { column(line, 7) },
                    r,
                )
            }
        },
    }
}

/// A run over one trace.
pub struct Collapser {
    options: Options,
    start: Regex,
    end: Regex,
    phase: Phase,
    calls: CallStack,
    folded: Folded,
}

impl Collapser {
    /// The options of the run.
    pub closed spec fn options(&self) -> Options {
        self.options
    }

    /// Where in its input the run is.
    pub closed spec fn phase(&self) -> Phase {
        self.phase
    }

    /// The expression that finds the line that starts the trace.
    pub closed spec fn start_marker(&self) -> Regex {
        self.start
    }

    /// The expression that finds the line that ends the trace.
    pub closed spec fn end_marker(&self) -> Regex {
        self.end
    }

    /// The interner and the open calls.
    pub closed spec fn tracker(&self) -> CallStack {
        self.calls
    }

    /// The aggregation table.
    pub closed spec fn table(&self) -> Folded {
        self.folded
    }

    /// Whether two runs have the same options and markers.
    pub open spec fn same_setup(&self, other: Collapser) -> bool {
        &&& self.options() == other.options()
        &&& self.start_marker() == other.start_marker()
        &&& self.end_marker() == other.end_marker()
    }

    /// Whether two runs differ in their phase at most.
    pub open spec fn same(&self, other: Collapser) -> bool {
        &&& self.same_setup(other)
        &&& self.tracker().same(other.tracker())
        &&& self.table().same(other.table())
    }

    /// What holds of a run at all times: its parts are sound, and every stack
    /// in the table is made of call ids that the interner knows.
    pub open spec fn wf(&self) -> bool {
        &&& self.tracker().wf()
        &&& self.table().wf()
        &&& forall|s: int, k: int|
            0 <= s < self.table().stacks().len() && 0 <= k < self.table().stacks()[s].len() ==> (
            #[trigger] self.table().stacks()[s][k]) < self.tracker().calls().len()
    }

    /// Whether the marker that the run waits for matches the line.
    pub open spec fn awaited(&self, line: Seq<char>) -> bool {
        match self.phase() {
            Phase::Preamble => regex_is_match(self.start_marker(), line),
            Phase::Tracing => regex_is_match(self.end_marker(), line),
            Phase::Finished => false,
        }
    }

    /// A run that has seen nothing, with the given expressions as markers.
    pub fn with_markers(options: Options, start: Regex, end: Regex) -> (r: Collapser)
        ensures
            r.wf(),
            r.options() == options,
            r.phase() == Phase::Preamble,
            r.start_marker() == start,
            r.end_marker() == end,
            r.tracker().names() == inclusion_names(),
            r.tracker().calls().len() == 0,
            r.tracker().stack().len() == 0,
            r.table().stacks().len() == 0,
            r.table().counts().len() == 0,
            r.table().total() == 0,
    {
        Collapser {
            options,
            start,
            end,
            phase: Phase::Preamble,
            calls: CallStack::new(),
            folded: Folded::new(),
        }
    }

    /// A run from what compiling the two marker patterns gave: a run with
    /// those markers if both compiled, a failure if either did not.
    pub fn from_compiled(
        options: Options,
        start: Result<Regex, regex::Error>,
        end: Result<Regex, regex::Error>,
    ) -> (r: Result<Collapser, TraceError>)
        ensures
            start is Ok && end is Ok ==> (r matches Ok(c) && c.wf() && c.options() == options && c.phase()
                == Phase::Preamble && c.start_marker() == start->Ok_0 && c.end_marker() == end->Ok_0
                && c.tracker().names() == inclusion_names()
                && c.tracker().calls().len() == 0 && c.tracker().stack().len() == 0
                && c.table().stacks().len() == 0 && c.table().total() == 0),
            start is Err || end is Err ==> r matches Err(TraceError::Marker),
    {
        match start {
            Ok(start) => match end {
                Ok(end) => Ok(Collapser::with_markers(options, start, end)),
                Err(_) => Err(TraceError::Marker),
            },
            Err(_) => Err(TraceError::Marker),
        }
    }

    /// A run that has seen nothing and waits for a line with `TRACE START`;
    /// once in the trace it will stop at a line with `TRACE END`. It fails
    /// only if one of the two patterns does not compile.
    pub fn new(options: Options) -> (r: Result<Collapser, TraceError>)
        ensures
            r is Ok <==> (pattern_compiles(start_pattern()) && pattern_compiles(end_pattern())),
            r matches Ok(c) ==> c.wf() && c.options() == options && c.phase() == Phase::Preamble
                && compiled_from(c.start_marker(), start_pattern()) && compiled_from(
                c.end_marker(),
                end_pattern(),
            ) && c.tracker().names() == inclusion_names()
                && c.tracker().calls().len() == 0 && c.tracker().stack().len() == 0
                && c.table().stacks().len() == 0 && c.table().total() == 0,
            r matches Err(e) ==> e is Marker,
    {
        let start = compile("TRACE START");
        let end = compile("TRACE END");
        Collapser::from_compiled(options, start, end)
    }

    /// Whether the line that ends the trace has been seen.
    pub fn is_finished(&self) -> (b: bool)
        ensures
            b == (self.phase() == Phase::Finished),
    {
        match self.phase {
            Phase::Finished => true,
            _ => false,
        }
    }

    /// The number of calls that are open.
    pub fn depth(&self) -> (n: usize)
        ensures
            n == self.tracker().stack().len(),
    {
        self.calls.current().len()
    }

    /// The number of distinct stacks that have been given weight.
    pub fn slots(&self) -> (n: usize)
        ensures
            n == self.table().stacks().len(),
    {
        self.folded.len()
    }

    /// The number of contributions that the stack of a slot has been given.
    pub fn count(&self, slot: usize) -> (count: u64)
        requires
            self.wf(),
            slot < self.table().stacks().len(),
        ensures
            count == self.table().counts()[slot as int],
    {
        self.folded.count_at(slot)
    }

    /// The folded form of the stack of a slot: its frames, root first and
    /// joined by `;`.
    pub fn folded_name(&self, slot: usize) -> (text: String)
        requires
            self.wf(),
            slot < self.table().stacks().len(),
        ensures
            text@ == self.name_of(slot as int),
    {
        let stack = self.folded.stack_at(slot);
        assert forall|k: int| 0 <= k < stack@.len() implies (#[trigger] stack@[k]) < self.calls.calls().len() by {
            assert(self.table().stacks()[slot as int][k] < self.tracker().calls().len());
        }
        self.calls.frames(stack)
    }

    /// How the stack of a slot is written.
    pub open spec fn name_of(&self, slot: int) -> Seq<char> {
        stack_text(
            self.tracker().names(),
            self.tracker().calls(),
            self.table().stacks()[slot],
            self.table().stacks()[slot].len() as int,
        )
    }

    /// Every stack that has been given weight, in the order in which the
    /// stacks were first seen: its folded form and the number of its
    /// contributions.
    pub fn report(&self) -> (lines: Vec<(String, u64)>)
        requires
            self.wf(),
        ensures
            lines@.len() == self.table().stacks().len(),
            forall|i: int| 0 <= i < lines@.len() ==> (#[trigger] lines@[i]).0@ == self.name_of(i)
                && lines@[i].1 == self.table().counts()[i],
    {
        let n: usize = self.slots();
        let mut lines: Vec<(String, u64)> = Vec::with_capacity(n);
        let mut slot: usize = 0;
        while slot < n
            invariant
                self.wf(),
                n == self.table().stacks().len(),
                slot <= n,
                lines@.len() == slot,
                forall|i: int| 0 <= i < lines@.len() ==> (#[trigger] lines@[i]).0@ == self.name_of(i)
                    && lines@[i].1 == self.table().counts()[i],
            decreases n - slot,
        {
            let text = self.folded_name(slot);
            let count = self.count(slot);
            lines.push((text, count));
            slot = slot + 1;
        }
        lines
    }

    /// Takes a record: attributes it to the open stack, then lets it take
    /// effect on the stack.
    pub fn apply(&mut self, record: Record) -> (r: Result<Step, TraceError>)
        requires
            old(self).wf(),
        ensures
            final(self).wf(),
            final(self).phase() == old(self).phase(),
            applied(
                *old(self),
                *final(self),
                record.is_exit,
                record.time@,
                text_of(record.name),
                text_of(record.path),
                r,
            ),
    {
        if record.is_exit && self.calls.is_empty() {
            return Ok(Step::Discarded { time: record.time });
        }
        let weigh: bool = match self.options.weighting {
            Weighting::Elapsed => true,
            Weighting::Invocations => !record.is_exit,
        };
        let ghost stack = self.calls.stack();
        let ghost stacks = self.folded.stacks();
        let slot: Option<usize> = if weigh {
            match self.folded.add(self.calls.current()) {
                Ok(slot) => Some(slot),
                Err(e) => {
                    return Err(e);
                },
            }
        } else {
            None
        };
        proof {
            assert forall|s: int, k: int|
                0 <= s < self.folded.stacks().len() && 0 <= k < self.folded.stacks()[s].len() implies (
            #[trigger] self.folded.stacks()[s][k]) < self.calls.calls().len() by {
                if s < stacks.len() {
                    assert(self.folded.stacks()[s] == stacks[s]);
                } else {
                    assert(self.folded.stacks()[s] == stack);
                }
            }
        }
        if record.is_exit {
            self.calls.pop();
        } else {
            match (record.name, record.path) {
                (Some(name), Some(path)) => {
                    let ghost calls = self.calls.calls();
                    self.calls.call(name.as_str(), path.as_str());
                    proof {
                        lemma_interned(calls, classify(self.calls.names(), name@, path@));
                    }
                },
                _ => {},
            }
        }
        Ok(Step::Record { time: record.time, slot })
    }

    /// Takes a line, given whether the marker that the run waits for matches it.
    pub fn advance(&mut self, line: &str, hit: bool) -> (r: Result<Step, TraceError>)
        requires
            old(self).wf(),
        ensures
            final(self).wf(),
            fed(*old(self), *final(self), line@, hit, r),
    {
        match self.phase {
            Phase::Preamble => {
                if hit {
                    self.phase = Phase::Tracing;
                }
                Ok(Step::Skipped)
            },
            Phase::Finished => Ok(Step::Skipped),
            Phase::Tracing => {
                if hit {
                    self.phase = Phase::Finished;
                    return Ok(Step::Skipped);
                }
                match parse_record(line) {
                    Err(e) => Err(e),
                    Ok(None) => Ok(Step::Skipped),
                    Ok(Some(record)) => self.apply(record),
                }
            },
        }
    }

    /// Takes the next line of the input.
    ///
    /// Lines before the start marker and after the end marker are skipped, as
    /// are the markers themselves and lines with too few columns. A record
    /// whose exit flag is neither `0` nor `1` is an error, and leaves the run
    /// as it was.
    pub fn feed(&mut self, line: &str) -> (r: Result<Step, TraceError>)
        requires
            old(self).wf(),
        ensures
            final(self).wf(),
            fed(*old(self), *final(self), line@, old(self).awaited(line@), r),
    {
        let hit: bool = match self.phase {
            Phase::Preamble => is_match(&self.start, line),
            Phase::Tracing => is_match(&self.end, line),
            Phase::Finished => false,
        };
        self.advance(line, hit)
    }
}

/// Whether two reports say the same.
pub open spec fn same_report(a: Result<Step, TraceError>, b: Result<Step, TraceError>) -> bool {
    match (a, b) {
        (Ok(Step::Skipped), Ok(Step::Skipped)) => true,
        (Ok(Step::Discarded { time: s }), Ok(Step::Discarded { time: t })) => s@ == t@,
        (Ok(Step::Record { time: s, slot: i }), Ok(Step::Record { time: t, slot: j })) => s@ == t@ && i == j,
        (Err(TraceError::ExitFlag { token: s }), Err(TraceError::ExitFlag { token: t })) => s@ == t@,
        (Err(TraceError::Marker), Err(TraceError::Marker)) => true,
        (Err(TraceError::Overflow), Err(TraceError::Overflow)) => true,
        _ => false,
    }
}

/// Whether a report says that the record was given to a slot.
pub open spec fn attributed(r: Result<Step, TraceError>) -> bool {
    r matches Ok(Step::Record { slot: Some(_), .. })
}

/// Conservation: the counts of all stacks add up to the number of records
/// that were attributed. A record that is attributed adds one to the sum; a
/// record that is discarded, or does not weigh, or fails, adds nothing.
pub proof fn lemma_conservation(
    before: Collapser,
    after: Collapser,
    is_exit: bool,
    time: Seq<char>,
    name: Option<Seq<char>>,
    path: Option<Seq<char>>,
    r: Result<Step, TraceError>,
)
    requires
        before.wf(),
        after.wf(),
        applied(before, after, is_exit, time, name, path, r),
    ensures
        sum(after.table().counts()) == sum(before.table().counts()) + (if attributed(r) { 1int } else { 0int }),
        sum(after.table().counts()) == after.table().total(),
{
}

/// An exit that comes with no call open changes neither the table nor the
/// stack, and the run goes on: the report is no error.
pub proof fn lemma_exit_without_entrance(
    before: Collapser,
    after: Collapser,
    time: Seq<char>,
    name: Option<Seq<char>>,
    path: Option<Seq<char>>,
    r: Result<Step, TraceError>,
)
    requires
        before.tracker().stack().len() == 0,
        applied(before, after, true, time, name, path, r),
    ensures
        r matches Ok(Step::Discarded { .. }),
        after.table().same(before.table()),
        after.tracker().same(before.tracker()),
{
}

/// Where calls are counted, an entry adds exactly one to the count of the
/// stack that was open before it, and an exit adds nothing to any count.
pub proof fn lemma_counting(
    before: Collapser,
    after: Collapser,
    is_exit: bool,
    time: Seq<char>,
    name: Option<Seq<char>>,
    path: Option<Seq<char>>,
    r: Result<Step, TraceError>,
)
    requires
        before.wf(),
        before.options().weighting == Weighting::Invocations,
        before.table().total() < u64::MAX,
        applied(before, after, is_exit, time, name, path, r),
    ensures
        is_exit ==> after.table().same(before.table()),
        !is_exit ==> (r matches Ok(Step::Record { slot: Some(s), .. }) && s < after.table().stacks().len()
            && after.table().stacks()[s as int] == before.tracker().stack() && after.table().counts()
            == counted(before.table().counts(), s as int) && (s < before.table().counts().len()
            ==> after.table().counts()[s as int] == before.table().counts()[s as int] + 1) && (s
            == before.table().counts().len() ==> after.table().counts()[s as int] == 1)),
{
    if !is_exit {
        let s = r->Ok_0->Record_slot->0;
        if s < before.table().counts().len() {
            lemma_sum_update(before.table().counts(), s as int, 0);
        }
    }
}

/// A step is a function of the run and the line: from runs that agree, the
/// same line leads to runs that agree, with the same report. So the same
/// input, fed twice, gives the same stacks with the same counts.
pub proof fn lemma_fed_is_a_function(
    first: Collapser,
    first_after: Collapser,
    second: Collapser,
    second_after: Collapser,
    line: Seq<char>,
    hit: bool,
    first_report: Result<Step, TraceError>,
    second_report: Result<Step, TraceError>,
)
    requires
        first.same(second),
        first.phase() == second.phase(),
        fed(first, first_after, line, hit, first_report),
        fed(second, second_after, line, hit, second_report),
    ensures
        first_after.same(second_after),
        first_after.phase() == second_after.phase(),
        same_report(first_report, second_report),
        forall|slot: int| first_after.name_of(slot) == second_after.name_of(slot),
{
}

/// Whether `states` are the states that a run goes through when it is fed
/// `lines` one after the other, and `reports` what is reported of each line.
pub open spec fn is_run(
    states: Seq<Collapser>,
    lines: Seq<Seq<char>>,
    reports: Seq<Result<Step, TraceError>>,
) -> bool {
    &&& states.len() == lines.len() + 1
    &&& reports.len() == lines.len()
    &&& forall|i: int| 0 <= i <= lines.len() ==> (#[trigger] states[i]).wf()
    &&& forall|i: int|
        0 <= i < lines.len() ==> fed(
            states[i],
            states[i + 1],
            lines[i],
            states[i].awaited(lines[i]),
            #[trigger] reports[i],
        )
}

/// How many of the reports say that a record was given to a slot.
pub open spec fn attributions(reports: Seq<Result<Step, TraceError>>) -> int
    decreases reports.len(),
{
    if reports.len() == 0 {
        0
    } else {
        attributions(reports.drop_last()) + (if attributed(reports.last()) { 1int } else { 0int })
    }
}

/// Conservation over a run: whatever lines a run is fed, the counts of all
/// stacks grow by exactly the number of records that were attributed. From a
/// fresh run on, they add up to that number.
pub proof fn lemma_run_conserves(
    states: Seq<Collapser>,
    lines: Seq<Seq<char>>,
    reports: Seq<Result<Step, TraceError>>,
)
    requires
        is_run(states, lines, reports),
    ensures
        sum(states.last().table().counts()) == sum(states[0].table().counts()) + attributions(reports),
    decreases lines.len(),
{
    if lines.len() > 0 {
        let n = lines.len() - 1;
        assert(is_run(states.drop_last(), lines.drop_last(), reports.drop_last())) by {
            assert forall|i: int| 0 <= i < n implies fed(
                states.drop_last()[i],
                states.drop_last()[i + 1],
                lines.drop_last()[i],
                states.drop_last()[i].awaited(lines.drop_last()[i]),
                #[trigger] reports.drop_last()[i],
            ) by {
                assert(fed(states[i], states[i + 1], lines[i], states[i].awaited(lines[i]), reports[i]));
            }
            assert forall|i: int| 0 <= i <= n implies (#[trigger] states.drop_last()[i]).wf() by {
                assert(states[i].wf());
            }
        }
        lemma_run_conserves(states.drop_last(), lines.drop_last(), reports.drop_last());
        assert(states.drop_last().last() == states[n]);
        assert(states[n].wf() && states[n + 1].wf());
        assert(fed(states[n], states[n + 1], lines[n], states[n].awaited(lines[n]), reports[n]));
    }
}

/// The same input gives the same result: two runs that start alike and are
/// fed the same lines go through states that agree, with the same reports,
/// and end with the same stacks, written the same, with the same counts.
pub proof fn lemma_runs_agree(
    first: Seq<Collapser>,
    first_reports: Seq<Result<Step, TraceError>>,
    second: Seq<Collapser>,
    second_reports: Seq<Result<Step, TraceError>>,
    lines: Seq<Seq<char>>,
    k: int,
)
    requires
        is_run(first, lines, first_reports),
        is_run(second, lines, second_reports),
        first[0].same(second[0]),
        first[0].phase() == second[0].phase(),
        0 <= k <= lines.len(),
    ensures
        first[k].same(second[k]),
        first[k].phase() == second[k].phase(),
        k > 0 ==> same_report(first_reports[k - 1], second_reports[k - 1]),
        forall|slot: int| first[k].name_of(slot) == second[k].name_of(slot),
    decreases k,
{
    if k > 0 {
        lemma_runs_agree(first, first_reports, second, second_reports, lines, k - 1);
        let i = k - 1;
        assert(fed(first[i], first[i + 1], lines[i], first[i].awaited(lines[i]), first_reports[i]));
        assert(fed(second[i], second[i + 1], lines[i], second[i].awaited(lines[i]), second_reports[i]));
        lemma_fed_is_a_function(
            first[i],
            first[i + 1],
            second[i],
            second[i + 1],
            lines[i],
            first[i].awaited(lines[i]),
            first_reports[i],
            second_reports[i],
        );
    }
}

} // verus!
