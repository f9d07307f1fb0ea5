//! The output of a command and its end: what a command wrote is handed on before its end,
//! which is held back until the output is closed, or has been open for too long.
use vstd::prelude::*;
use vstd::utf8::encode_utf8;

use crate::execution;
use crate::execution::{ExecutionView, StepEvent, TaskOutput};
use crate::time_span::TimeSpan;

verus! {

/// How long the output of a command that has ended may stay silent, while something that the
/// command started holds it open.
pub const SILENCE_MILLIS: u64 = 200;

/// How long the output of a command that has ended is read at all.
pub const DRAIN_MILLIS: u64 = 1000;

/// How long to wait for more output of a command that ended `since_end` milliseconds ago.
pub open spec fn patience(since_end: int) -> int {
    if since_end >= DRAIN_MILLIS {
        0
    } else if DRAIN_MILLIS - since_end < SILENCE_MILLIS {
        DRAIN_MILLIS - since_end
    } else {
        SILENCE_MILLIS as int
    }
}

/// How long to wait, in milliseconds, for more output of a command that ended `since_end`
/// milliseconds ago: until it has been silent for too long, but not beyond the time for which
/// it is read at all.
pub fn drain_wait(since_end: u64) -> (wait: u64)
    ensures
        wait == patience(since_end as int),
{
    if since_end >= DRAIN_MILLIS {
        0
    } else if DRAIN_MILLIS - since_end < SILENCE_MILLIS {
        DRAIN_MILLIS - since_end
    } else {
        SILENCE_MILLIS
    }
}

/// Something that was seen of a command after it was started.
#[derive(Debug, PartialEq, Eq)]
pub enum Sighting<S = String, B = Vec<u8>> {
    /// The command wrote something.
    Output { stdout: bool, chunk: B },
    /// Reading from the command failed.
    StreamFailed { message: S },
    /// Nothing more can be read, neither output nor error output.
    Closed,
    /// The command ended, with a code unless a signal ended it.
    Exited { code: Option<i32> },
    /// It cannot be known how the command ended.
    WaitFailed { message: S },
    /// The command has been silent for too long, or read for too long, since it ended.
    Drained,
    /// The time of the command is up.
    TimeUp,
}

impl View for Sighting<String, Vec<u8>> {
    type V = Sighting<Seq<char>, Seq<u8>>;

    open spec fn view(&self) -> Sighting<Seq<char>, Seq<u8>> {
        match self {
            Sighting::Output { stdout, chunk } => {
                Sighting::Output { stdout: *stdout, chunk: chunk@ }
            },
            Sighting::StreamFailed { message } => Sighting::StreamFailed { message: message@ },
            Sighting::Closed => Sighting::Closed,
            Sighting::Exited { code } => Sighting::Exited { code: *code },
            Sighting::WaitFailed { message } => Sighting::WaitFailed { message: message@ },
            Sighting::Drained => Sighting::Drained,
            Sighting::TimeUp => Sighting::TimeUp,
        }
    }
}

/// A command whose output is read.
#[derive(Debug, PartialEq, Eq)]
pub struct CommandStreams {
    held: Option<StepEvent>,
    closed: bool,
    over: bool,
}

/// What is known of a command whose output is read.
#[verifier::ext_equal]
pub struct StreamsView {
    /// The end of the command, while it is held back.
    pub held: Option<StepEvent<Seq<char>, Seq<u8>>>,
    /// Whether nothing more can be read.
    pub closed: bool,
    /// Whether the end of the command has been handed on.
    pub over: bool,
}

impl View for CommandStreams {
    type V = StreamsView;

    closed spec fn view(&self) -> StreamsView {
        StreamsView {
            held: match self.held {
                Some(event) => Some(event@),
                None => None,
            },
            closed: self.closed,
            over: self.over,
        }
    }
}

/// A command that has just been started.
pub open spec fn opened() -> StreamsView {
    StreamsView { held: None, closed: false, over: false }
}

/// The end of a command is handed on.
pub open spec fn released(state: StreamsView, end: StepEvent<Seq<char>, Seq<u8>>) -> (
    StreamsView,
    Option<StepEvent<Seq<char>, Seq<u8>>>,
) {
    (StreamsView { held: None, over: true, ..state }, Some(end))
}

/// A command has ended: its end is handed on where nothing more can be read, and held back
/// otherwise.
pub open spec fn stopped(state: StreamsView, end: StepEvent<Seq<char>, Seq<u8>>) -> (
    StreamsView,
    Option<StepEvent<Seq<char>, Seq<u8>>>,
) {
    if state.closed {
        released(state, end)
    } else if state.held is Some {
        (state, None)
    } else {
        (StreamsView { held: Some(end), ..state }, None)
    }
}

/// What is handed on after a sighting, and what is known then.
pub open spec fn seen(state: StreamsView, sighting: Sighting<Seq<char>, Seq<u8>>) -> (
    StreamsView,
    Option<StepEvent<Seq<char>, Seq<u8>>>,
) {
    if state.over {
        (state, None)
    } else {
        match sighting {
            Sighting::Output { stdout, chunk } => (
                state,
                Some(StepEvent::Output { stdout, chunk }),
            ),
            Sighting::StreamFailed { message } => (
                state,
                Some(StepEvent::StreamFailed { message }),
            ),
            Sighting::Closed => match state.held {
                Some(end) => released(StreamsView { closed: true, ..state }, end),
                None => (StreamsView { closed: true, ..state }, None),
            },
            Sighting::Exited { code } => stopped(state, StepEvent::Exited { code }),
            Sighting::WaitFailed { message } => stopped(state, StepEvent::WaitFailed { message }),
            Sighting::Drained => match state.held {
                Some(end) => released(state, end),
                None => (state, None),
            },
            Sighting::TimeUp => match state.held {
                Some(end) => released(state, end),
                None => released(state, StepEvent::TimedOut),
            },
        }
    }
}

/// What some event says, where there is one.
pub open spec fn maybe_event(event: Option<StepEvent>) -> Option<StepEvent<Seq<char>, Seq<u8>>> {
    match event {
        Some(event) => Some(event@),
        None => None,
    }
}

impl CommandStreams {
    /// A command that has just been started.
    pub fn open() -> (streams: CommandStreams)
        ensures
            streams@ == opened(),
    {
        CommandStreams { held: None, closed: false, over: false }
    }

    /// Whether the command has ended, and its end is held back.
    pub fn is_draining(&self) -> (draining: bool)
        ensures
            draining == (self@.held is Some),
    {
        self.held.is_some()
    }

    /// Whether nothing more can be read.
    pub fn is_closed(&self) -> (closed: bool)
        ensures
            closed == self@.closed,
    {
        self.closed
    }

    /// Hands the end of the command on.
    fn release(&mut self, end: StepEvent) -> (event: Option<StepEvent>)
        ensures
            (final(self)@, maybe_event(event)) == released(old(self)@, end@),
    {
        self.held = None;
        self.over = true;
        Some(end)
    }

    /// Hands the end of the command on where nothing more can be read, and holds it back
    /// otherwise.
    fn stop(&mut self, end: StepEvent) -> (event: Option<StepEvent>)
        ensures
            (final(self)@, maybe_event(event)) == stopped(old(self)@, end@),
    {
        if self.closed {
            self.release(end)
        } else {
            if self.held.is_none() {
                self.held = Some(end);
            }
            None
        }
    }

    /// Takes a sighting, and says what is handed on, if anything is.
    pub fn see(&mut self, sighting: Sighting) -> (event: Option<StepEvent>)
        ensures
            (final(self)@, maybe_event(event)) == seen(old(self)@, sighting@),
    {
        if self.over {
            return None;
        }
        match sighting {
            Sighting::Output { stdout, chunk } => Some(StepEvent::Output { stdout, chunk }),
            Sighting::StreamFailed { message } => Some(StepEvent::StreamFailed { message }),
            Sighting::Closed => {
                self.closed = true;
                match self.held.take() {
                    Some(end) => self.release(end),
                    None => None,
                }
            },
            Sighting::Exited { code } => self.stop(StepEvent::Exited { code }),
            Sighting::WaitFailed { message } => self.stop(StepEvent::WaitFailed { message }),
            Sighting::Drained => match self.held.take() {
                Some(end) => self.release(end),
                None => None,
            },
            Sighting::TimeUp => match self.held.take() {
                Some(end) => self.release(end),
                None => self.release(StepEvent::TimedOut),
            },
        }
    }
}

// ---- what holds of a command whose output is read ----

/// What is known of a command of which `sightings` were seen, and what was handed on.
pub open spec fn observed(sightings: Seq<Sighting<Seq<char>, Seq<u8>>>) -> (
    StreamsView,
    Seq<StepEvent<Seq<char>, Seq<u8>>>,
)
    decreases sightings.len(),
{
    if sightings.len() == 0 {
        (opened(), Seq::empty())
    } else {
        let before = observed(sightings.drop_last());
        let (state, event) = seen(before.0, sightings.last());
        (
            state,
            match event {
                Some(event) => before.1.push(event),
                None => before.1,
            },
        )
    }
}

/// What was read from a command, piece by piece.
pub open spec fn readings(sightings: Seq<Sighting<Seq<char>, Seq<u8>>>) -> Seq<
    StepEvent<Seq<char>, Seq<u8>>,
>
    decreases sightings.len(),
{
    if sightings.len() == 0 {
        Seq::empty()
    } else {
        let before = readings(sightings.drop_last());
        match sightings.last() {
            Sighting::Output { stdout, chunk } => before.push(
                StepEvent::Output { stdout, chunk },
            ),
            Sighting::StreamFailed { message } => before.push(
                StepEvent::StreamFailed { message },
            ),
            _ => before,
        }
    }
}

/// How a command ended, as far as it was seen.
pub open spec fn ending(sightings: Seq<Sighting<Seq<char>, Seq<u8>>>) -> Option<
    StepEvent<Seq<char>, Seq<u8>>,
>
    decreases sightings.len(),
{
    if sightings.len() == 0 {
        None
    } else {
        match ending(sightings.drop_last()) {
            Some(end) => Some(end),
            None => match sightings.last() {
                Sighting::Exited { code } => Some(StepEvent::Exited { code }),
                Sighting::WaitFailed { message } => Some(StepEvent::WaitFailed { message }),
                _ => None,
            },
        }
    }
}

/// Whether something was read.
pub open spec fn is_reading(sighting: Sighting<Seq<char>, Seq<u8>>) -> bool {
    sighting is Output || sighting is StreamFailed
}

/// Whether the output of a command was closed in time: its time was not up, it was not given
/// up as drained, and nothing was read after it was closed.
pub open spec fn in_time(sightings: Seq<Sighting<Seq<char>, Seq<u8>>>) -> bool {
    &&& forall|i: int|
        0 <= i < sightings.len() ==> !((#[trigger] sightings[i]) is Drained)
            && !(sightings[i] is TimeUp)
    &&& forall|i: int, j: int|
        0 <= i < j < sightings.len() && (#[trigger] sightings[i]) is Closed ==> !is_reading(
            #[trigger] sightings[j],
        )
}

/// Until the end of a command is handed on, everything that was read from it has been handed
/// on, in order, and nothing else.
pub proof fn lemma_readings_first(sightings: Seq<Sighting<Seq<char>, Seq<u8>>>)
    ensures
        !observed(sightings).0.over ==> observed(sightings).1 == readings(sightings),
    decreases sightings.len(),
{
    if sightings.len() > 0 {
        lemma_readings_first(sightings.drop_last());
    }
}

/// The end of a command is the last thing that is handed on of it, and comes once.
pub proof fn lemma_end_is_last(sightings: Seq<Sighting<Seq<char>, Seq<u8>>>)
    ensures
        ({
            let (state, events) = observed(sightings);
            let ends = |event: StepEvent<Seq<char>, Seq<u8>>|
                !(event is Output || event is StreamFailed);
            &&& forall|i: int|
                0 <= i < events.len() && ends(#[trigger] events[i]) ==> state.over && i
                    == events.len() - 1
            &&& state.over ==> events.len() > 0 && ends(events.last())
        }),
    decreases sightings.len(),
{
    if sightings.len() > 0 {
        lemma_end_is_last(sightings.drop_last());
        lemma_held_is_end(sightings.drop_last());
    }
}

/// What is held back is an end.
proof fn lemma_held_is_end(sightings: Seq<Sighting<Seq<char>, Seq<u8>>>)
    ensures
        match observed(sightings).0.held {
            Some(end) => end is Exited || end is WaitFailed,
            None => true,
        },
    decreases sightings.len(),
{
    if sightings.len() > 0 {
        lemma_held_is_end(sightings.drop_last());
    }
}

/// Where the output of a command is closed in time, everything that was read from it is
/// handed on, in order, and its end comes behind all of it, once it has ended and its output
/// is closed.
pub proof fn lemma_output_before_end(sightings: Seq<Sighting<Seq<char>, Seq<u8>>>)
    requires
        in_time(sightings),
    ensures
        observed(sightings).1 == match ending(sightings) {
            Some(end) => if sightings.contains(Sighting::Closed) {
                readings(sightings).push(end)
            } else {
                readings(sightings)
            },
            None => readings(sightings),
        },
        observed(sightings).0.over == (ending(sightings) is Some && sightings.contains(
            Sighting::Closed,
        )),
        observed(sightings).0.closed == sightings.contains(Sighting::Closed),
        !observed(sightings).0.over ==> observed(sightings).0.held == ending(sightings),
    decreases sightings.len(),
{
    let closed = Sighting::<Seq<char>, Seq<u8>>::Closed;
    if sightings.len() > 0 {
        let short = sightings.drop_last();
        let last = sightings.last();
        assert(sightings == short.push(last));
        assert forall|i: int| 0 <= i < short.len() implies !((#[trigger] short[i]) is Drained)
            && !(short[i] is TimeUp) by {
            assert(short[i] == sightings[i]);
        }
        assert forall|i: int, j: int|
            0 <= i < j < short.len() && (#[trigger] short[i]) is Closed implies !is_reading(
            #[trigger] short[j],
        ) by {
            assert(short[i] == sightings[i] && short[j] == sightings[j]);
        }
        lemma_output_before_end(short);
        if short.contains(closed) {
            let at = choose|i: int| 0 <= i < short.len() && short[i] == closed;
            assert(sightings[at] == closed);
            assert(sightings[at] is Closed);
            assert(!is_reading(sightings[sightings.len() - 1]));
        }
        if last == closed {
            assert(sightings[sightings.len() - 1] == closed);
        }
        assert(sightings.contains(closed) == (short.contains(closed) || last == closed)) by {
            if sightings.contains(closed) && last != closed {
                let at = choose|i: int| 0 <= i < sightings.len() && sightings[i] == closed;
                assert(short[at] == closed);
            }
        }
        assert(!(sightings[sightings.len() - 1] is Drained));
    }
}

/// What is sent back of what was read, each piece for itself.
pub open spec fn relayed(events: Seq<StepEvent<Seq<char>, Seq<u8>>>) -> Seq<TaskOutput<Seq<u8>>>
    decreases events.len(),
{
    if events.len() == 0 {
        Seq::empty()
    } else {
        let before = relayed(events.drop_last());
        match events.last() {
            StepEvent::Output { stdout, chunk } => before.push(
                if stdout {
                    TaskOutput::Stdout { chunk }
                } else {
                    TaskOutput::Stderr { chunk }
                },
            ),
            StepEvent::StreamFailed { message } => before.push(
                TaskOutput::Stderr { chunk: encode_utf8("stream error: "@ + message + "\n"@) },
            ),
            _ => before,
        }
    }
}

/// Nothing but output and failures to read it is read.
proof fn lemma_readings_are_output(sightings: Seq<Sighting<Seq<char>, Seq<u8>>>)
    ensures
        forall|i: int|
            0 <= i < readings(sightings).len() ==> (#[trigger] readings(sightings)[i]) is Output
                || readings(sightings)[i] is StreamFailed,
    decreases sightings.len(),
{
    if sightings.len() > 0 {
        lemma_readings_are_output(sightings.drop_last());
    }
}

/// What is read is sent back while the task goes on.
proof fn lemma_relays(
    start: ExecutionView,
    earlier: Seq<StepEvent<Seq<char>, Seq<u8>>>,
    events: Seq<StepEvent<Seq<char>, Seq<u8>>>,
)
    requires
        execution::traced(start, earlier).state.running,
        forall|i: int|
            0 <= i < events.len() ==> (#[trigger] events[i]) is Output
                || events[i] is StreamFailed,
    ensures
        execution::traced(start, earlier + events).state == execution::traced(
            start,
            earlier,
        ).state,
        execution::traced(start, earlier + events).outputs == execution::traced(
            start,
            earlier,
        ).outputs + relayed(events),
        execution::no_exit(relayed(events)),
    decreases events.len(),
{
    if events.len() == 0 {
        assert(earlier + events =~= earlier);
        assert(execution::traced(start, earlier).outputs + relayed(events)
            =~= execution::traced(start, earlier).outputs);
    } else {
        let short = events.drop_last();
        let last = events[events.len() - 1];
        assert forall|i: int| 0 <= i < short.len() implies (#[trigger] short[i]) is Output
            || short[i] is StreamFailed by {
            assert(short[i] == events[i]);
        }
        lemma_relays(start, earlier, short);
        assert((earlier + events).drop_last() =~= earlier + short);
        assert((earlier + events).last() == last);
        assert(last is Output || last is StreamFailed);
        assert(execution::traced(start, earlier + events).outputs =~= execution::traced(
            start,
            earlier,
        ).outputs + relayed(events));
    }
}

/// Everything that is read from a command is sent back before the exit code of the task, in
/// the order in which it was read, where the output of the command is closed in time: then
/// follows what the end of the command brings, be it the next command or the exit code.
pub proof fn lemma_output_sent_before_exit(
    task: Seq<char>,
    steps: Seq<Seq<Seq<char>>>,
    timeout: Option<TimeSpan>,
    earlier: Seq<StepEvent<Seq<char>, Seq<u8>>>,
    sightings: Seq<Sighting<Seq<char>, Seq<u8>>>,
)
    requires
        execution::traced(execution::fresh(task, steps, timeout), earlier).state.running,
        in_time(sightings),
        ending(sightings) is Some,
        sightings.contains(Sighting::Closed),
    ensures
        ({
            let start = execution::fresh(task, steps, timeout);
            let before = execution::traced(start, earlier);
            let after = execution::traced(start, earlier + observed(sightings).1);
            let last = execution::handled(before.state, ending(sightings)->0);
            &&& after.outputs == before.outputs + relayed(readings(sightings)) + last.1.outputs
            &&& after.state == last.0
            &&& execution::no_exit(before.outputs + relayed(readings(sightings)))
        }),
{
    let start = execution::fresh(task, steps, timeout);
    let before = execution::traced(start, earlier);
    let read = readings(sightings);
    let end = ending(sightings)->0;
    lemma_output_before_end(sightings);
    lemma_readings_are_output(sightings);
    lemma_relays(start, earlier, read);
    execution::lemma_one_exit(task, steps, timeout, earlier);
    let whole = earlier + observed(sightings).1;
    assert(whole.drop_last() =~= earlier + read);
    assert(whole.last() == end);
}

} // verus!
