use vstd::prelude::*;
use crate::address::Address;
use crate::commands::{SEARCH_ALARM, SEARCH_NORMAL};
use crate::crc::{check_crc8, crc_holds, le_bytes, to_le_bytes};
use crate::error::ErrorKind;
use crate::search_state::{SearchState, bit_at, highest_set_bit, with_bit};
use crate::triplet::Triplet;

verus! {

/// What the previous pass left: nothing before the first pass, its search
/// state afterwards.
#[derive(Debug, Clone, Copy, PartialEq, Eq, Structural)]
pub enum SearchPhase {
    NotStarted,
    InProgress(SearchState),
}

/// Where the enumerator stands within a pass.
#[derive(Debug, Clone, Copy, PartialEq, Eq, Structural)]
pub enum Stage {
    /// Between passes: the next step starts a pass or ends the search.
    Ready,
    /// A reset was asked for; waiting for the presence answer.
    AwaitPresence,
    /// The search command was asked to be written; waiting for it to go out.
    AwaitWrite,
    /// A triplet for this bit index was asked for; waiting for its outcome.
    Sampling(u8),
    /// The search is over for good.
    Finished,
}

/// What the bus reports back to the enumerator.
#[derive(Debug, Clone, Copy, PartialEq, Eq, Structural)]
pub enum Event {
    /// Ask for the next identifier.
    Advance,
    /// The outcome of a reset: whether a presence pulse was seen.
    Presence(bool),
    /// The command byte has been written.
    Written,
    /// The outcome of a triplet.
    Sampled(Triplet),
}

/// What the enumerator asks of the bus, or hands to its caller.
#[derive(Debug, Clone, Copy, PartialEq, Eq, Structural)]
pub enum Action {
    /// Reset the bus and report `Event::Presence`.
    Reset,
    /// Write this byte and report `Event::Written`.
    WriteByte(u8),
    /// Run a triplet with this direction bit and report `Event::Sampled`.
    Triplet(bool),
    /// A pass found this identifier; it passed the CRC check.
    Found(Address),
    /// The search ended with this error.
    Failed(ErrorKind),
    /// The search ended: no further devices.
    Done,
}

/// The 1-Wire device search as a state machine. Each pass walks the 64 bits
/// of the identifier space, taking the 0-branch at new discrepancies and the
/// 1-branch at the last discrepancy of the previous pass, and yields one
/// identifier.
#[derive(Debug, Clone, Copy, PartialEq, Eq, Structural)]
pub struct DeviceSearch {
    /// The command byte sent at the start of each pass.
    pub search_command: u8,
    /// What the previous pass left.
    pub phase: SearchPhase,
    /// The state the current pass is building.
    pub current: SearchState,
    /// Where the search stands.
    pub stage: Stage,
}

/// The actions taken on a sequence of events, one per event.
pub open spec fn run(s: DeviceSearch, events: Seq<Event>) -> Seq<Action>
    decreases events.len(),
{
    if events.len() == 0 {
        Seq::empty()
    } else {
        let (n, a) = s.next(events[0]);
        seq![a] + run(n, events.subrange(1, events.len() as int))
    }
}

/// Two enumerators that will act alike: the same command, previous pass and
/// stage, and within a pass the same state under construction.
pub open spec fn same_course(a: DeviceSearch, b: DeviceSearch) -> bool {
    &&& a.search_command == b.search_command
    &&& a.phase == b.phase
    &&& a.stage == b.stage
    &&& (a.stage is AwaitPresence || a.stage is AwaitWrite || a.stage is Sampling) ==> a.current
        == b.current
}

proof fn lemma_same_course_step(a: DeviceSearch, b: DeviceSearch, e: Event)
    requires
        same_course(a, b),
    ensures
        same_course(a.next(e).0, b.next(e).0),
        a.next(e).1 == b.next(e).1,
{
}

proof fn lemma_same_course_run(a: DeviceSearch, b: DeviceSearch, events: Seq<Event>)
    requires
        same_course(a, b),
    ensures
        run(a, events) == run(b, events),
    decreases events.len(),
{
    if events.len() > 0 {
        lemma_same_course_step(a, b, events[0]);
        lemma_same_course_run(a.next(events[0]).0, b.next(events[0]).0, events.subrange(1, events.len() as int));
    }
}

/// A pass depends on the previous pass's search state and the bus's answers
/// alone: two enumerators between passes with the same command and the same
/// previous search state take the same actions on the same events.
pub proof fn lemma_pass_deterministic(a: DeviceSearch, b: DeviceSearch, events: Seq<Event>)
    requires
        a.stage == Stage::Ready,
        b.stage == Stage::Ready,
        a.search_command == b.search_command,
        a.phase == b.phase,
    ensures
        run(a, events) == run(b, events),
{
    lemma_same_course_run(a, b, events);
}

/// The search command of each mode.
pub open spec fn command_for(only_alarming: bool) -> u8 {
    if only_alarming {
        SEARCH_ALARM
    } else {
        SEARCH_NORMAL
    }
}

/// The direction bit driven at bit `i`: 0 on the first pass; otherwise the
/// previous path below the last discrepancy, 1 at it, 0 above it.
pub open spec fn direction_spec(phase: SearchPhase, i: u64) -> bool {
    match phase {
        SearchPhase::NotStarted => false,
        SearchPhase::InProgress(prev) => {
            let last = highest_set_bit(prev.discrepancies);
            if i < last {
                bit_at(prev.address, i)
            } else {
                i == last
            }
        },
    }
}

/// The state after the outcome `t` at bit `i`, or `None` when no device answered.
pub open spec fn record_spec(phase: SearchPhase, state: SearchState, i: u64, t: Triplet) -> Option<
    SearchState,
> {
    match t {
        Triplet::Discrepancy(b) => {
            let d = match phase {
                SearchPhase::NotStarted => with_bit(state.discrepancies, i, true),
                SearchPhase::InProgress(prev) => {
                    let last = highest_set_bit(prev.discrepancies);
                    if i > last {
                        with_bit(state.discrepancies, i, true)
                    } else if i == last {
                        with_bit(state.discrepancies, i, false)
                    } else {
                        state.discrepancies
                    }
                },
            };
            Some(SearchState { address: with_bit(state.address, i, b), discrepancies: d })
        },
        Triplet::AllMatch(b) => Some(
            SearchState { address: with_bit(state.address, i, b), discrepancies: state.discrepancies },
        ),
        Triplet::NoDevicesFound => None,
    }
}

/// The state a pass starts from.
pub open spec fn start_state(phase: SearchPhase) -> SearchState {
    match phase {
        SearchPhase::NotStarted => SearchState { address: 0, discrepancies: 0 },
        SearchPhase::InProgress(prev) => prev,
    }
}

/// Whether no identifier is left to find after the previous pass.
pub open spec fn exhausted(phase: SearchPhase) -> bool {
    match phase {
        SearchPhase::NotStarted => false,
        SearchPhase::InProgress(prev) => prev.discrepancies == 0,
    }
}

/// Whether the event is the answer to what the enumerator asked for last.
pub open spec fn expects(stage: Stage, e: Event) -> bool {
    match stage {
        Stage::Ready => e == Event::Advance,
        Stage::Finished => e == Event::Advance,
        Stage::AwaitPresence => e is Presence,
        Stage::AwaitWrite => e == Event::Written,
        Stage::Sampling(_) => e is Sampled,
    }
}

impl DeviceSearch {
    /// The search's invariant: a bit index in range.
    pub open spec fn wf(self) -> bool {
        match self.stage {
            Stage::Sampling(i) => i < 64,
            _ => true,
        }
    }

    /// The enumerator once it has stopped.
    pub open spec fn finished_from(self) -> DeviceSearch {
        DeviceSearch { phase: SearchPhase::NotStarted, stage: Stage::Finished, ..self }
    }

    /// The transition taken on event `e`: the next enumerator and what it asks for.
    pub open spec fn next(self, e: Event) -> (DeviceSearch, Action) {
        match self.stage {
            Stage::Finished => (self, Action::Done),
            Stage::Ready => if exhausted(self.phase) {
                (self.finished_from(), Action::Done)
            } else {
                (
                    DeviceSearch {
                        current: start_state(self.phase),
                        stage: Stage::AwaitPresence,
                        ..self
                    },
                    Action::Reset,
                )
            },
            Stage::AwaitPresence => match e {
                Event::Presence(true) => (
                    DeviceSearch { stage: Stage::AwaitWrite, ..self },
                    Action::WriteByte(self.search_command),
                ),
                _ => (self.finished_from(), Action::Done),
            },
            Stage::AwaitWrite => (
                DeviceSearch { stage: Stage::Sampling(0), ..self },
                Action::Triplet(direction_spec(self.phase, 0)),
            ),
            Stage::Sampling(i) => match e {
                Event::Sampled(t) => match record_spec(self.phase, self.current, i as u64, t) {
                    None => (self.finished_from(), Action::Done),
                    Some(st) => if i < 63 {
                        (
                            DeviceSearch { current: st, stage: Stage::Sampling((i + 1) as u8), ..self },
                            Action::Triplet(direction_spec(self.phase, (i + 1) as u64)),
                        )
                    } else if crc_holds(le_bytes(st.address)) {
                        (
                            DeviceSearch {
                                phase: SearchPhase::InProgress(st),
                                current: st,
                                stage: Stage::Ready,
                                ..self
                            },
                            Action::Found(Address(st.address)),
                        )
                    } else {
                        (
                            DeviceSearch { current: st, ..self.finished_from() },
                            Action::Failed(ErrorKind::CrcMismatch),
                        )
                    },
                },
                _ => (self.finished_from(), Action::Done),
            },
        }
    }

    /// A search that sends the alarm search command when `only_alarming`,
    /// the normal one otherwise.
    pub fn new(only_alarming: bool) -> (r: DeviceSearch)
        ensures
            r.wf(),
            r.search_command == command_for(only_alarming),
            r.phase == SearchPhase::NotStarted,
            r.stage == Stage::Ready,
    {
        DeviceSearch {
            search_command: if only_alarming { SEARCH_ALARM } else { SEARCH_NORMAL },
            phase: SearchPhase::NotStarted,
            current: SearchState::initial(),
            stage: Stage::Ready,
        }
    }

    /// Whether the search is over for good.
    pub fn is_finished(&self) -> (r: bool)
        ensures
            r == (self.stage == Stage::Finished),
    {
        self.stage == Stage::Finished
    }

    /// The state left by the last pass that found an identifier, if the search
    /// is still going.
    pub fn last_state(&self) -> (r: Option<SearchState>)
        ensures
            r == (match self.phase {
                SearchPhase::NotStarted => None,
                SearchPhase::InProgress(s) => Some(s),
            }),
    {
        match self.phase {
            SearchPhase::NotStarted => None,
            SearchPhase::InProgress(s) => Some(s),
        }
    }

    /// Whether `e` is the event the enumerator is waiting for.
    pub fn expects_event(&self, e: &Event) -> (r: bool)
        ensures
            r == expects(self.stage, *e),
    {
        match self.stage {
            Stage::Ready | Stage::Finished => *e == Event::Advance,
            Stage::AwaitPresence => e.is_presence(),
            Stage::AwaitWrite => *e == Event::Written,
            Stage::Sampling(_) => e.is_sampled(),
        }
    }

    /// Ends the search for good, as after a bus failure.
    pub fn abort(&mut self)
        ensures
            *final(self) == old(self).finished_from(),
    {
        self.phase = SearchPhase::NotStarted;
        self.stage = Stage::Finished;
    }
}

impl Event {
    fn is_presence(&self) -> (r: bool)
        ensures
            r == (*self is Presence),
    {
        match self {
            Event::Presence(_) => true,
            _ => false,
        }
    }

    fn is_sampled(&self) -> (r: bool)
        ensures
            r == (*self is Sampled),
    {
        match self {
            Event::Sampled(_) => true,
            _ => false,
        }
    }
}

/// The direction bit to drive at bit `i` of a pass that follows `phase`.
pub fn direction(phase: &SearchPhase, i: u8) -> (r: bool)
    requires
        i < 64,
    ensures
        r == direction_spec(*phase, i as u64),
{
    match phase {
        SearchPhase::NotStarted => false,
        SearchPhase::InProgress(prev) => {
            let last = prev.last_discrepancy_index();
            if i < last {
                prev.addr_bit(i)
            } else {
                i == last
            }
        },
    }
}

/// Folds the outcome `t` at bit `i` into `state`; false when no device
/// answered, and `state` is then left as it was.
pub fn record(phase: &SearchPhase, state: &mut SearchState, i: u8, t: Triplet) -> (r: bool)
    requires
        i < 64,
    ensures
        r == record_spec(*phase, *old(state), i as u64, t) is Some,
        r ==> Some(*final(state)) == record_spec(*phase, *old(state), i as u64, t),
        !r ==> *final(state) == *old(state),
{
    match t {
        Triplet::Discrepancy(b) => {
            match phase {
                SearchPhase::NotStarted => state.set_discrepancy(i),
                SearchPhase::InProgress(prev) => {
                    let last = prev.last_discrepancy_index();
                    if i > last {
                        state.set_discrepancy(i);
                    } else if i == last {
                        state.unset_discrepancy(i);
                    }
                },
            }
            state.set_addr_bit(i, b);
            true
        },
        Triplet::AllMatch(b) => {
            state.set_addr_bit(i, b);
            true
        },
        Triplet::NoDevicesFound => false,
    }
}

/// Checks the CRC byte of a completed identifier.
pub fn validate(address: u64) -> (r: Result<Address, ErrorKind>)
    ensures
        r == (if crc_holds(le_bytes(address)) {
            Ok::<Address, ErrorKind>(Address(address))
        } else {
            Err::<Address, ErrorKind>(ErrorKind::CrcMismatch)
        }),
{
    let bytes = to_le_bytes(address);
    if check_crc8(bytes.as_slice()) {
        Ok(Address(address))
    } else {
        Err(ErrorKind::CrcMismatch)
    }
}

impl DeviceSearch {
    /// Takes one step of the search on event `e`, the answer to the previous
    /// action (`Event::Advance` to ask for the next identifier), and returns
    /// what to do next.
    pub fn step(&mut self, e: Event) -> (r: Action)
        requires
            old(self).wf(),
            expects(old(self).stage, e),
        ensures
            final(self).wf(),
            (*final(self), r) == old(self).next(e),
    {
        match self.stage {
            Stage::Finished => Action::Done,
            Stage::Ready => {
                let no_more = match self.phase {
                    SearchPhase::NotStarted => false,
                    SearchPhase::InProgress(prev) => prev.discrepancies == 0,
                };
                if no_more {
                    self.abort();
                    Action::Done
                } else {
                    self.current = match self.phase {
                        SearchPhase::NotStarted => SearchState::initial(),
                        SearchPhase::InProgress(prev) => prev,
                    };
                    self.stage = Stage::AwaitPresence;
                    Action::Reset
                }
            },
            Stage::AwaitPresence => {
                if e == Event::Presence(true) {
                    self.stage = Stage::AwaitWrite;
                    Action::WriteByte(self.search_command)
                } else {
                    self.abort();
                    Action::Done
                }
            },
            Stage::AwaitWrite => {
                self.stage = Stage::Sampling(0);
                Action::Triplet(direction(&self.phase, 0))
            },
            Stage::Sampling(i) => {
                match e {
                    Event::Sampled(t) => {
                        let mut st = self.current;
                        if !record(&self.phase, &mut st, i, t) {
                            self.abort();
                            return Action::Done;
                        }
                        if i < 63 {
                            self.current = st;
                            self.stage = Stage::Sampling(i + 1);
                            Action::Triplet(direction(&self.phase, i + 1))
                        } else {
                            match validate(st.address) {
                                Ok(address) => {
                                    self.phase = SearchPhase::InProgress(st);
                                    self.current = st;
                                    self.stage = Stage::Ready;
                                    Action::Found(address)
                                },
                                Err(kind) => {
                                    self.abort();
                                    self.current = st;
                                    Action::Failed(kind)
                                },
                            }
                        }
                    },
                    _ => {
                        self.abort();
                        Action::Done
                    },
                }
            },
        }
    }
}

} // verus!
