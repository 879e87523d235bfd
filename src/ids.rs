//! Identifiers, terminal line types and the tick constants shared by the
//! whole engine.
use vstd::prelude::*;
use core::cmp::Ordering;

verus! {

/// Number of interleaved channels in a stereo buffer.
pub const CHANNELS: usize = 2;

/// Audio samples per second.
pub const SAMPLE_RATE: usize = 44100;

/// Ticks the engine runs per second.
pub const TICKS_PER_SECOND: usize = 60;

/// Audio samples processed in one tick.
pub const SAMPLES_PER_TICK: usize = SAMPLE_RATE / TICKS_PER_SECOND;

/// Identifies one module instance.
#[derive(Clone, Copy, Debug, PartialEq, Eq, Structural, Hash, PartialOrd, Ord)]
pub struct ModuleId(pub usize);

/// The `.1`-th input terminal of module `.0`.
#[derive(Clone, Copy, Debug, PartialEq, Eq, Structural, Hash, PartialOrd, Ord)]
pub struct InputId(pub ModuleId, pub usize);

/// The `.1`-th output terminal of module `.0`.
#[derive(Clone, Copy, Debug, PartialEq, Eq, Structural, Hash, PartialOrd, Ord)]
pub struct OutputId(pub ModuleId, pub usize);

impl InputId {
    pub fn module_id(&self) -> (r: ModuleId)
        ensures
            r == self.0,
    {
        self.0
    }

    pub fn index(&self) -> (r: usize)
        ensures
            r == self.1,
    {
        self.1
    }
}

impl OutputId {
    pub fn module_id(&self) -> (r: ModuleId)
        ensures
            r == self.0,
    {
        self.0
    }

    pub fn index(&self) -> (r: usize)
        ensures
            r == self.1,
    {
        self.1
    }
}

/// Either kind of terminal.
#[derive(Clone, Copy, Debug, PartialEq, Eq, Structural, Hash)]
pub enum TerminalId {
    Input(InputId),
    Output(OutputId),
}

impl TerminalId {
    pub open spec fn module_of(self) -> ModuleId {
        match self {
            TerminalId::Input(i) => i.0,
            TerminalId::Output(o) => o.0,
        }
    }

    pub fn module_id(&self) -> (r: ModuleId)
        ensures
            r == self.module_of(),
    {
        match self {
            TerminalId::Input(i) => i.0,
            TerminalId::Output(o) => o.0,
        }
    }
}

/// The signal type carried by a terminal.
#[derive(Clone, Copy, Debug, PartialEq, Eq, Structural, Hash)]
pub enum LineType {
    Mono,
    Stereo,
    Video,
}

/// Number of samples of an audio buffer of this line type for one tick
/// (a video terminal carries a frame slot and no samples).
pub open spec fn spec_buffer_len(ty: LineType) -> nat {
    match ty {
        LineType::Mono => SAMPLES_PER_TICK as nat,
        LineType::Stereo => (CHANNELS * SAMPLES_PER_TICK) as nat,
        LineType::Video => 0,
    }
}

impl LineType {
    /// Length of the zeroed buffer allocated for an output of this type.
    pub fn buffer_len(&self) -> (r: usize)
        ensures
            r == spec_buffer_len(*self),
    {
        match self {
            LineType::Mono => SAMPLES_PER_TICK,
            LineType::Stereo => CHANNELS * SAMPLES_PER_TICK,
            LineType::Video => 0,
        }
    }
}

/// Identifies a connected client session; never zero.
#[derive(Clone, Copy, Debug, PartialEq, Eq, Structural, Hash, PartialOrd, Ord)]
pub struct SessionId {
    id: usize,
}

impl SessionId {
    #[verifier::type_invariant]
    spec fn nonzero(self) -> bool {
        self.id > 0
    }

    pub closed spec fn value(self) -> nat {
        self.id as nat
    }

    /// A session id from its number; `None` for zero.
    pub fn new(id: usize) -> (r: Option<SessionId>)
        ensures
            id == 0 ==> r is None,
            id > 0 ==> (r matches Some(s) && s.value() == id),
    {
        if id == 0 {
            None
        } else {
            Some(SessionId { id })
        }
    }

    pub fn get(&self) -> (r: usize)
        ensures
            r == self.value(),
            r > 0,
    {
        proof {
            use_type_invariant(self);
        }
        self.id
    }
}

/// A per-session sequence number chosen by the client.
#[derive(Clone, Copy, Debug, PartialEq, Eq, Structural, Hash, PartialOrd, Ord)]
pub struct ClientSequence(pub usize);

/// Position of a client operation in the log: ordered only against clocks of
/// the same session.
#[derive(Clone, Copy, Debug, PartialEq, Eq, Structural)]
pub struct OpClock(pub SessionId, pub ClientSequence);

/// The partial order on clocks: by sequence within one session, none across
/// sessions.
pub open spec fn clock_order(a: OpClock, b: OpClock) -> Option<Ordering> {
    if a.0 != b.0 {
        None
    } else if a.1.0 < b.1.0 {
        Some(Ordering::Less)
    } else if a.1.0 == b.1.0 {
        Some(Ordering::Equal)
    } else {
        Some(Ordering::Greater)
    }
}

impl PartialOrd for OpClock {
    fn partial_cmp(&self, other: &OpClock) -> (r: Option<Ordering>) {
        if self.0 != other.0 {
            None
        } else if self.1.0 < other.1.0 {
            Some(Ordering::Less)
        } else if self.1.0 == other.1.0 {
            Some(Ordering::Equal)
        } else {
            Some(Ordering::Greater)
        }
    }
}

impl vstd::std_specs::cmp::PartialOrdSpecImpl for OpClock {
    open spec fn obeys_partial_cmp_spec() -> bool {
        true
    }

    open spec fn partial_cmp_spec(&self, other: &OpClock) -> Option<Ordering> {
        clock_order(*self, *other)
    }
}

/// Errors a session sees when handing a message to the engine.
#[derive(Clone, Copy, Debug, PartialEq, Eq, Structural)]
pub enum EngineError {
    /// The engine has stopped.
    Stopped,
    /// The command queue is full; the caller may retry.
    Busy,
}

impl EngineError {
    /// The error for a refused send: `Busy` when the queue was full,
    /// `Stopped` when the engine is gone.
    pub fn from_refused_send(queue_full: bool) -> (r: EngineError)
        ensures
            r == (if queue_full { EngineError::Busy } else { EngineError::Stopped }),
    {
        if queue_full {
            EngineError::Busy
        } else {
            EngineError::Stopped
        }
    }
}

} // verus!
