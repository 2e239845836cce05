use vstd::prelude::*;

verus! {

/// Stage of a backup run, in the order the stages happen.
#[derive(Debug, Copy, Clone, PartialEq, Eq, Structural)]
pub enum Phase {
    Preflight,
    Discover,
    Stream,
    Review,
    StreamLarge,
    Manifest,
    Done,
}

/// The number each phase is stored as.
pub open spec fn phase_code(p: Phase) -> u8 {
    match p {
        Phase::Preflight => 0,
        Phase::Discover => 1,
        Phase::Stream => 2,
        Phase::Review => 3,
        Phase::StreamLarge => 4,
        Phase::Manifest => 5,
        Phase::Done => 6,
    }
}

/// The phase a stored number stands for; every number from 6 up reads as `Done`.
pub open spec fn phase_of_code(v: u8) -> Phase {
    if v == 0 {
        Phase::Preflight
    } else if v == 1 {
        Phase::Discover
    } else if v == 2 {
        Phase::Stream
    } else if v == 3 {
        Phase::Review
    } else if v == 4 {
        Phase::StreamLarge
    } else if v == 5 {
        Phase::Manifest
    } else {
        Phase::Done
    }
}

/// The name shown for each phase.
pub open spec fn phase_label(p: Phase) -> Seq<char> {
    match p {
        Phase::Preflight => "preflight"@,
        Phase::Discover => "discover"@,
        Phase::Stream => "stream"@,
        Phase::Review => "review"@,
        Phase::StreamLarge => "stream-large"@,
        Phase::Manifest => "manifest"@,
        Phase::Done => "done"@,
    }
}

impl Phase {
    pub fn from_u8(v: u8) -> (p: Phase)
        ensures
            p == phase_of_code(v),
    {
        match v {
            0 => Phase::Preflight,
            1 => Phase::Discover,
            2 => Phase::Stream,
            3 => Phase::Review,
            4 => Phase::StreamLarge,
            5 => Phase::Manifest,
            _ => Phase::Done,
        }
    }

    /// The name shown for this phase.
    pub fn label(self) -> (r: &'static str)
        ensures
            r@ == phase_label(self),
    {
        match self {
            Phase::Preflight => "preflight",
            Phase::Discover => "discover",
            Phase::Stream => "stream",
            Phase::Review => "review",
            Phase::StreamLarge => "stream-large",
            Phase::Manifest => "manifest",
            Phase::Done => "done",
        }
    }

    /// The number this phase is stored as.
    pub fn code(self) -> (c: u8)
        ensures
            c == phase_code(self),
    {
        match self {
            Phase::Preflight => 0,
            Phase::Discover => 1,
            Phase::Stream => 2,
            Phase::Review => 3,
            Phase::StreamLarge => 4,
            Phase::Manifest => 5,
            Phase::Done => 6,
        }
    }
}

/// Storing a phase as its number and reading the number back gives the same phase.
pub proof fn lemma_phase_code_roundtrip(p: Phase)
    ensures
        phase_of_code(phase_code(p)) == p,
{
}

} // verus!
