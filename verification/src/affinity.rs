//! Pinning the thread that writes a snapshot to the processors that are set aside for it.
//!
//! The pin is a matter of scheduling only: wherever it cannot be had, the thread runs
//! unpinned.
use vstd::prelude::*;

verus! {

/// A message that is given at most once.
#[derive(Debug)]
pub struct Announcer {
    /// It was given.
    pub announced: bool,
}

impl Announcer {
    /// A message that was not given yet.
    pub fn new() -> (r: Self)
        ensures
            !r.announced,
    {
        Announcer { announced: false }
    }

    /// Whether the message is to be given now.
    pub fn announce_once(&mut self) -> (r: bool)
        ensures
            r == !old(self).announced,
            final(self).announced,
    {
        let first: bool = !self.announced;
        self.announced = true;
        first
    }
}

/// What is said about the pin.
#[derive(Debug, Clone, Copy, PartialEq, Eq, Structural)]
pub enum PinNote {
    /// Nothing.
    Quiet,
    /// The setting cannot be read.
    Invalid,
    /// The platform cannot pin.
    Unsupported,
    /// The setting selects no processor.
    EmptySelection,
    /// The thread is pinned.
    Pinned,
    /// The kernel refused.
    Refused,
}

/// What the setting asks for.
#[derive(Debug, Clone, Copy, PartialEq, Eq, Structural)]
pub enum PinPolicy {
    /// No pin.
    Off,
    /// A pin.
    Wanted,
}

/// The next step of a pin.
#[derive(Debug, Clone, Copy, PartialEq, Eq, Structural)]
pub enum PinStep {
    /// Leave the thread as it is.
    Leave(PinNote),
    /// Select the processors.
    Select,
    /// Pin the thread to the selected processors.
    Pin,
}

/// The step that a setting calls for. `parsed` is `None` where it cannot be read.
pub fn pin_setting(parsed: Option<PinPolicy>, supported: bool) -> (r: PinStep)
    ensures
        r == (match parsed {
            None => PinStep::Leave(PinNote::Invalid),
            Some(PinPolicy::Off) => PinStep::Leave(PinNote::Quiet),
            Some(PinPolicy::Wanted) => if supported {
                PinStep::Select
            } else {
                PinStep::Leave(PinNote::Unsupported)
            },
        }),
{
    match parsed {
        None => PinStep::Leave(PinNote::Invalid),
        Some(PinPolicy::Off) => PinStep::Leave(PinNote::Quiet),
        Some(PinPolicy::Wanted) => if supported {
            PinStep::Select
        } else {
            PinStep::Leave(PinNote::Unsupported)
        },
    }
}

/// The step that a selection calls for.
pub fn pin_selection(cpus: &Vec<usize>) -> (r: PinStep)
    ensures
        r == (if cpus@.len() == 0 {
            PinStep::Leave(PinNote::EmptySelection)
        } else {
            PinStep::Pin
        }),
{
    if cpus.len() == 0 {
        PinStep::Leave(PinNote::EmptySelection)
    } else {
        PinStep::Pin
    }
}

/// The processors that the thread is pinned to, after the kernel was asked.
pub fn pin_outcome(cpus: Vec<usize>, pinned: bool) -> (r: (Vec<usize>, PinNote))
    ensures
        pinned ==> r.0@ == cpus@ && r.1 == PinNote::Pinned,
        !pinned ==> r.0@.len() == 0 && r.1 == PinNote::Refused,
{
    if pinned {
        (cpus, PinNote::Pinned)
    } else {
        (Vec::new(), PinNote::Refused)
    }
}

/// The processors that a thread is pinned to in the end: those selected where the
/// setting wants a pin, the platform can pin and the kernel agrees, else none.
pub fn apply_persist_pin(
    parsed: Option<PinPolicy>,
    supported: bool,
    selected: Vec<usize>,
    pinned: bool,
) -> (r: (Vec<usize>, PinNote))
    ensures
        r.0@ == (if parsed == Some(PinPolicy::Wanted) && supported && pinned {
            selected@
        } else {
            Seq::<usize>::empty()
        }),
        r.1 == (match parsed {
            None => PinNote::Invalid,
            Some(PinPolicy::Off) => PinNote::Quiet,
            Some(PinPolicy::Wanted) => if !supported {
                PinNote::Unsupported
            } else if selected@.len() == 0 {
                PinNote::EmptySelection
            } else if pinned {
                PinNote::Pinned
            } else {
                PinNote::Refused
            },
        }),
{
    if let PinStep::Leave(note) = pin_setting(parsed, supported) {
        let none: Vec<usize> = Vec::new();
        assert(none@ =~= Seq::<usize>::empty());
        return (none, note);
    }
    if let PinStep::Leave(note) = pin_selection(&selected) {
        let none: Vec<usize> = Vec::new();
        assert(none@ =~= selected@);
        return (none, note);
    }
    let r = pin_outcome(selected, pinned);
    assert(!pinned ==> r.0@ =~= Seq::<usize>::empty());
    r
}

} // verus!
