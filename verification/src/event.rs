//! What goes into the engine and what comes out of it.
//!
//! Single-precision numbers pass through the engine as their bit patterns. The
//! engine stores them and hands them on; it never computes with them.

use crate::GAIN_POLY_MOD_ID;
use vstd::prelude::*;

verus! {

/// A timed event from the host. `timing` is a sample index within the buffer
/// that is being processed.
#[derive(Clone, Copy, Debug, PartialEq, Eq)]
#[allow(inconsistent_fields)]
pub enum NoteEvent {
    NoteOn { timing: u32, voice_id: Option<i32>, channel: u8, note: u8, velocity: u32 },
    NoteOff { timing: u32, voice_id: Option<i32>, channel: u8, note: u8 },
    Choke { timing: u32, voice_id: Option<i32>, channel: u8, note: u8 },
    PolyModulation { timing: u32, voice_id: i32, poly_modulation_id: u32, normalized_offset: u32 },
    MonoAutomation { timing: u32, poly_modulation_id: u32, normalized_value: u32 },
    /// Any other kind of event. It changes nothing, but like every event it
    /// ends the sub-block that its timing falls into.
    Other { timing: u32 },
}

impl NoteEvent {
    /// The sample index at which the event takes effect.
    pub open spec fn spec_timing(&self) -> u32 {
        match *self {
            NoteEvent::NoteOn { timing, .. } => timing,
            NoteEvent::NoteOff { timing, .. } => timing,
            NoteEvent::Choke { timing, .. } => timing,
            NoteEvent::PolyModulation { timing, .. } => timing,
            NoteEvent::MonoAutomation { timing, .. } => timing,
            NoteEvent::Other { timing } => timing,
        }
    }

    /// The sample index at which the event takes effect.
    #[verifier::when_used_as_spec(spec_timing)]
    pub fn timing(&self) -> (t: u32)
        ensures
            t == self.spec_timing(),
    {
        match self {
            NoteEvent::NoteOn { timing, .. } => *timing,
            NoteEvent::NoteOff { timing, .. } => *timing,
            NoteEvent::Choke { timing, .. } => *timing,
            NoteEvent::PolyModulation { timing, .. } => *timing,
            NoteEvent::MonoAutomation { timing, .. } => *timing,
            NoteEvent::Other { timing } => *timing,
        }
    }

    /// Whether the event is a modulation or an automation with a modulation id
    /// that the engine does not know.
    pub open spec fn spec_is_unknown(&self) -> bool {
        match *self {
            NoteEvent::PolyModulation { poly_modulation_id, .. } => poly_modulation_id
                != GAIN_POLY_MOD_ID,
            NoteEvent::MonoAutomation { poly_modulation_id, .. } => poly_modulation_id
                != GAIN_POLY_MOD_ID,
            _ => false,
        }
    }

    /// Whether the event is a modulation or an automation with a modulation id
    /// that the engine does not know. Such an event changes nothing; a caller
    /// may want to report it.
    #[verifier::when_used_as_spec(spec_is_unknown)]
    pub fn is_unknown(&self) -> (unknown: bool)
        ensures
            unknown == self.spec_is_unknown(),
    {
        match self {
            NoteEvent::PolyModulation { poly_modulation_id, .. } => *poly_modulation_id
                != GAIN_POLY_MOD_ID,
            NoteEvent::MonoAutomation { poly_modulation_id, .. } => *poly_modulation_id
                != GAIN_POLY_MOD_ID,
            _ => false,
        }
    }
}

/// Tells the host that a voice has ended. There is one for every voice that
/// leaves the pool.
#[derive(Clone, Copy, Debug, PartialEq, Eq)]
pub struct VoiceTerminated {
    pub timing: u32,
    pub voice_id: Option<i32>,
    pub channel: u8,
    pub note: u8,
}

/// A change to one voice's own gain smoother, for the caller to carry out.
#[derive(Clone, Copy, Debug, PartialEq, Eq)]
pub enum GainCommand {
    /// Move the target of voice `id`'s smoother to the gain curve evaluated at
    /// its base value offset by `normalized_offset`. Where `fresh` is set the
    /// voice has no smoother yet: it first gets a copy of the shared one as
    /// that stands.
    Modulate { id: u64, fresh: bool, normalized_offset: u32 },
    /// Move the target of voice `id`'s smoother to the gain curve evaluated at
    /// the sum of `normalized_value` and `normalized_offset`.
    Automate { id: u64, normalized_value: u32, normalized_offset: u32 },
}

} // verus!
