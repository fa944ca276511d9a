//! A single voice and its oscillator phase.

use vstd::prelude::*;

verus! {

/// One sounding note.
///
/// The oscillator is a phase counter: the sample produced at phase `n` is the
/// sine of `n / sr * f` turns, where `f` is the pitch of `note` and `sr` the
/// sampling rate. The counter is all the oscillator state there is.
#[derive(Clone, Copy, Debug, PartialEq, Eq)]
pub struct Sine {
    /// Handle under which the caller keeps what belongs to this voice. No two
    /// voices of one engine ever share it.
    pub id: u64,
    /// Sampling rate in Hz, as the bits of a single-precision number.
    pub sampling_rate: u32,
    /// Number of samples produced so far.
    pub curr_sample: u32,
    /// Identity assigned by the host, where it assigned one.
    pub voice_id: Option<i32>,
    pub channel: u8,
    pub note: u8,
    /// Velocity of the note-on, as the bits of a single-precision number. The
    /// voice's amplitude is its square root.
    pub velocity: u32,
    /// Set by a note-off; the voice leaves at the end of the sub-block.
    pub releasing: bool,
    /// Present once the voice's gain has been modulated on its own: the
    /// normalized offset of the modulation that created it, as the bits of a
    /// single-precision number.
    pub voice_gain: Option<u32>,
}

impl Sine {
    /// A fresh voice: phase zero, not releasing, gain not modulated.
    pub fn new(
        id: u64,
        sampling_rate: u32,
        voice_id: Option<i32>,
        channel: u8,
        note: u8,
        velocity: u32,
    ) -> (sine: Sine)
        ensures
            sine == Sine::fresh(id, sampling_rate, voice_id, channel, note, velocity),
    {
        Sine {
            id,
            sampling_rate,
            curr_sample: 0,
            voice_id,
            channel,
            note,
            velocity,
            releasing: false,
            voice_gain: None,
        }
    }

    /// The voice that `new` makes.
    pub open spec fn fresh(
        id: u64,
        sampling_rate: u32,
        voice_id: Option<i32>,
        channel: u8,
        note: u8,
        velocity: u32,
    ) -> Sine {
        Sine {
            id,
            sampling_rate,
            curr_sample: 0,
            voice_id,
            channel,
            note,
            velocity,
            releasing: false,
            voice_gain: None,
        }
    }

    /// Whether an event addressed to `voice_id`, `channel` and `note` means this
    /// voice: by the voice id where the event carries one, or by channel and
    /// note.
    pub open spec fn spec_answers_to(&self, voice_id: Option<i32>, channel: u8, note: u8) -> bool {
        ||| voice_id is Some && self.voice_id == voice_id
        ||| self.channel == channel && self.note == note
    }

    /// Whether an event addressed to `voice_id`, `channel` and `note` means this
    /// voice.
    #[verifier::when_used_as_spec(spec_answers_to)]
    pub fn answers_to(&self, voice_id: Option<i32>, channel: u8, note: u8) -> (b: bool)
        ensures
            b == self.spec_answers_to(voice_id, channel, note),
    {
        let by_id = match (voice_id, self.voice_id) {
            (Some(wanted), Some(own)) => wanted == own,
            _ => false,
        };
        by_id || (self.channel == channel && self.note == note)
    }

    /// This voice `n` samples later.
    pub open spec fn advanced(self, n: int) -> Sine
        recommends
            0 <= n,
            self.curr_sample + n <= u32::MAX,
    {
        Sine { curr_sample: (self.curr_sample + n) as u32, ..self }
    }

    /// This voice once a note-off has reached it.
    pub open spec fn marked(self) -> Sine {
        Sine { releasing: true, ..self }
    }

    /// This voice once a gain modulation with this offset has reached it. The
    /// offset that is kept is the one of the first such modulation.
    pub open spec fn modulated(self, normalized_offset: u32) -> Sine {
        Sine {
            voice_gain: Some(
                match self.voice_gain {
                    Some(kept) => kept,
                    None => normalized_offset,
                },
            ),
            ..self
        }
    }

    /// Whether `later` is this voice `n` samples on: the same handle, the same
    /// pitch and loudness, the phase moved on by `n`. A voice that is releasing
    /// stays so, and an offset that it keeps stays the same.
    pub open spec fn continued_by(self, later: Sine, n: int) -> bool {
        &&& later.id == self.id
        &&& later.sampling_rate == self.sampling_rate
        &&& later.voice_id == self.voice_id
        &&& later.channel == self.channel
        &&& later.note == self.note
        &&& later.velocity == self.velocity
        &&& later.curr_sample == self.curr_sample + n
        &&& self.releasing ==> later.releasing
        &&& self.voice_gain is Some ==> later.voice_gain == self.voice_gain
    }

    /// Takes the oscillator's next sample position: returns the phase at which
    /// the sample is to be evaluated and moves the phase on by one.
    pub fn calculate_sine(&mut self) -> (phase: u32)
        requires
            old(self).curr_sample < u32::MAX,
        ensures
            phase == old(self).curr_sample,
            *final(self) == old(self).advanced(1),
    {
        let phase: u32 = self.curr_sample;
        self.curr_sample = phase + 1;
        phase
    }
}

} // verus!
