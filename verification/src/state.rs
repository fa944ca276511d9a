//! The engine's state, and what one event makes of it.

use crate::event::{GainCommand, NoteEvent, VoiceTerminated};
use crate::pool::{
    addressed, automate_commands, choke_notices, choked, handles_below, handles_distinct,
    has_headroom, lemma_select_keeps_order, lemma_select_splits, modulate_commands, modulated,
    released, spared,
};
use crate::sine::Sine;
use vstd::prelude::*;

verus! {

/// The state of an engine: the pool, and the handle that the next voice gets.
pub struct SynthState {
    pub sines: Seq<Sine>,
    pub next_id: nat,
}

impl SynthState {
    /// The state of an engine that has not seen an event yet.
    pub open spec fn initial() -> SynthState {
        SynthState { sines: Seq::empty(), next_id: 0 }
    }

    /// The handles in the pool differ from each other and lie below the next one.
    pub open spec fn wf(self) -> bool {
        &&& self.next_id <= u64::MAX
        &&& handles_below(self.sines, self.next_id)
        &&& handles_distinct(self.sines)
    }

    /// This state with another pool.
    pub open spec fn with_sines(self, sines: Seq<Sine>) -> SynthState {
        SynthState { sines, ..self }
    }

    /// This state after a note-on: a fresh voice stands at the end of the pool.
    pub open spec fn started(
        self,
        sampling_rate: u32,
        voice_id: Option<i32>,
        channel: u8,
        note: u8,
        velocity: u32,
    ) -> SynthState {
        SynthState {
            sines: self.sines.push(
                Sine::fresh(self.next_id as u64, sampling_rate, voice_id, channel, note, velocity),
            ),
            next_id: self.next_id + 1,
        }
    }
}

/// What handling events leaves behind: the state, the gain commands for the
/// caller and the notifications for the host, each in the order in which they
/// arose.
pub struct Outcome {
    pub state: SynthState,
    pub commands: Seq<GainCommand>,
    pub terminated: Seq<VoiceTerminated>,
}

impl Outcome {
    /// Nothing happened.
    pub open spec fn unchanged(state: SynthState) -> Outcome {
        Outcome { state, commands: Seq::empty(), terminated: Seq::empty() }
    }
}

/// What a single event does.
pub open spec fn handle(state: SynthState, sampling_rate: u32, event: NoteEvent) -> Outcome {
    match event {
        NoteEvent::NoteOn { timing, voice_id, channel, note, velocity } => Outcome::unchanged(
            state.started(sampling_rate, voice_id, channel, note, velocity),
        ),
        NoteEvent::NoteOff { timing, voice_id, channel, note } => Outcome::unchanged(
            state.with_sines(released(state.sines, voice_id, channel, note)),
        ),
        NoteEvent::Choke { timing, voice_id, channel, note } => Outcome {
            state: state.with_sines(choked(state.sines, voice_id, channel, note)),
            commands: Seq::empty(),
            terminated: choke_notices(state.sines, timing, voice_id, channel, note),
        },
        NoteEvent::PolyModulation {
            timing,
            voice_id,
            poly_modulation_id,
            normalized_offset,
        } => Outcome {
            state: state.with_sines(
                modulated(state.sines, voice_id, poly_modulation_id, normalized_offset),
            ),
            commands: modulate_commands(
                state.sines,
                voice_id,
                poly_modulation_id,
                normalized_offset,
            ),
            terminated: Seq::empty(),
        },
        NoteEvent::MonoAutomation { timing, poly_modulation_id, normalized_value } => Outcome {
            state,
            commands: automate_commands(state.sines, poly_modulation_id, normalized_value),
            terminated: Seq::empty(),
        },
        NoteEvent::Other { timing } => Outcome::unchanged(state),
    }
}

/// What a run of events does, one after the other.
pub open spec fn handle_all(
    state: SynthState,
    sampling_rate: u32,
    events: Seq<NoteEvent>,
) -> Outcome
    decreases events.len(),
{
    if events.len() == 0 {
        Outcome::unchanged(state)
    } else {
        let before = handle_all(state, sampling_rate, events.drop_last());
        let last = handle(before.state, sampling_rate, events.last());
        Outcome {
            state: last.state,
            commands: before.commands + last.commands,
            terminated: before.terminated + last.terminated,
        }
    }
}

/// Whether a note-on can still be given a handle.
pub open spec fn can_handle(state: SynthState, event: NoteEvent) -> bool {
    event is NoteOn ==> state.next_id < u64::MAX
}

/// An event leaves the handles in order: only a note-on takes one, and the
/// handles in the pool stay distinct and below the next one.
pub proof fn lemma_handle_keeps_handles(state: SynthState, sampling_rate: u32, event: NoteEvent)
    ensures
        handle(state, sampling_rate, event).state.next_id == state.next_id + (if event is NoteOn {
            1nat
        } else {
            0nat
        }),
        state.wf() && can_handle(state, event) ==> handle(state, sampling_rate, event).state.wf(),
{
    match event {
        NoteEvent::Choke { timing, voice_id, channel, note } => {
            lemma_select_keeps_order(state.sines, spared(voice_id, channel, note));
        },
        _ => {},
    }
}

/// An event takes no headroom away: a voice that it starts has produced no
/// sample yet, and it moves no other voice on.
pub proof fn lemma_handle_keeps_headroom(
    state: SynthState,
    sampling_rate: u32,
    event: NoteEvent,
    n: int,
)
    requires
        0 <= n <= u32::MAX,
        has_headroom(state.sines, n),
    ensures
        has_headroom(handle(state, sampling_rate, event).state.sines, n),
{
    match event {
        NoteEvent::Choke { timing, voice_id, channel, note } => {
            lemma_select_keeps_order(state.sines, spared(voice_id, channel, note));
        },
        _ => {},
    }
}

/// The note-ons among the events.
pub open spec fn is_note_on() -> spec_fn(NoteEvent) -> bool {
    |event: NoteEvent| event is NoteOn
}

/// How many of the events are note-ons.
pub open spec fn note_ons(events: Seq<NoteEvent>) -> nat {
    events.filter(is_note_on()).len()
}

/// No voice is lost or made without a trace: after an event, the voices in
/// the pool and the notifications together are as many as the voices before,
/// and one more after a note-on.
pub proof fn lemma_handle_conserves_voices(state: SynthState, sampling_rate: u32, event: NoteEvent)
    ensures
        ({
            let after = handle(state, sampling_rate, event);
            after.state.sines.len() + after.terminated.len() == state.sines.len() + (if event
                is NoteOn {
                1nat
            } else {
                0nat
            })
        }),
{
    match event {
        NoteEvent::Choke { timing, voice_id, channel, note } => {
            lemma_select_splits(
                state.sines,
                addressed(voice_id, channel, note),
                spared(voice_id, channel, note),
            );
        },
        _ => {},
    }
}

/// What holds of one event holds of a run of them: the handles stay in order,
/// each note-on takes one, and the voices and notifications together are as
/// many as the voices before and the note-ons.
pub proof fn lemma_handle_all_keeps_count(
    state: SynthState,
    sampling_rate: u32,
    events: Seq<NoteEvent>,
)
    ensures
        ({
            let after = handle_all(state, sampling_rate, events);
            &&& after.state.next_id == state.next_id + note_ons(events)
            &&& note_ons(events) <= events.len()
            &&& state.wf() && state.next_id + events.len() <= u64::MAX ==> after.state.wf()
            &&& after.state.sines.len() + after.terminated.len() == state.sines.len() + note_ons(
                events,
            )
        }),
    decreases events.len(),
{
    reveal(Seq::filter);
    if events.len() > 0 {
        let before = handle_all(state, sampling_rate, events.drop_last());
        lemma_handle_all_keeps_count(state, sampling_rate, events.drop_last());
        lemma_handle_keeps_handles(before.state, sampling_rate, events.last());
        lemma_handle_conserves_voices(before.state, sampling_rate, events.last());
    }
}

/// Handling one event more.
pub proof fn lemma_handle_all_next(
    state: SynthState,
    sampling_rate: u32,
    events: Seq<NoteEvent>,
    event: NoteEvent,
)
    ensures
        handle_all(state, sampling_rate, events.push(event)) == ({
            let before = handle_all(state, sampling_rate, events);
            let last = handle(before.state, sampling_rate, event);
            Outcome {
                state: last.state,
                commands: before.commands + last.commands,
                terminated: before.terminated + last.terminated,
            }
        }),
{
    assert(events.push(event).drop_last() =~= events);
}

} // verus!
