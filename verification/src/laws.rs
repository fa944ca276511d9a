//! What holds of the engine as a whole.

use crate::event::{NoteEvent, VoiceTerminated};
use crate::pool::{
    addressed, automation_reaches, choke_notices, choked, handles_distinct, has_headroom, is_held,
    lemma_first_answer, lemma_select_after_update, lemma_select_keeps_order, lemma_select_none,
    lemma_select_splits, modulation_reaches, release_marks, released, spared, swept,
};
use crate::schedule::{
    alike, handled_in, in_line, in_order, lemma_run_alike, lemma_run_in_order, lemma_run_is_in_line,
    lemma_run_is_well_cut, lemma_run_keeps_count, lemma_run_reports_releasing,
    lemma_run_shares_events, lemma_run_tells_voices_apart, lemma_scan_end, processed,
};
use crate::sine::Sine;
use crate::state::{handle, note_ons, Outcome, SynthState};
use crate::{GAIN_POLY_MOD_ID, MAX_BLOCK_SIZE};
use vstd::prelude::*;

verus! {

/// The sub-blocks lie end to end from the first sample of the buffer to the
/// last. None is empty and none is longer than `MAX_BLOCK_SIZE`. A buffer
/// without samples has no sub-block.
pub proof fn lemma_blocks_tile_the_buffer(
    state: SynthState,
    buffer_len: u32,
    sampling_rate: u32,
    events: Seq<NoteEvent>,
)
    ensures
        ({
            let blocks = processed(state, buffer_len, sampling_rate, events).output.blocks;
            &&& buffer_len == 0 ==> blocks.len() == 0
            &&& buffer_len > 0 ==> blocks.len() > 0 && blocks[0].start == 0 && blocks.last().end
                == buffer_len
            &&& forall|i: int|
                0 <= i < blocks.len() ==> 0 <= (#[trigger] blocks[i]).start < blocks[i].end
                    <= blocks[i].start + MAX_BLOCK_SIZE
            &&& forall|i: int|
                0 <= i < blocks.len() - 1 ==> (#[trigger] blocks[i]).end == blocks[i + 1].start
        }),
{
    lemma_run_is_well_cut(state, sampling_rate, events, 0, 0, buffer_len as int);
}

/// A sub-block ends for one of three reasons: the buffer ends, or
/// `MAX_BLOCK_SIZE` samples have passed, or the first event that has not been
/// handled is due.
pub proof fn lemma_blocks_end_for_a_reason(
    state: SynthState,
    buffer_len: u32,
    sampling_rate: u32,
    events: Seq<NoteEvent>,
)
    ensures
        ({
            let blocks = processed(state, buffer_len, sampling_rate, events).output.blocks;
            forall|i: int|
                0 <= i < blocks.len() ==> {
                    ||| (#[trigger] blocks[i]).end == buffer_len
                    ||| blocks[i].end == blocks[i].start + MAX_BLOCK_SIZE
                    ||| 0 <= blocks[i].next_event < events.len()
                        && events[blocks[i].next_event].timing() == blocks[i].end
                }
        }),
{
    lemma_run_is_well_cut(state, sampling_rate, events, 0, 0, buffer_len as int);
}

/// The events are handled in their order, each at most once and none before
/// it is due: the sub-blocks share out the events from the first to the last
/// that is handled, and what a sub-block handles at its start is due by then.
pub proof fn lemma_events_are_handled_in_turn(
    state: SynthState,
    buffer_len: u32,
    sampling_rate: u32,
    events: Seq<NoteEvent>,
)
    ensures
        ({
            let output = processed(state, buffer_len, sampling_rate, events).output;
            let blocks = output.blocks;
            &&& 0 <= output.consumed <= events.len()
            &&& buffer_len == 0 ==> output.consumed == 0
            &&& buffer_len > 0 ==> blocks[0].first_event == 0 && blocks.last().next_event
                == output.consumed
            &&& forall|i: int|
                0 <= i < blocks.len() ==> 0 <= (#[trigger] blocks[i]).first_event
                    <= blocks[i].next_event <= events.len()
            &&& forall|i: int|
                0 <= i < blocks.len() - 1 ==> (#[trigger] blocks[i]).next_event == blocks[i
                    + 1].first_event
            &&& forall|i: int, k: int|
                0 <= i < blocks.len() && (#[trigger] blocks[i]).first_event <= k
                    < blocks[i].next_event ==> (#[trigger] events[k]).timing() <= blocks[i].start
        }),
{
    lemma_run_is_well_cut(state, sampling_rate, events, 0, 0, buffer_len as int);
    let blocks = processed(state, buffer_len, sampling_rate, events).output.blocks;
    assert forall|i: int, k: int|
        0 <= i < blocks.len() && (#[trigger] blocks[i]).first_event <= k
            < blocks[i].next_event implies (#[trigger] events[k]).timing() <= blocks[i].start by {
        lemma_scan_end(events, blocks[i].first_event, blocks[i].start);
    }
}

/// With the events in the order of their timing, every event takes effect at
/// a boundary and none in the middle of a sub-block: an event that is handled
/// is handled where a sub-block starts at its very timing, no event is due
/// between the start and the end of a sub-block, and the events that are
/// handled are those that are due before the end of the buffer. So the
/// timing of every such event is a boundary.
pub proof fn lemma_events_take_effect_at_boundaries(
    state: SynthState,
    buffer_len: u32,
    sampling_rate: u32,
    events: Seq<NoteEvent>,
)
    requires
        in_order(events),
    ensures
        ({
            let output = processed(state, buffer_len, sampling_rate, events).output;
            let blocks = output.blocks;
            &&& forall|i: int, k: int|
                0 <= i < blocks.len() && (#[trigger] blocks[i]).first_event <= k
                    < blocks[i].next_event ==> (#[trigger] events[k]).timing() == blocks[i].start
            &&& forall|i: int, k: int|
                0 <= i < blocks.len() && 0 <= k < events.len() ==> !((#[trigger] blocks[i]).start
                    < (#[trigger] events[k]).timing() < blocks[i].end)
            &&& forall|k: int|
                0 <= k < events.len() ==> (k < output.consumed <==> (#[trigger] events[k]).timing()
                    < buffer_len)
            &&& forall|k: int|
                0 <= k < events.len() && (#[trigger] events[k]).timing() < buffer_len
                    ==> exists|i: int|
                    0 <= i < blocks.len() && (#[trigger] blocks[i]).start == events[k].timing()
                        && blocks[i].first_event <= k < blocks[i].next_event
        }),
{
    lemma_run_in_order(state, sampling_rate, events, 0, 0, buffer_len as int);
    lemma_run_shares_events(state, sampling_rate, events, 0, 0, buffer_len as int);
    let output = processed(state, buffer_len, sampling_rate, events).output;
    let blocks = output.blocks;
    assert forall|k: int|
        0 <= k < events.len() && (#[trigger] events[k]).timing() < buffer_len implies exists|
        i: int,
    |
        0 <= i < blocks.len() && (#[trigger] blocks[i]).start == events[k].timing()
            && blocks[i].first_event <= k < blocks[i].next_event by {
        assert(handled_in(blocks, k));
        let i = choose|i: int|
            0 <= i < blocks.len() && (#[trigger] blocks[i]).first_event <= k
                < blocks[i].next_event;
        assert(blocks[i].start == events[k].timing());
    }
}

/// Every voice that ends is reported, once: after a buffer the voices in the
/// pool and the notifications together are as many as the voices before and
/// the note-ons that were handled. And a voice that a note-off has reached
/// does not outlast the buffer: no releasing voice is left in the pool.
pub proof fn lemma_every_ended_voice_is_reported(
    state: SynthState,
    buffer_len: u32,
    sampling_rate: u32,
    events: Seq<NoteEvent>,
)
    ensures
        ({
            let done = processed(state, buffer_len, sampling_rate, events);
            let handled = events.subrange(0, done.output.consumed);
            &&& 0 <= done.output.consumed <= events.len()
            &&& done.output.terminated.len() == state.sines.len() + note_ons(handled)
                - done.state.sines.len()
            &&& buffer_len > 0 ==> forall|i: int|
                0 <= i < done.state.sines.len() ==> !(#[trigger] done.state.sines[i]).releasing
        }),
{
    lemma_run_keeps_count(state, sampling_rate, events, 0, 0, buffer_len as int);
}

/// A voice's phase keeps in step with the samples for as long as the voice
/// sounds. What sounds in a sub-block is what sounded in the one before it,
/// with its phase moved on by the length of that sub-block, or it was started
/// at the boundary between the two, begins at phase zero and has a handle
/// that no voice of the sub-block before had. Nothing else about a voice
/// changes on the way but the marks that events set: a voice that is
/// releasing stays so, and an offset that it keeps stays the same. And within
/// a sub-block no two voices share a handle, so the handle tells which voice
/// of one sub-block is which of the next.
pub proof fn lemma_phase_keeps_step(
    state: SynthState,
    buffer_len: u32,
    sampling_rate: u32,
    events: Seq<NoteEvent>,
)
    requires
        state.wf(),
        has_headroom(state.sines, buffer_len as int),
        state.next_id + events.len() <= u64::MAX,
    ensures
        ({
            let done = processed(state, buffer_len, sampling_rate, events);
            let blocks = done.output.blocks;
            &&& in_line(state.sines, blocks, done.state.sines)
            &&& forall|i: int|
                0 <= i < blocks.len() ==> handles_distinct((#[trigger] blocks[i]).voices)
        }),
{
    lemma_run_is_in_line(state, sampling_rate, events, 0, 0, buffer_len as int);
}

/// A handle names one voice for as long as the voice sounds: two voices of a
/// buffer that bear the same handle are the same voice, and the phase of the
/// later is the phase of the earlier plus the samples between the starts of
/// their sub-blocks. So the phase of a voice is in step with the samples from
/// its first sub-block to its last.
pub proof fn lemma_handle_names_one_voice(
    state: SynthState,
    buffer_len: u32,
    sampling_rate: u32,
    events: Seq<NoteEvent>,
    i: int,
    j: int,
    a: int,
    b: int,
)
    requires
        state.wf(),
        has_headroom(state.sines, buffer_len as int),
        state.next_id + events.len() <= u64::MAX,
        0 <= i < j < processed(state, buffer_len, sampling_rate, events).output.blocks.len(),
        0 <= a < processed(state, buffer_len, sampling_rate, events).output.blocks[i].voices.len(),
        0 <= b < processed(state, buffer_len, sampling_rate, events).output.blocks[j].voices.len(),
        processed(state, buffer_len, sampling_rate, events).output.blocks[i].voices[a].id
            == processed(state, buffer_len, sampling_rate, events).output.blocks[j].voices[b].id,
    ensures
        ({
            let blocks = processed(state, buffer_len, sampling_rate, events).output.blocks;
            let earlier = blocks[i].voices[a];
            let later = blocks[j].voices[b];
            &&& earlier.continued_by(later, blocks[j].start - blocks[i].start)
            &&& !earlier.releasing
        }),
{
    lemma_run_tells_voices_apart(
        state,
        sampling_rate,
        events,
        0,
        0,
        buffer_len as int,
        i,
        j,
        a,
        b,
    );
}

/// A voice that is releasing while a sub-block is mixed leaves when the
/// sub-block ends, not when the buffer ends: there is a notification for it
/// that bears the end of the sub-block.
pub proof fn lemma_releasing_voice_leaves_at_block_end(
    state: SynthState,
    buffer_len: u32,
    sampling_rate: u32,
    events: Seq<NoteEvent>,
    i: int,
    j: int,
)
    requires
        0 <= i < processed(state, buffer_len, sampling_rate, events).output.blocks.len(),
        0 <= j < processed(state, buffer_len, sampling_rate, events).output.blocks[i].voices.len(),
        processed(state, buffer_len, sampling_rate, events).output.blocks[i].voices[j].releasing,
    ensures
        ({
            let output = processed(state, buffer_len, sampling_rate, events).output;
            let block = output.blocks[i];
            let voice = block.voices[j];
            output.terminated.contains(
                (VoiceTerminated {
                    timing: block.end as u32,
                    voice_id: voice.voice_id,
                    channel: voice.channel,
                    note: voice.note,
                }),
            )
        }),
{
    lemma_run_reports_releasing(state, sampling_rate, events, 0, 0, buffer_len as int, i, j);
}

/// The handles of the voices stay distinct, whatever the events: a handle
/// that was given to one voice is never given to another.
pub proof fn lemma_handles_stay_distinct(
    state: SynthState,
    buffer_len: u32,
    sampling_rate: u32,
    events: Seq<NoteEvent>,
)
    requires
        state.wf(),
        state.next_id + events.len() <= u64::MAX,
    ensures
        processed(state, buffer_len, sampling_rate, events).state.wf(),
        processed(state, buffer_len, sampling_rate, events).state.next_id >= state.next_id,
{
    lemma_run_keeps_count(state, sampling_rate, events, 0, 0, buffer_len as int);
}

/// A choke removes every voice that answers to it, in one go, and no other:
/// no voice that is left answers, every voice that does not answer is left,
/// and there is one notification for each voice that is gone.
pub proof fn lemma_choke_removes_every_match(
    pool: Seq<Sine>,
    timing: u32,
    voice_id: Option<i32>,
    channel: u8,
    note: u8,
)
    ensures
        ({
            let left = choked(pool, voice_id, channel, note);
            &&& forall|i: int|
                0 <= i < left.len() ==> !(#[trigger] left[i]).answers_to(voice_id, channel, note)
            &&& forall|j: int|
                0 <= j < pool.len() && !(#[trigger] pool[j]).answers_to(voice_id, channel, note)
                    ==> left.contains(pool[j])
            &&& left.len() + choke_notices(pool, timing, voice_id, channel, note).len()
                == pool.len()
        }),
{
    let keep = spared(voice_id, channel, note);
    lemma_select_keeps_order(pool, keep);
    lemma_select_splits(pool, addressed(voice_id, channel, note), keep);
    assert forall|j: int|
        0 <= j < pool.len() && !(#[trigger] pool[j]).answers_to(
            voice_id,
            channel,
            note,
        ) implies choked(pool, voice_id, channel, note).contains(pool[j]) by {
        assert(keep(pool[j]));
        pool.lemma_filter_contains(keep, j);
    }
}

/// A note-off that names a voice id marks at most one voice, so the sweep
/// that follows removes at most one voice on its account.
pub proof fn lemma_note_off_by_id_marks_one(pool: Seq<Sine>, voice_id: i32, channel: u8, note: u8)
    ensures
        ({
            let after = released(pool, Some(voice_id), channel, note);
            &&& after.len() == pool.len()
            &&& forall|i: int, j: int|
                0 <= i < pool.len() && 0 <= j < pool.len() && #[trigger] after[i] != pool[i]
                    && #[trigger] after[j] != pool[j] ==> i == j
            &&& swept(after).len() + 1 >= swept(pool).len()
        }),
{
    let id = Some(voice_id);
    let after = released(pool, id, channel, note);
    if exists|k: int| 0 <= k < pool.len() && (#[trigger] pool[k]).answers_to(id, channel, note) {
        let k = choose|k: int|
            0 <= k < pool.len() && (#[trigger] pool[k]).answers_to(id, channel, note);
        lemma_first_answer(pool, k, id, channel, note);
        let first = choose|first: int|
            0 <= first <= k && release_marks(pool, first, id, channel, note);
        assert(after =~= pool.update(first, pool[first].marked()));
        lemma_select_after_update(pool, first, pool[first].marked(), is_held());
    } else {
        assert(after =~= pool);
    }
}

/// A polyphonic modulation with a modulation id that the engine does not know
/// changes nothing: no voice gets a gain of its own, and there is no command
/// and no notification.
pub proof fn lemma_unknown_modulation_changes_nothing(
    state: SynthState,
    sampling_rate: u32,
    timing: u32,
    voice_id: i32,
    poly_modulation_id: u32,
    normalized_offset: u32,
)
    requires
        poly_modulation_id != GAIN_POLY_MOD_ID,
    ensures
        handle(
            state,
            sampling_rate,
            NoteEvent::PolyModulation { timing, voice_id, poly_modulation_id, normalized_offset },
        ) == Outcome::unchanged(state),
{
    let after = handle(
        state,
        sampling_rate,
        NoteEvent::PolyModulation { timing, voice_id, poly_modulation_id, normalized_offset },
    );
    lemma_select_none(state.sines, modulation_reaches(voice_id, poly_modulation_id));
    assert(after.state.sines =~= state.sines);
    assert(after.commands =~= Seq::empty());
}

/// An automation with a modulation id that the engine does not know changes
/// nothing either.
pub proof fn lemma_unknown_automation_changes_nothing(
    state: SynthState,
    sampling_rate: u32,
    timing: u32,
    poly_modulation_id: u32,
    normalized_value: u32,
)
    requires
        poly_modulation_id != GAIN_POLY_MOD_ID,
    ensures
        handle(
            state,
            sampling_rate,
            NoteEvent::MonoAutomation { timing, poly_modulation_id, normalized_value },
        ) == Outcome::unchanged(state),
{
    let event = NoteEvent::MonoAutomation { timing, poly_modulation_id, normalized_value };
    lemma_select_none(state.sines, automation_reaches(poly_modulation_id));
    assert(handle(state, sampling_rate, event).commands =~= Seq::empty());
}

/// An automation never gives a voice a gain of its own: it leaves the pool as
/// it is, whatever its modulation id.
pub proof fn lemma_automation_keeps_the_pool(
    state: SynthState,
    sampling_rate: u32,
    timing: u32,
    poly_modulation_id: u32,
    normalized_value: u32,
)
    ensures
        handle(
            state,
            sampling_rate,
            NoteEvent::MonoAutomation { timing, poly_modulation_id, normalized_value },
        ).state == state,
{
}

/// An event with a modulation id that the engine does not know leaves no
/// trace in what processing gives: the plan, the notifications and the state
/// are what they are with any event in its place that is due at the same time
/// and changes nothing.
pub proof fn lemma_unknown_modulation_leaves_no_trace(
    state: SynthState,
    buffer_len: u32,
    sampling_rate: u32,
    events: Seq<NoteEvent>,
    k: int,
)
    requires
        0 <= k < events.len(),
        events[k].is_unknown(),
    ensures
        processed(state, buffer_len, sampling_rate, events) == processed(
            state,
            buffer_len,
            sampling_rate,
            events.update(k, NoteEvent::Other { timing: events[k].timing() }),
        ),
{
    let other = NoteEvent::Other { timing: events[k].timing() };
    let plain = events.update(k, other);
    assert forall|state: SynthState| #[trigger]
        handle(state, sampling_rate, events[k]) == handle(state, sampling_rate, other) by {
        match events[k] {
            NoteEvent::PolyModulation {
                timing,
                voice_id,
                poly_modulation_id,
                normalized_offset,
            } => {
                lemma_unknown_modulation_changes_nothing(
                    state,
                    sampling_rate,
                    timing,
                    voice_id,
                    poly_modulation_id,
                    normalized_offset,
                );
            },
            NoteEvent::MonoAutomation { timing, poly_modulation_id, normalized_value } => {
                lemma_unknown_automation_changes_nothing(
                    state,
                    sampling_rate,
                    timing,
                    poly_modulation_id,
                    normalized_value,
                );
            },
            _ => {},
        }
    }
    assert forall|j: int| 0 <= j < events.len() implies alike(
        #[trigger] events[j],
        plain[j],
        sampling_rate,
    ) by {}
    lemma_run_alike(state, sampling_rate, events, plain, 0, 0, buffer_len as int);
}

/// A note-off that follows a note-on at the same boundary reaches the voice
/// that the note-on has started, so that voice is releasing before a sample of
/// it is mixed. This holds where the note-off names no voice id, and where it
/// names one and no voice that was in the pool before answers to it.
pub proof fn lemma_note_off_reaches_fresh_voice(
    state: SynthState,
    sampling_rate: u32,
    timing: u32,
    voice_id: Option<i32>,
    channel: u8,
    note: u8,
    velocity: u32,
)
    requires
        voice_id is Some ==> forall|i: int|
            0 <= i < state.sines.len() ==> !(#[trigger] state.sines[i]).answers_to(
                voice_id,
                channel,
                note,
            ),
    ensures
        ({
            let started = handle(
                state,
                sampling_rate,
                NoteEvent::NoteOn { timing, voice_id, channel, note, velocity },
            ).state;
            let ended = handle(
                started,
                sampling_rate,
                NoteEvent::NoteOff { timing, voice_id, channel, note },
            ).state;
            &&& ended.sines.len() == state.sines.len() + 1
            &&& ended.sines.last() == started.sines.last().marked()
            &&& ended.sines.last().releasing
        }),
{
}

} // verus!
