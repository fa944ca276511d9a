//! A polyphonic sine oscillator engine.
//!
//! The engine takes the events that a host has for one buffer of samples and
//! says what is to sound in the buffer. It cuts the buffer into sub-blocks so
//! that every event takes effect at a boundary, keeps the pool of voices, and
//! for each sub-block tells which voices sound in it, at which phase each of
//! them begins, which gain changes come first and which voices have ended.
//!
//! Everything in the engine is integer state. The waveform and the gains are
//! for the caller to evaluate. Where an event carries a number in floating
//! point, the engine takes its bits, keeps them and hands them back.
//!
//! Each voice has a handle that no other voice of the engine ever gets. The
//! caller keeps what belongs to a voice, such as a smoother for its gain,
//! under that handle.
//!
//! `BasicSineSynth::process` does a whole buffer at once. A caller that would
//! rather mix as it goes opens and closes the sub-blocks itself, with
//! `BasicSineSynth::begin_block` and `BasicSineSynth::end_block`.

pub mod event;
pub mod laws;
pub mod lineage;
pub mod pool;
pub mod schedule;
pub mod sine;
pub mod state;

use crate::event::{GainCommand, NoteEvent, VoiceTerminated};
use crate::lineage::{lemma_handle_all_descends, lemma_mixing_descends};
use crate::pool::{
    addressed, advanced, automate_command, automate_commands, automation_reaches, choke_notice,
    choke_notices, choked, has_headroom, is_held, is_releasing, lemma_select_keeps_order,
    lemma_select_next, modulate_command, modulate_commands, modulated, modulation_of,
    modulation_reaches, released, spared, sweep_notice, sweep_notices, swept,
};
use crate::schedule::{
    begun, block_end, block_views, ended, ending_notices, processed, run, scan_end, turn,
    ProcessOutput, SubBlock,
};
use crate::sine::Sine;
use crate::state::{
    can_handle, handle, handle_all, lemma_handle_all_keeps_count, lemma_handle_all_next,
    lemma_handle_keeps_handles, SynthState,
};
use vstd::prelude::*;

verus! {

/// The longest stretch of samples that is mixed in one go.
pub const MAX_BLOCK_SIZE: u32 = 64;

/// The one modulation id that the engine knows: the gain.
pub const GAIN_POLY_MOD_ID: u32 = 0;

/// The engine: the pool of sounding voices, in the order in which they were
/// started, and the handle that the next voice gets.
pub struct BasicSineSynth {
    sines: Vec<Sine>,
    next_id: u64,
}

impl View for BasicSineSynth {
    type V = SynthState;

    closed spec fn view(&self) -> SynthState {
        SynthState { sines: self.sines@, next_id: self.next_id as nat }
    }
}

impl Default for BasicSineSynth {
    /// An engine without voices.
    fn default() -> (synth: Self)
        ensures
            synth@ == SynthState::initial(),
    {
        BasicSineSynth { sines: Vec::new(), next_id: 0 }
    }
}

impl BasicSineSynth {
    /// The pool, in the order in which the voices were started.
    pub fn sines(&self) -> (sines: &Vec<Sine>)
        ensures
            sines@ == self@.sines,
    {
        &self.sines
    }

    /// The handle that the next voice gets.
    pub fn next_id(&self) -> (next_id: u64)
        ensures
            next_id == self@.next_id,
    {
        self.next_id
    }

    /// A copy of the pool as it stands.
    pub fn voices(&self) -> (voices: Vec<Sine>)
        ensures
            voices@ == self@.sines,
    {
        let n: usize = self.sines.len();
        let mut voices: Vec<Sine> = Vec::with_capacity(n);
        let mut i: usize = 0;
        while i < n
            invariant
                i <= n,
                n == self.sines.len(),
                voices@ == self.sines@.take(i as int),
            decreases n - i,
        {
            voices.push(self.sines[i]);
            proof {
                assert(self.sines@.take(i + 1) =~= self.sines@.take(i as int).push(
                    self.sines@[i as int],
                ));
            }
            i += 1;
        }
        proof {
            assert(self.sines@.take(n as int) =~= self.sines@);
        }
        voices
    }

    /// Whether `process` can take a buffer of `buffer_len` samples with
    /// `event_count` events: every voice has that many samples of phase left,
    /// and there is a handle for every event.
    pub fn can_process(&self, buffer_len: u32, event_count: usize) -> (ok: bool)
        ensures
            ok == (has_headroom(self@.sines, buffer_len as int) && self@.next_id + event_count
                <= u64::MAX),
    {
        if event_count as u64 > u64::MAX - self.next_id {
            return false;
        }
        let n: usize = self.sines.len();
        let mut i: usize = 0;
        while i < n
            invariant
                i <= n,
                n == self.sines.len(),
                has_headroom(self.sines@.take(i as int), buffer_len as int),
            decreases n - i,
        {
            if self.sines[i].curr_sample > u32::MAX - buffer_len {
                return false;
            }
            proof {
                assert(self.sines@.take(i + 1) =~= self.sines@.take(i as int).push(
                    self.sines@[i as int],
                ));
            }
            i += 1;
        }
        proof {
            assert(self.sines@.take(n as int) =~= self.sines@);
        }
        true
    }

    /// Starts a voice for a note-on.
    pub fn init_sines(
        &mut self,
        sampling_rate: u32,
        voice_id: Option<i32>,
        channel: u8,
        note: u8,
        velocity: u32,
    )
        requires
            old(self)@.next_id < u64::MAX,
        ensures
            final(self)@ == old(self)@.started(sampling_rate, voice_id, channel, note, velocity),
            old(self)@.wf() ==> final(self)@.wf(),
    {
        let new_sine = Sine::new(self.next_id, sampling_rate, voice_id, channel, note, velocity);
        self.sines.push(new_sine);
        self.next_id = self.next_id + 1;
    }

    /// Marks voices as releasing for a note-off: every voice that answers, or
    /// only the first where the note-off names a voice id.
    pub fn finalize_sines(&mut self, voice_id: Option<i32>, channel: u8, note: u8)
        ensures
            final(self)@ == old(self)@.with_sines(
                released(old(self)@.sines, voice_id, channel, note),
            ),
            old(self)@.wf() ==> final(self)@.wf(),
    {
        let n: usize = self.sines.len();
        let mut i: usize = 0;
        while i < n
            invariant
                i <= n,
                n == old(self).sines.len(),
                self.sines.len() == n,
                self.next_id == old(self).next_id,
                forall|k: int|
                    0 <= k < i ==> self.sines@[k] == released(
                        old(self).sines@,
                        voice_id,
                        channel,
                        note,
                    )[k],
                forall|k: int| i <= k < n ==> self.sines@[k] == old(self).sines@[k],
                voice_id is Some ==> forall|k: int|
                    0 <= k < i ==> !(#[trigger] old(self).sines@[k]).answers_to(
                        voice_id,
                        channel,
                        note,
                    ),
            decreases n - i,
        {
            let sine = self.sines[i];
            if sine.answers_to(voice_id, channel, note) {
                self.sines.set(i, Sine { releasing: true, ..sine });
                if voice_id.is_some() {
                    proof {
                        assert(self.sines@ =~= released(old(self).sines@, voice_id, channel, note));
                    }
                    return;
                }
            }
            i += 1;
        }
        proof {
            assert(self.sines@ =~= released(old(self).sines@, voice_id, channel, note));
        }
    }

    /// Removes every voice that answers, at once and without a release, and
    /// adds a notification for each to `terminated`.
    pub fn choke_sines(
        &mut self,
        terminated: &mut Vec<VoiceTerminated>,
        sample_offset: u32,
        voice_id: Option<i32>,
        channel: u8,
        note: u8,
    )
        ensures
            final(self)@ == old(self)@.with_sines(
                choked(old(self)@.sines, voice_id, channel, note),
            ),
            final(terminated)@ == old(terminated)@ + choke_notices(
                old(self)@.sines,
                sample_offset,
                voice_id,
                channel,
                note,
            ),
            old(self)@.wf() ==> final(self)@.wf(),
    {
        let ghost before = self.sines@;
        let ghost keep = spared(voice_id, channel, note);
        let ghost gone = addressed(voice_id, channel, note);
        let ghost notice = choke_notice(sample_offset, channel, note);
        let n: usize = self.sines.len();
        let mut kept: usize = 0;
        let mut i: usize = 0;
        while i < n
            invariant
                kept <= i <= n,
                n == before.len(),
                self.sines.len() == n,
                self.next_id == old(self).next_id,
                keep == spared(voice_id, channel, note),
                gone == addressed(voice_id, channel, note),
                notice == choke_notice(sample_offset, channel, note),
                self.sines@.take(kept as int) == before.take(i as int).filter(keep),
                forall|k: int| i <= k < n ==> self.sines@[k] == before[k],
                terminated@ == old(terminated)@ + before.take(i as int).filter(gone).map_values(
                    notice,
                ),
            decreases n - i,
        {
            let sine = self.sines[i];
            proof {
                lemma_select_next(before, i as int, keep, notice);
                lemma_select_next(before, i as int, gone, notice);
            }
            if sine.answers_to(voice_id, channel, note) {
                terminated.push(
                    VoiceTerminated {
                        timing: sample_offset,
                        voice_id: sine.voice_id,
                        channel,
                        note,
                    },
                );
            } else {
                let ghost prefix = self.sines@.take(kept as int);
                self.sines.set(kept, sine);
                proof {
                    assert(self.sines@.take(kept + 1) =~= prefix.push(sine));
                }
                kept += 1;
            }
            i += 1;
        }
        self.sines.truncate(kept);
        proof {
            assert(before.take(n as int) =~= before);
            lemma_select_keeps_order(before, keep);
        }
    }

    /// Removes the releasing voices at the end of a sub-block and adds a
    /// notification for each to `terminated`.
    pub fn sweep_sines(&mut self, terminated: &mut Vec<VoiceTerminated>, block_end: u32)
        ensures
            final(self)@ == old(self)@.with_sines(swept(old(self)@.sines)),
            final(terminated)@ == old(terminated)@ + sweep_notices(old(self)@.sines, block_end),
            old(self)@.wf() ==> final(self)@.wf(),
    {
        let ghost before = self.sines@;
        let ghost keep = is_held();
        let ghost gone = is_releasing();
        let ghost notice = sweep_notice(block_end);
        let n: usize = self.sines.len();
        let mut kept: usize = 0;
        let mut i: usize = 0;
        while i < n
            invariant
                kept <= i <= n,
                n == before.len(),
                self.sines.len() == n,
                self.next_id == old(self).next_id,
                keep == is_held(),
                gone == is_releasing(),
                notice == sweep_notice(block_end),
                self.sines@.take(kept as int) == before.take(i as int).filter(keep),
                forall|k: int| i <= k < n ==> self.sines@[k] == before[k],
                terminated@ == old(terminated)@ + before.take(i as int).filter(gone).map_values(
                    notice,
                ),
            decreases n - i,
        {
            let sine = self.sines[i];
            proof {
                lemma_select_next(before, i as int, keep, notice);
                lemma_select_next(before, i as int, gone, notice);
            }
            if sine.releasing {
                terminated.push(
                    VoiceTerminated {
                        timing: block_end,
                        voice_id: sine.voice_id,
                        channel: sine.channel,
                        note: sine.note,
                    },
                );
            } else {
                let ghost prefix = self.sines@.take(kept as int);
                self.sines.set(kept, sine);
                proof {
                    assert(self.sines@.take(kept + 1) =~= prefix.push(sine));
                }
                kept += 1;
            }
            i += 1;
        }
        self.sines.truncate(kept);
        proof {
            assert(before.take(n as int) =~= before);
            lemma_select_keeps_order(before, keep);
        }
    }

    /// Lets every voice produce `n` samples.
    pub fn advance_sines(&mut self, n: u32)
        requires
            has_headroom(old(self)@.sines, n as int),
        ensures
            final(self)@ == old(self)@.with_sines(advanced(old(self)@.sines, n as int)),
            old(self)@.wf() ==> final(self)@.wf(),
    {
        let len: usize = self.sines.len();
        let mut i: usize = 0;
        while i < len
            invariant
                i <= len,
                len == old(self).sines.len(),
                self.sines.len() == len,
                self.next_id == old(self).next_id,
                has_headroom(old(self).sines@, n as int),
                forall|k: int|
                    0 <= k < i ==> self.sines@[k] == old(self).sines@[k].advanced(n as int),
                forall|k: int| i <= k < len ==> self.sines@[k] == old(self).sines@[k],
            decreases len - i,
        {
            let sine = self.sines[i];
            self.sines.set(i, Sine { curr_sample: sine.curr_sample + n, ..sine });
            i += 1;
        }
        proof {
            assert(self.sines@ =~= advanced(old(self).sines@, n as int));
        }
    }

    /// Applies a polyphonic modulation: every voice with this voice id gets a
    /// gain of its own, if it has none yet, and a command that retargets it is
    /// added to `commands`. A modulation id other than the gain's changes
    /// nothing.
    pub fn modulate_sines(
        &mut self,
        commands: &mut Vec<GainCommand>,
        voice_id: i32,
        poly_modulation_id: u32,
        normalized_offset: u32,
    )
        ensures
            final(self)@ == old(self)@.with_sines(
                modulated(old(self)@.sines, voice_id, poly_modulation_id, normalized_offset),
            ),
            final(commands)@ == old(commands)@ + modulate_commands(
                old(self)@.sines,
                voice_id,
                poly_modulation_id,
                normalized_offset,
            ),
            old(self)@.wf() ==> final(self)@.wf(),
    {
        let ghost before = self.sines@;
        let ghost reach = modulation_reaches(voice_id, poly_modulation_id);
        let ghost change = modulation_of(voice_id, poly_modulation_id, normalized_offset);
        let ghost command = modulate_command(normalized_offset);
        let n: usize = self.sines.len();
        let mut i: usize = 0;
        while i < n
            invariant
                i <= n,
                n == before.len(),
                self.sines.len() == n,
                self.next_id == old(self).next_id,
                reach == modulation_reaches(voice_id, poly_modulation_id),
                change == modulation_of(voice_id, poly_modulation_id, normalized_offset),
                command == modulate_command(normalized_offset),
                forall|k: int| 0 <= k < i ==> self.sines@[k] == change(before[k]),
                forall|k: int| i <= k < n ==> self.sines@[k] == before[k],
                commands@ == old(commands)@ + before.take(i as int).filter(reach).map_values(
                    command,
                ),
            decreases n - i,
        {
            let sine = self.sines[i];
            proof {
                lemma_select_next(before, i as int, reach, command);
            }
            let named = match sine.voice_id {
                Some(own) => own == voice_id,
                None => false,
            };
            if named && poly_modulation_id == GAIN_POLY_MOD_ID {
                let (fresh, kept): (bool, u32) = match sine.voice_gain {
                    Some(kept) => (false, kept),
                    None => (true, normalized_offset),
                };
                self.sines.set(i, Sine { voice_gain: Some(kept), ..sine });
                commands.push(GainCommand::Modulate { id: sine.id, fresh, normalized_offset });
            }
            i += 1;
        }
        proof {
            assert(before.take(n as int) =~= before);
            assert(self.sines@ =~= modulated(
                before,
                voice_id,
                poly_modulation_id,
                normalized_offset,
            ));
        }
    }

    /// Applies an automation of the whole instrument: for every voice with a
    /// gain of its own, a command that retargets it is added to `commands`.
    /// Voices without one are passed over, and a modulation id other than the
    /// gain's gives no command.
    pub fn automate_sines(
        &self,
        commands: &mut Vec<GainCommand>,
        poly_modulation_id: u32,
        normalized_value: u32,
    )
        ensures
            final(commands)@ == old(commands)@ + automate_commands(
                self@.sines,
                poly_modulation_id,
                normalized_value,
            ),
    {
        let ghost reach = automation_reaches(poly_modulation_id);
        let ghost command = automate_command(normalized_value);
        let n: usize = self.sines.len();
        let mut i: usize = 0;
        while i < n
            invariant
                i <= n,
                n == self.sines.len(),
                reach == automation_reaches(poly_modulation_id),
                command == automate_command(normalized_value),
                commands@ == old(commands)@ + self.sines@.take(i as int).filter(reach).map_values(
                    command,
                ),
            decreases n - i,
        {
            let sine = self.sines[i];
            proof {
                lemma_select_next(self.sines@, i as int, reach, command);
            }
            if poly_modulation_id == GAIN_POLY_MOD_ID {
                match sine.voice_gain {
                    Some(normalized_offset) => {
                        commands.push(
                            GainCommand::Automate {
                                id: sine.id,
                                normalized_value,
                                normalized_offset,
                            },
                        );
                    },
                    None => {},
                }
            }
            i += 1;
        }
        proof {
            assert(self.sines@.take(n as int) =~= self.sines@);
        }
    }

    /// Applies one event to the pool. Gain commands that it gives rise to are
    /// added to `commands`, notifications to `terminated`.
    pub fn handle_event(
        &mut self,
        commands: &mut Vec<GainCommand>,
        terminated: &mut Vec<VoiceTerminated>,
        sampling_rate: u32,
        event: &NoteEvent,
    )
        requires
            can_handle(old(self)@, *event),
        ensures
            final(self)@ == handle(old(self)@, sampling_rate, *event).state,
            final(commands)@ == old(commands)@ + handle(
                old(self)@,
                sampling_rate,
                *event,
            ).commands,
            final(terminated)@ == old(terminated)@ + handle(
                old(self)@,
                sampling_rate,
                *event,
            ).terminated,
            old(self)@.wf() ==> final(self)@.wf(),
    {
        match *event {
            NoteEvent::NoteOn { timing, voice_id, channel, note, velocity } => {
                self.init_sines(sampling_rate, voice_id, channel, note, velocity);
            },
            NoteEvent::NoteOff { timing, voice_id, channel, note } => {
                self.finalize_sines(voice_id, channel, note);
            },
            NoteEvent::Choke { timing, voice_id, channel, note } => {
                self.choke_sines(terminated, timing, voice_id, channel, note);
            },
            NoteEvent::PolyModulation {
                timing,
                voice_id,
                poly_modulation_id,
                normalized_offset,
            } => {
                self.modulate_sines(commands, voice_id, poly_modulation_id, normalized_offset);
            },
            NoteEvent::MonoAutomation { timing, poly_modulation_id, normalized_value } => {
                self.automate_sines(commands, poly_modulation_id, normalized_value);
            },
            NoteEvent::Other { timing } => {},
        }
        proof {
            assert(commands@ =~= old(commands)@ + handle(
                old(self)@,
                sampling_rate,
                *event,
            ).commands);
            assert(terminated@ =~= old(terminated)@ + handle(
                old(self)@,
                sampling_rate,
                *event,
            ).terminated);
        }
    }

    /// Opens the sub-block that begins at `block_start`. The events from
    /// `first_event` on that are due by then are handled in their order; their
    /// gain commands are added to `commands` and their notifications to
    /// `terminated`. Returns where the sub-block ends, and the first event that
    /// is left.
    pub fn begin_block(
        &mut self,
        commands: &mut Vec<GainCommand>,
        terminated: &mut Vec<VoiceTerminated>,
        block_start: u32,
        buffer_len: u32,
        sampling_rate: u32,
        events: &Vec<NoteEvent>,
        first_event: usize,
    ) -> (cut: (u32, usize))
        requires
            block_start < buffer_len,
            first_event <= events.len(),
            old(self)@.next_id + (events.len() - first_event) <= u64::MAX,
        ensures
            cut.1 == scan_end(events@, first_event as int, block_start as int),
            cut.0 == block_end(events@, cut.1 as int, block_start as int, buffer_len as int),
            first_event <= cut.1 <= events.len(),
            block_start < cut.0 <= buffer_len,
            cut.0 - block_start <= MAX_BLOCK_SIZE,
            final(self)@ == begun(
                old(self)@,
                sampling_rate,
                events@,
                first_event as int,
                block_start as int,
            ).state,
            final(commands)@ == old(commands)@ + begun(
                old(self)@,
                sampling_rate,
                events@,
                first_event as int,
                block_start as int,
            ).commands,
            final(terminated)@ == old(terminated)@ + begun(
                old(self)@,
                sampling_rate,
                events@,
                first_event as int,
                block_start as int,
            ).terminated,
            old(self)@.wf() ==> final(self)@.wf(),
    {
        let ghost state = self@;
        let mut next_event: usize = first_event;
        proof {
            assert(events@.subrange(first_event as int, next_event as int) =~= Seq::empty());
            assert(commands@ =~= old(commands)@ + Seq::empty());
            assert(terminated@ =~= old(terminated)@ + Seq::empty());
        }
        while next_event < events.len() && events[next_event].timing() <= block_start
            invariant
                first_event <= next_event <= events.len(),
                scan_end(events@, next_event as int, block_start as int) == scan_end(
                    events@,
                    first_event as int,
                    block_start as int,
                ),
                self@.next_id + (events.len() - next_event) <= u64::MAX,
                state.wf() ==> self@.wf(),
                self@ == handle_all(
                    state,
                    sampling_rate,
                    events@.subrange(first_event as int, next_event as int),
                ).state,
                commands@ == old(commands)@ + handle_all(
                    state,
                    sampling_rate,
                    events@.subrange(first_event as int, next_event as int),
                ).commands,
                terminated@ == old(terminated)@ + handle_all(
                    state,
                    sampling_rate,
                    events@.subrange(first_event as int, next_event as int),
                ).terminated,
            decreases events.len() - next_event,
        {
            let ghost handled = events@.subrange(first_event as int, next_event as int);
            let ghost before = handle_all(state, sampling_rate, handled);
            proof {
                lemma_handle_keeps_handles(self@, sampling_rate, events@[next_event as int]);
                lemma_handle_all_next(state, sampling_rate, handled, events@[next_event as int]);
                assert(events@.subrange(first_event as int, next_event + 1) =~= handled.push(
                    events@[next_event as int],
                ));
            }
            self.handle_event(commands, terminated, sampling_rate, &events[next_event]);
            proof {
                let last = handle(before.state, sampling_rate, events@[next_event as int]);
                assert(commands@ =~= old(commands)@ + (before.commands + last.commands));
                assert(terminated@ =~= old(terminated)@ + (before.terminated + last.terminated));
            }
            next_event += 1;
        }
        let mut block_end: u32 = if buffer_len - block_start > MAX_BLOCK_SIZE {
            block_start + MAX_BLOCK_SIZE
        } else {
            buffer_len
        };
        if next_event < events.len() {
            let due: u32 = events[next_event].timing();
            if due < block_end {
                block_end = due;
            }
        }
        (block_end, next_event)
    }

    /// Closes the sub-block from `block_start` to `block_end`: every voice has
    /// sounded throughout, and the releasing ones leave, each with a
    /// notification in `terminated` that bears `block_end`.
    pub fn end_block(
        &mut self,
        terminated: &mut Vec<VoiceTerminated>,
        block_start: u32,
        block_end: u32,
    )
        requires
            block_start <= block_end,
            has_headroom(old(self)@.sines, block_end - block_start),
        ensures
            final(self)@ == old(self)@.with_sines(
                ended(old(self)@.sines, block_end - block_start),
            ),
            final(terminated)@ == old(terminated)@ + ending_notices(
                old(self)@.sines,
                block_end - block_start,
                block_end,
            ),
            old(self)@.wf() ==> final(self)@.wf(),
    {
        self.advance_sines(block_end - block_start);
        self.sweep_sines(terminated, block_end);
    }

    /// Processes one buffer of `buffer_len` samples.
    ///
    /// The buffer is cut into sub-blocks. At the start of each, the events that
    /// are due are handled in their order; the sub-block then runs to the next
    /// event that is not yet due, or for `MAX_BLOCK_SIZE` samples, or to the end
    /// of the buffer, whichever comes first. The voices that stand in the pool
    /// sound throughout the sub-block, and at its end the releasing ones leave,
    /// each with a notification that bears the end of the sub-block.
    pub fn process(&mut self, buffer_len: u32, sampling_rate: u32, events: &Vec<NoteEvent>) -> (out:
        ProcessOutput)
        requires
            has_headroom(old(self)@.sines, buffer_len as int),
            old(self)@.next_id + events.len() <= u64::MAX,
        ensures
            final(self)@ == processed(old(self)@, buffer_len, sampling_rate, events@).state,
            out@ == processed(old(self)@, buffer_len, sampling_rate, events@).output,
            out.consumed <= events.len(),
            old(self)@.wf() ==> final(self)@.wf(),
    {
        let ghost whole = processed(old(self)@, buffer_len, sampling_rate, events@);
        let mut blocks: Vec<SubBlock> = Vec::new();
        let mut terminated: Vec<VoiceTerminated> = Vec::new();
        let mut next_event: usize = 0;
        let mut block_start: u32 = 0;
        proof {
            assert(block_views(blocks@) + whole.output.blocks =~= whole.output.blocks);
            assert(terminated@ + whole.output.terminated =~= whole.output.terminated);
        }
        while block_start < buffer_len
            invariant
                block_start <= buffer_len,
                next_event <= events.len(),
                has_headroom(self@.sines, buffer_len - block_start),
                self@.next_id + (events.len() - next_event) <= u64::MAX,
                old(self)@.wf() ==> self@.wf(),
                whole.state == run(
                    self@,
                    sampling_rate,
                    events@,
                    next_event as int,
                    block_start as int,
                    buffer_len as int,
                ).state,
                whole.output.consumed == run(
                    self@,
                    sampling_rate,
                    events@,
                    next_event as int,
                    block_start as int,
                    buffer_len as int,
                ).output.consumed,
                whole.output.blocks == block_views(blocks@) + run(
                    self@,
                    sampling_rate,
                    events@,
                    next_event as int,
                    block_start as int,
                    buffer_len as int,
                ).output.blocks,
                whole.output.terminated == terminated@ + run(
                    self@,
                    sampling_rate,
                    events@,
                    next_event as int,
                    block_start as int,
                    buffer_len as int,
                ).output.terminated,
            decreases buffer_len - block_start,
        {
            let ghost state = self@;
            let ghost told = terminated@;
            let ghost drawn = block_views(blocks@);
            let ghost this = turn(
                state,
                sampling_rate,
                events@,
                next_event as int,
                block_start as int,
                buffer_len as int,
            );
            let first_event: usize = next_event;
            let mut commands: Vec<GainCommand> = Vec::new();
            let (block_end, next): (u32, usize) = self.begin_block(
                &mut commands,
                &mut terminated,
                block_start,
                buffer_len,
                sampling_rate,
                events,
                first_event,
            );
            next_event = next;
            proof {
                let due = events@.subrange(first_event as int, next_event as int);
                lemma_handle_all_keeps_count(state, sampling_rate, due);
                lemma_handle_all_descends(state, sampling_rate, due, buffer_len - block_start);
                lemma_mixing_descends(self@.sines, block_end - block_start, self@.next_id);
                assert(has_headroom(
                    self@.sines,
                    (block_end - block_start) + (buffer_len - block_end),
                ));
            }
            let voices = self.voices();
            self.end_block(&mut terminated, block_start, block_end);
            blocks.push(
                SubBlock {
                    start: block_start,
                    end: block_end,
                    first_event,
                    next_event,
                    commands,
                    voices,
                },
            );
            proof {
                let rest = run(
                    this.state,
                    sampling_rate,
                    events@,
                    this.block.next_event,
                    this.block.end,
                    buffer_len as int,
                );
                assert(self@ == this.state);
                assert(block_views(blocks@) =~= drawn.push(this.block));
                assert(block_views(blocks@) + rest.output.blocks =~= drawn + (seq![this.block]
                    + rest.output.blocks));
                assert(terminated@ + rest.output.terminated =~= told + (this.terminated
                    + rest.output.terminated));
            }
            block_start = block_end;
        }
        ProcessOutput { blocks, terminated, consumed: next_event }
    }
}

} // verus!
