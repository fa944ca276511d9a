use basic_sine_synth::event::{GainCommand, NoteEvent, VoiceTerminated};
use basic_sine_synth::schedule::{ProcessOutput, SubBlock};
use basic_sine_synth::sine::Sine;
use basic_sine_synth::{BasicSineSynth, MAX_BLOCK_SIZE};

const RATE: u32 = 0x473b_8000;
const FULL: u32 = 0x3f80_0000;

fn on(timing: u32, note: u8) -> NoteEvent {
    NoteEvent::NoteOn { timing, voice_id: None, channel: 0, note, velocity: FULL }
}

fn off(timing: u32, note: u8) -> NoteEvent {
    NoteEvent::NoteOff { timing, voice_id: None, channel: 0, note }
}

fn bounds(out: &ProcessOutput) -> Vec<(u32, u32)> {
    out.blocks.iter().map(|block| (block.start, block.end)).collect()
}

fn shares(out: &ProcessOutput) -> Vec<(usize, usize)> {
    out.blocks.iter().map(|block| (block.first_event, block.next_event)).collect()
}

fn ended(timing: u32, voice_id: Option<i32>, channel: u8, note: u8) -> VoiceTerminated {
    VoiceTerminated { timing, voice_id, channel, note }
}

fn modulation(
    timing: u32,
    voice_id: i32,
    poly_modulation_id: u32,
    normalized_offset: u32,
) -> NoteEvent {
    NoteEvent::PolyModulation { timing, voice_id, poly_modulation_id, normalized_offset }
}

#[test]
fn block_size_is_sixty_four() {
    assert_eq!(MAX_BLOCK_SIZE, 64);
}

#[test]
fn empty_buffer_has_no_sub_block() {
    let mut synth = BasicSineSynth::default();
    let events = vec![on(0, 60)];
    let out = synth.process(0, RATE, &events);
    assert_eq!(out, ProcessOutput { blocks: vec![], terminated: vec![], consumed: 0 });
    assert!(synth.sines().is_empty());
}

#[test]
fn short_buffer_is_one_sub_block() {
    let mut synth = BasicSineSynth::default();
    let out = synth.process(10, RATE, &vec![]);
    assert_eq!(
        out,
        ProcessOutput {
            blocks: vec![SubBlock {
                start: 0,
                end: 10,
                first_event: 0,
                next_event: 0,
                commands: vec![],
                voices: vec![],
            }],
            terminated: vec![],
            consumed: 0,
        }
    );
}

#[test]
fn buffer_of_block_size_is_one_sub_block() {
    let mut synth = BasicSineSynth::default();
    let out = synth.process(64, RATE, &vec![]);
    assert_eq!(bounds(&out), vec![(0, 64)]);
}

#[test]
fn buffer_one_longer_than_block_size_is_two_sub_blocks() {
    let mut synth = BasicSineSynth::default();
    let out = synth.process(65, RATE, &vec![]);
    assert_eq!(bounds(&out), vec![(0, 64), (64, 65)]);
}

#[test]
fn long_buffer_is_cut_every_block_size() {
    let mut synth = BasicSineSynth::default();
    let out = synth.process(200, RATE, &vec![]);
    assert_eq!(bounds(&out), vec![(0, 64), (64, 128), (128, 192), (192, 200)]);
}

#[test]
fn event_cuts_the_sub_block_at_its_timing() {
    let mut synth = BasicSineSynth::default();
    let events = vec![on(10, 60)];
    let out = synth.process(100, RATE, &events);
    assert_eq!(bounds(&out), vec![(0, 10), (10, 74), (74, 100)]);
    assert_eq!(shares(&out), vec![(0, 0), (0, 1), (1, 1)]);
    assert!(out.blocks[0].voices.is_empty());
    assert_eq!(out.blocks[1].voices, vec![Sine::new(0, RATE, None, 0, 60, FULL)]);
    assert_eq!(out.consumed, 1);
}

#[test]
fn block_size_counts_from_the_last_boundary() {
    let mut synth = BasicSineSynth::default();
    let events = vec![NoteEvent::Other { timing: 1 }, NoteEvent::Other { timing: 65 }];
    let out = synth.process(140, RATE, &events);
    assert_eq!(bounds(&out), vec![(0, 1), (1, 65), (65, 129), (129, 140)]);
}

#[test]
fn events_at_sample_zero_take_effect_in_the_first_sub_block() {
    let mut synth = BasicSineSynth::default();
    let events = vec![on(0, 60), on(0, 64)];
    let out = synth.process(32, RATE, &events);
    assert_eq!(bounds(&out), vec![(0, 32)]);
    assert_eq!(shares(&out), vec![(0, 2)]);
    assert_eq!(out.blocks[0].voices.len(), 2);
    assert_eq!(out.consumed, 2);
}

#[test]
fn events_with_one_timing_share_a_boundary() {
    let mut synth = BasicSineSynth::default();
    let events = vec![on(5, 60), on(5, 64), off(5, 60), on(6, 67)];
    let out = synth.process(20, RATE, &events);
    assert_eq!(bounds(&out), vec![(0, 5), (5, 6), (6, 20)]);
    assert_eq!(shares(&out), vec![(0, 0), (0, 3), (3, 4)]);
    let notes: Vec<u8> = out.blocks[1].voices.iter().map(|sine| sine.note).collect();
    assert_eq!(notes, vec![60, 64]);
    assert!(out.blocks[1].voices[0].releasing);
    let notes: Vec<u8> = out.blocks[2].voices.iter().map(|sine| sine.note).collect();
    assert_eq!(notes, vec![64, 67]);
    assert_eq!(out.terminated, vec![ended(6, None, 0, 60)]);
}

#[test]
fn event_at_the_end_of_the_buffer_is_left_for_the_next_call() {
    let mut synth = BasicSineSynth::default();
    let events = vec![on(0, 60), on(50, 64)];
    let out = synth.process(50, RATE, &events);
    assert_eq!(bounds(&out), vec![(0, 50)]);
    assert_eq!(out.consumed, 1);
    assert_eq!(synth.sines().len(), 1);
}

#[test]
fn event_beyond_the_buffer_is_left_and_cuts_nothing() {
    let mut synth = BasicSineSynth::default();
    let events = vec![on(1000, 60)];
    let out = synth.process(100, RATE, &events);
    assert_eq!(bounds(&out), vec![(0, 64), (64, 100)]);
    assert_eq!(out.consumed, 0);
    assert!(synth.sines().is_empty());
}

#[test]
fn event_on_a_block_boundary_adds_no_cut() {
    let mut synth = BasicSineSynth::default();
    let events = vec![on(64, 60)];
    let out = synth.process(128, RATE, &events);
    assert_eq!(bounds(&out), vec![(0, 64), (64, 128)]);
    assert_eq!(shares(&out), vec![(0, 0), (0, 1)]);
}

#[test]
fn other_events_cut_sub_blocks_and_change_nothing() {
    let mut synth = BasicSineSynth::default();
    let events = vec![on(0, 60), NoteEvent::Other { timing: 7 }];
    let out = synth.process(20, RATE, &events);
    assert_eq!(bounds(&out), vec![(0, 7), (7, 20)]);
    assert_eq!(
        out.blocks[1].voices,
        vec![Sine { curr_sample: 7, ..Sine::new(0, RATE, None, 0, 60, FULL) }]
    );
    assert!(out.blocks[1].commands.is_empty());
    assert!(out.terminated.is_empty());
    assert_eq!(out.consumed, 2);
}

#[test]
fn late_event_takes_effect_at_the_next_boundary() {
    let mut synth = BasicSineSynth::default();
    let events = vec![NoteEvent::Other { timing: 30 }, on(10, 60), on(40, 62)];
    let out = synth.process(50, RATE, &events);
    assert_eq!(bounds(&out), vec![(0, 30), (30, 40), (40, 50)]);
    assert_eq!(shares(&out), vec![(0, 0), (0, 2), (2, 3)]);
    assert_eq!(out.consumed, 3);
}

#[test]
fn phase_runs_on_from_sub_block_to_sub_block() {
    let mut synth = BasicSineSynth::default();
    let events = vec![on(3, 69)];
    let out = synth.process(200, RATE, &events);
    assert_eq!(bounds(&out), vec![(0, 3), (3, 67), (67, 131), (131, 195), (195, 200)]);
    let phases: Vec<Vec<u32>> = out
        .blocks
        .iter()
        .map(|block| block.voices.iter().map(|sine| sine.curr_sample).collect())
        .collect();
    assert_eq!(phases, vec![vec![], vec![0], vec![64], vec![128], vec![192]]);
    assert_eq!(synth.sines()[0].curr_sample, 197);
}

#[test]
fn phase_runs_on_from_call_to_call() {
    let mut synth = BasicSineSynth::default();
    let first = synth.process(100, RATE, &vec![on(0, 69)]);
    assert_eq!(first.consumed, 1);
    let second = synth.process(100, RATE, &vec![]);
    assert_eq!(second.blocks[0].voices[0].curr_sample, 100);
    assert_eq!(second.blocks[1].voices[0].curr_sample, 164);
    assert_eq!(synth.sines()[0].curr_sample, 200);
}

#[test]
fn released_voice_leaves_at_the_end_of_its_sub_block() {
    let mut synth = BasicSineSynth::default();
    let events = vec![
        on(0, 60),
        NoteEvent::Other { timing: 10 },
        off(10, 60),
        NoteEvent::Other { timing: 150 },
    ];
    let out = synth.process(200, RATE, &events);
    assert_eq!(bounds(&out), vec![(0, 10), (10, 74), (74, 138), (138, 150), (150, 200)]);
    assert_eq!(shares(&out), vec![(0, 1), (1, 3), (3, 3), (3, 3), (3, 4)]);
    assert_eq!(out.blocks[0].voices, vec![Sine::new(0, RATE, None, 0, 60, FULL)]);
    assert_eq!(
        out.blocks[1].voices,
        vec![Sine { curr_sample: 10, releasing: true, ..Sine::new(0, RATE, None, 0, 60, FULL) }]
    );
    assert!(out.blocks[2].voices.is_empty());
    assert_eq!(out.terminated, vec![ended(74, None, 0, 60)]);
    assert!(synth.sines().is_empty());
}

#[test]
fn choked_voice_leaves_at_once() {
    let mut synth = BasicSineSynth::default();
    let events = vec![
        on(0, 60),
        on(0, 62),
        NoteEvent::Choke { timing: 20, voice_id: None, channel: 0, note: 60 },
    ];
    let out = synth.process(40, RATE, &events);
    assert_eq!(bounds(&out), vec![(0, 20), (20, 40)]);
    let notes: Vec<u8> = out.blocks[1].voices.iter().map(|sine| sine.note).collect();
    assert_eq!(notes, vec![62]);
    assert_eq!(out.terminated, vec![ended(20, None, 0, 60)]);
}

#[test]
fn notifications_come_in_the_order_in_which_they_arise() {
    let mut synth = BasicSineSynth::default();
    let events = vec![
        on(0, 60),
        on(0, 62),
        on(0, 64),
        off(0, 64),
        NoteEvent::Choke { timing: 5, voice_id: None, channel: 0, note: 60 },
        off(5, 62),
    ];
    let out = synth.process(10, RATE, &events);
    assert_eq!(bounds(&out), vec![(0, 5), (5, 10)]);
    assert_eq!(
        out.terminated,
        vec![
            VoiceTerminated { timing: 5, voice_id: None, channel: 0, note: 64 },
            VoiceTerminated { timing: 5, voice_id: None, channel: 0, note: 60 },
            VoiceTerminated { timing: 10, voice_id: None, channel: 0, note: 62 },
        ]
    );
    assert!(synth.sines().is_empty());
}

#[test]
fn gain_commands_stand_in_the_sub_block_they_precede() {
    let mut synth = BasicSineSynth::default();
    let events = vec![
        NoteEvent::NoteOn { timing: 0, voice_id: Some(1), channel: 0, note: 60, velocity: FULL },
        modulation(8, 1, 0, 11),
        modulation(8, 1, 0, 12),
        NoteEvent::MonoAutomation { timing: 16, poly_modulation_id: 0, normalized_value: 13 },
    ];
    let out = synth.process(32, RATE, &events);
    assert_eq!(bounds(&out), vec![(0, 8), (8, 16), (16, 32)]);
    assert!(out.blocks[0].commands.is_empty());
    assert_eq!(
        out.blocks[1].commands,
        vec![
            GainCommand::Modulate { id: 0, fresh: true, normalized_offset: 11 },
            GainCommand::Modulate { id: 0, fresh: false, normalized_offset: 12 },
        ]
    );
    assert_eq!(
        out.blocks[2].commands,
        vec![GainCommand::Automate { id: 0, normalized_value: 13, normalized_offset: 11 }]
    );
    assert_eq!(out.blocks[0].voices[0].voice_gain, None);
    assert_eq!(out.blocks[1].voices[0].voice_gain, Some(11));
    assert_eq!(out.blocks[2].voices[0].voice_gain, Some(11));
}

#[test]
fn voices_from_an_earlier_call_sound_from_the_first_sample() {
    let mut synth = BasicSineSynth::default();
    synth.init_sines(RATE, None, 0, 60, FULL);
    synth.finalize_sines(None, 0, 60);
    let out = synth.process(100, RATE, &vec![]);
    assert_eq!(out.blocks[0].voices.len(), 1);
    assert!(out.blocks[1].voices.is_empty());
    assert_eq!(out.terminated, vec![ended(64, None, 0, 60)]);
}

#[test]
fn sampling_rate_and_velocity_pass_through() {
    let mut synth = BasicSineSynth::default();
    let events = vec![NoteEvent::NoteOn {
        timing: 0,
        voice_id: None,
        channel: 3,
        note: 72,
        velocity: 0x3f00_0000,
    }];
    let out = synth.process(8, 0x472c_4400, &events);
    assert_eq!(
        out.blocks[0].voices,
        vec![Sine {
            id: 0,
            sampling_rate: 0x472c_4400,
            curr_sample: 0,
            voice_id: None,
            channel: 3,
            note: 72,
            velocity: 0x3f00_0000,
            releasing: false,
            voice_gain: None,
        }]
    );
}

#[test]
fn begin_block_handles_what_is_due_and_says_where_to_stop() {
    let mut synth = BasicSineSynth::default();
    let events = vec![on(0, 60), on(0, 62), off(0, 60), on(9, 64), on(9, 65)];
    let mut commands = Vec::new();
    let mut terminated = Vec::new();
    let cut = synth.begin_block(&mut commands, &mut terminated, 0, 100, RATE, &events, 0);
    assert_eq!(cut, (9, 3));
    let marks: Vec<bool> = synth.sines().iter().map(|sine| sine.releasing).collect();
    assert_eq!(marks, vec![true, false]);
    assert!(commands.is_empty());
    assert!(terminated.is_empty());
}

#[test]
fn begin_block_stops_at_the_cap_without_events() {
    let mut synth = BasicSineSynth::default();
    let mut commands = Vec::new();
    let mut terminated = Vec::new();
    let none = vec![];
    let cut = synth.begin_block(&mut commands, &mut terminated, 0, 100, RATE, &none, 0);
    assert_eq!(cut, (64, 0));
    let cut = synth.begin_block(&mut commands, &mut terminated, 64, 100, RATE, &none, 0);
    assert_eq!(cut, (100, 0));
    let cut = synth.begin_block(&mut commands, &mut terminated, 99, 100, RATE, &none, 0);
    assert_eq!(cut, (100, 0));
    let far = vec![on(64, 60)];
    let cut = synth.begin_block(&mut commands, &mut terminated, 0, 100, RATE, &far, 0);
    assert_eq!(cut, (64, 0));
    let near = vec![on(63, 60)];
    let cut = synth.begin_block(&mut commands, &mut terminated, 0, 100, RATE, &near, 0);
    assert_eq!(cut, (63, 0));
    assert!(synth.sines().is_empty());
}

#[test]
fn begin_block_does_not_overflow_near_the_largest_buffer() {
    let mut synth = BasicSineSynth::default();
    let mut commands = Vec::new();
    let mut terminated = Vec::new();
    let none = vec![];
    let last = u32::MAX;
    let cut = synth.begin_block(&mut commands, &mut terminated, last - 10, last, RATE, &none, 0);
    assert_eq!(cut, (u32::MAX, 0));
    let cut = synth.begin_block(&mut commands, &mut terminated, last - 65, last, RATE, &none, 0);
    assert_eq!(cut, (u32::MAX - 1, 0));
}

#[test]
fn begin_block_starts_from_the_event_it_is_given() {
    let mut synth = BasicSineSynth::default();
    let events = vec![on(0, 60), on(0, 62), on(20, 64)];
    let mut commands = Vec::new();
    let mut terminated = Vec::new();
    let cut = synth.begin_block(&mut commands, &mut terminated, 5, 100, RATE, &events, 1);
    assert_eq!(cut, (20, 2));
    let notes: Vec<u8> = synth.sines().iter().map(|sine| sine.note).collect();
    assert_eq!(notes, vec![62]);
}

#[test]
fn end_block_moves_the_phase_and_sweeps() {
    let mut synth = BasicSineSynth::default();
    synth.init_sines(RATE, None, 0, 60, FULL);
    synth.init_sines(RATE, Some(3), 1, 62, FULL);
    synth.finalize_sines(Some(3), 0, 0);
    let mut terminated = Vec::new();
    synth.end_block(&mut terminated, 100, 130);
    assert_eq!(
        synth.sines(),
        &vec![Sine { curr_sample: 30, ..Sine::new(0, RATE, None, 0, 60, FULL) }]
    );
    assert_eq!(terminated, vec![ended(130, Some(3), 1, 62)]);
}

#[test]
fn process_is_begin_and_end_block_in_turn() {
    let events = vec![
        on(0, 60),
        modulation(0, 1, 0, 5),
        NoteEvent::NoteOn { timing: 30, voice_id: Some(1), channel: 0, note: 62, velocity: FULL },
        modulation(31, 1, 0, 5),
        off(90, 60),
        NoteEvent::Choke { timing: 120, voice_id: Some(1), channel: 0, note: 62 },
        on(200, 64),
    ];
    let mut whole = BasicSineSynth::default();
    let out = whole.process(200, RATE, &events);

    let mut stepped = BasicSineSynth::default();
    let mut blocks = Vec::new();
    let mut terminated = Vec::new();
    let mut next_event = 0;
    let mut block_start = 0;
    while block_start < 200 {
        let mut commands = Vec::new();
        let first_event = next_event;
        let (block_end, next) = stepped.begin_block(
            &mut commands,
            &mut terminated,
            block_start,
            200,
            RATE,
            &events,
            first_event,
        );
        let voices = stepped.voices();
        stepped.end_block(&mut terminated, block_start, block_end);
        blocks.push(SubBlock {
            start: block_start,
            end: block_end,
            first_event,
            next_event: next,
            commands,
            voices,
        });
        next_event = next;
        block_start = block_end;
    }
    assert_eq!(out, ProcessOutput { blocks, terminated, consumed: next_event });
    assert_eq!(out.consumed, 6);
    assert_eq!(whole.voices(), stepped.voices());
    assert_eq!(bounds(&out), vec![(0, 30), (30, 31), (31, 90), (90, 120), (120, 184), (184, 200)]);
    assert_eq!(
        out.terminated,
        vec![
            VoiceTerminated { timing: 120, voice_id: None, channel: 0, note: 60 },
            VoiceTerminated { timing: 120, voice_id: Some(1), channel: 0, note: 62 },
        ]
    );
}
