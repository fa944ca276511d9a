use basic_sine_synth::event::{NoteEvent, VoiceTerminated};
use basic_sine_synth::schedule::ProcessOutput;
use basic_sine_synth::BasicSineSynth;

const FULL: u32 = 0x3f80_0000;

fn rate() -> u32 {
    48000.0f32.to_bits()
}

fn on(timing: u32, voice_id: Option<i32>, note: u8) -> NoteEvent {
    NoteEvent::NoteOn { timing, voice_id, channel: 0, note, velocity: FULL }
}

fn off(timing: u32, voice_id: Option<i32>, note: u8) -> NoteEvent {
    NoteEvent::NoteOff { timing, voice_id, channel: 0, note }
}

fn pitch(note: u8) -> f32 {
    2.0f32.powf((note as f32 - 69.0) / 12.0) * 440.0
}

/// Mixes the plan as a caller would, with a gain of one throughout.
fn mix(out: &ProcessOutput, buffer_len: usize) -> Vec<f32> {
    let mut buffer = vec![0.0f32; buffer_len];
    for block in &out.blocks {
        for sine in &block.voices {
            let sampling_rate = f32::from_bits(sine.sampling_rate);
            let amplitude = f32::from_bits(sine.velocity).sqrt();
            for (offset, sample) in (block.start..block.end).enumerate() {
                let phase = sine.curr_sample + offset as u32;
                let value =
                    (phase as f32 / sampling_rate * pitch(sine.note) * std::f32::consts::TAU).sin();
                buffer[sample as usize] += value * amplitude;
            }
        }
    }
    buffer
}

fn ended(timing: u32, voice_id: Option<i32>, channel: u8, note: u8) -> VoiceTerminated {
    VoiceTerminated { timing, voice_id, channel, note }
}

fn modulation(
    timing: u32,
    voice_id: i32,
    poly_modulation_id: u32,
    normalized_offset: u32,
) -> NoteEvent {
    NoteEvent::PolyModulation { timing, voice_id, poly_modulation_id, normalized_offset }
}

#[test]
fn every_ended_voice_is_reported_once() {
    let mut synth = BasicSineSynth::default();
    let events = vec![
        on(0, Some(1), 60),
        on(0, Some(2), 62),
        on(10, Some(3), 64),
        off(20, Some(1), 60),
        on(30, Some(4), 65),
        off(30, Some(4), 65),
        NoteEvent::Choke { timing: 90, voice_id: Some(3), channel: 0, note: 64 },
        off(100, Some(9), 99),
    ];
    let out = synth.process(128, rate(), &events);
    assert_eq!(out.consumed, 8);
    assert_eq!(
        out.terminated,
        vec![
            VoiceTerminated { timing: 30, voice_id: Some(1), channel: 0, note: 60 },
            VoiceTerminated { timing: 90, voice_id: Some(4), channel: 0, note: 65 },
            VoiceTerminated { timing: 90, voice_id: Some(3), channel: 0, note: 64 },
        ]
    );
    assert_eq!(synth.sines().len(), 1);
    assert_eq!(synth.sines()[0].voice_id, Some(2));
    assert_eq!(out.terminated.len(), 4 - synth.sines().len());
    assert!(synth.sines().iter().all(|sine| !sine.releasing));
}

#[test]
fn note_off_in_a_later_call_is_reported_then() {
    let mut synth = BasicSineSynth::default();
    let first = synth.process(64, rate(), &vec![on(5, None, 60)]);
    assert!(first.terminated.is_empty());
    let second = synth.process(64, rate(), &vec![off(5, None, 60)]);
    assert_eq!(second.terminated, vec![ended(64, None, 0, 60)]);
    let third = synth.process(64, rate(), &vec![]);
    assert!(third.terminated.is_empty());
    assert!(third.blocks[0].voices.is_empty());
}

#[test]
fn choke_removes_all_and_note_off_by_id_at_most_one() {
    let mut synth = BasicSineSynth::default();
    for _ in 0..3 {
        synth.init_sines(rate(), Some(1), 0, 60, FULL);
    }
    synth.finalize_sines(Some(1), 0, 60);
    let marked = synth.sines().iter().filter(|sine| sine.releasing).count();
    assert_eq!(marked, 1);
    assert!(synth.sines()[0].releasing);
    let mut terminated = Vec::new();
    synth.sweep_sines(&mut terminated, 1);
    assert_eq!(terminated.len(), 1);
    assert_eq!(synth.sines().len(), 2);
    synth.choke_sines(&mut terminated, 2, Some(1), 0, 60);
    assert_eq!(terminated.len(), 3);
    assert!(synth.sines().is_empty());
}

#[test]
fn boundaries_are_buffer_ends_block_size_and_event_timings() {
    let mut synth = BasicSineSynth::default();
    let events = vec![
        on(0, None, 60),
        NoteEvent::Other { timing: 17 },
        NoteEvent::Other { timing: 17 },
        NoteEvent::Other { timing: 18 },
        NoteEvent::Other { timing: 100 },
        NoteEvent::Other { timing: 300 },
    ];
    let out = synth.process(300, rate(), &events);
    let bounds: Vec<(u32, u32)> = out.blocks.iter().map(|block| (block.start, block.end)).collect();
    assert_eq!(
        bounds,
        vec![(0, 17), (17, 18), (18, 82), (82, 100), (100, 164), (164, 228), (228, 292), (292, 300)]
    );
    assert_eq!(out.consumed, 5);
    for block in &out.blocks {
        for event in &events {
            assert!(!(block.start < event.timing() && event.timing() < block.end));
        }
        for event in &events[block.first_event..block.next_event] {
            assert_eq!(event.timing(), block.start);
        }
    }
}

#[test]
fn mixing_does_not_depend_on_the_order_of_the_pool() {
    let mut one = BasicSineSynth::default();
    let mut other = BasicSineSynth::default();
    let out_one =
        one.process(200, rate(), &vec![on(0, None, 60), on(0, None, 64), on(0, None, 67)]);
    let out_other =
        other.process(200, rate(), &vec![on(0, None, 67), on(0, None, 60), on(0, None, 64)]);
    let mixed_one = mix(&out_one, 200);
    let mixed_other = mix(&out_other, 200);
    for (a, b) in mixed_one.iter().zip(mixed_other.iter()) {
        assert!((a - b).abs() < 1e-5);
    }
    assert!(mixed_one.iter().any(|sample| sample.abs() > 0.5));
}

#[test]
fn single_voice_is_a_pure_sine() {
    let mut synth = BasicSineSynth::default();
    let out = synth.process(480, rate(), &vec![on(0, None, 69)]);
    let mixed = mix(&out, 480);
    for (n, sample) in mixed.iter().enumerate() {
        let expected = (2.0 * std::f64::consts::PI * n as f64 * 440.0 / 48000.0).sin();
        assert!((*sample as f64 - expected).abs() < 1e-3);
    }
    assert_eq!(mixed[0], 0.0);
    let peak = mixed.iter().fold(0.0f32, |max, sample| max.max(sample.abs()));
    assert!(peak > 0.999 && peak <= 1.0);
}

#[test]
fn single_voice_stays_a_pure_sine_across_calls_and_cuts() {
    let mut synth = BasicSineSynth::default();
    let first = synth.process(100, rate(), &vec![on(0, None, 69), NoteEvent::Other { timing: 33 }]);
    let second = synth.process(100, rate(), &vec![NoteEvent::Other { timing: 1 }]);
    let mut mixed = mix(&first, 100);
    mixed.extend(mix(&second, 100));
    for (n, sample) in mixed.iter().enumerate() {
        let expected = (2.0 * std::f64::consts::PI * n as f64 * 440.0 / 48000.0).sin();
        assert!((*sample as f64 - expected).abs() < 1e-3);
    }
}

#[test]
fn note_off_one_sample_after_note_on() {
    let mut synth = BasicSineSynth::default();
    let events = vec![on(10, None, 60), off(11, None, 60)];
    let out = synth.process(256, rate(), &events);
    let bounds: Vec<(u32, u32)> = out.blocks.iter().map(|block| (block.start, block.end)).collect();
    assert_eq!(bounds, vec![(0, 10), (10, 11), (11, 75), (75, 139), (139, 203), (203, 256)]);
    assert_eq!(out.blocks[1].voices.len(), 1);
    assert!(!out.blocks[1].voices[0].releasing);
    assert_eq!(out.blocks[2].voices.len(), 1);
    assert!(out.blocks[2].voices[0].releasing);
    assert_eq!(out.blocks[2].voices[0].curr_sample, 1);
    assert!(out.blocks[3].voices.is_empty());
    assert_eq!(out.terminated, vec![ended(75, None, 0, 60)]);
    assert!(synth.sines().is_empty());
}

#[test]
fn note_off_at_the_sample_of_note_on() {
    let mut synth = BasicSineSynth::default();
    let events = vec![on(10, Some(1), 60), off(10, Some(1), 60)];
    let out = synth.process(256, rate(), &events);
    assert_eq!(out.blocks[1].start, 10);
    assert_eq!(out.blocks[1].end, 74);
    assert_eq!(out.blocks[1].voices.len(), 1);
    assert!(out.blocks[1].voices[0].releasing);
    assert_eq!(out.blocks[1].voices[0].curr_sample, 0);
    assert!(out.blocks[2].voices.is_empty());
    assert_eq!(out.terminated, vec![ended(74, Some(1), 0, 60)]);
}

#[test]
fn note_off_by_id_reaches_the_older_voice_first() {
    let mut synth = BasicSineSynth::default();
    synth.init_sines(rate(), Some(7), 0, 60, FULL);
    let events = vec![on(0, Some(7), 60), off(0, Some(7), 60)];
    let out = synth.process(16, rate(), &events);
    let marks: Vec<bool> = out.blocks[0].voices.iter().map(|sine| sine.releasing).collect();
    assert_eq!(marks, vec![true, false]);
    assert_eq!(synth.sines().len(), 1);
    assert_eq!(synth.sines()[0].id, 1);
}

#[test]
fn unknown_modulation_leaves_no_trace() {
    let with = vec![
        on(0, Some(1), 60),
        modulation(20, 1, 5, 99),
        off(40, Some(1), 60),
    ];
    let without = vec![on(0, Some(1), 60), NoteEvent::Other { timing: 20 }, off(40, Some(1), 60)];
    let mut one = BasicSineSynth::default();
    let mut other = BasicSineSynth::default();
    let out_one = one.process(128, rate(), &with);
    let out_other = other.process(128, rate(), &without);
    assert_eq!(out_one, out_other);
    assert_eq!(one.voices(), other.voices());
    for block in &out_one.blocks {
        assert!(block.commands.is_empty());
        assert!(block.voices.iter().all(|sine| sine.voice_gain.is_none()));
    }
    assert_eq!(mix(&out_one, 128), mix(&out_other, 128));
}

#[test]
fn handles_stay_distinct_over_calls() {
    let mut synth = BasicSineSynth::default();
    let mut seen: Vec<u64> = Vec::new();
    for round in 0..4u32 {
        let events = vec![
            on(0, None, 60),
            on(round, None, 62),
            off(round + 1, None, 60),
            NoteEvent::Choke { timing: round + 2, voice_id: None, channel: 0, note: 62 },
        ];
        assert!(synth.can_process(16, events.len()));
        let out = synth.process(16, rate(), &events);
        for block in &out.blocks {
            let mut ids: Vec<u64> = block.voices.iter().map(|sine| sine.id).collect();
            ids.sort();
            ids.dedup();
            assert_eq!(ids.len(), block.voices.len());
            for id in ids {
                if !seen.contains(&id) {
                    seen.push(id);
                }
            }
        }
    }
    assert_eq!(seen, vec![0, 1, 2, 3, 4, 5, 6, 7]);
    assert_eq!(synth.next_id(), 8);
}
