use basic_sine_synth::event::{GainCommand, NoteEvent};
use basic_sine_synth::{BasicSineSynth, GAIN_POLY_MOD_ID};

const RATE: u32 = 0x473b_8000;
const FULL: u32 = 0x3f80_0000;

fn gains(synth: &BasicSineSynth) -> Vec<Option<u32>> {
    synth.sines().iter().map(|sine| sine.voice_gain).collect()
}

fn three_voices() -> BasicSineSynth {
    let mut synth = BasicSineSynth::default();
    synth.init_sines(RATE, Some(1), 0, 60, FULL);
    synth.init_sines(RATE, None, 0, 61, FULL);
    synth.init_sines(RATE, Some(2), 0, 62, FULL);
    synth
}

fn modulation(
    timing: u32,
    voice_id: i32,
    poly_modulation_id: u32,
    normalized_offset: u32,
) -> NoteEvent {
    NoteEvent::PolyModulation { timing, voice_id, poly_modulation_id, normalized_offset }
}

#[test]
fn gain_modulation_id_is_zero() {
    assert_eq!(GAIN_POLY_MOD_ID, 0);
}

#[test]
fn modulation_gives_the_voice_a_gain_of_its_own() {
    let mut synth = three_voices();
    let mut commands = Vec::new();
    synth.modulate_sines(&mut commands, 2, GAIN_POLY_MOD_ID, 1234);
    assert_eq!(gains(&synth), vec![None, None, Some(1234)]);
    assert_eq!(
        commands,
        vec![GainCommand::Modulate { id: 2, fresh: true, normalized_offset: 1234 }]
    );
}

#[test]
fn second_modulation_keeps_the_first_offset() {
    let mut synth = three_voices();
    let mut commands = Vec::new();
    synth.modulate_sines(&mut commands, 1, GAIN_POLY_MOD_ID, 10);
    synth.modulate_sines(&mut commands, 1, GAIN_POLY_MOD_ID, 20);
    assert_eq!(gains(&synth), vec![Some(10), None, None]);
    assert_eq!(
        commands,
        vec![
            GainCommand::Modulate { id: 0, fresh: true, normalized_offset: 10 },
            GainCommand::Modulate { id: 0, fresh: false, normalized_offset: 20 },
        ]
    );
}

#[test]
fn modulation_reaches_every_voice_with_the_id() {
    let mut synth = BasicSineSynth::default();
    synth.init_sines(RATE, Some(5), 0, 60, FULL);
    synth.init_sines(RATE, Some(6), 0, 61, FULL);
    synth.init_sines(RATE, Some(5), 0, 62, FULL);
    let mut commands = Vec::new();
    synth.modulate_sines(&mut commands, 5, GAIN_POLY_MOD_ID, 9);
    assert_eq!(gains(&synth), vec![Some(9), None, Some(9)]);
    assert_eq!(
        commands,
        vec![
            GainCommand::Modulate { id: 0, fresh: true, normalized_offset: 9 },
            GainCommand::Modulate { id: 2, fresh: true, normalized_offset: 9 },
        ]
    );
}

#[test]
fn modulation_for_no_voice_is_a_no_op() {
    let mut synth = three_voices();
    let before = synth.voices();
    let mut commands = Vec::new();
    synth.modulate_sines(&mut commands, 3, GAIN_POLY_MOD_ID, 9);
    assert_eq!(synth.voices(), before);
    assert!(commands.is_empty());
}

#[test]
fn unknown_modulation_id_changes_nothing() {
    let mut synth = three_voices();
    let before = synth.voices();
    let mut commands = Vec::new();
    synth.modulate_sines(&mut commands, 1, 1, 9);
    synth.modulate_sines(&mut commands, 2, u32::MAX, 9);
    assert_eq!(synth.voices(), before);
    assert!(commands.is_empty());
}

#[test]
fn unknown_modulation_id_leaves_an_existing_gain() {
    let mut synth = three_voices();
    let mut commands = Vec::new();
    synth.modulate_sines(&mut commands, 1, GAIN_POLY_MOD_ID, 10);
    let before = synth.voices();
    synth.modulate_sines(&mut commands, 1, 7, 99);
    assert_eq!(synth.voices(), before);
    assert_eq!(commands.len(), 1);
}

#[test]
fn automation_reaches_only_voices_with_a_gain_of_their_own() {
    let mut synth = three_voices();
    let mut commands = Vec::new();
    synth.automate_sines(&mut commands, GAIN_POLY_MOD_ID, 500);
    assert!(commands.is_empty());
    synth.modulate_sines(&mut commands, 2, GAIN_POLY_MOD_ID, 30);
    synth.modulate_sines(&mut commands, 1, GAIN_POLY_MOD_ID, 40);
    commands.clear();
    let before = synth.voices();
    synth.automate_sines(&mut commands, GAIN_POLY_MOD_ID, 500);
    assert_eq!(
        commands,
        vec![
            GainCommand::Automate { id: 0, normalized_value: 500, normalized_offset: 40 },
            GainCommand::Automate { id: 2, normalized_value: 500, normalized_offset: 30 },
        ]
    );
    assert_eq!(synth.voices(), before);
}

#[test]
fn automation_creates_no_gain() {
    let mut synth = three_voices();
    let mut commands = Vec::new();
    synth.automate_sines(&mut commands, GAIN_POLY_MOD_ID, 500);
    assert_eq!(gains(&synth), vec![None, None, None]);
}

#[test]
fn automation_with_unknown_id_gives_no_command() {
    let mut synth = three_voices();
    let mut commands = Vec::new();
    synth.modulate_sines(&mut commands, 1, GAIN_POLY_MOD_ID, 40);
    commands.clear();
    synth.automate_sines(&mut commands, 3, 500);
    assert!(commands.is_empty());
}

#[test]
fn commands_are_added_behind_what_is_there() {
    let mut synth = three_voices();
    let mut commands =
        vec![GainCommand::Automate { id: 9, normalized_value: 1, normalized_offset: 2 }];
    synth.modulate_sines(&mut commands, 1, GAIN_POLY_MOD_ID, 10);
    synth.automate_sines(&mut commands, GAIN_POLY_MOD_ID, 3);
    assert_eq!(
        commands,
        vec![
            GainCommand::Automate { id: 9, normalized_value: 1, normalized_offset: 2 },
            GainCommand::Modulate { id: 0, fresh: true, normalized_offset: 10 },
            GainCommand::Automate { id: 0, normalized_value: 3, normalized_offset: 10 },
        ]
    );
}

#[test]
fn unknown_modulation_ids_are_told_apart() {
    let known = NoteEvent::PolyModulation {
        timing: 0,
        voice_id: 1,
        poly_modulation_id: GAIN_POLY_MOD_ID,
        normalized_offset: 0,
    };
    let unknown =
        modulation(0, 1, 1, 0);
    assert!(!known.is_unknown());
    assert!(unknown.is_unknown());
    assert!(!NoteEvent::MonoAutomation { timing: 0, poly_modulation_id: 0, normalized_value: 0 }
        .is_unknown());
    assert!(NoteEvent::MonoAutomation { timing: 0, poly_modulation_id: 9, normalized_value: 0 }
        .is_unknown());
    assert!(!NoteEvent::Other { timing: 0 }.is_unknown());
    assert!(!NoteEvent::NoteOn { timing: 0, voice_id: None, channel: 0, note: 0, velocity: 0 }
        .is_unknown());
}
