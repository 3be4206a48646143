use midi_synth::midi::SoundCommand;
use midi_synth::note::Note;
use midi_synth::util::{get_freqy, normalize, LEVEL_ONE};

#[test]
fn note_on_with_zero_velocity_is_off() {
    assert_eq!(Note::from_buffer(&[0x90, 60, 0]), Some(Note::Off { channel: 0, note: 60 }));
}

#[test]
fn note_on_decodes_velocity() {
    assert_eq!(
        Note::from_buffer(&[0x90, 60, 64]),
        Some(Note::On { channel: 0, note: 60, velocity: 64 })
    );
}

#[test]
fn note_off_command() {
    assert_eq!(Note::from_buffer(&[0x80, 60, 0]), Some(Note::Off { channel: 0, note: 60 }));
}

#[test]
fn single_byte_is_no_event() {
    assert_eq!(Note::from_buffer(&[0x90]), None);
    assert_eq!(Note::from_buffer(&[]), None);
}

#[test]
fn channel_is_low_nibble() {
    assert_eq!(
        Note::from_buffer(&[0x9A, 72, 100]),
        Some(Note::On { channel: 10, note: 72, velocity: 100 })
    );
    assert_eq!(Note::from_buffer(&[0x8F, 1]), Some(Note::Off { channel: 15, note: 1 }));
}

#[test]
fn control_change_decodes() {
    assert_eq!(
        Note::from_buffer(&[0xB2, 21, 127]),
        Some(Note::ControlChange { channel: 2, controller: 21, value: 127 })
    );
}

#[test]
fn short_messages_for_three_byte_commands_are_no_event() {
    assert_eq!(Note::from_buffer(&[0x90, 60]), None);
    assert_eq!(Note::from_buffer(&[0xB0, 21]), None);
}

#[test]
fn unknown_commands_are_no_event() {
    assert_eq!(Note::from_buffer(&[0xA0, 60, 10]), None);
    assert_eq!(Note::from_buffer(&[0xE0, 0, 64]), None);
    assert_eq!(Note::from_buffer(&[0x40, 60, 10]), None);
}

#[test]
fn concert_pitch() {
    assert_eq!(get_freqy(69), 440_000_000_000);
    assert_eq!(get_freqy(81), 880_000_000_000);
    assert_eq!(get_freqy(57), 220_000_000_000);
}

#[test]
fn frequency_table_values() {
    assert_eq!(get_freqy(60), 261_625_565_301);
    assert_eq!(get_freqy(0), 8_175_798_916);
    assert_eq!(get_freqy(127), 12_543_853_951_416);
}

#[test]
fn frequency_strictly_increases() {
    for n in 0u8..255 {
        assert!(get_freqy(n) < get_freqy(n + 1), "note {}", n);
    }
}

#[test]
fn frequency_matches_equal_temperament() {
    for n in 0u8..=255 {
        let exact = 440e9f64 * 2f64.powf((n as f64 - 69.0) / 12.0);
        let got = get_freqy(n) as f64;
        assert!((got - exact).abs() <= 1e-9 * exact, "note {}: {} vs {}", n, got, exact);
    }
}

#[test]
fn normalize_scales_into_levels() {
    assert_eq!(normalize(127, 127, 0), LEVEL_ONE);
    assert_eq!(normalize(0, 127, 0), 0);
    assert_eq!(normalize(64, 128, 0), LEVEL_ONE / 2);
    assert_eq!(normalize(15, 20, 10), LEVEL_ONE / 2);
}

#[test]
fn normalize_degenerate_range_is_zero() {
    assert_eq!(normalize(5, 7, 7), 0);
    assert_eq!(normalize(5, 3, 7), 0);
}

#[test]
fn normalize_clamps_out_of_range() {
    assert_eq!(normalize(200, 127, 0), LEVEL_ONE);
    assert_eq!(normalize(3, 20, 10), 0);
}

#[test]
fn translate_note_on() {
    let cmd = SoundCommand::from_note(Note::On { channel: 1, note: 69, velocity: 90 });
    assert_eq!(cmd, SoundCommand::NoteOn { midi_note: 69, freq: 440_000_000_000, volume: 90 });
}

#[test]
fn translate_note_off_and_control() {
    assert_eq!(
        SoundCommand::from_note(Note::Off { channel: 0, note: 12 }),
        SoundCommand::NoteOff { midi_note: 12 }
    );
    assert_eq!(
        SoundCommand::from_note(Note::ControlChange { channel: 0, controller: 21, value: 5 }),
        SoundCommand::Encode { controller: 21, value: 5 }
    );
}
