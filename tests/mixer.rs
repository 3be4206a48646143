use midi_synth::audio_out::{CustomAudioCallback, MIX_SOURCE_ID, VOLUME_CONTROLLER};
use midi_synth::envelope::{
    default_envelope_config, AdsrEnvelope, AdsrEnvelopeConfig, AdsrEnvelopeStates,
    EnvelopeSingleStateConfig,
};
use midi_synth::midi::{SoundCommand, Wave};
use midi_synth::util::{get_freqy, LEVEL_ONE};

fn sine_table(len: usize) -> Vec<i16> {
    (0..len)
        .map(|i| ((i as f64 / len as f64 * std::f64::consts::TAU).sin() * 32767.0).round() as i16)
        .collect()
}

fn synth() -> CustomAudioCallback {
    CustomAudioCallback::new(44_100, LEVEL_ONE, LEVEL_ONE, default_envelope_config(), sine_table(256))
}

fn on(note: u8, velocity: u8) -> SoundCommand {
    SoundCommand::NoteOn { midi_note: note, freq: get_freqy(note), volume: velocity }
}

fn short_config() -> AdsrEnvelopeConfig {
    AdsrEnvelopeConfig::new(
        EnvelopeSingleStateConfig::new(AdsrEnvelopeStates::Attack, LEVEL_ONE, 3, Some(AdsrEnvelopeStates::Delay)),
        EnvelopeSingleStateConfig::new(AdsrEnvelopeStates::Delay, LEVEL_ONE / 2, 2, Some(AdsrEnvelopeStates::Sustain)),
        EnvelopeSingleStateConfig::new(AdsrEnvelopeStates::Sustain, LEVEL_ONE / 2, 0, Some(AdsrEnvelopeStates::Release)),
        EnvelopeSingleStateConfig::new(AdsrEnvelopeStates::Release, 0, 5, None),
    )
}

#[test]
fn empty_registry_outputs_zeros_of_requested_length() {
    let mut s = synth();
    let mut buf = vec![7i64; 64];
    let records = s.modify_buffer(&mut buf);
    assert_eq!(buf, vec![0i64; 64]);
    assert!(records.is_empty());
    assert_eq!(s.voice_count(), 0);
}

#[test]
fn empty_drain_leaves_state_unchanged() {
    let mut s = synth();
    s.receive(&[on(60, 100)]);
    let voices = s.currently_playing_waveforms.clone();
    let volume = s.current_master_volume;
    for _ in 0..5 {
        s.receive(&[]);
    }
    assert_eq!(s.currently_playing_waveforms, voices);
    assert_eq!(s.current_master_volume, volume);
}

#[test]
fn note_on_then_off_is_removed_after_release() {
    let mut s = synth();
    s.receive(&[on(60, 100), SoundCommand::NoteOff { midi_note: 60 }]);
    assert_eq!(s.voice_count(), 1);
    // release lasts 300 steps; one more step finishes the envelope
    let mut buf = vec![0i64; 301];
    s.modify_buffer(&mut buf);
    assert_eq!(s.voice_count(), 1);
    assert!(s.currently_playing_waveforms[0].envelope.is_finished());
    let mut next = vec![0i64; 16];
    s.modify_buffer(&mut next);
    assert_eq!(s.voice_count(), 0);
    assert_eq!(next, vec![0i64; 16]);
}

#[test]
fn voice_stays_while_releasing() {
    let mut s = synth();
    s.receive(&[on(60, 100)]);
    let mut buf = vec![0i64; 50];
    s.modify_buffer(&mut buf);
    s.receive(&[SoundCommand::NoteOff { midi_note: 60 }]);
    let mut buf = vec![0i64; 100];
    s.modify_buffer(&mut buf);
    assert_eq!(s.voice_count(), 1);
    assert!(!s.currently_playing_waveforms[0].envelope.is_finished());
}

#[test]
fn note_off_for_unknown_note_is_a_no_op() {
    let mut s = synth();
    s.receive(&[on(60, 100)]);
    let before = s.currently_playing_waveforms.clone();
    s.handle_note_off(61);
    assert_eq!(s.currently_playing_waveforms, before);
}

#[test]
fn two_notes_sum_sample_wise() {
    let n = 200;
    let mut both = synth();
    both.receive(&[on(60, 100), on(64, 80)]);
    let mut only_a = synth();
    only_a.receive(&[on(60, 100)]);
    let mut only_b = synth();
    only_b.receive(&[on(64, 80)]);
    let mut out_both = vec![0i64; n];
    let mut out_a = vec![0i64; n];
    let mut out_b = vec![0i64; n];
    let records = both.modify_buffer(&mut out_both);
    only_a.modify_buffer(&mut out_a);
    only_b.modify_buffer(&mut out_b);
    assert!(out_a.iter().any(|&x| x != 0));
    assert!(out_b.iter().any(|&x| x != 0));
    for i in 0..n {
        assert_eq!(out_both[i], out_a[i] + out_b[i], "sample {}", i);
        let sum: i64 = records.iter().map(|r| r.buf[i]).sum();
        assert_eq!(out_both[i], sum * LEVEL_ONE as i64);
    }
    assert_eq!(records.len(), 2);
    assert_eq!(records[0].id, 60);
    assert_eq!(records[1].id, 64);
}

#[test]
fn master_volume_scales_output() {
    let n = 64;
    let mut full = synth();
    full.receive(&[on(69, 127)]);
    let mut half = CustomAudioCallback::new(44_100, LEVEL_ONE, LEVEL_ONE / 2, default_envelope_config(), sine_table(256));
    half.receive(&[on(69, 127)]);
    let mut a = vec![0i64; n];
    let mut b = vec![0i64; n];
    full.modify_buffer(&mut a);
    half.modify_buffer(&mut b);
    for i in 0..n {
        assert_eq!(a[i], 2 * b[i]);
    }
}

#[test]
fn volume_encoder_extremes() {
    let mut s = CustomAudioCallback::new(44_100, 40_000, 0, default_envelope_config(), sine_table(16));
    s.receive(&[SoundCommand::Encode { controller: VOLUME_CONTROLLER, value: 127 }]);
    assert_eq!(s.current_master_volume, 40_000);
    s.receive(&[SoundCommand::Encode { controller: VOLUME_CONTROLLER, value: 0 }]);
    assert_eq!(s.current_master_volume, 0);
    s.handle_encoders(VOLUME_CONTROLLER, 127);
    assert_eq!(s.current_master_volume, s.max_master_volume);
}

#[test]
fn volume_encoder_midpoint() {
    let mut s = synth();
    s.handle_encoders(VOLUME_CONTROLLER, 64);
    // 64/127 of full level, rounded down twice
    assert_eq!(s.current_master_volume, 33026);
}

#[test]
fn other_controllers_are_ignored() {
    let mut s = synth();
    s.handle_encoders(22, 0);
    assert_eq!(s.current_master_volume, LEVEL_ONE);
    s.handle_sound_command(SoundCommand::Encode { controller: 7, value: 3 });
    assert_eq!(s.current_master_volume, LEVEL_ONE);
}

#[test]
fn retrigger_keeps_one_voice_and_restarts_attack_from_current_level() {
    let mut s = CustomAudioCallback::new(44_100, LEVEL_ONE, LEVEL_ONE, short_config(), sine_table(16));
    s.receive(&[on(60, 127)]);
    let mut buf = vec![0i64; 4];
    s.modify_buffer(&mut buf);
    // attack done (3 steps) and moved into delay on the fourth
    let level = s.currently_playing_waveforms[0].envelope.current_val;
    assert_eq!(level, LEVEL_ONE);
    s.receive(&[SoundCommand::NoteOff { midi_note: 60 }]);
    s.modify_buffer(&mut buf);
    let level = s.currently_playing_waveforms[0].envelope.current_val;
    s.receive(&[on(60, 64)]);
    assert_eq!(s.voice_count(), 1);
    let w = s.currently_playing_waveforms[0];
    assert_eq!(w.envelope.get_current_envelope_state(), Some(AdsrEnvelopeStates::Attack));
    assert_eq!(w.envelope.start_val, level);
    assert_eq!(w.envelope.current_val, level);
    assert_eq!(w.volume, 33026);
}

#[test]
fn new_voice_starts_silent_at_phase_zero() {
    let mut s = synth();
    s.receive(&[on(69, 127)]);
    let w = s.currently_playing_waveforms[0];
    assert_eq!(w.phase_angle, 0);
    assert_eq!(w.freq, 440_000_000_000);
    assert_eq!(w.volume, LEVEL_ONE);
    assert_eq!(w.envelope, s.create_adsr_envelope());
    assert_eq!(w.envelope.current_val, 0);
}

#[test]
fn phase_advances_by_frequency_over_rate() {
    let mut w = Wave {
        midi_note: 69,
        freq: 440_000_000_000,
        volume: LEVEL_ONE,
        phase_angle: 0,
        envelope: AdsrEnvelope::new(0, 0, None, default_envelope_config()),
    };
    w.increment_phase(44_100);
    // 440 / 44100 of a turn of 2^32, rounded down
    assert_eq!(w.phase_angle, 42852281);
    w.phase_angle = u32::MAX;
    w.increment_phase(44_100);
    assert_eq!(w.phase_angle, 42852280);
}

#[test]
fn voice_sample_reads_wavetable() {
    let table: Vec<i16> = vec![0, 1000, 0, -1000];
    let mut w = Wave {
        midi_note: 1,
        freq: 11_025_000_000_000,
        volume: LEVEL_ONE / 2,
        phase_angle: 0,
        envelope: AdsrEnvelope::new(0, 0, None, default_envelope_config()),
    };
    // a quarter turn per sample at 44100 samples per second
    let samples = w.render(5, 44_100, &table);
    let half = (LEVEL_ONE / 2) as i64;
    assert_eq!(samples, vec![0, 1000 * half, 0, -1000 * half, 0]);
}

#[test]
fn callback_drains_then_renders_and_reports_mix() {
    let mut s = synth();
    let mut out = vec![0i64; 32];
    let records = s.callback(&[on(60, 100), on(67, 100)], &mut out);
    assert_eq!(s.voice_count(), 2);
    assert_eq!(records.len(), 3);
    assert_eq!(records[2].id, MIX_SOURCE_ID);
    assert_eq!(records[2].buf, out);
}

#[test]
fn released_note_leaves_registry_over_short_callbacks() {
    let mut s = synth();
    let mut out = vec![0i64; 64];
    s.callback(&[on(60, 100)], &mut out);
    s.callback(&[SoundCommand::NoteOff { midi_note: 60 }], &mut out);
    assert_eq!(s.voice_count(), 1);
    // the release started above a zero level, so it takes its 300 steps and
    // one more to finish: the callback that renders sample 320 ends it
    for _ in 0..4 {
        s.callback(&[], &mut out);
        assert_eq!(s.voice_count(), 1);
    }
    assert!(s.currently_playing_waveforms[0].envelope.is_finished());
    s.callback(&[], &mut out);
    assert_eq!(s.voice_count(), 0);
    assert_eq!(out, vec![0i64; 64]);
    for _ in 0..3 {
        s.callback(&[], &mut out);
        assert_eq!(out, vec![0i64; 64]);
        assert_eq!(s.voice_count(), 0);
    }
}

#[test]
fn note_released_at_silence_finishes_at_once() {
    let mut s = synth();
    let mut out = vec![0i64; 64];
    s.callback(&[on(60, 100), SoundCommand::NoteOff { midi_note: 60 }], &mut out);
    assert_eq!(s.voice_count(), 1);
    assert!(s.currently_playing_waveforms[0].envelope.is_finished());
    s.callback(&[], &mut out);
    assert_eq!(s.voice_count(), 0);
}

#[test]
fn note_off_sends_finished_voice_to_release() {
    let mut s = synth();
    s.receive(&[on(60, 100), SoundCommand::NoteOff { midi_note: 60 }]);
    let mut out = vec![0i64; 8];
    s.modify_buffer(&mut out);
    assert!(s.currently_playing_waveforms[0].envelope.is_finished());
    let before = s.currently_playing_waveforms[0];
    s.handle_note_off(60);
    assert_eq!(s.voice_count(), 1);
    let w = s.currently_playing_waveforms[0];
    assert_eq!(w.envelope.get_current_envelope_state(), Some(AdsrEnvelopeStates::Release));
    assert_eq!(w.freq, before.freq);
    assert_eq!(w.volume, before.volume);
    assert_eq!(w.phase_angle, before.phase_angle);
}

#[test]
fn master_volume_above_full_level() {
    let mut s = CustomAudioCallback::new(44_100, 4 * LEVEL_ONE, 0, default_envelope_config(), sine_table(16));
    s.handle_encoders(VOLUME_CONTROLLER, 127);
    assert_eq!(s.current_master_volume, 4 * LEVEL_ONE);
}
