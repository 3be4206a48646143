use midi_synth::envelope::{
    default_envelope_config, AdsrEnvelope, AdsrEnvelopeConfig, AdsrEnvelopeStates,
    EnvelopeSingleStateConfig, EnvelopeStatus, SUSTAIN_LEVEL,
};
use midi_synth::util::LEVEL_ONE;

fn config(attack_steps: u16, release_steps: u16) -> AdsrEnvelopeConfig {
    AdsrEnvelopeConfig::new(
        EnvelopeSingleStateConfig::new(
            AdsrEnvelopeStates::Attack,
            LEVEL_ONE,
            attack_steps,
            Some(AdsrEnvelopeStates::Delay),
        ),
        EnvelopeSingleStateConfig::new(
            AdsrEnvelopeStates::Delay,
            LEVEL_ONE / 2,
            4,
            Some(AdsrEnvelopeStates::Sustain),
        ),
        EnvelopeSingleStateConfig::new(
            AdsrEnvelopeStates::Sustain,
            LEVEL_ONE / 2,
            9,
            Some(AdsrEnvelopeStates::Release),
        ),
        EnvelopeSingleStateConfig::new(AdsrEnvelopeStates::Release, 0, release_steps, None),
    )
}

#[test]
fn attack_reaches_target_after_duration_steps() {
    let d: u16 = 7;
    let mut e = AdsrEnvelope::new(0, 0, Some(AdsrEnvelopeStates::Attack), config(d, 3));
    let mut previous = e.get_normalized_current_value();
    for k in 1..=d {
        e.generate_next_value();
        let v = e.get_normalized_current_value();
        assert_eq!(e.get_current_envelope_state(), Some(AdsrEnvelopeStates::Attack));
        assert!(v <= LEVEL_ONE);
        assert!(v >= previous);
        if k < d {
            assert!(v < LEVEL_ONE, "reached early at step {}", k);
        }
        previous = v;
    }
    assert_eq!(e.current_val, LEVEL_ONE);
    e.generate_next_value();
    assert_eq!(e.get_current_envelope_state(), Some(AdsrEnvelopeStates::Delay));
    assert_eq!(e.current_val, LEVEL_ONE);
}

#[test]
fn attack_levels_are_exact_fractions() {
    let mut e = AdsrEnvelope::new(0, 0, Some(AdsrEnvelopeStates::Attack), config(4, 3));
    let mut seen = vec![e.current_val];
    for _ in 0..4 {
        e.generate_next_value();
        seen.push(e.current_val);
    }
    assert_eq!(seen, vec![0, 16384, 32768, 49152, 65536]);
}

#[test]
fn full_cycle_holds_in_sustain_and_finishes_after_release() {
    let mut e = AdsrEnvelope::new(0, 0, Some(AdsrEnvelopeStates::Attack), config(2, 3));
    // attack: 2 steps, then the transition
    for _ in 0..3 {
        e.generate_next_value();
    }
    assert_eq!(e.get_current_envelope_state(), Some(AdsrEnvelopeStates::Delay));
    for _ in 0..4 {
        e.generate_next_value();
    }
    assert_eq!(e.current_val, LEVEL_ONE / 2);
    e.generate_next_value();
    assert_eq!(e.get_current_envelope_state(), Some(AdsrEnvelopeStates::Sustain));
    for _ in 0..1000 {
        e.generate_next_value();
    }
    assert_eq!(e.get_current_envelope_state(), Some(AdsrEnvelopeStates::Sustain));
    assert_eq!(e.current_val, LEVEL_ONE / 2);
    // sustain starts at its target: a zero-width range, so a zero coefficient
    assert_eq!(e.get_normalized_current_value(), 0);
    e.release();
    assert_eq!(e.get_current_envelope_state(), Some(AdsrEnvelopeStates::Release));
    for _ in 0..3 {
        assert!(!e.is_finished());
        e.generate_next_value();
    }
    assert_eq!(e.current_val, 0);
    assert!(!e.is_finished());
    e.generate_next_value();
    assert!(e.is_finished());
    assert_eq!(e.get_current_envelope_state(), None);
    assert_eq!(e.get_normalized_current_value(), 0);
    e.generate_next_value();
    assert!(e.is_finished());
}

#[test]
fn release_starts_from_current_level() {
    let mut e = AdsrEnvelope::new(0, 0, Some(AdsrEnvelopeStates::Attack), config(4, 4));
    e.generate_next_value();
    e.generate_next_value();
    assert_eq!(e.current_val, 32768);
    e.release();
    assert_eq!(e.start_val, 32768);
    assert_eq!(e.current_val, 32768);
    e.generate_next_value();
    assert_eq!(e.current_val, 24576);
    // a second note-off does not restart the release
    e.release();
    assert_eq!(e.current_val, 24576);
    assert_eq!(e.current_duration, 1);
}

#[test]
fn idle_envelope_has_full_coefficient_and_is_not_finished() {
    let mut e = AdsrEnvelope::new(0, 0, None, config(4, 4));
    assert_eq!(e.status, EnvelopeStatus::Idle);
    assert_eq!(e.get_normalized_current_value(), LEVEL_ONE);
    assert_eq!(e.get_current_envelope_state(), None);
    assert!(!e.is_finished());
    e.generate_next_value();
    assert_eq!(e.status, EnvelopeStatus::Idle);
}

#[test]
fn setting_no_state_finishes() {
    let mut e = AdsrEnvelope::new(0, 0, Some(AdsrEnvelopeStates::Attack), config(4, 4));
    e.set_current_config_state(None);
    assert!(e.is_finished());
    assert_eq!(e.get_normalized_current_value(), 0);
}

#[test]
fn zero_duration_state_jumps_to_target() {
    let mut e = AdsrEnvelope::new(0, 0, Some(AdsrEnvelopeStates::Attack), config(0, 0));
    assert_eq!(e.current_val, LEVEL_ONE);
    e.generate_next_value();
    assert_eq!(e.get_current_envelope_state(), Some(AdsrEnvelopeStates::Delay));
}

#[test]
fn default_config_matches_instrument() {
    let c = default_envelope_config();
    assert_eq!(c.attack.target, LEVEL_ONE);
    assert_eq!(c.attack.duration, 300);
    assert_eq!(c.delay.target, SUSTAIN_LEVEL);
    assert_eq!(c.delay.duration, 100);
    assert_eq!(c.release.target, 0);
    assert_eq!(c.release.next_state, None);
    let mut e = AdsrEnvelope::new(0, 0, Some(AdsrEnvelopeStates::Attack), c);
    for _ in 0..300 {
        e.generate_next_value();
    }
    assert_eq!(e.current_val, LEVEL_ONE);
    e.generate_next_value();
    assert_eq!(e.get_current_envelope_state(), Some(AdsrEnvelopeStates::Delay));
}

#[test]
fn long_release_takes_every_step() {
    let c = AdsrEnvelopeConfig::new(
        EnvelopeSingleStateConfig::new(AdsrEnvelopeStates::Attack, LEVEL_ONE, 1, Some(AdsrEnvelopeStates::Delay)),
        EnvelopeSingleStateConfig::new(AdsrEnvelopeStates::Delay, SUSTAIN_LEVEL, 1, Some(AdsrEnvelopeStates::Sustain)),
        EnvelopeSingleStateConfig::new(AdsrEnvelopeStates::Sustain, SUSTAIN_LEVEL, 1, Some(AdsrEnvelopeStates::Release)),
        EnvelopeSingleStateConfig::new(AdsrEnvelopeStates::Release, 0, 65535, None),
    );
    let mut e = AdsrEnvelope::new(0, SUSTAIN_LEVEL, Some(AdsrEnvelopeStates::Release), c);
    for k in 1..=65535u64 {
        e.generate_next_value();
        assert_eq!(e.get_current_envelope_state(), Some(AdsrEnvelopeStates::Release));
        assert_eq!(e.current_duration as u64, k);
        let expected = SUSTAIN_LEVEL as u64 - SUSTAIN_LEVEL as u64 * k / 65535;
        assert_eq!(e.current_val as u64, expected);
    }
    assert_eq!(e.current_val, 0);
    e.generate_next_value();
    assert!(e.is_finished());
}

#[test]
fn early_note_off_releases_over_full_duration() {
    let mut e = AdsrEnvelope::new(0, 0, Some(AdsrEnvelopeStates::Attack), default_envelope_config());
    e.generate_next_value();
    assert_eq!(e.current_val, 218);
    e.release();
    for k in 1..=300u16 {
        e.generate_next_value();
        assert_eq!(e.get_current_envelope_state(), Some(AdsrEnvelopeStates::Release));
        assert_eq!(e.current_duration, k);
    }
    assert_eq!(e.current_val, 0);
    e.generate_next_value();
    assert!(e.is_finished());
}

#[test]
fn new_envelope_part_way_through_a_state() {
    let e = AdsrEnvelope::new(2, 0, Some(AdsrEnvelopeStates::Attack), config(4, 4));
    assert_eq!(e.current_duration, 2);
    assert_eq!(e.current_val, 32768);
}

#[test]
fn coefficient_renormalises_within_each_state() {
    let mut e = AdsrEnvelope::new(0, 0, Some(AdsrEnvelopeStates::Attack), config(2, 4));
    let mut seen = vec![e.get_normalized_current_value()];
    // attack 0 -> 1 in 2 steps, then delay 1 -> 0.5 in 4 steps
    for _ in 0..7 {
        e.generate_next_value();
        seen.push(e.get_normalized_current_value());
    }
    assert_eq!(
        seen,
        vec![0, 32768, 65536, 65536, 49152, 32768, 16384, 0]
    );
    assert_eq!(e.current_val, LEVEL_ONE / 2);
}

#[test]
fn note_off_restarts_a_finished_envelope_in_release() {
    let mut e = AdsrEnvelope::new(0, 0, Some(AdsrEnvelopeStates::Attack), config(4, 4));
    e.set_current_config_state(None);
    assert!(e.is_finished());
    e.release();
    assert_eq!(e.get_current_envelope_state(), Some(AdsrEnvelopeStates::Release));
    assert_eq!(e.start_val, 0);
}

#[test]
fn note_off_releases_an_idle_envelope_from_full_level() {
    let mut e = AdsrEnvelope::new(0, 0, None, config(4, 4));
    e.release();
    assert_eq!(e.get_current_envelope_state(), Some(AdsrEnvelopeStates::Release));
    assert_eq!(e.start_val, LEVEL_ONE);
    assert_eq!(e.get_normalized_current_value(), LEVEL_ONE);
    e.generate_next_value();
    assert_eq!(e.get_normalized_current_value(), 49152);
}
