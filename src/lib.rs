//! Rendering core of a polyphonic MIDI synthesizer.
//!
//! Raw MIDI channel-voice messages are decoded into [`note::Note`] events,
//! translated into [`midi::SoundCommand`]s, and applied by the mixer in
//! [`audio_out::CustomAudioCallback`] to a registry of sounding voices. Each
//! voice owns an ADSR envelope ([`envelope::AdsrEnvelope`]) and a phase
//! accumulator; the mixer advances every voice once per output sample.
//!
//! All arithmetic is exact fixed-point integer arithmetic:
//! - envelope levels, gains and the master volume are fractions of
//!   [`util::LEVEL_ONE`] (which stands for 1.0);
//! - frequencies are in nanohertz;
//! - an oscillator phase is a fraction of a full turn out of 2^32, so that
//!   wrapping into one period is wrapping addition on `u32`;
//! - waveforms come from a caller-supplied single-period wavetable.
//! The host converts mixed samples to its own sample format by dividing by
//! [`audio_out::FULL_SCALE`].

pub mod audio_out;
pub mod envelope;
pub mod midi;
pub mod note;
pub mod util;
