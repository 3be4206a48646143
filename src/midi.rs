//! Sound commands and the per-voice oscillator.
use crate::envelope::AdsrEnvelope;
use crate::note::Note;
use crate::util::{freq_of, get_freqy, LEVEL_ONE};
use vstd::arithmetic::div_mod::{lemma_div_is_ordered, lemma_div_multiples_vanish, lemma_div_pos_is_pos};
use vstd::prelude::*;

verus! {

/// A command for the audio side, translated one to one from a [`Note`].
#[derive(Debug, Clone, Copy, PartialEq, Eq, Structural)]
pub enum SoundCommand {
    /// Start (or re-trigger) a note; `freq` is in nanohertz and `volume` is
    /// the MIDI velocity.
    NoteOn { midi_note: u8, freq: u64, volume: u8 },
    NoteOff { midi_note: u8 },
    Encode { controller: u8, value: u8 },
}

/// The command that a note event translates to.
pub open spec fn command_of(note: Note) -> SoundCommand {
    match note {
        Note::On { note, velocity, .. } => SoundCommand::NoteOn {
            midi_note: note,
            freq: freq_of(note) as u64,
            volume: velocity,
        },
        Note::Off { note, .. } => SoundCommand::NoteOff { midi_note: note },
        Note::ControlChange { controller, value, .. } => SoundCommand::Encode { controller, value },
    }
}

impl SoundCommand {
    pub fn from_note(note: Note) -> (r: SoundCommand)
        ensures
            r == command_of(note),
    {
        match note {
            Note::On { note, velocity, .. } => SoundCommand::NoteOn {
                midi_note: note,
                freq: get_freqy(note),
                volume: velocity,
            },
            Note::Off { note, .. } => SoundCommand::NoteOff { midi_note: note },
            Note::ControlChange { controller, value, .. } => SoundCommand::Encode {
                controller,
                value,
            },
        }
    }
}

/// A full turn of the phase accumulator: phases are fractions of it.
pub const PHASE_TURN: u64 = 4294967296;

/// Phase advance per sample, as a fraction of [`PHASE_TURN`], of a tone of
/// `freq` nanohertz played at `rate` samples per second: `freq / rate`
/// turns, rounded down and wrapped into one turn.
pub open spec fn phase_step(freq: int, rate: int) -> int {
    (freq * PHASE_TURN / (rate * 1_000_000_000)) % (PHASE_TURN as int)
}

/// Position in a single-period wavetable of `len` entries for a phase.
pub open spec fn table_index(phase: int, len: int) -> int {
    phase * len / (PHASE_TURN as int)
}

/// A sounding voice: one note with its oscillator phase and envelope.
#[derive(Debug, Clone, Copy, PartialEq, Eq, Structural)]
pub struct Wave {
    pub midi_note: u8,
    /// Frequency in nanohertz.
    pub freq: u64,
    /// Gain, as a level.
    pub volume: u32,
    /// Oscillator phase as a fraction of [`PHASE_TURN`]; adding to it wraps
    /// within one turn.
    pub phase_angle: u32,
    pub envelope: AdsrEnvelope,
}

impl Wave {
    pub open spec fn wf(&self) -> bool {
        &&& self.volume <= LEVEL_ONE
        &&& self.envelope.wf()
    }

    /// Amplitude of the voice, as a level: envelope coefficient times gain.
    pub open spec fn amplitude(&self) -> int {
        self.envelope.coefficient() * self.volume / (LEVEL_ONE as int)
    }

    /// The voice's current output sample for a wavetable.
    pub open spec fn sample(&self, table: Seq<i16>) -> int {
        self.amplitude() * table[table_index(self.phase_angle as int, table.len() as int)]
    }

    /// The voice one sample later: phase and envelope advanced.
    pub open spec fn stepped(self, rate: u32) -> Wave {
        Wave {
            phase_angle: ((self.phase_angle + phase_step(self.freq as int, rate as int)) % (
            PHASE_TURN as int)) as u32,
            envelope: self.envelope.advanced(),
            ..self
        }
    }
}

/// The table index of a phase lies within the table.
proof fn lemma_table_index_in_range(phase: int, len: int)
    requires
        0 <= phase < PHASE_TURN,
        0 < len,
    ensures
        0 <= table_index(phase, len) < len,
{
    assert(0 <= phase * len <= (PHASE_TURN - 1) * len) by (nonlinear_arith)
        requires
            0 <= phase < PHASE_TURN,
            0 < len,
    ;
    assert((PHASE_TURN - 1) * len < len * PHASE_TURN) by (nonlinear_arith)
        requires
            0 < len,
    ;
    lemma_div_pos_is_pos(phase * len, PHASE_TURN as int);
    lemma_div_is_ordered(phase * len, len * PHASE_TURN - 1, PHASE_TURN as int);
    assert((len * PHASE_TURN - 1) / (PHASE_TURN as int) == len - 1) by {
        vstd::arithmetic::div_mod::lemma_fundamental_div_mod_converse(
            len * PHASE_TURN - 1,
            PHASE_TURN as int,
            len - 1,
            PHASE_TURN - 1,
        );
    }
}

/// The amplitude of a well-formed voice is a level.
proof fn lemma_amplitude_bounded(w: Wave)
    requires
        w.wf(),
    ensures
        0 <= w.amplitude() <= LEVEL_ONE,
{
    let c = w.envelope.coefficient();
    w.envelope.lemma_coefficient_bounded();
    assert(0 <= c <= LEVEL_ONE);
    assert(0 <= c * w.volume <= LEVEL_ONE * LEVEL_ONE) by (nonlinear_arith)
        requires
            0 <= c <= LEVEL_ONE,
            w.volume <= LEVEL_ONE,
    ;
    lemma_div_pos_is_pos(c * w.volume, LEVEL_ONE as int);
    lemma_div_is_ordered(c * w.volume, LEVEL_ONE * LEVEL_ONE, LEVEL_ONE as int);
    lemma_div_multiples_vanish(LEVEL_ONE as int, LEVEL_ONE as int);
}

/// A voice's amplitude is a level, its table index lies within the table,
/// and its sample is at most a full-level peak of a 16-bit wavetable.
pub proof fn lemma_sample_bounded(w: Wave, table: Seq<i16>)
    requires
        w.wf(),
        table.len() > 0,
    ensures
        0 <= w.amplitude() <= LEVEL_ONE,
        0 <= table_index(w.phase_angle as int, table.len() as int) < table.len(),
        -0x8000_0000 <= w.sample(table) <= 0x8000_0000,
{
    lemma_amplitude_bounded(w);
    lemma_table_index_in_range(w.phase_angle as int, table.len() as int);
    let t = table[table_index(w.phase_angle as int, table.len() as int)] as int;
    let a = w.amplitude();
    assert(-0x8000_0000 <= a * t <= 0x8000_0000) by (nonlinear_arith)
        requires
            0 <= a <= 65536,
            -32768 <= t <= 32767,
    ;
}

impl Wave {
    pub proof fn lemma_stepped_wf(self, rate: u32)
        requires
            self.wf(),
        ensures
            self.stepped(rate).wf(),
    {
        self.envelope.lemma_advanced_wf();
    }

    /// Advances the phase by one sample at `spec_freq` samples per second.
    pub fn increment_phase(&mut self, spec_freq: u32)
        requires
            spec_freq > 0,
        ensures
            final(self).phase_angle == (old(self).phase_angle + phase_step(
                old(self).freq as int,
                spec_freq as int,
            )) % (PHASE_TURN as int),
            final(self).freq == old(self).freq,
            final(self).midi_note == old(self).midi_note,
            final(self).volume == old(self).volume,
            final(self).envelope == old(self).envelope,
    {
        let num: u128 = self.freq as u128 * PHASE_TURN as u128;
        let den: u128 = spec_freq as u128 * 1_000_000_000;
        let step: u64 = (num / den % PHASE_TURN as u128) as u64;
        self.phase_angle = ((self.phase_angle as u64 + step) % PHASE_TURN) as u32;
    }

    /// The voice's current output sample; see [`Wave::sample`].
    pub fn get_sample(&self, table: &Vec<i16>) -> (r: i64)
        requires
            self.wf(),
            table.len() > 0,
        ensures
            r == self.sample(table@),
    {
        proof {
            lemma_sample_bounded(*self, table@);
        }
        let coefficient = self.envelope.get_normalized_current_value();
        assert(coefficient as u64 * self.volume as u64 <= 65536 * 65536) by (nonlinear_arith)
            requires
                coefficient <= 65536,
                self.volume <= 65536,
        ;
        let amplitude: u64 = coefficient as u64 * self.volume as u64 / LEVEL_ONE as u64;
        let index: u128 = self.phase_angle as u128 * table.len() as u128 / PHASE_TURN as u128;
        amplitude as i64 * table[index as usize] as i64
    }

    /// Produces the next sample and advances the voice by it.
    pub fn next_sample(&mut self, spec_freq: u32, table: &Vec<i16>) -> (r: i64)
        requires
            old(self).wf(),
            spec_freq > 0,
            table.len() > 0,
        ensures
            r == old(self).sample(table@),
            *final(self) == old(self).stepped(spec_freq),
            final(self).wf(),
    {
        proof {
            self.lemma_stepped_wf(spec_freq);
        }
        let r = self.get_sample(table);
        self.envelope.generate_next_value();
        self.increment_phase(spec_freq);
        r
    }

    /// Renders the next `n` samples of this voice alone, advancing it by `n`.
    pub fn render(&mut self, n: usize, spec_freq: u32, table: &Vec<i16>) -> (r: Vec<i64>)
        requires
            old(self).wf(),
            spec_freq > 0,
            table.len() > 0,
        ensures
            r@.len() == n,
            forall|i: int|
                0 <= i < n ==> r@[i] == #[trigger] stepped_n(*old(self), i as nat, spec_freq).sample(
                    table@,
                ),
            *final(self) == stepped_n(*old(self), n as nat, spec_freq),
            final(self).wf(),
    {
        let ghost w0 = *self;
        let mut out: Vec<i64> = Vec::with_capacity(n);
        let mut i: usize = 0;
        while i < n
            invariant
                i <= n,
                spec_freq > 0,
                table.len() > 0,
                out@.len() == i,
                *self == stepped_n(w0, i as nat, spec_freq),
                self.wf(),
                forall|k: int|
                    0 <= k < i ==> out@[k] == #[trigger] stepped_n(w0, k as nat, spec_freq).sample(
                        table@,
                    ),
            decreases n - i,
        {
            let v = self.next_sample(spec_freq, table);
            out.push(v);
            i = i + 1;
        }
        out
    }
}

/// The voice after `n` samples.
pub open spec fn stepped_n(w: Wave, n: nat, rate: u32) -> Wave
    decreases n,
{
    if n == 0 {
        w
    } else {
        stepped_n(w, (n - 1) as nat, rate).stepped(rate)
    }
}

} // verus!
