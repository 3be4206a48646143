//! The voice registry and the audio mixer.
//!
//! [`CustomAudioCallback`] owns the sounding voices, the master volume and
//! the instrument (envelope configuration and wavetable). The host drains its
//! command channel into [`CustomAudioCallback::callback`] once per output
//! buffer; the callback applies the commands in order, drops finished voices
//! and renders the buffer.
//!
//! Re-triggering a note that is already sounding does not add a voice: the
//! voice takes the new velocity and re-enters attack from its current level,
//! so the amplitude continues without a jump.
use crate::envelope::{
    advance_n, lemma_release_finishes, AdsrEnvelope, AdsrEnvelopeConfig, AdsrEnvelopeStates,
    EnvelopeStatus,
};
use crate::midi::{lemma_sample_bounded, stepped_n, SoundCommand, Wave};
use crate::util::{lemma_normalized_bounded, normalize, normalized, LEVEL_ONE};
use vstd::prelude::*;

verus! {

/// Controller number of the master volume encoder.
pub const VOLUME_CONTROLLER: u8 = 21;

/// Largest MIDI data value: velocities and controller values are scaled
/// against it.
pub const MIDI_VALUE_MAX: u16 = 127;

/// Magnitude of a mixed sample of one voice at full coefficient, full gain,
/// a master volume of [`LEVEL_ONE`] (1.0) and a full-scale wavetable peak:
/// hosts divide by it to get samples in `[-1, 1]` per voice at unit volume.
pub const FULL_SCALE: i64 = 140737488355328;

/// The largest master volume, just under 256 times full level: with it a
/// mix of the most voices the registry can hold (256, one per note), each at
/// a full-scale sample, still fits in an `i64` output sample.
pub const MAX_MASTER_VOLUME: u32 = 16777215;

/// The source id that marks the mixed output among diagnostic records; voice
/// records carry their MIDI note.
pub const MIX_SOURCE_ID: u16 = 256;

/// Abstract state of the mixer.
pub struct SynthModel {
    pub voices: Seq<Wave>,
    pub master_volume: u32,
    pub max_master_volume: u32,
    pub spec_freq: u32,
    pub envelope_config: AdsrEnvelopeConfig,
    pub wavetable: Seq<i16>,
}

/// No two voices play the same note.
pub open spec fn distinct_notes(v: Seq<Wave>) -> bool {
    forall|i: int, j: int|
        0 <= i < v.len() && 0 <= j < v.len() && i != j ==> #[trigger] v[i].midi_note
            != #[trigger] v[j].midi_note
}

/// Whether some voice plays `note`.
pub open spec fn has_voice(v: Seq<Wave>, note: u8) -> bool {
    exists|i: int| 0 <= i < v.len() && #[trigger] v[i].midi_note == note
}

/// The index of the voice that plays `note`, when [`has_voice`] holds.
pub open spec fn voice_index(v: Seq<Wave>, note: u8) -> int {
    choose|i: int| 0 <= i < v.len() && #[trigger] v[i].midi_note == note
}

/// Gain of a MIDI velocity, as a level.
pub open spec fn velocity_gain(velocity: u8) -> u32 {
    normalized(velocity as int, MIDI_VALUE_MAX as int, 0) as u32
}

/// Whether a voice is still to be rendered.
pub open spec fn is_live(w: Wave) -> bool {
    w.envelope.status != EnvelopeStatus::Finished
}

impl SynthModel {
    pub open spec fn wf(&self) -> bool {
        &&& self.spec_freq > 0
        &&& self.wavetable.len() > 0
        &&& self.max_master_volume <= MAX_MASTER_VOLUME
        &&& self.master_volume <= self.max_master_volume
        &&& self.envelope_config.wf()
        &&& distinct_notes(self.voices)
        &&& forall|i: int| 0 <= i < self.voices.len() ==> (#[trigger] self.voices[i]).wf()
    }

    /// A new voice for `note`, starting its attack from silence.
    pub open spec fn new_voice(&self, note: u8, freq: u64, velocity: u8) -> Wave {
        Wave {
            midi_note: note,
            freq,
            volume: velocity_gain(velocity),
            phase_angle: 0,
            envelope: AdsrEnvelope::initial(
                0,
                0,
                Some(AdsrEnvelopeStates::Attack),
                self.envelope_config,
            ),
        }
    }

    pub open spec fn with_note_on(self, note: u8, freq: u64, velocity: u8) -> SynthModel {
        if has_voice(self.voices, note) {
            let i = voice_index(self.voices, note);
            let w = self.voices[i];
            SynthModel {
                voices: self.voices.update(
                    i,
                    Wave {
                        volume: velocity_gain(velocity),
                        envelope: w.envelope.entered(Some(AdsrEnvelopeStates::Attack)),
                        ..w
                    },
                ),
                ..self
            }
        } else {
            SynthModel { voices: self.voices.push(self.new_voice(note, freq, velocity)), ..self }
        }
    }

    pub open spec fn with_note_off(self, note: u8) -> SynthModel {
        if has_voice(self.voices, note) {
            let i = voice_index(self.voices, note);
            let w = self.voices[i];
            SynthModel {
                voices: self.voices.update(i, Wave { envelope: w.envelope.released(), ..w }),
                ..self
            }
        } else {
            self
        }
    }

    /// The master volume encoder sets the master volume to its share of the
    /// maximum; other controllers change nothing.
    pub open spec fn with_encoder(self, controller: u8, value: u8) -> SynthModel {
        if controller == VOLUME_CONTROLLER {
            SynthModel {
                master_volume: (self.max_master_volume * normalized(
                    value as int,
                    MIDI_VALUE_MAX as int,
                    0,
                ) / (LEVEL_ONE as int)) as u32,
                ..self
            }
        } else {
            self
        }
    }

    pub open spec fn handled(self, cmd: SoundCommand) -> SynthModel {
        match cmd {
            SoundCommand::NoteOn { midi_note, freq, volume } => self.with_note_on(
                midi_note,
                freq,
                volume,
            ),
            SoundCommand::NoteOff { midi_note } => self.with_note_off(midi_note),
            SoundCommand::Encode { controller, value } => self.with_encoder(controller, value),
        }
    }

    /// The state after applying `cmds` in order.
    pub open spec fn received(self, cmds: Seq<SoundCommand>) -> SynthModel
        decreases cmds.len(),
    {
        if cmds.len() == 0 {
            self
        } else {
            self.received(cmds.drop_last()).handled(cmds.last())
        }
    }
}

/// Sum over `voices` of what each, rendered alone, outputs at sample `i`.
pub open spec fn mixed_at(voices: Seq<Wave>, i: nat, rate: u32, table: Seq<i16>) -> int
    decreases voices.len(),
{
    if voices.len() == 0 {
        0
    } else {
        mixed_at(voices.drop_last(), i, rate, table) + stepped_n(voices.last(), i, rate).sample(
            table,
        )
    }
}

/// The voices of `v` that are still to be rendered, in order.
pub open spec fn live(v: Seq<Wave>) -> Seq<Wave>
    decreases v.len(),
{
    if v.len() == 0 {
        v
    } else if is_live(v.last()) {
        live(v.drop_last()).push(v.last())
    } else {
        live(v.drop_last())
    }
}

impl SynthModel {
    /// The voices left after dropping finished ones.
    pub open spec fn live_voices(self) -> Seq<Wave> {
        live(self.voices)
    }

    /// The output buffer of `n` samples that the next callback renders: at
    /// each index, the sum over live voices of their samples, times the
    /// master volume.
    pub open spec fn output(self, n: nat) -> Seq<int> {
        Seq::new(
            n,
            |i: int|
                self.master_volume * mixed_at(
                    self.live_voices(),
                    i as nat,
                    self.spec_freq,
                    self.wavetable,
                ),
        )
    }

    /// The state after rendering a buffer of `n` samples: finished voices
    /// dropped, the others advanced by `n` samples.
    pub open spec fn after_buffer(self, n: nat) -> SynthModel {
        SynthModel {
            voices: self.live_voices().map_values(|w: Wave| stepped_n(w, n, self.spec_freq)),
            ..self
        }
    }
}

/// Rendering keeps a voice well-formed, and advances its envelope once per
/// sample.
pub proof fn lemma_stepped_n(w: Wave, n: nat, rate: u32)
    requires
        w.wf(),
    ensures
        stepped_n(w, n, rate).wf(),
        stepped_n(w, n, rate).envelope == advance_n(w.envelope, n),
        stepped_n(w, n, rate).midi_note == w.midi_note,
    decreases n,
{
    if n > 0 {
        lemma_stepped_n(w, (n - 1) as nat, rate);
        stepped_n(w, (n - 1) as nat, rate).lemma_stepped_wf(rate);
    }
}

/// Dropping voices keeps notes distinct and voices well-formed.
proof fn lemma_filter_keeps(v: Seq<Wave>)
    requires
        distinct_notes(v),
        forall|i: int| 0 <= i < v.len() ==> (#[trigger] v[i]).wf(),
    ensures
        distinct_notes(live(v)),
        forall|i: int| 0 <= i < live(v).len() ==> (#[trigger] live(v)[i]).wf(),
        forall|i: int| 0 <= i < live(v).len() ==> v.contains(#[trigger] live(v)[i]),
    decreases v.len(),
{
    if v.len() > 0 {
        let d = v.drop_last();
        assert forall|a: int, b: int|
            0 <= a < d.len() && 0 <= b < d.len() && a != b implies #[trigger] d[a].midi_note
            != #[trigger] d[b].midi_note by {
            assert(d[a] == v[a] && d[b] == v[b]);
        }
        assert forall|i: int| 0 <= i < d.len() implies (#[trigger] d[i]).wf() by {
            assert(d[i] == v[i]);
        }
        lemma_filter_keeps(d);
        let f = live(v);
        let fd = live(d);
        if is_live(v.last()) {
            assert(f == fd.push(v.last()));
            assert forall|i: int| 0 <= i < f.len() implies v.contains(#[trigger] f[i]) by {
                if i < fd.len() {
                    let x = fd[i];
                    assert(d.contains(x));
                    let j = choose|j: int| 0 <= j < d.len() && d[j] == x;
                    assert(v[j] == x);
                } else {
                    assert(v[v.len() - 1] == f[i]);
                }
            }
            assert forall|a: int, b: int|
                0 <= a < f.len() && 0 <= b < f.len() && a != b implies #[trigger] f[a].midi_note
                != #[trigger] f[b].midi_note by {
                if a < fd.len() && b < fd.len() {
                    assert(f[a] == fd[a] && f[b] == fd[b]);
                } else if a < fd.len() {
                    let x = fd[a];
                    assert(d.contains(x));
                    let j = choose|j: int| 0 <= j < d.len() && d[j] == x;
                    assert(v[j] == x);
                    assert(f[b] == v[v.len() - 1]);
                } else {
                    let x = fd[b];
                    assert(d.contains(x));
                    let j = choose|j: int| 0 <= j < d.len() && d[j] == x;
                    assert(v[j] == x);
                    assert(f[a] == v[v.len() - 1]);
                }
            }
            assert forall|i: int| 0 <= i < f.len() implies (#[trigger] f[i]).wf() by {
                if i < fd.len() {
                    assert(f[i] == fd[i]);
                } else {
                    assert(f[i] == v[v.len() - 1]);
                }
            }
        } else {
            assert(f == fd);
            assert forall|i: int| 0 <= i < f.len() implies v.contains(#[trigger] f[i]) by {
                let x = fd[i];
                assert(d.contains(x));
                let j = choose|j: int| 0 <= j < d.len() && d[j] == x;
                assert(v[j] == x);
            }
        }
    }
}

/// At most 256 voices can play distinct notes.
proof fn lemma_distinct_notes_len(v: Seq<Wave>)
    requires
        distinct_notes(v),
    ensures
        v.len() <= 256,
{
    let keys = v.map_values(|w: Wave| w.midi_note as int);
    assert(keys.no_duplicates()) by {
        assert forall|a: int, b: int|
            0 <= a < keys.len() && 0 <= b < keys.len() && a != b implies keys[a] != keys[b] by {
            assert(v[a].midi_note != v[b].midi_note);
        }
    }
    keys.unique_seq_to_set();
    let range = vstd::set_lib::set_int_range(0, 256);
    vstd::set_lib::lemma_int_range(0, 256);
    assert(keys.to_set().subset_of(range)) by {
        assert forall|x: int| keys.to_set().contains(x) implies range.contains(x) by {
            assert(keys.contains(x));
            let j = choose|j: int| 0 <= j < keys.len() && keys[j] == x;
            assert(keys[j] == v[j].midi_note as int);
        }
    }
    vstd::set_lib::lemma_len_subset(keys.to_set(), range);
}

/// With distinct notes, the voice found for a note is the one at its index.
pub proof fn lemma_voice_index_unique(v: Seq<Wave>, note: u8, i: int)
    requires
        distinct_notes(v),
        0 <= i < v.len(),
        v[i].midi_note == note,
    ensures
        has_voice(v, note),
        voice_index(v, note) == i,
{
    assert(has_voice(v, note));
    let j = voice_index(v, note);
    assert(v[j].midi_note == note);
}

impl SynthModel {
    /// Handling a command keeps the model well-formed.
    pub proof fn lemma_handled_wf(self, cmd: SoundCommand)
        requires
            self.wf(),
        ensures
            self.handled(cmd).wf(),
    {
        let r = self.handled(cmd);
        match cmd {
            SoundCommand::NoteOn { midi_note, freq, volume } => {
                lemma_normalized_bounded(volume as int, MIDI_VALUE_MAX as int, 0);
                if has_voice(self.voices, midi_note) {
                    let i = voice_index(self.voices, midi_note);
                    self.voices[i].envelope.lemma_entered_wf(Some(AdsrEnvelopeStates::Attack));
                    assert forall|k: int| 0 <= k < r.voices.len() implies (#[trigger] r.voices[k]).wf() by {
                        if k != i {
                            assert(r.voices[k] == self.voices[k]);
                        }
                    }
                } else {
                    AdsrEnvelope::lemma_initial_wf(0, 0, Some(AdsrEnvelopeStates::Attack), self.envelope_config);
                    let n = self.voices.len() as int;
                    assert forall|a: int, b: int|
                        0 <= a < r.voices.len() && 0 <= b < r.voices.len() && a != b
                        implies #[trigger] r.voices[a].midi_note != #[trigger] r.voices[b].midi_note by {
                        if a == n {
                            assert(r.voices[b] == self.voices[b]);
                        } else if b == n {
                            assert(r.voices[a] == self.voices[a]);
                        } else {
                            assert(r.voices[a] == self.voices[a]);
                            assert(r.voices[b] == self.voices[b]);
                        }
                    }
                    assert forall|k: int| 0 <= k < r.voices.len() implies (#[trigger] r.voices[k]).wf() by {
                        if k < n {
                            assert(r.voices[k] == self.voices[k]);
                        }
                    }
                }
            },
            SoundCommand::NoteOff { midi_note } => {
                if has_voice(self.voices, midi_note) {
                    let i = voice_index(self.voices, midi_note);
                    self.voices[i].envelope.lemma_entered_wf(Some(AdsrEnvelopeStates::Release));
                    assert forall|k: int| 0 <= k < r.voices.len() implies (#[trigger] r.voices[k]).wf() by {
                        if k != i {
                            assert(r.voices[k] == self.voices[k]);
                        }
                    }
                }
            },
            SoundCommand::Encode { controller, value } => {
                if controller == VOLUME_CONTROLLER {
                    lemma_master_scaled(self.max_master_volume as int, value);
                }
            },
        }
    }

    pub proof fn lemma_received_wf(self, cmds: Seq<SoundCommand>)
        requires
            self.wf(),
        ensures
            self.received(cmds).wf(),
        decreases cmds.len(),
    {
        if cmds.len() > 0 {
            self.lemma_received_wf(cmds.drop_last());
            self.received(cmds.drop_last()).lemma_handled_wf(cmds.last());
        }
    }
}

/// The master volume that an encoder value selects lies within the maximum.
proof fn lemma_master_scaled(max: int, value: u8)
    requires
        0 <= max <= MAX_MASTER_VOLUME,
    ensures
        0 <= max * normalized(value as int, MIDI_VALUE_MAX as int, 0) / (LEVEL_ONE as int) <= max,
{
    let g = normalized(value as int, MIDI_VALUE_MAX as int, 0);
    lemma_normalized_bounded(value as int, MIDI_VALUE_MAX as int, 0);
    assert(0 <= max * g <= max * LEVEL_ONE) by (nonlinear_arith)
        requires
            0 <= max,
            0 <= g <= LEVEL_ONE,
    ;
    vstd::arithmetic::div_mod::lemma_div_is_ordered(0, max * g, LEVEL_ONE as int);
    vstd::arithmetic::div_mod::lemma_div_is_ordered(max * g, max * LEVEL_ONE, LEVEL_ONE as int);
    vstd::arithmetic::div_mod::lemma_div_multiples_vanish(max, LEVEL_ONE as int);
    assert(max * LEVEL_ONE == LEVEL_ONE * max);
}

/// A diagnostic record: a buffer of samples and the source that produced
/// it, a voice's MIDI note or [`MIX_SOURCE_ID`] for the mixed output.
pub struct AudioOutput {
    pub id: u16,
    pub buf: Vec<i64>,
}

/// The mixer: voice registry, master volume and instrument.
pub struct CustomAudioCallback {
    pub currently_playing_waveforms: Vec<Wave>,
    pub current_master_volume: u32,
    pub max_master_volume: u32,
    /// Output sample rate in samples per second.
    pub spec_freq: u32,
    pub envelope_config: AdsrEnvelopeConfig,
    /// One period of the oscillator waveform.
    pub wavetable: Vec<i16>,
}

impl View for CustomAudioCallback {
    type V = SynthModel;

    open spec fn view(&self) -> SynthModel {
        SynthModel {
            voices: self.currently_playing_waveforms@,
            master_volume: self.current_master_volume,
            max_master_volume: self.max_master_volume,
            spec_freq: self.spec_freq,
            envelope_config: self.envelope_config,
            wavetable: self.wavetable@,
        }
    }
}

impl CustomAudioCallback {
    /// A mixer with no voices.
    pub fn new(
        spec_freq: u32,
        max_master_volume: u32,
        current_master_volume: u32,
        envelope_config: AdsrEnvelopeConfig,
        wavetable: Vec<i16>,
    ) -> (r: Self)
        requires
            spec_freq > 0,
            wavetable@.len() > 0,
            max_master_volume <= MAX_MASTER_VOLUME,
            current_master_volume <= max_master_volume,
            envelope_config.wf(),
        ensures
            r@ == (SynthModel {
                voices: Seq::empty(),
                master_volume: current_master_volume,
                max_master_volume,
                spec_freq,
                envelope_config,
                wavetable: wavetable@,
            }),
            r@.wf(),
    {
        CustomAudioCallback {
            currently_playing_waveforms: Vec::new(),
            current_master_volume,
            max_master_volume,
            spec_freq,
            envelope_config,
            wavetable,
        }
    }

    /// Number of voices in the registry.
    pub fn voice_count(&self) -> (r: usize)
        ensures
            r == self@.voices.len(),
    {
        self.currently_playing_waveforms.len()
    }

    /// A fresh envelope of the instrument, at the start of its attack.
    pub fn create_adsr_envelope(&self) -> (r: AdsrEnvelope)
        requires
            self@.wf(),
        ensures
            r == AdsrEnvelope::initial(0, 0, Some(AdsrEnvelopeStates::Attack), self.envelope_config),
            r.wf(),
    {
        AdsrEnvelope::new(0, 0, Some(AdsrEnvelopeStates::Attack), self.envelope_config)
    }

    /// Index of the voice that plays `midi_note`, if any.
    fn find_voice(&self, midi_note: u8) -> (r: Option<usize>)
        ensures
            match r {
                Some(i) => i < self@.voices.len() && self@.voices[i as int].midi_note == midi_note,
                None => !has_voice(self@.voices, midi_note),
            },
    {
        let mut i: usize = 0;
        while i < self.currently_playing_waveforms.len()
            invariant
                i <= self@.voices.len(),
                forall|k: int| 0 <= k < i ==> (#[trigger] self@.voices[k]).midi_note != midi_note,
            decreases self@.voices.len() - i,
        {
            if self.currently_playing_waveforms[i].midi_note == midi_note {
                return Some(i);
            }
            i = i + 1;
        }
        None
    }

    /// Starts `midi_note`, or re-triggers the voice that already plays it.
    pub fn handle_note_on(&mut self, freq: u64, midi_note: u8, velocity: u8)
        requires
            old(self)@.wf(),
        ensures
            final(self)@ == old(self)@.with_note_on(midi_note, freq, velocity),
            final(self)@.wf(),
    {
        proof {
            self@.lemma_handled_wf(SoundCommand::NoteOn { midi_note, freq, volume: velocity });
        }
        let gain = normalize(velocity as u16, MIDI_VALUE_MAX, 0);
        match self.find_voice(midi_note) {
            None => {
                let envelope = self.create_adsr_envelope();
                let w = Wave { midi_note, freq, volume: gain, phase_angle: 0, envelope };
                self.currently_playing_waveforms.push(w);
            },
            Some(i) => {
                proof {
                    lemma_voice_index_unique(self@.voices, midi_note, i as int);
                }
                let mut w = self.currently_playing_waveforms[i];
                w.volume = gain;
                w.envelope.set_current_config_state(Some(AdsrEnvelopeStates::Attack));
                self.currently_playing_waveforms.set(i, w);
            },
        }
    }

    /// Sends the voice that plays `midi_note` to release; without such a
    /// voice nothing changes.
    pub fn handle_note_off(&mut self, midi_note: u8)
        requires
            old(self)@.wf(),
        ensures
            final(self)@ == old(self)@.with_note_off(midi_note),
            final(self)@.wf(),
    {
        proof {
            self@.lemma_handled_wf(SoundCommand::NoteOff { midi_note });
        }
        if let Some(i) = self.find_voice(midi_note) {
            proof {
                lemma_voice_index_unique(self@.voices, midi_note, i as int);
            }
            let mut w = self.currently_playing_waveforms[i];
            w.envelope.release();
            self.currently_playing_waveforms.set(i, w);
        }
    }

    /// Applies a control change: the volume encoder sets the master volume,
    /// other controllers are ignored.
    pub fn handle_encoders(&mut self, controller: u8, value: u8)
        requires
            old(self)@.wf(),
        ensures
            final(self)@ == old(self)@.with_encoder(controller, value),
            final(self)@.wf(),
    {
        proof {
            self@.lemma_handled_wf(SoundCommand::Encode { controller, value });
            lemma_master_scaled(self.max_master_volume as int, value);
        }
        if controller == VOLUME_CONTROLLER {
            let gain = normalize(value as u16, MIDI_VALUE_MAX, 0);
            assert(self.max_master_volume as u64 * gain as u64 <= 16777215 * 65536) by (nonlinear_arith)
                requires
                    self.max_master_volume <= 16777215,
                    gain <= 65536,
            ;
            self.current_master_volume = (self.max_master_volume as u64 * gain as u64
                / LEVEL_ONE as u64) as u32;
        }
    }

    /// Applies one command.
    pub fn handle_sound_command(&mut self, sound_command: SoundCommand)
        requires
            old(self)@.wf(),
        ensures
            final(self)@ == old(self)@.handled(sound_command),
            final(self)@.wf(),
    {
        match sound_command {
            SoundCommand::NoteOn { midi_note, freq, volume } => self.handle_note_on(freq, midi_note, volume),
            SoundCommand::NoteOff { midi_note } => self.handle_note_off(midi_note),
            SoundCommand::Encode { controller, value } => self.handle_encoders(controller, value),
        }
    }

    /// Drops the voices whose envelope has finished.
    pub fn filter_out_decayed_waveforms(&mut self)
        requires
            old(self)@.wf(),
        ensures
            final(self)@ == (SynthModel { voices: old(self)@.live_voices(), ..old(self)@ }),
            final(self)@.wf(),
    {
        let ghost v0 = self@.voices;
        proof {
            lemma_filter_keeps(v0);
        }
        let mut kept: Vec<Wave> = Vec::new();
        let mut i: usize = 0;
        while i < self.currently_playing_waveforms.len()
            invariant
                self@.voices == v0,
                i <= v0.len(),
                kept@ == live(v0.take(i as int)),
            decreases v0.len() - i,
        {
            let w = self.currently_playing_waveforms[i];
            assert(v0.take(i + 1).drop_last() == v0.take(i as int));
            if !w.envelope.is_finished() {
                kept.push(w);
            }
            i = i + 1;
        }
        assert(v0.take(i as int) == v0);
        self.currently_playing_waveforms = kept;
    }

    /// Renders one output buffer: drops finished voices, renders each
    /// remaining voice for `buffer.len()` samples, and writes at each index
    /// the sum of the voices' samples times the master volume. Returns each
    /// voice's own samples, tagged with its note.
    pub fn modify_buffer(&mut self, buffer: &mut Vec<i64>) -> (r: Vec<AudioOutput>)
        requires
            old(self)@.wf(),
        ensures
            final(buffer)@.len() == old(buffer)@.len(),
            forall|i: int|
                0 <= i < old(buffer)@.len() ==> final(buffer)@[i] == #[trigger] old(self)@.output(
                    old(buffer)@.len(),
                )[i],
            final(self)@ == old(self)@.after_buffer(old(buffer)@.len()),
            final(self)@.wf(),
            r@.len() == old(self)@.live_voices().len(),
            forall|k: int|
                0 <= k < r@.len() ==> {
                    let w = #[trigger] old(self)@.live_voices()[k];
                    &&& r@[k].id == w.midi_note
                    &&& r@[k].buf@.len() == old(buffer)@.len()
                    &&& forall|i: int|
                        0 <= i < old(buffer)@.len() ==> r@[k].buf@[i] == #[trigger] stepped_n(
                            w,
                            i as nat,
                            old(self)@.spec_freq,
                        ).sample(old(self)@.wavetable)
                },
    {
        let ghost m0 = self@;
        self.filter_out_decayed_waveforms();
        let ghost lv = self@.voices;
        proof {
            lemma_distinct_notes_len(lv);
        }
        let n = buffer.len();
        let rate = self.spec_freq;
        let mut outputs: Vec<AudioOutput> = Vec::new();
        let mut v: usize = 0;
        while v < self.currently_playing_waveforms.len()
            invariant
                self@.wf(),
                self@.voices.len() == lv.len(),
                self@ == (SynthModel { voices: self@.voices, ..m0 }),
                self.spec_freq == rate,
                m0.wf(),
                lv == m0.live_voices(),
                v <= lv.len(),
                outputs@.len() == v,
                forall|k: int| v <= k < lv.len() ==> self@.voices[k] == #[trigger] lv[k],
                forall|k: int|
                    0 <= k < v ==> self@.voices[k] == stepped_n(#[trigger] lv[k], n as nat, rate),
                forall|q: int| 0 <= q < v ==> (#[trigger] outputs@[q]).id == lv[q].midi_note,
                forall|q: int| 0 <= q < v ==> (#[trigger] outputs@[q]).buf@.len() == n,
                forall|q: int, j: int|
                    0 <= q < v && 0 <= j < n ==> #[trigger] outputs@[q].buf@[j] == stepped_n(
                        lv[q],
                        j as nat,
                        rate,
                    ).sample(m0.wavetable),
            decreases lv.len() - v,
        {
            let mut w = self.currently_playing_waveforms[v];
            assert(w.wf());
            let samples = w.render(n, rate, &self.wavetable);
            let ghost before = self@;
            self.currently_playing_waveforms.set(v, w);
            proof {
                assert forall|i: int| 0 <= i < self@.voices.len() implies (#[trigger] self@.voices[i]).wf() by {
                    if i != v {
                        assert(self@.voices[i] == before.voices[i]);
                    }
                }
                assert forall|a: int, b: int|
                    0 <= a < self@.voices.len() && 0 <= b < self@.voices.len() && a != b
                    implies #[trigger] self@.voices[a].midi_note != #[trigger] self@.voices[b].midi_note by {
                    lemma_stepped_n(lv[v as int], n as nat, rate);
                    assert(before.voices[a].midi_note != before.voices[b].midi_note);
                }
            }
            outputs.push(AudioOutput { id: w.midi_note as u16, buf: samples });
            proof {
                lemma_stepped_n(lv[v as int], n as nat, rate);
            }
            v = v + 1;
        }
        let master = self.current_master_volume;
        let mut i: usize = 0;
        while i < n
            invariant
                i <= n,
                n == buffer@.len(),
                master == m0.master_volume,
                m0.wf(),
                lv == m0.live_voices(),
                lv.len() <= 256,
                outputs@.len() == lv.len(),
                forall|k: int| 0 <= k < lv.len() ==> (#[trigger] lv[k]).wf(),
                forall|q: int| 0 <= q < lv.len() ==> (#[trigger] outputs@[q]).buf@.len() == n,
                forall|q: int, j: int|
                    0 <= q < lv.len() && 0 <= j < n ==> #[trigger] outputs@[q].buf@[j]
                        == stepped_n(lv[q], j as nat, rate).sample(m0.wavetable),
                rate == m0.spec_freq,
                forall|j: int| 0 <= j < i ==> buffer@[j] == #[trigger] m0.output(n as nat)[j],
            decreases n - i,
        {
            let mut acc: i64 = 0;
            let mut k: usize = 0;
            while k < outputs.len()
                invariant
                    k <= lv.len(),
                    i < n,
                    m0.wf(),
                    lv.len() <= 256,
                    outputs@.len() == lv.len(),
                    forall|q: int| 0 <= q < lv.len() ==> (#[trigger] lv[q]).wf(),
                    forall|q: int| 0 <= q < lv.len() ==> (#[trigger] outputs@[q]).buf@.len() == n,
                    forall|q: int, j: int|
                        0 <= q < lv.len() && 0 <= j < n ==> #[trigger] outputs@[q].buf@[j]
                            == stepped_n(lv[q], j as nat, rate).sample(m0.wavetable),
                    acc == mixed_at(lv.take(k as int), i as nat, rate, m0.wavetable),
                    -0x8000_0000 * k <= acc <= 0x8000_0000 * k,
                decreases lv.len() - k,
            {
                let ghost w = lv[k as int];
                proof {
                    lemma_stepped_n(w, i as nat, rate);
                    lemma_sample_bounded(stepped_n(w, i as nat, rate), m0.wavetable);
                    assert(lv.take(k + 1).drop_last() == lv.take(k as int));
                }
                assert(lv.take(k + 1).last() == w);
                acc = acc + outputs[k].buf[i];
                k = k + 1;
            }
            proof {
                assert(lv.take(k as int) == lv);
                assert(-0x8000_0000 * 256 <= acc <= 0x8000_0000 * 256);
                assert(-0x8000_0000 * 256 * 16777215 <= acc * master <= 0x8000_0000 * 256 * 16777215) by (nonlinear_arith)
                    requires
                        -0x8000_0000 * 256 <= acc <= 0x8000_0000 * 256,
                        0 <= master <= 16777215,
                ;
            }
            buffer.set(i, acc * master as i64);
            proof {
                assert(acc * master == master * acc) by (nonlinear_arith);
                assert(buffer@[i as int] == m0.output(n as nat)[i as int]);
            }
            i = i + 1;
        }
        assert(self@.voices == m0.after_buffer(n as nat).voices);
        outputs
    }

    /// One audio callback: applies the commands drained from the command
    /// channel in order, then renders `out` as [`Self::modify_buffer`] does.
    /// Returns the diagnostic records: each voice's own samples, then a copy
    /// of the mixed buffer under [`MIX_SOURCE_ID`].
    pub fn callback(&mut self, commands: &[SoundCommand], out: &mut Vec<i64>) -> (r: Vec<
        AudioOutput,
    >)
        requires
            old(self)@.wf(),
        ensures
            ({
                let m = old(self)@.received(commands@);
                let n = old(out)@.len();
                &&& final(out)@.len() == n
                &&& forall|i: int| 0 <= i < n ==> final(out)@[i] == #[trigger] m.output(n)[i]
                &&& final(self)@ == m.after_buffer(n)
                &&& final(self)@.wf()
                &&& r@.len() == m.live_voices().len() + 1
                &&& forall|k: int|
                    0 <= k < m.live_voices().len() ==> {
                        let w = #[trigger] m.live_voices()[k];
                        &&& r@[k].id == w.midi_note
                        &&& r@[k].buf@.len() == n
                        &&& forall|i: int|
                            0 <= i < n ==> r@[k].buf@[i] == #[trigger] stepped_n(
                                w,
                                i as nat,
                                m.spec_freq,
                            ).sample(m.wavetable)
                    }
                &&& r@.last().id == MIX_SOURCE_ID
                &&& r@.last().buf@ == final(out)@
            }),
    {
        self.receive(commands);
        let mut records = self.modify_buffer(out);
        let mut mixed: Vec<i64> = Vec::with_capacity(out.len());
        let mut i: usize = 0;
        while i < out.len()
            invariant
                i <= out@.len(),
                mixed@ == out@.take(i as int),
            decreases out@.len() - i,
        {
            mixed.push(out[i]);
            i = i + 1;
        }
        assert(out@.take(i as int) == out@);
        records.push(AudioOutput { id: MIX_SOURCE_ID, buf: mixed });
        records
    }

    /// Applies the commands drained from the command channel, in order.
    pub fn receive(&mut self, commands: &[SoundCommand])
        requires
            old(self)@.wf(),
        ensures
            final(self)@ == old(self)@.received(commands@),
            final(self)@.wf(),
    {
        let ghost m0 = self@;
        let mut i: usize = 0;
        while i < commands.len()
            invariant
                i <= commands@.len(),
                self@ == m0.received(commands@.take(i as int)),
                self@.wf(),
            decreases commands@.len() - i,
        {
            assert(commands@.take(i + 1).drop_last() == commands@.take(i as int));
            self.handle_sound_command(commands[i]);
            i = i + 1;
        }
        assert(commands@.take(i as int) == commands@);
    }
}

/// Draining an empty command channel, once or repeatedly, changes nothing.
pub proof fn lemma_empty_drain_unchanged(m: SynthModel)
    ensures
        m.received(Seq::empty()) == m,
        m.received(Seq::empty()).received(Seq::empty()) == m,
{
}

/// With no voices the output is silence, as long as the buffer asked for.
pub proof fn lemma_empty_registry_silent(m: SynthModel, n: nat)
    requires
        m.voices.len() == 0,
    ensures
        m.output(n).len() == n,
        forall|i: int| 0 <= i < n ==> #[trigger] m.output(n)[i] == 0,
{
    assert(live(m.voices).len() == 0);
    assert forall|i: int| 0 <= i < n implies #[trigger] m.output(n)[i] == 0 by {
        assert(mixed_at(m.live_voices(), i as nat, m.spec_freq, m.wavetable) == 0);
    }
}

/// The volume encoder at its top value gives the maximum master volume, and
/// at zero silences the output.
pub proof fn lemma_volume_encoder_extremes(m: SynthModel)
    requires
        m.wf(),
    ensures
        m.handled(SoundCommand::Encode { controller: VOLUME_CONTROLLER, value: 127 }).master_volume
            == m.max_master_volume,
        m.handled(SoundCommand::Encode { controller: VOLUME_CONTROLLER, value: 0 }).master_volume
            == 0,
{
    assert(normalized(127, MIDI_VALUE_MAX as int, 0) == LEVEL_ONE) by {
        vstd::arithmetic::div_mod::lemma_div_multiples_vanish(LEVEL_ONE as int, 127);
    }
    assert(normalized(0, MIDI_VALUE_MAX as int, 0) == 0) by {
        vstd::arithmetic::div_mod::lemma_div_of0(127);
    }
    assert(m.max_master_volume * 0 == 0);
    vstd::arithmetic::div_mod::lemma_div_of0(LEVEL_ONE as int);
    vstd::arithmetic::div_mod::lemma_div_multiples_vanish(m.max_master_volume as int, LEVEL_ONE as int);
    assert(m.max_master_volume * LEVEL_ONE == LEVEL_ONE * m.max_master_volume);
}

/// A new voice starts in attack, so it is live.
proof fn lemma_new_voice_live(m: SynthModel, note: u8, freq: u64, velocity: u8)
    ensures
        is_live(m.new_voice(note, freq, velocity)),
        m.new_voice(note, freq, velocity).envelope.status == EnvelopeStatus::Active(
            AdsrEnvelopeStates::Attack,
        ),
{
}

/// Mixing is additive: starting two distinct notes together on an empty
/// registry outputs, at every sample, the sum of what each note outputs when
/// started alone; which is the master volume times the sum of the two
/// voices' own samples.
pub proof fn lemma_two_notes_mix_additively(
    m: SynthModel,
    a: u8,
    fa: u64,
    va: u8,
    b: u8,
    fb: u64,
    vb: u8,
    n: nat,
)
    requires
        m.wf(),
        m.voices.len() == 0,
        a != b,
    ensures
        ({
            let on_a = SoundCommand::NoteOn { midi_note: a, freq: fa, volume: va };
            let on_b = SoundCommand::NoteOn { midi_note: b, freq: fb, volume: vb };
            let both = m.handled(on_a).handled(on_b);
            let only_a = m.handled(on_a);
            let only_b = m.handled(on_b);
            &&& both.voices.len() == 2
            &&& both.output(n).len() == n
            &&& forall|i: int|
                0 <= i < n ==> #[trigger] both.output(n)[i] == only_a.output(n)[i] + only_b.output(
                    n,
                )[i]
            &&& forall|i: int|
                0 <= i < n ==> #[trigger] both.output(n)[i] == m.master_volume * (stepped_n(
                    m.new_voice(a, fa, va),
                    i as nat,
                    m.spec_freq,
                ).sample(m.wavetable) + stepped_n(m.new_voice(b, fb, vb), i as nat, m.spec_freq).sample(
                    m.wavetable,
                ))
        }),
{
    let wa = m.new_voice(a, fa, va);
    let wb = m.new_voice(b, fb, vb);
    let only_a = m.with_note_on(a, fa, va);
    let only_b = m.with_note_on(b, fb, vb);
    let both = only_a.with_note_on(b, fb, vb);
    lemma_new_voice_live(m, a, fa, va);
    lemma_new_voice_live(m, b, fb, vb);
    assert(!has_voice(m.voices, a));
    assert(!has_voice(m.voices, b));
    assert(only_a.voices == seq![wa]);
    assert(only_b.voices == seq![wb]);
    assert(!has_voice(only_a.voices, b)) by {
        if has_voice(only_a.voices, b) {
            let i = choose|i: int| 0 <= i < only_a.voices.len() && #[trigger] only_a.voices[i].midi_note == b;
            assert(only_a.voices[i] == wa);
        }
    }
    assert(both.voices == seq![wa, wb]);
    assert(seq![wa].drop_last() == Seq::<Wave>::empty());
    assert(seq![wb].drop_last() == Seq::<Wave>::empty());
    assert(seq![wa, wb].drop_last() == seq![wa]);
    assert(live(seq![wa]) == seq![wa]) by {
        assert(live(Seq::<Wave>::empty()) == Seq::<Wave>::empty());
        assert(Seq::<Wave>::empty().push(wa) == seq![wa]);
    }
    assert(live(seq![wb]) == seq![wb]) by {
        assert(live(Seq::<Wave>::empty()) == Seq::<Wave>::empty());
        assert(Seq::<Wave>::empty().push(wb) == seq![wb]);
    }
    assert(live(seq![wa, wb]) == seq![wa, wb]) by {
        assert(seq![wa].push(wb) == seq![wa, wb]);
    }
    assert forall|i: int| 0 <= i < n implies #[trigger] both.output(n)[i] == only_a.output(n)[i]
        + only_b.output(n)[i] && both.output(n)[i] == m.master_volume * (stepped_n(
        wa,
        i as nat,
        m.spec_freq,
    ).sample(m.wavetable) + stepped_n(wb, i as nat, m.spec_freq).sample(m.wavetable)) by {
        let sa = stepped_n(wa, i as nat, m.spec_freq).sample(m.wavetable);
        let sb = stepped_n(wb, i as nat, m.spec_freq).sample(m.wavetable);
        assert(mixed_at(Seq::<Wave>::empty(), i as nat, m.spec_freq, m.wavetable) == 0);
        assert(mixed_at(seq![wa], i as nat, m.spec_freq, m.wavetable) == sa);
        assert(mixed_at(seq![wb], i as nat, m.spec_freq, m.wavetable) == sb);
        assert(mixed_at(seq![wa, wb], i as nat, m.spec_freq, m.wavetable) == sa + sb);
        assert(m.master_volume * (sa + sb) == m.master_volume * sa + m.master_volume * sb)
            by (nonlinear_arith);
    }
}

/// The voice that a note started and released on an empty registry leaves:
/// the new voice, sent to release from the start of its attack.
proof fn lemma_played_note(m: SynthModel, note: u8, freq: u64, velocity: u8)
    requires
        m.wf(),
        m.voices.len() == 0,
    ensures
        ({
            let on = SoundCommand::NoteOn { midi_note: note, freq, volume: velocity };
            let off = SoundCommand::NoteOff { midi_note: note };
            let r = m.handled(on).handled(off).voices[0];
            &&& m.received(seq![on, off]) == m.handled(on).handled(off)
            &&& m.handled(on).handled(off).voices == seq![r]
            &&& r.wf()
            &&& is_live(r)
            &&& live(seq![r]) == seq![r]
            &&& r.envelope.status == EnvelopeStatus::Active(AdsrEnvelopeStates::Release)
            &&& r.envelope.current_duration == 0
            &&& r.envelope.state_config == m.envelope_config
        }),
{
    let on = SoundCommand::NoteOn { midi_note: note, freq, volume: velocity };
    let off = SoundCommand::NoteOff { midi_note: note };
    assert(seq![on, off].drop_last() == seq![on]);
    assert(seq![on].drop_last() == Seq::<SoundCommand>::empty());
    assert(m.received(Seq::<SoundCommand>::empty()) == m);
    assert(seq![on].last() == on);
    assert(m.received(seq![on]) == m.handled(on));
    let started = m.handled(on);
    let w = m.new_voice(note, freq, velocity);
    assert(!has_voice(m.voices, note));
    assert(started.voices == seq![w]);
    m.lemma_handled_wf(on);
    lemma_voice_index_unique(started.voices, note, 0);
    let played = started.with_note_off(note);
    let r = Wave { envelope: w.envelope.released(), ..w };
    assert(played.voices == seq![r]);
    AdsrEnvelope::lemma_initial_wf(0, 0, Some(AdsrEnvelopeStates::Attack), m.envelope_config);
    w.envelope.lemma_entered_wf(Some(AdsrEnvelopeStates::Release));
    assert(seq![r].drop_last() == Seq::<Wave>::empty());
    assert(live(Seq::<Wave>::empty()) == Seq::<Wave>::empty());
    assert(Seq::<Wave>::empty().push(r) == seq![r]);
}

/// A note started and released on an empty registry is gone after a buffer
/// long enough for its release to run out, and the buffer after it: the
/// registry is empty again.
pub proof fn lemma_released_note_leaves_registry(
    m: SynthModel,
    note: u8,
    freq: u64,
    velocity: u8,
    n: nat,
    k: nat,
)
    requires
        m.wf(),
        m.voices.len() == 0,
        m.envelope_config.release.next_state.is_none(),
        n > m.envelope_config.release.duration,
    ensures
        ({
            let played = m.handled(SoundCommand::NoteOn { midi_note: note, freq, volume: velocity }).handled(
                SoundCommand::NoteOff { midi_note: note },
            );
            &&& played.voices.len() == 1
            &&& played.after_buffer(n).live_voices().len() == 0
            &&& played.after_buffer(n).after_buffer(k).voices.len() == 0
        }),
{
    lemma_played_note(m, note, freq, velocity);
    let played = m.handled(SoundCommand::NoteOn { midi_note: note, freq, volume: velocity }).handled(
        SoundCommand::NoteOff { midi_note: note },
    );
    let r = played.voices[0];
    let after = played.after_buffer(n);
    lemma_stepped_n(r, n, m.spec_freq);
    lemma_release_finishes(r.envelope, n);
    let f = stepped_n(r, n, m.spec_freq);
    assert(after.voices =~= seq![f]);
    assert(seq![f].drop_last() == Seq::<Wave>::empty());
    assert(seq![f].last() == f);
    assert(!is_live(f));
    assert(live(Seq::<Wave>::empty()) == Seq::<Wave>::empty());
    assert(live(seq![f]) == Seq::<Wave>::empty());
}

/// The state after `k` more callbacks that receive no commands, each
/// rendering a buffer of `n` samples.
pub open spec fn after_callbacks(m: SynthModel, n: nat, k: nat) -> SynthModel
    decreases k,
{
    if k == 0 {
        m
    } else {
        after_callbacks(m, n, (k - 1) as nat).received(Seq::empty()).after_buffer(n)
    }
}

/// A registry holding at most one voice, releasing from `e0` and `t` steps
/// into it, keeps at most that voice over later callbacks, and loses it at
/// the first callback that starts after its release ran out.
proof fn lemma_lone_release_over_callbacks(s: SynthModel, e0: AdsrEnvelope, t: nat, n: nat, j: nat)
    requires
        e0.wf(),
        e0.status == EnvelopeStatus::Active(AdsrEnvelopeStates::Release),
        e0.current_duration == 0,
        e0.state_config.release.next_state.is_none(),
        s.voices.len() <= 1,
        s.voices.len() == 1 ==> s.voices[0].wf() && s.voices[0].envelope == advance_n(e0, t),
    ensures
        ({
            let r = after_callbacks(s, n, j);
            &&& r.spec_freq == s.spec_freq
            &&& r.voices.len() <= 1
            &&& r.voices.len() == 1 ==> r.voices[0].wf() && r.voices[0].envelope == advance_n(
                e0,
                t + j * n,
            )
            &&& j >= 1 && t + (j - 1) * n > e0.state_config.release.duration ==> r.voices.len() == 0
        }),
    decreases j,
{
    if j == 0 {
        assert(t + j * n == t);
        assert(after_callbacks(s, n, j) == s);
    } else {
        let jm = (j - 1) as nat;
        lemma_lone_release_over_callbacks(s, e0, t, n, jm);
        let prev = after_callbacks(s, n, jm);
        let a = t + jm * n;
        assert(a + n == t + j * n) by (nonlinear_arith)
            requires
                a == t + jm * n,
                jm == j - 1,
        ;
        assert(prev.received(Seq::empty()) == prev);
        if prev.voices.len() == 0 {
            assert(live(prev.voices) == prev.voices);
        } else {
            let w = prev.voices[0];
            assert(prev.voices == seq![w]);
            assert(seq![w].drop_last() == Seq::<Wave>::empty());
            assert(live(Seq::<Wave>::empty()) == Seq::<Wave>::empty());
            if a > e0.state_config.release.duration {
                lemma_release_finishes(e0, a);
                assert(live(seq![w]) == Seq::<Wave>::empty());
            } else if is_live(w) {
                assert(Seq::<Wave>::empty().push(w) == seq![w]);
                assert(live(seq![w]) == seq![w]);
                lemma_stepped_n(w, n, s.spec_freq);
                crate::envelope::lemma_advance_n_split(e0, a, n);
                assert(after_callbacks(s, n, j).voices =~= seq![stepped_n(w, n, s.spec_freq)]);
            } else {
                assert(live(seq![w]) == Seq::<Wave>::empty());
            }
        }
    }
}

/// A note started and released on an empty registry, with callbacks of `n`
/// samples each: once `j` further callbacks have rendered more samples than
/// the release lasts, the registry is empty, and every later callback
/// outputs silence.
pub proof fn lemma_released_note_leaves_registry_over_callbacks(
    m: SynthModel,
    note: u8,
    freq: u64,
    velocity: u8,
    n: nat,
    j: nat,
)
    requires
        m.wf(),
        m.voices.len() == 0,
        m.envelope_config.release.next_state.is_none(),
        j * n > m.envelope_config.release.duration,
    ensures
        ({
            let cmds = seq![
                SoundCommand::NoteOn { midi_note: note, freq, volume: velocity },
                SoundCommand::NoteOff { midi_note: note },
            ];
            let first = m.received(cmds).after_buffer(n);
            let later = after_callbacks(first, n, j);
            &&& later.voices.len() == 0
            &&& forall|i: int|
                0 <= i < n ==> #[trigger] later.received(Seq::empty()).output(n)[i] == 0
        }),
{
    lemma_played_note(m, note, freq, velocity);
    let on = SoundCommand::NoteOn { midi_note: note, freq, volume: velocity };
    let off = SoundCommand::NoteOff { midi_note: note };
    let played = m.handled(on).handled(off);
    let r = played.voices[0];
    let first = played.after_buffer(n);
    lemma_stepped_n(r, n, m.spec_freq);
    assert(first.voices =~= seq![stepped_n(r, n, m.spec_freq)]);
    assert(j >= 1) by (nonlinear_arith)
        requires
            j * n > 0,
    ;
    assert(n + (j - 1) * n == j * n) by (nonlinear_arith);
    lemma_lone_release_over_callbacks(first, r.envelope, n, n, j);
    let later = after_callbacks(first, n, j);
    assert(later.received(Seq::empty()) == later);
    lemma_empty_registry_silent(later, n);
}

} // verus!