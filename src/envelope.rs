//! The ADSR envelope: a per-voice state machine producing an amplitude level.
//!
//! Each state moves the level from the value it had when the state was entered
//! (its start) to the state's target in `duration` equal steps. Within a state
//! the level is kept exactly, as a fraction with the state's duration as
//! denominator ([`AdsrEnvelope::scaled_level`]), so every advance moves it
//! strictly closer to the target; the level used for output is that fraction
//! rounded towards the start. Once the level equals the target, the next
//! advance enters the configured next state, re-anchored at the current
//! (rounded) level. Sustain
//! holds its level until the envelope is sent to another state. Reaching the
//! end of a state whose next state is `None` finishes the envelope.
//!
//! The amplitude coefficient renormalises the exact level into
//! `[0, LEVEL_ONE]` against the current state's own start and target, so each
//! state maps its local progress onto the full range; a state whose start
//! equals its target has a zero-width range and a coefficient of 0.
//!
//! An envelope that was never started is idle and has full level; a finished
//! one is silent. The two are told apart by [`AdsrEnvelope::is_finished`].
use crate::util::LEVEL_ONE;
use vstd::arithmetic::div_mod::{lemma_div_is_ordered, lemma_div_multiples_vanish};
use vstd::arithmetic::mul::lemma_mul_inequality;
use vstd::prelude::*;

verus! {

/// The four phases of an ADSR envelope.
#[derive(Debug, Clone, Copy, PartialEq, Eq, Structural)]
pub enum AdsrEnvelopeStates {
    Attack,
    Delay,
    Sustain,
    Release,
}

/// Where an envelope stands in its life.
#[derive(Debug, Clone, Copy, PartialEq, Eq, Structural)]
pub enum EnvelopeStatus {
    /// Never started: full level.
    Idle,
    /// Progressing through (or holding in) a state.
    Active(AdsrEnvelopeStates),
    /// Ran off the end of its last state: silent, and its voice is done.
    Finished,
}

/// Configuration of one envelope state.
#[derive(Debug, Clone, Copy, PartialEq, Eq, Structural)]
pub struct EnvelopeSingleStateConfig {
    pub state_type: AdsrEnvelopeStates,
    /// Number of advances that carry the level from the state's start to its target.
    pub duration: u16,
    /// Level the state moves to, at most [`LEVEL_ONE`].
    pub target: u32,
    /// State entered once the target is reached; `None` finishes the envelope.
    pub next_state: Option<AdsrEnvelopeStates>,
}

impl EnvelopeSingleStateConfig {
    pub open spec fn wf(&self) -> bool {
        self.target <= LEVEL_ONE
    }

    pub fn new(
        state_type: AdsrEnvelopeStates,
        target: u32,
        duration: u16,
        next_state: Option<AdsrEnvelopeStates>,
    ) -> (r: Self)
        requires
            target <= LEVEL_ONE,
        ensures
            r == (EnvelopeSingleStateConfig { state_type, duration, target, next_state }),
            r.wf(),
    {
        EnvelopeSingleStateConfig { state_type, duration, target, next_state }
    }
}

/// Configuration of all four states; shared by every voice of an instrument.
#[derive(Debug, Clone, Copy, PartialEq, Eq, Structural)]
pub struct AdsrEnvelopeConfig {
    pub attack: EnvelopeSingleStateConfig,
    pub delay: EnvelopeSingleStateConfig,
    pub sustain: EnvelopeSingleStateConfig,
    pub release: EnvelopeSingleStateConfig,
}

impl AdsrEnvelopeConfig {
    pub open spec fn wf(&self) -> bool {
        &&& self.attack.wf()
        &&& self.delay.wf()
        &&& self.sustain.wf()
        &&& self.release.wf()
    }

    /// The configuration of state `s`.
    pub open spec fn of(&self, s: AdsrEnvelopeStates) -> EnvelopeSingleStateConfig {
        match s {
            AdsrEnvelopeStates::Attack => self.attack,
            AdsrEnvelopeStates::Delay => self.delay,
            AdsrEnvelopeStates::Sustain => self.sustain,
            AdsrEnvelopeStates::Release => self.release,
        }
    }

    pub fn new(
        attack: EnvelopeSingleStateConfig,
        delay: EnvelopeSingleStateConfig,
        sustain: EnvelopeSingleStateConfig,
        release: EnvelopeSingleStateConfig,
    ) -> (r: Self)
        ensures
            r == (AdsrEnvelopeConfig { attack, delay, sustain, release }),
    {
        AdsrEnvelopeConfig { attack, delay, sustain, release }
    }

    fn get(&self, s: AdsrEnvelopeStates) -> (r: EnvelopeSingleStateConfig)
        ensures
            r == self.of(s),
    {
        match s {
            AdsrEnvelopeStates::Attack => self.attack,
            AdsrEnvelopeStates::Delay => self.delay,
            AdsrEnvelopeStates::Sustain => self.sustain,
            AdsrEnvelopeStates::Release => self.release,
        }
    }
}

/// Level 0.8, the sustain level of [`default_envelope_config`].
pub const SUSTAIN_LEVEL: u32 = 52428;

/// The instrument's envelope: attack to full level in 300 steps, decay to
/// 0.8 in 100, sustain there, and release to silence in 300, which finishes
/// the envelope.
pub fn default_envelope_config() -> (r: AdsrEnvelopeConfig)
    ensures
        r.wf(),
        r.attack == (EnvelopeSingleStateConfig {
            state_type: AdsrEnvelopeStates::Attack,
            duration: 300,
            target: LEVEL_ONE,
            next_state: Some(AdsrEnvelopeStates::Delay),
        }),
        r.delay == (EnvelopeSingleStateConfig {
            state_type: AdsrEnvelopeStates::Delay,
            duration: 100,
            target: SUSTAIN_LEVEL,
            next_state: Some(AdsrEnvelopeStates::Sustain),
        }),
        r.sustain == (EnvelopeSingleStateConfig {
            state_type: AdsrEnvelopeStates::Sustain,
            duration: 255,
            target: SUSTAIN_LEVEL,
            next_state: Some(AdsrEnvelopeStates::Release),
        }),
        r.release == (EnvelopeSingleStateConfig {
            state_type: AdsrEnvelopeStates::Release,
            duration: 300,
            target: 0,
            next_state: None,
        }),
{
    AdsrEnvelopeConfig::new(
        EnvelopeSingleStateConfig::new(
            AdsrEnvelopeStates::Attack,
            LEVEL_ONE,
            300,
            Some(AdsrEnvelopeStates::Delay),
        ),
        EnvelopeSingleStateConfig::new(
            AdsrEnvelopeStates::Delay,
            SUSTAIN_LEVEL,
            100,
            Some(AdsrEnvelopeStates::Sustain),
        ),
        EnvelopeSingleStateConfig::new(
            AdsrEnvelopeStates::Sustain,
            SUSTAIN_LEVEL,
            255,
            Some(AdsrEnvelopeStates::Release),
        ),
        EnvelopeSingleStateConfig::new(AdsrEnvelopeStates::Release, 0, 300, None),
    )
}

/// Level after `pos` of `dur` equal steps from `start` towards `target`; the
/// distance covered is rounded down, so the level never passes the target and
/// equals it from step `dur` on. A state of no steps is at its target at once.
pub open spec fn level_at(start: int, target: int, pos: int, dur: int) -> int {
    if dur <= 0 || pos >= dur {
        target
    } else if start <= target {
        start + (target - start) * pos / dur
    } else {
        start - (start - target) * pos / dur
    }
}

/// The coefficient of a state that moves from `start` to `target` in `dur`
/// steps and has taken `pos` of them: its exact level
/// `start + (target - start) * pos / dur` renormalised from the range between
/// `start` and `target` into `[0, LEVEL_ONE]`, rounded down. A rising state
/// gives `pos / dur` of full scale, a falling one `(dur - pos) / dur`, and a
/// zero-width range (`start == target`) gives 0.
pub open spec fn progress_coefficient(start: int, target: int, pos: int, dur: int) -> int {
    if start == target {
        0
    } else if dur <= 0 || pos >= dur {
        if start < target {
            LEVEL_ONE as int
        } else {
            0
        }
    } else if start < target {
        LEVEL_ONE * pos / dur
    } else {
        LEVEL_ONE * (dur - pos) / dur
    }
}

/// A running ADSR envelope.
#[derive(Debug, Clone, Copy, PartialEq, Eq, Structural)]
pub struct AdsrEnvelope {
    pub status: EnvelopeStatus,
    /// Level at which the current state was entered.
    pub start_val: u32,
    /// Current level.
    pub current_val: u32,
    /// Advances taken in the current state.
    pub current_duration: u16,
    pub state_config: AdsrEnvelopeConfig,
}

impl AdsrEnvelope {
    pub open spec fn wf(&self) -> bool {
        &&& self.state_config.wf()
        &&& self.start_val <= LEVEL_ONE
        &&& self.current_val <= LEVEL_ONE
        &&& (self.status matches EnvelopeStatus::Active(s) ==> {
            let c = self.state_config.of(s);
            &&& self.current_duration <= c.duration
            &&& self.current_val == level_at(
                self.start_val as int,
                c.target as int,
                self.current_duration as int,
                c.duration as int,
            )
        })
    }

    /// The level: full while idle, 0 once finished, and the current
    /// (rounded) level otherwise. A state that is entered starts here.
    pub open spec fn level(&self) -> int {
        match self.status {
            EnvelopeStatus::Idle => LEVEL_ONE as int,
            EnvelopeStatus::Finished => 0,
            EnvelopeStatus::Active(_) => self.current_val as int,
        }
    }

    /// The amplitude coefficient: exactly 1 (full level) while idle, 0 once
    /// finished, and otherwise the exact level renormalised against the
    /// current state's start and target; see [`progress_coefficient`].
    pub open spec fn coefficient(&self) -> int {
        match self.status {
            EnvelopeStatus::Idle => LEVEL_ONE as int,
            EnvelopeStatus::Finished => 0,
            EnvelopeStatus::Active(s) => {
                let c = self.state_config.of(s);
                progress_coefficient(
                    self.start_val as int,
                    c.target as int,
                    self.current_duration as int,
                    c.duration as int,
                )
            },
        }
    }

    /// The configuration of the state the envelope is in, when it is active.
    pub open spec fn current_config(&self) -> EnvelopeSingleStateConfig {
        self.state_config.of(self.status->Active_0)
    }

    /// Whether the (exact) level of an active envelope equals the target of
    /// its state: the state's steps are used up, or it started at its target.
    pub open spec fn at_target(&self) -> bool {
        let c = self.current_config();
        self.current_duration >= c.duration || self.start_val == c.target
    }

    /// The exact level of an active envelope times its state's duration:
    /// `start * duration + (target - start) * steps taken`.
    pub open spec fn scaled_level(&self) -> int {
        let c = self.current_config();
        self.start_val * c.duration + (c.target - self.start_val) * self.current_duration
    }

    /// The target of an active envelope's state times its duration.
    pub open spec fn scaled_target(&self) -> int {
        let c = self.current_config();
        c.target * c.duration
    }

    /// The envelope after entering `state` from its current level;
    /// `None` finishes it.
    pub open spec fn entered(self, state: Option<AdsrEnvelopeStates>) -> AdsrEnvelope {
        match state {
            None => AdsrEnvelope { status: EnvelopeStatus::Finished, ..self },
            Some(s) => {
                let c = self.state_config.of(s);
                let start = self.level();
                AdsrEnvelope {
                    status: EnvelopeStatus::Active(s),
                    start_val: start as u32,
                    current_val: level_at(start, c.target as int, 0, c.duration as int) as u32,
                    current_duration: 0,
                    ..self
                }
            },
        }
    }

    /// The envelope one step later.
    pub open spec fn advanced(self) -> AdsrEnvelope {
        match self.status {
            EnvelopeStatus::Active(s) => {
                let c = self.state_config.of(s);
                if s == AdsrEnvelopeStates::Sustain {
                    self
                } else if self.at_target() {
                    self.entered(c.next_state)
                } else {
                    let pos = self.current_duration + 1;
                    AdsrEnvelope {
                        current_duration: pos as u16,
                        current_val: level_at(
                            self.start_val as int,
                            c.target as int,
                            pos,
                            c.duration as int,
                        ) as u32,
                        ..self
                    }
                }
            },
            _ => self,
        }
    }

    /// The envelope after a note-off: sent to release from its current
    /// level from every state but release itself (idle, finished included),
    /// and unchanged while releasing.
    pub open spec fn released(self) -> AdsrEnvelope {
        match self.status {
            EnvelopeStatus::Active(AdsrEnvelopeStates::Release) => self,
            _ => self.entered(Some(AdsrEnvelopeStates::Release)),
        }
    }
}

impl AdsrEnvelope {
    /// A fresh envelope that entered `state` at level `start` and has taken
    /// `pos` of its steps; idle when `state` is `None`.
    pub open spec fn initial(
        pos: u16,
        start: u32,
        state: Option<AdsrEnvelopeStates>,
        config: AdsrEnvelopeConfig,
    ) -> AdsrEnvelope {
        match state {
            None => AdsrEnvelope {
                status: EnvelopeStatus::Idle,
                start_val: start,
                current_val: start,
                current_duration: pos,
                state_config: config,
            },
            Some(s) => AdsrEnvelope {
                status: EnvelopeStatus::Active(s),
                start_val: start,
                current_val: level_at(
                    start as int,
                    config.of(s).target as int,
                    pos as int,
                    config.of(s).duration as int,
                ) as u32,
                current_duration: pos,
                state_config: config,
            },
        }
    }

    pub proof fn lemma_initial_wf(
        pos: u16,
        start: u32,
        state: Option<AdsrEnvelopeStates>,
        config: AdsrEnvelopeConfig,
    )
        requires
            start <= LEVEL_ONE,
            config.wf(),
            state matches Some(s) ==> pos <= config.of(s).duration,
        ensures
            AdsrEnvelope::initial(pos, start, state, config).wf(),
    {
        if let Some(s) = state {
            let c = config.of(s);
            lemma_level_between(start as int, c.target as int, pos as int, c.duration as int);
        }
    }

    /// The coefficient of a well-formed envelope is a level.
    pub proof fn lemma_coefficient_bounded(self)
        requires
            self.wf(),
        ensures
            0 <= self.coefficient() <= LEVEL_ONE,
    {
        if let EnvelopeStatus::Active(s) = self.status {
            let c = self.state_config.of(s);
            let pos = self.current_duration as int;
            let dur = c.duration as int;
            if self.start_val != c.target && dur > 0 && pos < dur {
                if self.start_val < c.target {
                    lemma_covered_bounded(LEVEL_ONE as int, pos, dur);
                } else {
                    lemma_covered_bounded(LEVEL_ONE as int, dur - pos, dur);
                }
            }
        }
    }

    pub proof fn lemma_entered_wf(self, state: Option<AdsrEnvelopeStates>)
        requires
            self.wf(),
        ensures
            self.entered(state).wf(),
    {
        if let Some(s) = state {
            let c = self.state_config.of(s);
            lemma_level_between(self.level(), c.target as int, 0, c.duration as int);
        }
    }

    /// A step short of the target moves the exact level strictly towards it
    /// without passing it.
    pub proof fn lemma_step_approaches_target(self)
        requires
            self.wf(),
        ensures
            self.status matches EnvelopeStatus::Active(s) && s != AdsrEnvelopeStates::Sustain
                && !self.at_target() ==> {
                let f = self.advanced();
                &&& f.status == self.status
                &&& f.current_duration == self.current_duration + 1
                &&& (self.scaled_level() < self.scaled_target() ==> self.scaled_level()
                    < f.scaled_level() <= f.scaled_target())
                &&& (self.scaled_target() < self.scaled_level() ==> f.scaled_target()
                    <= f.scaled_level() < self.scaled_level())
                &&& self.scaled_level() != self.scaled_target()
                &&& f.scaled_target() == self.scaled_target()
            },
    {
        if let EnvelopeStatus::Active(s) = self.status {
            if s != AdsrEnvelopeStates::Sustain && !self.at_target() {
                let c = self.state_config.of(s);
                let f = self.advanced();
                let st = self.start_val as int;
                let t = c.target as int;
                let d = c.duration as int;
                let p = self.current_duration as int;
                assert(f.current_config() == c);
                assert(self.scaled_target() - self.scaled_level() == (t - st) * (d - p))
                    by (nonlinear_arith)
                    requires
                        self.scaled_level() == st * d + (t - st) * p,
                        self.scaled_target() == t * d,
                ;
                assert(f.scaled_target() - f.scaled_level() == (t - st) * (d - p - 1))
                    by (nonlinear_arith)
                    requires
                        f.scaled_level() == st * d + (t - st) * (p + 1),
                        f.scaled_target() == t * d,
                ;
                assert(f.scaled_level() - self.scaled_level() == t - st) by (nonlinear_arith)
                    requires
                        f.scaled_level() == st * d + (t - st) * (p + 1),
                        self.scaled_level() == st * d + (t - st) * p,
                ;
                if st < t {
                    assert((t - st) * (d - p - 1) >= 0) by (nonlinear_arith)
                        requires
                            st < t,
                            p + 1 <= d,
                    ;
                    assert((t - st) * (d - p) > 0) by (nonlinear_arith)
                        requires
                            st < t,
                            p < d,
                    ;
                } else {
                    assert((t - st) * (d - p - 1) <= 0) by (nonlinear_arith)
                        requires
                            t < st,
                            p + 1 <= d,
                    ;
                    assert((t - st) * (d - p) < 0) by (nonlinear_arith)
                        requires
                            t < st,
                            p < d,
                    ;
                }
            }
        }
    }

    pub proof fn lemma_advanced_wf(self)
        requires
            self.wf(),
        ensures
            self.advanced().wf(),
    {
        if let EnvelopeStatus::Active(s) = self.status {
            let c = self.state_config.of(s);
            if s != AdsrEnvelopeStates::Sustain {
                if self.at_target() {
                    self.lemma_entered_wf(c.next_state);
                } else {
                    lemma_level_between(
                        self.start_val as int,
                        c.target as int,
                        self.current_duration + 1,
                        c.duration as int,
                    );
                }
            }
        }
    }

    /// An envelope that entered `current_state` at level `start_val` and has
    /// taken `current_duration` of that state's steps; idle when
    /// `current_state` is `None`.
    pub fn new(
        current_duration: u16,
        start_val: u32,
        current_state: Option<AdsrEnvelopeStates>,
        state_config: AdsrEnvelopeConfig,
    ) -> (r: Self)
        requires
            start_val <= LEVEL_ONE,
            state_config.wf(),
            current_state matches Some(s) ==> current_duration <= state_config.of(s).duration,
        ensures
            r == AdsrEnvelope::initial(current_duration, start_val, current_state, state_config),
            r.wf(),
    {
        match current_state {
            None => AdsrEnvelope {
                status: EnvelopeStatus::Idle,
                start_val,
                current_val: start_val,
                current_duration,
                state_config,
            },
            Some(s) => {
                let c = state_config.get(s);
                proof {
                    lemma_level_between(
                        start_val as int,
                        c.target as int,
                        current_duration as int,
                        c.duration as int,
                    );
                }
                AdsrEnvelope {
                    status: EnvelopeStatus::Active(s),
                    start_val,
                    current_val: level(start_val, c.target, current_duration, c.duration),
                    current_duration,
                    state_config,
                }
            },
        }
    }

    /// The state the envelope is in, if it is progressing through one.
    pub fn get_current_envelope_state(&self) -> (r: Option<AdsrEnvelopeStates>)
        ensures
            r == (match self.status {
                EnvelopeStatus::Active(s) => Some(s),
                _ => None,
            }),
    {
        match self.status {
            EnvelopeStatus::Active(s) => Some(s),
            _ => None,
        }
    }

    /// Whether the envelope ran off the end of its last state.
    pub fn is_finished(&self) -> (r: bool)
        ensures
            r == (self.status == EnvelopeStatus::Finished),
    {
        match self.status {
            EnvelopeStatus::Finished => true,
            _ => false,
        }
    }

    /// The amplitude coefficient; see [`AdsrEnvelope::coefficient`].
    pub fn get_normalized_current_value(&self) -> (r: u32)
        requires
            self.wf(),
        ensures
            r == self.coefficient(),
            r <= LEVEL_ONE,
    {
        match self.status {
            EnvelopeStatus::Idle => LEVEL_ONE,
            EnvelopeStatus::Finished => 0,
            EnvelopeStatus::Active(s) => {
                let c = self.state_config.get(s);
                progress(self.start_val, c.target, self.current_duration, c.duration)
            },
        }
    }

    /// The level; see [`AdsrEnvelope::level`].
    pub fn get_current_level(&self) -> (r: u32)
        requires
            self.wf(),
        ensures
            r == self.level(),
            r <= LEVEL_ONE,
    {
        match self.status {
            EnvelopeStatus::Idle => LEVEL_ONE,
            EnvelopeStatus::Finished => 0,
            EnvelopeStatus::Active(_) => self.current_val,
        }
    }

    /// Sends the envelope to `state` from its current level, restarting
    /// that state's progression; `None` finishes the envelope.
    pub fn set_current_config_state(&mut self, state: Option<AdsrEnvelopeStates>)
        requires
            old(self).wf(),
        ensures
            *final(self) == old(self).entered(state),
            final(self).wf(),
    {
        proof {
            self.lemma_entered_wf(state);
        }
        match state {
            None => {
                self.status = EnvelopeStatus::Finished;
            },
            Some(s) => {
                let c = self.state_config.get(s);
                let start = self.get_current_level();
                proof {
                    lemma_level_between(start as int, c.target as int, 0, c.duration as int);
                }
                self.current_val = level(start, c.target, 0, c.duration);
                self.start_val = start;
                self.current_duration = 0;
                self.status = EnvelopeStatus::Active(s);
            },
        }
    }

    /// Note-off: enters release from the current level, from every state but
    /// release itself.
    pub fn release(&mut self)
        requires
            old(self).wf(),
        ensures
            *final(self) == old(self).released(),
            final(self).wf(),
    {
        match self.status {
            EnvelopeStatus::Active(AdsrEnvelopeStates::Release) => {},
            _ => self.set_current_config_state(Some(AdsrEnvelopeStates::Release)),
        }
    }

    /// Advances the envelope by one step; see [`AdsrEnvelope::advanced`].
    ///
    /// In a state other than sustain whose level has not reached the target,
    /// the step stays in that state and moves the exact level strictly
    /// closer to the target without passing it.
    pub fn generate_next_value(&mut self)
        requires
            old(self).wf(),
        ensures
            *final(self) == old(self).advanced(),
            final(self).wf(),
            ({
                let e = *old(self);
                let f = *final(self);
                e.status matches EnvelopeStatus::Active(s) && s != AdsrEnvelopeStates::Sustain
                    && !e.at_target() ==> {
                    &&& f.status == e.status
                    &&& f.current_duration == e.current_duration + 1
                    &&& (e.scaled_level() < e.scaled_target() ==> e.scaled_level() < f.scaled_level()
                        <= f.scaled_target())
                    &&& (e.scaled_target() < e.scaled_level() ==> f.scaled_target()
                        <= f.scaled_level() < e.scaled_level())
                    &&& e.scaled_level() != e.scaled_target()
                    &&& f.scaled_target() == e.scaled_target()
                }
            }),
    {
        proof {
            self.lemma_advanced_wf();
            self.lemma_step_approaches_target();
        }
        if let EnvelopeStatus::Active(s) = self.status {
            let c = self.state_config.get(s);
            if s == AdsrEnvelopeStates::Sustain {
            } else if self.current_duration >= c.duration || self.start_val == c.target {
                self.set_current_config_state(c.next_state);
            } else {
                let pos: u16 = self.current_duration + 1;
                self.current_val = level(self.start_val, c.target, pos, c.duration);
                self.current_duration = pos;
            }
        }
    }
}

/// The envelope after `n` advances.
pub open spec fn advance_n(e: AdsrEnvelope, n: nat) -> AdsrEnvelope
    decreases n,
{
    if n == 0 {
        e
    } else {
        advance_n(e, (n - 1) as nat).advanced()
    }
}

/// A step count between 0 and `dur` covers at most the whole distance.
proof fn lemma_covered_bounded(diff: int, pos: int, dur: int)
    requires
        0 <= diff,
        0 <= pos <= dur,
        0 < dur,
    ensures
        0 <= diff * pos / dur <= diff,
{
    lemma_mul_inequality(pos, dur, diff);
    assert(pos * diff == diff * pos && dur * diff == diff * dur) by (nonlinear_arith);
    assert(0 <= diff * pos) by (nonlinear_arith)
        requires
            0 <= diff,
            0 <= pos,
    ;
    lemma_div_is_ordered(0, diff * pos, dur);
    lemma_div_is_ordered(diff * pos, diff * dur, dur);
    lemma_div_multiples_vanish(diff, dur);
    assert(dur * diff == diff * dur) by (nonlinear_arith);
}

/// Every intermediate level lies between the start and the target.
pub proof fn lemma_level_between(start: int, target: int, pos: int, dur: int)
    requires
        0 <= pos,
    ensures
        start <= target ==> start <= level_at(start, target, pos, dur) <= target,
        target <= start ==> target <= level_at(start, target, pos, dur) <= start,
        pos == 0 && dur > 0 ==> level_at(start, target, pos, dur) == start,
{
    if dur > 0 && pos < dur {
        if start <= target {
            lemma_covered_bounded(target - start, pos, dur);
        } else {
            lemma_covered_bounded(start - target, pos, dur);
        }
    }
}

/// Computes [`progress_coefficient`].
fn progress(start: u32, target: u32, pos: u16, dur: u16) -> (r: u32)
    ensures
        r == progress_coefficient(start as int, target as int, pos as int, dur as int),
        r <= LEVEL_ONE,
{
    if start == target {
        return 0;
    }
    if dur == 0 || pos >= dur {
        return if start < target {
            LEVEL_ONE
        } else {
            0
        };
    }
    let steps: u64 = if start < target {
        pos as u64
    } else {
        (dur - pos) as u64
    };
    proof {
        lemma_covered_bounded(LEVEL_ONE as int, steps as int, dur as int);
    }
    assert(LEVEL_ONE * steps <= 65536 * 65535) by (nonlinear_arith)
        requires
            steps <= 65535,
    ;
    (LEVEL_ONE as u64 * steps / dur as u64) as u32
}

/// The coefficient is the exact level renormalised against the state's own
/// start and target: for a state of `dur > 0` steps with `start != target`,
/// it is `(scaled level - low end * dur) * LEVEL_ONE / (width * dur)`, where
/// the scaled level is `start * dur + (target - start) * pos`.
pub proof fn lemma_coefficient_renormalises(start: int, target: int, pos: int, dur: int)
    requires
        0 < dur,
        0 <= pos <= dur,
        start != target,
    ensures
        ({
            let lo = if start < target { start } else { target };
            let width = if start < target { target - start } else { start - target };
            let scaled = start * dur + (target - start) * pos;
            progress_coefficient(start, target, pos, dur) == (scaled - lo * dur) * LEVEL_ONE / (
            width * dur)
        }),
{
    let lo = if start < target { start } else { target };
    let width = if start < target { target - start } else { start - target };
    let scaled = start * dur + (target - start) * pos;
    let steps = if start < target { pos } else { dur - pos };
    assert(scaled - lo * dur == width * steps) by (nonlinear_arith)
        requires
            scaled == start * dur + (target - start) * pos,
            lo == (if start < target { start } else { target }),
            width == (if start < target { target - start } else { start - target }),
            steps == (if start < target { pos } else { dur - pos }),
    ;
    assert(width * steps * LEVEL_ONE == width * (LEVEL_ONE * steps)) by (nonlinear_arith);
    assert(width > 0);
    vstd::arithmetic::div_mod::lemma_div_denominator(width * (LEVEL_ONE * steps), width, dur);
    assert(width * (LEVEL_ONE * steps) == (LEVEL_ONE * steps) * width) by (nonlinear_arith);
    lemma_div_multiples_vanish(LEVEL_ONE * steps, width);
    assert((LEVEL_ONE * steps) * width / width == width * (LEVEL_ONE * steps) / width)
        by (nonlinear_arith);
    if pos == dur {
        if start < target {
            lemma_div_multiples_vanish(LEVEL_ONE as int, dur);
            assert(LEVEL_ONE * dur == dur * LEVEL_ONE) by (nonlinear_arith);
        }
    }
}

/// Computes [`level_at`].
fn level(start: u32, target: u32, pos: u16, dur: u16) -> (r: u32)
    requires
        start <= LEVEL_ONE,
        target <= LEVEL_ONE,
    ensures
        r == level_at(start as int, target as int, pos as int, dur as int),
{
    if dur == 0 || pos >= dur {
        return target;
    }
    proof {
        lemma_level_between(start as int, target as int, pos as int, dur as int);
    }
    if start <= target {
        let diff: u64 = (target - start) as u64;
        assert(diff * pos <= 65536 * 65535) by (nonlinear_arith)
            requires
                diff <= 65536,
                pos <= 65535,
        ;
        let covered: u64 = diff * pos as u64 / dur as u64;
        start + covered as u32
    } else {
        let diff: u64 = (start - target) as u64;
        assert(diff * pos <= 65536 * 65535) by (nonlinear_arith)
            requires
                diff <= 65536,
                pos <= 65535,
        ;
        let covered: u64 = diff * pos as u64 / dur as u64;
        start - covered as u32
    }
}

/// Before its last step a state has not reached its target, unless it
/// started there.
proof fn lemma_level_short_of_target(start: int, target: int, pos: int, dur: int)
    requires
        start != target,
        0 <= pos < dur,
    ensures
        level_at(start, target, pos, dur) != target,
{
    let diff = if start <= target { target - start } else { start - target };
    let x = diff * pos;
    let q = x / dur;
    vstd::arithmetic::div_mod::lemma_fundamental_div_mod(x, dur);
    assert(x < diff * dur) by (nonlinear_arith)
        requires
            diff > 0,
            pos < dur,
            x == diff * pos,
    ;
    assert(q < diff) by (nonlinear_arith)
        requires
            x == dur * q + x % dur,
            0 <= x % dur,
            x < diff * dur,
            dur > 0,
    ;
    vstd::arithmetic::div_mod::lemma_mod_pos_bound(x, dur);
}

/// Advancing `a + b` times is advancing `a` times, then `b` times.
pub proof fn lemma_advance_n_split(e: AdsrEnvelope, a: nat, b: nat)
    ensures
        advance_n(e, a + b) == advance_n(advance_n(e, a), b),
    decreases b,
{
    if b > 0 {
        lemma_advance_n_split(e, a, (b - 1) as nat);
        assert((a + b - 1) as nat == a + (b - 1) as nat);
    }
}

/// A finished envelope stays finished and unchanged.
pub proof fn lemma_finished_stays(e: AdsrEnvelope, n: nat)
    requires
        e.status == EnvelopeStatus::Finished,
    ensures
        advance_n(e, n) == e,
    decreases n,
{
    if n > 0 {
        lemma_finished_stays(e, (n - 1) as nat);
    }
}

/// Within a state other than sustain that did not start at its target, each
/// advance takes one more of the state's steps.
proof fn lemma_progress(e: AdsrEnvelope, s: AdsrEnvelopeStates, k: nat)
    requires
        e.wf(),
        e.status == EnvelopeStatus::Active(s),
        s != AdsrEnvelopeStates::Sustain,
        e.start_val != e.state_config.of(s).target,
        e.current_duration + k <= e.state_config.of(s).duration,
    ensures
        advance_n(e, k) == (AdsrEnvelope {
            current_duration: (e.current_duration + k) as u16,
            current_val: level_at(
                e.start_val as int,
                e.state_config.of(s).target as int,
                e.current_duration + k,
                e.state_config.of(s).duration as int,
            ) as u32,
            ..e
        }),
    decreases k,
{
    if k > 0 {
        let c = e.state_config.of(s);
        lemma_progress(e, s, (k - 1) as nat);
        lemma_level_short_of_target(
            e.start_val as int,
            c.target as int,
            e.current_duration + k - 1,
            c.duration as int,
        );
        lemma_level_between(e.start_val as int, c.target as int, e.current_duration + k - 1, c.duration as int);
    }
}

/// A state other than sustain, entered at a level `start` other than its
/// target, takes exactly `duration` advances to reach the target, moving
/// towards it without passing it, and enters its next state on the advance
/// after that.
pub proof fn lemma_state_reaches_target(e: AdsrEnvelope, s: AdsrEnvelopeStates)
    requires
        e.wf(),
        e.status == EnvelopeStatus::Active(s),
        s != AdsrEnvelopeStates::Sustain,
        e.current_duration == 0,
        e.start_val != e.state_config.of(s).target,
    ensures
        ({
            let c = e.state_config.of(s);
            let d = c.duration as nat;
            &&& forall|k: nat|
                k < d ==> (#[trigger] advance_n(e, k)).status == e.status
                    && advance_n(e, k).current_val != c.target
            &&& forall|k: nat|
                k <= d ==> {
                    let v = (#[trigger] advance_n(e, k)).current_val;
                    &&& (e.start_val <= c.target ==> e.start_val <= v <= c.target)
                    &&& (c.target <= e.start_val ==> c.target <= v <= e.start_val)
                }
            &&& forall|j: nat, k: nat|
                j <= k <= d ==> {
                    let vj = (#[trigger] advance_n(e, j)).current_val;
                    let vk = (#[trigger] advance_n(e, k)).current_val;
                    &&& (e.start_val <= c.target ==> vj <= vk)
                    &&& (c.target <= e.start_val ==> vk <= vj)
                }
            &&& advance_n(e, d).status == e.status
            &&& advance_n(e, d).current_val == c.target
            &&& advance_n(e, d + 1) == advance_n(e, d).entered(c.next_state)
        }),
{
    let c = e.state_config.of(s);
    let d = c.duration as nat;
    assert forall|k: nat| k < d implies (#[trigger] advance_n(e, k)).status == e.status
        && advance_n(e, k).current_val != c.target by {
        lemma_progress(e, s, k);
        lemma_level_between(e.start_val as int, c.target as int, k as int, d as int);
        lemma_level_short_of_target(e.start_val as int, c.target as int, k as int, d as int);
    }
    assert forall|k: nat| k <= d implies {
        let v = (#[trigger] advance_n(e, k)).current_val;
        &&& (e.start_val <= c.target ==> e.start_val <= v <= c.target)
        &&& (c.target <= e.start_val ==> c.target <= v <= e.start_val)
    } by {
        lemma_progress(e, s, k);
        lemma_level_between(e.start_val as int, c.target as int, k as int, d as int);
    }
    assert forall|j: nat, k: nat| j <= k <= d implies {
        let vj = (#[trigger] advance_n(e, j)).current_val;
        let vk = (#[trigger] advance_n(e, k)).current_val;
        &&& (e.start_val <= c.target ==> vj <= vk)
        &&& (c.target <= e.start_val ==> vk <= vj)
    } by {
        lemma_progress(e, s, j);
        lemma_progress(e, s, k);
        lemma_level_between(e.start_val as int, c.target as int, j as int, d as int);
        lemma_level_between(e.start_val as int, c.target as int, k as int, d as int);
        lemma_level_monotone(e.start_val as int, c.target as int, j as int, k as int, d as int);
    }
    lemma_progress(e, s, d);
}

/// The level moves monotonically from the start towards the target.
proof fn lemma_level_monotone(start: int, target: int, j: int, k: int, dur: int)
    requires
        0 <= start,
        0 <= target,
        0 <= j <= k,
    ensures
        start <= target ==> level_at(start, target, j, dur) <= level_at(start, target, k, dur),
        target <= start ==> level_at(start, target, k, dur) <= level_at(start, target, j, dur),
{
    lemma_level_between(start, target, j, dur);
    lemma_level_between(start, target, k, dur);
    if dur > 0 && k < dur {
        let diff = if start <= target { target - start } else { start - target };
        assert(diff * j <= diff * k) by (nonlinear_arith)
            requires
                0 <= diff,
                j <= k,
        ;
        lemma_div_is_ordered(diff * j, diff * k, dur);
    }
}

/// A release whose next state is `None` finishes the envelope within
/// `duration + 1` advances, and the envelope stays finished after that.
pub proof fn lemma_release_finishes(e: AdsrEnvelope, n: nat)
    requires
        e.wf(),
        e.status == EnvelopeStatus::Active(AdsrEnvelopeStates::Release),
        e.state_config.release.next_state.is_none(),
        n > e.state_config.release.duration - e.current_duration,
    ensures
        advance_n(e, n).status == EnvelopeStatus::Finished,
{
    let c = e.state_config.release;
    if e.start_val == c.target {
        assert(e.current_val == c.target) by {
            lemma_level_between(e.start_val as int, c.target as int, e.current_duration as int, c.duration as int);
        }
        assert(advance_n(e, 0) == e);
        assert(advance_n(e, 1) == e.advanced());
        lemma_advance_n_split(e, 1, (n - 1) as nat);
        lemma_finished_stays(advance_n(e, 1), (n - 1) as nat);
    } else {
        let k = (c.duration - e.current_duration) as nat;
        lemma_progress(e, AdsrEnvelopeStates::Release, k);
        lemma_advance_n_split(e, k + 1, (n - k - 1) as nat);
        lemma_finished_stays(advance_n(e, k + 1), (n - k - 1) as nat);
    }
}

} // verus!
