use crate::config::Config;
use crate::process::{Process, reset_forgets};
use vstd::prelude::*;

verus! {

/// Where a percussive envelope is in its life.
#[derive(Clone, Copy, Debug, PartialEq, Eq, Structural)]
pub enum Stage {
    Idle,
    Ads,
    Release,
}

/// A level reached while the trigger is held: a point on the attack ramp
/// `pos / len` from 0 to 1, on the decay ramp from 1 to the sustain level, the
/// sustain level itself, or silence.
#[derive(Clone, Copy, Debug, PartialEq, Eq, Structural)]
pub enum Shape {
    Zero,
    Attack { pos: u64, len: u64 },
    Decay { pos: u64, len: u64 },
    Sustain,
}

/// One output of the envelope: a held level, or the point `pos / len` of the
/// linear release from the level `start` down to 0.
#[derive(Clone, Copy, Debug, PartialEq, Eq, Structural)]
pub enum Level {
    Hold(Shape),
    Release { start: Shape, pos: u64, len: u64 },
}

/// Microseconds in a second.
pub const MICROS: u64 = 1_000_000;

/// Samples in `micros` microseconds at `sample_rate`, rounded down.
pub open spec fn samples_in(micros: u32, sample_rate: u32) -> nat {
    ((micros as nat) * (sample_rate as nat) / (MICROS as nat)) as nat
}

/// Samples in `micros` microseconds at `sample_rate`, rounded down.
pub fn samples_of(micros: u32, sample_rate: u32) -> (r: u64)
    ensures
        r == samples_in(micros, sample_rate),
        r <= 0xffff_ffff_ffff,
{
    let m = micros as u64;
    let s = sample_rate as u64;
    assert(m * s <= 0xffff_ffff_ffff_ffff) by (nonlinear_arith)
        requires
            m <= 0xffff_ffff,
            s <= 0xffff_ffff,
    ;
    let p = m * s;
    assert(p / 1_000_000 <= 0xffff_ffff_ffff) by (nonlinear_arith)
        requires
            p <= 0xffff_ffff_ffff_ffff,
    ;
    p / MICROS
}

/// Puts an envelope behind any trigger source.
pub trait LiveAdsrExt: Process<Input = (), Output = bool> {
    /// An idle envelope driven by this process, with durations in
    /// microseconds.
    fn adsr(self, attack: u32, decay: u32, release: u32) -> (r: LiveAdsr<Self>)
        ensures
            r.attack == attack,
            r.decay == decay,
            r.release == release,
            r.stage == Stage::Idle,
            r.current == Level::Hold(Shape::Zero),
            r.sample_counter == 0,
            r.release_start == Shape::Zero,
            r.src == self,
    {
        LiveAdsr::new(self, attack, decay, release)
    }
}

impl<T: Process<Input = (), Output = bool>> LiveAdsrExt for T {

}

/// Level emitted on tick `k`, counted from 0, of a trigger held on from idle,
/// with an attack of `a` samples and a decay of `d` samples.
pub open spec fn held_level(a: nat, d: nat, k: nat) -> Level {
    if k < a {
        Level::Hold(Shape::Attack { pos: k as u64, len: a as u64 })
    } else if k < a + d {
        Level::Hold(Shape::Decay { pos: (k - a) as u64, len: d as u64 })
    } else {
        Level::Hold(Shape::Sustain)
    }
}

/// A duration in samples fits well within 64 bits.
pub proof fn lemma_samples_in_bound(micros: u32, sample_rate: u32)
    ensures
        samples_in(micros, sample_rate) <= 0xffff_ffff_ffff,
{
    let m = micros as nat;
    let s = sample_rate as nat;
    assert(m * s <= 0xffff_ffff_ffff_ffff) by (nonlinear_arith)
        requires
            m <= 0xffff_ffff,
            s <= 0xffff_ffff,
    ;
    let p = m * s;
    assert(p / 1_000_000 <= 0xffff_ffff_ffff) by (nonlinear_arith)
        requires
            p <= 0xffff_ffff_ffff_ffff,
    ;
}

/// A trigger-driven linear attack-decay-sustain-release envelope.
///
/// Durations are in microseconds and turn into samples at the clock's rate
/// on every tick. The trigger comes from `src`: a rising trigger from idle
/// starts the attack, a falling trigger during attack, decay or sustain
/// starts the release from the level last emitted.
pub struct LiveAdsr<Src> {
    pub attack: u32,
    pub decay: u32,
    pub release: u32,
    pub stage: Stage,
    pub current: Level,
    pub sample_counter: u64,
    pub release_start: Shape,
    pub src: Src,
}

/// The held part of a level; a release level stands for its start.
pub open spec fn held_shape(l: Level) -> Shape {
    match l {
        Level::Hold(s) => s,
        Level::Release { start, .. } => start,
    }
}

impl<Src> LiveAdsr<Src> {
    /// An idle envelope at level zero.
    pub fn new(src: Src, attack: u32, decay: u32, release: u32) -> (r: Self)
        ensures
            r.attack == attack,
            r.decay == decay,
            r.release == release,
            r.stage == Stage::Idle,
            r.current == Level::Hold(Shape::Zero),
            r.sample_counter == 0,
            r.release_start == Shape::Zero,
            r.src == src,
    {
        LiveAdsr {
            attack,
            decay,
            release,
            stage: Stage::Idle,
            current: Level::Hold(Shape::Zero),
            sample_counter: 0,
            release_start: Shape::Zero,
            src,
        }
    }

    pub open spec fn attack_len(&self, config: Config) -> nat {
        samples_in(self.attack, config.sample_rate)
    }

    pub open spec fn decay_len(&self, config: Config) -> nat {
        samples_in(self.decay, config.sample_rate)
    }

    /// Release length in samples, at least one.
    pub open spec fn release_len(&self, config: Config) -> nat {
        let r = samples_in(self.release, config.sample_rate);
        if r < 1 {
            1
        } else {
            r
        }
    }

    /// The state once the trigger's edge, if any, has been taken.
    pub open spec fn gated(self, trigger: bool) -> Self {
        if self.stage == Stage::Idle && trigger {
            LiveAdsr { stage: Stage::Ads, sample_counter: 0, ..self }
        } else if self.stage == Stage::Ads && !trigger {
            LiveAdsr {
                stage: Stage::Release,
                release_start: held_shape(self.current),
                sample_counter: 0,
                ..self
            }
        } else {
            self
        }
    }

    /// The state after one tick within the current stage.
    pub open spec fn ticked(self, config: Config) -> Self {
        let a = self.attack_len(config);
        let d = self.decay_len(config);
        let r = self.release_len(config);
        let n = self.sample_counter;
        match self.stage {
            Stage::Idle => self,
            Stage::Ads => if n < a {
                LiveAdsr {
                    current: Level::Hold(Shape::Attack { pos: n, len: a as u64 }),
                    sample_counter: (n + 1) as u64,
                    ..self
                }
            } else if n < a + d {
                LiveAdsr {
                    current: Level::Hold(Shape::Decay { pos: (n - a) as u64, len: d as u64 }),
                    sample_counter: (n + 1) as u64,
                    ..self
                }
            } else {
                LiveAdsr { current: Level::Hold(Shape::Sustain), ..self }
            },
            Stage::Release => if n < r {
                LiveAdsr {
                    current: Level::Release { start: self.release_start, pos: n, len: r as u64 },
                    sample_counter: (n + 1) as u64,
                    ..self
                }
            } else {
                LiveAdsr { stage: Stage::Idle, current: Level::Hold(Shape::Zero), ..self }
            },
        }
    }

    /// One tick of the envelope with trigger value `trigger`.
    pub open spec fn stepped(self, config: Config, trigger: bool) -> Self {
        self.gated(trigger).ticked(config)
    }

    /// The state after `n` ticks with the trigger held at `trigger`.
    pub open spec fn run_trigger(self, config: Config, trigger: bool, n: nat) -> Self
        decreases n,
    {
        if n == 0 {
            self
        } else {
            self.run_trigger(config, trigger, (n - 1) as nat).stepped(config, trigger)
        }
    }

    /// Advances the envelope by one tick with trigger value `trigger` and returns
    /// the new level.
    pub fn process(&mut self, config: &Config, trigger: bool) -> (r: Level)
        ensures
            *final(self) == old(self).stepped(*config, trigger),
            r == final(self).current,
    {
        if self.stage == Stage::Idle && trigger {
            self.stage = Stage::Ads;
            self.sample_counter = 0;
        } else if self.stage == Stage::Ads && !trigger {
            self.stage = Stage::Release;
            self.release_start = match self.current {
                Level::Hold(s) => s,
                Level::Release { start, .. } => start,
            };
            self.sample_counter = 0;
        }
        let a = samples_of(self.attack, config.sample_rate);
        let d = samples_of(self.decay, config.sample_rate);
        let r0 = samples_of(self.release, config.sample_rate);
        let r = if r0 < 1 { 1 } else { r0 };
        let n = self.sample_counter;
        match self.stage {
            Stage::Idle => {},
            Stage::Ads => {
                if n < a {
                    self.current = Level::Hold(Shape::Attack { pos: n, len: a });
                    self.sample_counter = n + 1;
                } else if n - a < d {
                    self.current = Level::Hold(Shape::Decay { pos: n - a, len: d });
                    self.sample_counter = n + 1;
                } else {
                    self.current = Level::Hold(Shape::Sustain);
                }
            },
            Stage::Release => {
                if n < r {
                    self.current = Level::Release { start: self.release_start, pos: n, len: r };
                    self.sample_counter = n + 1;
                } else {
                    self.stage = Stage::Idle;
                    self.current = Level::Hold(Shape::Zero);
                }
            },
        }
        self.current
    }
}

impl<Src: Process<Input = (), Output = bool>> Process for LiveAdsr<Src> {
    type Input = ();

    type Output = Level;

    open spec fn step_out(&self, config: Config, input: ()) -> Level {
        self.stepped(config, self.src.step_out(config, ())).current
    }

    open spec fn step_next(&self, config: Config, input: ()) -> Self {
        LiveAdsr {
            src: self.src.step_next(config, ()),
            ..self.stepped(config, self.src.step_out(config, ()))
        }
    }

    open spec fn restarted(&self) -> Self {
        LiveAdsr {
            attack: self.attack,
            decay: self.decay,
            release: self.release,
            stage: Stage::Idle,
            current: Level::Hold(Shape::Zero),
            sample_counter: 0,
            release_start: Shape::Zero,
            src: self.src.restarted(),
        }
    }

    fn sample(&mut self, config: &Config, input: ()) -> (r: Level) {
        let trigger = self.src.sample(config, ());
        self.process(config, trigger)
    }

    fn reset(&mut self) {
        self.stage = Stage::Idle;
        self.current = Level::Hold(Shape::Zero);
        self.sample_counter = 0;
        self.release_start = Shape::Zero;
        self.src.reset();
    }
}

/// An envelope forgets its history on reset when its trigger source does.
pub proof fn lemma_adsr_forgets<Src: Process<Input = (), Output = bool>>()
    requires
        reset_forgets::<Src>(),
    ensures
        reset_forgets::<LiveAdsr<Src>>(),
{
}

/// With the trigger held on from idle, tick `k` emits the attack ramp `k / a`
/// while `k < a`, then the decay ramp `(k - a) / d` while `k < a + d`, then
/// the sustain level on every later tick.
pub proof fn lemma_trigger_held<Src>(e: LiveAdsr<Src>, config: Config, n: nat)
    requires
        e.stage == Stage::Idle,
        n >= 1,
    ensures
        ({
            let s = e.run_trigger(config, true, n);
            let a = e.attack_len(config);
            let d = e.decay_len(config);
            &&& s.attack == e.attack
            &&& s.decay == e.decay
            &&& s.release == e.release
            &&& s.stage == Stage::Ads
            &&& s.sample_counter == if n < a + d {
                n
            } else {
                a + d
            }
            &&& s.current == held_level(a, d, (n - 1) as nat)
        }),
    decreases n,
{
    lemma_samples_in_bound(e.attack, config.sample_rate);
    lemma_samples_in_bound(e.decay, config.sample_rate);
    if n > 1 {
        lemma_trigger_held(e, config, (n - 1) as nat);
    } else {
        assert(e.run_trigger(config, true, 0) == e);
    }
}

/// Once the trigger falls during attack, decay or sustain, tick `j` (from 0)
/// emits the release ramp `j / r` down from the level held at that moment,
/// for `r = max(1, release samples)` ticks; the next tick is silent and the
/// envelope is idle again.
pub proof fn lemma_trigger_released<Src>(e: LiveAdsr<Src>, config: Config, n: nat)
    requires
        e.stage == Stage::Ads,
        1 <= n <= e.release_len(config) + 1,
    ensures
        ({
            let s = e.run_trigger(config, false, n);
            let r = e.release_len(config);
            &&& s.attack == e.attack
            &&& s.decay == e.decay
            &&& s.release == e.release
            &&& if n <= r {
                &&& s.stage == Stage::Release
                &&& s.sample_counter == n
                &&& s.current == Level::Release {
                    start: held_shape(e.current),
                    pos: (n - 1) as u64,
                    len: r as u64,
                }
            } else {
                &&& s.stage == Stage::Idle
                &&& s.current == Level::Hold(Shape::Zero)
            }
        }),
    decreases n,
{
    lemma_samples_in_bound(e.release, config.sample_rate);
    if n > 1 {
        lemma_trigger_released(e, config, (n - 1) as nat);
    } else {
        assert(e.run_trigger(config, false, 0) == e);
    }
}

/// Where a pitched envelope is in its life.
#[derive(Clone, Copy, Debug, PartialEq, Eq, Structural)]
pub enum AdsrStage {
    Idle,
    Attack,
    Decay,
    Sustain,
    Release,
}

/// A level of a pitched envelope, as a point `pos / len` of progress `p` on
/// one of its curves: the attack rises as `p * p` from 0 to 1, the decay falls
/// as `exp(-4 p)` from 1 toward the sustain level, the release falls as
/// `exp(-4 p)` from the level it started at toward 0.
#[derive(Clone, Copy, Debug, PartialEq, Eq, Structural)]
pub enum Curve {
    Silent,
    Rise { pos: u64, len: u64 },
    Fall { pos: u64, len: u64 },
    Sustain,
    Fade { start: Shape, pos: u64, len: u64 },
}

/// The held part of a curve point, as the start of a release.
pub open spec fn curve_shape(c: Curve) -> Shape {
    match c {
        Curve::Silent => Shape::Zero,
        Curve::Rise { pos, len } => Shape::Attack { pos, len },
        Curve::Fall { pos, len } => Shape::Decay { pos, len },
        Curve::Sustain => Shape::Sustain,
        Curve::Fade { start, .. } => start,
    }
}

/// A trigger-driven envelope with separate attack, decay, sustain and release
/// stages, for pitched voices.
///
/// The trigger is a pitch that is present while the note is held. Each stage
/// lasts at least one sample. The envelope keeps the last pitch it was given,
/// so that a voice keeps its pitch through the release.
pub struct Adsr<Src, T> {
    pub attack: u32,
    pub decay: u32,
    pub release: u32,
    pub stage: AdsrStage,
    pub current: Curve,
    pub sample_counter: u64,
    pub pitch: Option<T>,
    pub src: Src,
}

/// At least one sample.
pub open spec fn at_least_one(n: nat) -> nat {
    if n < 1 {
        1
    } else {
        n
    }
}

impl<Src, T: Copy> Adsr<Src, T> {
    /// An idle, silent envelope with no pitch yet; durations in
    /// microseconds.
    pub fn new(src: Src, attack: u32, decay: u32, release: u32) -> (r: Self)
        ensures
            r.attack == attack,
            r.decay == decay,
            r.release == release,
            r.stage == AdsrStage::Idle,
            r.current == Curve::Silent,
            r.sample_counter == 0,
            r.pitch is None,
            r.src == src,
    {
        Adsr {
            attack,
            decay,
            release,
            stage: AdsrStage::Idle,
            current: Curve::Silent,
            sample_counter: 0,
            pitch: None,
            src,
        }
    }

    /// Length in samples of the stage `stage`.
    pub open spec fn stage_len(&self, config: Config, stage: AdsrStage) -> nat {
        at_least_one(
            samples_in(
                match stage {
                    AdsrStage::Attack => self.attack,
                    AdsrStage::Decay => self.decay,
                    _ => self.release,
                },
                config.sample_rate,
            ),
        )
    }

    /// The state once the trigger's presence or absence has been taken.
    pub open spec fn gated(self, trigger: Option<T>) -> Self {
        let pitch = if trigger is Some {
            trigger
        } else {
            self.pitch
        };
        if self.stage == AdsrStage::Idle && trigger is Some {
            Adsr { stage: AdsrStage::Attack, sample_counter: 0, pitch, ..self }
        } else if trigger is None && self.stage != AdsrStage::Idle && self.stage
            != AdsrStage::Release {
            Adsr { stage: AdsrStage::Release, sample_counter: 0, pitch, ..self }
        } else {
            Adsr { pitch, ..self }
        }
    }

    /// The state after one tick within the current stage.
    pub open spec fn ticked(self, config: Config, start: Shape) -> Self {
        let n = self.sample_counter;
        let len = self.stage_len(config, self.stage);
        let next = if n + 1 >= len {
            match self.stage {
                AdsrStage::Attack => AdsrStage::Decay,
                AdsrStage::Decay => AdsrStage::Sustain,
                AdsrStage::Release => AdsrStage::Idle,
                other => other,
            }
        } else {
            self.stage
        };
        let counter = if n + 1 >= len {
            0
        } else {
            n + 1
        };
        match self.stage {
            AdsrStage::Idle => Adsr { current: Curve::Silent, ..self },
            AdsrStage::Sustain => Adsr { current: Curve::Sustain, ..self },
            AdsrStage::Attack => Adsr {
                stage: next,
                current: Curve::Rise { pos: n, len: len as u64 },
                sample_counter: counter as u64,
                ..self
            },
            AdsrStage::Decay => Adsr {
                stage: next,
                current: Curve::Fall { pos: n, len: len as u64 },
                sample_counter: counter as u64,
                ..self
            },
            AdsrStage::Release => Adsr {
                stage: next,
                current: Curve::Fade { start, pos: n, len: len as u64 },
                sample_counter: counter as u64,
                ..self
            },
        }
    }

    /// Where the release that may start on this tick starts from: the level
    /// last emitted, or the start of a release already running.
    pub open spec fn release_from(self) -> Shape {
        curve_shape(self.current)
    }

    /// One tick of the envelope with trigger `trigger`.
    pub open spec fn stepped(self, config: Config, trigger: Option<T>) -> Self {
        self.gated(trigger).ticked(config, self.release_from())
    }

    /// The state after `n` ticks with the trigger held at `trigger`.
    pub open spec fn run_note(self, config: Config, trigger: Option<T>, n: nat) -> Self
        decreases n,
    {
        if n == 0 {
            self
        } else {
            self.run_note(config, trigger, (n - 1) as nat).stepped(config, trigger)
        }
    }

    /// Advances the envelope by one tick with trigger `trigger`; returns the new
    /// level and the pitch held.
    pub fn process(&mut self, config: &Config, trigger: Option<T>) -> (r: (Curve, Option<T>))
        ensures
            *final(self) == old(self).stepped(*config, trigger),
            r == (final(self).current, final(self).pitch),
    {
        let start = match self.current {
            Curve::Silent => Shape::Zero,
            Curve::Rise { pos, len } => Shape::Attack { pos, len },
            Curve::Fall { pos, len } => Shape::Decay { pos, len },
            Curve::Sustain => Shape::Sustain,
            Curve::Fade { start, .. } => start,
        };
        if trigger.is_some() {
            self.pitch = trigger;
        }
        if self.stage == AdsrStage::Idle && trigger.is_some() {
            self.stage = AdsrStage::Attack;
            self.sample_counter = 0;
        } else if trigger.is_none() && self.stage != AdsrStage::Idle && self.stage
            != AdsrStage::Release {
            self.stage = AdsrStage::Release;
            self.sample_counter = 0;
        }
        let micros = match self.stage {
            AdsrStage::Attack => self.attack,
            AdsrStage::Decay => self.decay,
            _ => self.release,
        };
        let l = samples_of(micros, config.sample_rate);
        let len = if l < 1 {
            1
        } else {
            l
        };
        let n = self.sample_counter;
        let done = n >= len - 1;
        let counter = if done {
            0
        } else {
            n + 1
        };
        match self.stage {
            AdsrStage::Idle => {
                self.current = Curve::Silent;
            },
            AdsrStage::Sustain => {
                self.current = Curve::Sustain;
            },
            AdsrStage::Attack => {
                self.current = Curve::Rise { pos: n, len };
                self.sample_counter = counter;
                if done {
                    self.stage = AdsrStage::Decay;
                }
            },
            AdsrStage::Decay => {
                self.current = Curve::Fall { pos: n, len };
                self.sample_counter = counter;
                if done {
                    self.stage = AdsrStage::Sustain;
                }
            },
            AdsrStage::Release => {
                self.current = Curve::Fade { start, pos: n, len };
                self.sample_counter = counter;
                if done {
                    self.stage = AdsrStage::Idle;
                }
            },
        }
        (self.current, self.pitch)
    }
}

impl<Src: Process<Input = (), Output = Option<T>>, T: Copy> Process for Adsr<Src, T> {
    type Input = ();

    type Output = (Curve, Option<T>);

    open spec fn step_out(&self, config: Config, input: ()) -> (Curve, Option<T>) {
        let s = self.stepped(config, self.src.step_out(config, ()));
        (s.current, s.pitch)
    }

    open spec fn step_next(&self, config: Config, input: ()) -> Self {
        Adsr {
            src: self.src.step_next(config, ()),
            ..self.stepped(config, self.src.step_out(config, ()))
        }
    }

    open spec fn restarted(&self) -> Self {
        Adsr {
            attack: self.attack,
            decay: self.decay,
            release: self.release,
            stage: AdsrStage::Idle,
            current: Curve::Silent,
            sample_counter: 0,
            pitch: None,
            src: self.src.restarted(),
        }
    }

    fn sample(&mut self, config: &Config, input: ()) -> (r: (Curve, Option<T>)) {
        let trigger = self.src.sample(config, ());
        self.process(config, trigger)
    }

    fn reset(&mut self) {
        self.stage = AdsrStage::Idle;
        self.current = Curve::Silent;
        self.sample_counter = 0;
        self.pitch = None;
        self.src.reset();
    }
}

/// Level emitted on tick `k`, counted from 0, of a note held from idle, with
/// an attack of `a` samples and a decay of `d` samples.
pub open spec fn note_level(a: nat, d: nat, k: nat) -> Curve {
    if k < a {
        Curve::Rise { pos: k as u64, len: a as u64 }
    } else if k < a + d {
        Curve::Fall { pos: (k - a) as u64, len: d as u64 }
    } else {
        Curve::Sustain
    }
}

/// With a note held from idle, tick `k` emits the attack curve at `k / a`
/// while `k < a`, then the decay curve at `(k - a) / d` while `k < a + d`,
/// then the sustain level; the envelope keeps the note's pitch throughout.
pub proof fn lemma_note_held<Src, T: Copy>(e: Adsr<Src, T>, config: Config, pitch: T, n: nat)
    requires
        e.stage == AdsrStage::Idle,
        n >= 1,
    ensures
        ({
            let s = e.run_note(config, Some(pitch), n);
            let a = e.stage_len(config, AdsrStage::Attack);
            let d = e.stage_len(config, AdsrStage::Decay);
            &&& s.attack == e.attack
            &&& s.decay == e.decay
            &&& s.release == e.release
            &&& s.pitch == Some(pitch)
            &&& s.current == note_level(a, d, (n - 1) as nat)
            &&& s.stage == if n < a {
                AdsrStage::Attack
            } else if n < a + d {
                AdsrStage::Decay
            } else {
                AdsrStage::Sustain
            }
            &&& s.sample_counter == if n < a {
                n
            } else if n < a + d {
                (n - a) as nat
            } else {
                0
            }
        }),
    decreases n,
{
    lemma_samples_in_bound(e.attack, config.sample_rate);
    lemma_samples_in_bound(e.decay, config.sample_rate);
    if n > 1 {
        lemma_note_held(e, config, pitch, (n - 1) as nat);
    } else {
        assert(e.run_note(config, Some(pitch), 0) == e);
    }
}

/// A pitched envelope forgets its history on reset when its trigger source
/// does.
pub proof fn lemma_pitched_adsr_forgets<Src: Process<Input = (), Output = Option<T>>, T: Copy>()
    requires
        reset_forgets::<Src>(),
    ensures
        reset_forgets::<Adsr<Src, T>>(),
{
}

} // verus!
