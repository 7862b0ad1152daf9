use crate::config::Config;
use crate::process::{Process, ReTrigger, Reset, repeated, reset_forgets};
use vstd::arithmetic::div_mod::{lemma_fundamental_div_mod, lemma_fundamental_div_mod_converse_mod};
use vstd::prelude::*;

verus! {

/// A source that emits `0, 1, ..., n` and then starts again from 0.
pub struct Count {
    pub n: usize,
    pub x: usize,
}

/// A counter from 0 that wraps after `n`.
pub fn count(n: usize) -> (r: Count)
    ensures
        r.n == n,
        r.x == 0,
{
    Count { n, x: 0 }
}

impl Count {
    /// The count after `x`.
    pub open spec fn successor(&self) -> usize {
        if self.x >= self.n {
            0
        } else {
            (self.x + 1) as usize
        }
    }
}

impl Process for Count {
    type Input = ();

    type Output = usize;

    open spec fn step_out(&self, config: Config, input: ()) -> usize {
        self.x
    }

    open spec fn step_next(&self, config: Config, input: ()) -> Self {
        Count { n: self.n, x: self.successor() }
    }

    open spec fn restarted(&self) -> Self {
        Count { n: self.n, x: 0 }
    }

    fn sample(&mut self, config: &Config, input: ()) -> (r: usize) {
        let current = self.x;
        self.x = if self.x >= self.n {
            0
        } else {
            self.x + 1
        };
        current
    }

    fn reset(&mut self) {
        self.x = 0;
    }
}

/// A counter forgets its history on reset.
pub proof fn lemma_count_forgets()
    ensures
        reset_forgets::<Count>(),
{
}

/// A trigger that is on for one tick in every `n + 1`: the tick on which the
/// underlying count reaches `n`.
pub struct Samples {
    pub count: Count,
}

/// A trigger on every `n + 1`-th tick, first on tick `n`.
pub fn samples(n: usize) -> (r: Samples)
    ensures
        r.count == (Count { n, x: 0 }),
{
    Samples { count: count(n) }
}

impl Process for Samples {
    type Input = ();

    type Output = bool;

    open spec fn step_out(&self, config: Config, input: ()) -> bool {
        self.count.x == self.count.n
    }

    open spec fn step_next(&self, config: Config, input: ()) -> Self {
        Samples { count: self.count.step_next(config, ()) }
    }

    open spec fn restarted(&self) -> Self {
        Samples { count: self.count.restarted() }
    }

    fn sample(&mut self, config: &Config, input: ()) -> (r: bool) {
        let c = self.count.sample(config, ());
        c == self.count.n
    }

    fn reset(&mut self) {
        self.count.reset();
    }
}

/// A sample trigger forgets its history on reset.
pub proof fn lemma_samples_forgets()
    ensures
        reset_forgets::<Samples>(),
{
}

/// A trigger that is on once every `n` beats, on the tick where the beats
/// counted reach `n`.
///
/// The count is exact: it is held in units of `1 / (60 * unit)` beats, where
/// `unit` is the sample rate it was last advanced at, so that a tick adds
/// `bpm` units. When the sample rate changes, the count is re-expressed at
/// the new rate, rounding down. When the count reaches `n` beats, `n` beats
/// are subtracted, so that the remainder carries over.
pub struct Beats {
    pub n: u64,
    pub acc: u128,
    pub unit: u32,
}

/// A trigger on every `n`-th beat.
pub fn beats(n: usize) -> (r: Beats)
    ensures
        r.n == n,
        r.acc == 0,
        r.unit == 0,
{
    Beats { n: n as u64, acc: 0, unit: 0 }
}

impl Beats {
    /// The boundary in units at the clock's rate: `n * 60 * sample_rate`.
    pub open spec fn boundary(&self, config: Config) -> int {
        self.n * window(config)
    }

    /// The count re-expressed at the clock's rate.
    pub open spec fn rescaled(&self, config: Config) -> int {
        if self.unit == config.sample_rate {
            self.acc as int
        } else if self.unit == 0 {
            0
        } else if self.acc * config.sample_rate > PHASE_MAX {
            PHASE_MAX as int
        } else {
            self.acc * config.sample_rate / (self.unit as int)
        }
    }
}

impl Process for Beats {
    type Input = ();

    type Output = bool;

    open spec fn step_out(&self, config: Config, input: ()) -> bool {
        self.rescaled(config) >= self.boundary(config)
    }

    open spec fn step_next(&self, config: Config, input: ()) -> Self {
        let q = self.rescaled(config);
        let p = if q >= self.boundary(config) {
            q - self.boundary(config)
        } else {
            q
        };
        Beats {
            n: self.n,
            acc: if p + config.bpm > PHASE_MAX {
                PHASE_MAX
            } else {
                (p + config.bpm) as u128
            },
            unit: config.sample_rate,
        }
    }

    open spec fn restarted(&self) -> Self {
        Beats { n: self.n, acc: 0, unit: 0 }
    }

    fn sample(&mut self, config: &Config, input: ()) -> (r: bool) {
        let sr = config.sample_rate as u128;
        let d: u128 = 60 * sr;
        let nn = self.n as u128;
        assert(nn * d <= 0xffff_ffff_ffff_ffff_ffff_ffff_ffff) by (nonlinear_arith)
            requires
                nn <= 0xffff_ffff_ffff_ffff,
                d <= 60 * 0xffff_ffff,
        ;
        let boundary = nn * d;
        let q: u128 = if self.unit == config.sample_rate {
            self.acc
        } else if self.unit == 0 {
            0
        } else {
            match self.acc.checked_mul(sr) {
                Some(m) => m / self.unit as u128,
                None => PHASE_MAX,
            }
        };
        let fire = q >= boundary;
        let p = if fire {
            q - boundary
        } else {
            q
        };
        self.acc = p.saturating_add(config.bpm as u128);
        self.unit = config.sample_rate;
        fire
    }

    fn reset(&mut self) {
        self.acc = 0;
        self.unit = 0;
    }
}

/// A beat trigger forgets its history on reset.
pub proof fn lemma_beats_forgets()
    ensures
        reset_forgets::<Beats>(),
{
}

/// A step sequencer: emits its values in order, one per tick, and wraps
/// around.
pub struct Steps<T> {
    values: Vec<T>,
    index: usize,
}

impl<T> Steps<T> {
    #[verifier::type_invariant]
    spec fn inv(&self) -> bool {
        0 <= self.index < self.values.len()
    }

    /// The values, in order.
    pub closed spec fn values(&self) -> Seq<T> {
        self.values@
    }

    /// The index of the value emitted next.
    pub closed spec fn index(&self) -> nat {
        self.index as nat
    }
}

/// A sequencer over `values`, starting from the first.
pub fn seq<T>(values: Vec<T>) -> (r: Steps<T>)
    requires
        values@.len() > 0,
    ensures
        r.values() == values@,
        r.index() == 0,
{
    Steps { values, index: 0 }
}

impl<T: Copy> Process for Steps<T> {
    type Input = ();

    type Output = T;

    open spec fn step_out(&self, config: Config, input: ()) -> T {
        self.values()[self.index() as int]
    }

    closed spec fn step_next(&self, config: Config, input: ()) -> Self {
        let next = (self.index + 1) % (self.values@.len() as int);
        Steps { values: self.values, index: next as usize }
    }

    closed spec fn restarted(&self) -> Self {
        Steps { values: self.values, index: 0 }
    }

    fn sample(&mut self, config: &Config, input: ()) -> (r: T) {
        proof {
            use_type_invariant(&*self);
        }
        let v = self.values[self.index];
        self.index = (self.index + 1) % self.values.len();
        v
    }

    fn reset(&mut self) {
        proof {
            use_type_invariant(&*self);
        }
        self.index = 0;
    }
}

/// A tick moves a sequencer on by one value, wrapping at the end; a reset
/// takes it back to the first value.
pub proof fn lemma_steps_advance<T: Copy>(s: Steps<T>, config: Config)
    ensures
        s.step_next(config, ()).values() == s.values(),
        0 < s.values().len() <= usize::MAX ==> s.step_next(config, ()).index() == (s.index()
            + 1) % s.values().len(),
        s.restarted().values() == s.values(),
        s.restarted().index() == 0,
{
}

/// A sequencer forgets its history on reset.
pub proof fn lemma_steps_forgets<T: Copy>()
    ensures
        reset_forgets::<Steps<T>>(),
{
}

/// Largest phase a quantizer holds.
pub const PHASE_MAX: u128 = 0xffff_ffff_ffff_ffff_ffff_ffff_ffff_ffff;

/// A segment quantizer: samples `src` once per window of
/// `samples_per_beat / seg` samples and holds that value in between.
///
/// The phase counts samples since the window opened, exactly: it is held in
/// units of `1 / scale` samples, where `scale = bpm * seg` is the tempo it was
/// last advanced at; a window is then `60 * sample_rate` units long. When the
/// tempo changes, the phase is re-expressed at the new scale, rounding down.
/// When a window closes, its length is subtracted, so that the rounding of
/// earlier windows carries over.
pub struct Seg<Src: Process> {
    pub src: Src,
    pub seg: u64,
    pub phase: u128,
    pub scale: u128,
    pub retained: Option<Src::Output>,
}

impl<Src: Process> Seg<Src> {
    /// A quantizer into `seg` windows per beat (at least one), that samples
    /// `src` on its first tick.
    pub fn new(src: Src, seg: usize) -> (r: Self)
        ensures
            r.src == src,
            r.seg == if seg == 0 {
                1
            } else {
                seg
            },
            r.phase == 0,
            r.scale == 0,
            r.retained is None,
    {
        let seg = if seg == 0 {
            1
        } else {
            seg as u64
        };
        Seg { src, seg, phase: 0, scale: 0, retained: None }
    }

    /// Phase units per sample at the clock's tempo.
    pub open spec fn scale_at(&self, config: Config) -> int {
        config.bpm * self.seg
    }

    /// The phase re-expressed at scale `s`.
    pub open spec fn rescaled(&self, s: int) -> int {
        if self.scale == s {
            self.phase as int
        } else if self.scale == 0 {
            0
        } else if self.phase * s > PHASE_MAX {
            PHASE_MAX as int
        } else {
            self.phase * s / (self.scale as int)
        }
    }

    /// Whether this tick opens a new window and samples the source.
    pub open spec fn due(&self, config: Config) -> bool {
        self.retained is None || self.rescaled(self.scale_at(config)) >= window(config)
    }

    /// Phase at the end of this tick.
    pub open spec fn phase_after(&self, config: Config) -> u128 {
        let s = self.scale_at(config);
        let q = self.rescaled(s);
        let p = if self.retained is None {
            0
        } else if q >= window(config) {
            q - window(config)
        } else {
            q
        };
        if p + s > PHASE_MAX {
            PHASE_MAX
        } else {
            (p + s) as u128
        }
    }
}

/// Length of a quantizer window in phase units: `60 * sample_rate`.
pub open spec fn window(config: Config) -> int {
    60 * config.sample_rate
}

impl<Src: Process> Process for Seg<Src> where Src::Output: Copy {
    type Input = Src::Input;

    type Output = Src::Output;

    open spec fn step_out(&self, config: Config, input: Src::Input) -> Src::Output {
        if self.due(config) {
            self.src.step_out(config, input)
        } else {
            self.retained->Some_0
        }
    }

    open spec fn step_next(&self, config: Config, input: Src::Input) -> Self {
        Seg {
            src: if self.due(config) {
                self.src.step_next(config, input)
            } else {
                self.src
            },
            seg: self.seg,
            phase: self.phase_after(config),
            scale: self.scale_at(config) as u128,
            retained: if self.due(config) {
                Some(self.src.step_out(config, input))
            } else {
                self.retained
            },
        }
    }

    open spec fn restarted(&self) -> Self {
        Seg { src: self.src.restarted(), seg: self.seg, phase: 0, scale: 0, retained: None }
    }

    fn sample(&mut self, config: &Config, input: Src::Input) -> (r: Src::Output) {
        let b = config.bpm as u128;
        let g = self.seg as u128;
        assert(b * g <= 0xffff_ffff_ffff_ffff_ffff_ffff) by (nonlinear_arith)
            requires
                b <= 0xffff_ffff,
                g <= 0xffff_ffff_ffff_ffff,
        ;
        let s: u128 = b * g;
        let d: u128 = 60 * config.sample_rate as u128;
        let q: u128 = if self.scale == s {
            self.phase
        } else if self.scale == 0 {
            0
        } else {
            match self.phase.checked_mul(s) {
                Some(m) => m / self.scale,
                None => PHASE_MAX,
            }
        };
        let p: u128;
        let out = match self.retained {
            None => {
                p = 0;
                let o = self.src.sample(config, input);
                self.retained = Some(o);
                o
            },
            Some(v) => {
                if q >= d {
                    p = q - d;
                    let o = self.src.sample(config, input);
                    self.retained = Some(o);
                    o
                } else {
                    p = q;
                    v
                }
            },
        };
        self.phase = p.saturating_add(s);
        self.scale = s;
        out
    }

    fn reset(&mut self) {
        self.src.reset();
        self.phase = 0;
        self.scale = 0;
        self.retained = None;
    }
}

/// A quantizer forgets its history on reset when its source does.
pub proof fn lemma_seg_forgets<Src: Process>() where Src::Output: Copy
    requires
        reset_forgets::<Src>(),
    ensures
        reset_forgets::<Seg<Src>>(),
{
}

/// Timing builders available on every process.
pub trait TrigExt: Process {
    /// Holds this process's output across `seg` windows per beat.
    fn seg(self, seg: usize) -> (r: Seg<Self>)
        ensures
            r.src == self,
            r.seg == if seg == 0 {
                1
            } else {
                seg
            },
            r.phase == 0,
            r.scale == 0,
            r.retained is None,
    {
        Seg::new(self, seg)
    }

    /// Restarts this process on each rising edge of the trigger `trigger`.
    fn retrig<Trig: Process<Input = (), Output = bool>>(
        self,
        trigger: Trig,
    ) -> (r: ReTrigger<Self, Trig>)
        ensures
            r == (Reset { src: self, trig: trigger, triggered: false }),
    {
        Reset { src: self, trig: trigger, triggered: false }
    }
}

impl<T: Process> TrigExt for T {

}

/// Counting up by one modulo `w`: from the last residue back to 0, else one
/// more.
proof fn lemma_mod_successor(m: int, w: int)
    requires
        m >= 0,
        w >= 1,
    ensures
        m % w == w - 1 ==> (m + 1) % w == 0,
        m % w != w - 1 ==> (m + 1) % w == m % w + 1,
{
    lemma_fundamental_div_mod(m, w);
    let q = m / w;
    let r = m % w;
    if r == w - 1 {
        assert(m + 1 == (q + 1) * w + 0) by (nonlinear_arith)
            requires
                m == w * q + r,
                r == w - 1,
        ;
        lemma_fundamental_div_mod_converse_mod(m + 1, w, q + 1, 0);
    } else {
        assert(m + 1 == q * w + (r + 1)) by (nonlinear_arith)
            requires
                m == w * q + r,
        ;
        lemma_fundamental_div_mod_converse_mod(m + 1, w, q, r + 1);
    }
}

#[verifier::spinoff_prover]
/// Under a steady clock whose window is `w` whole samples long, a fresh
/// quantizer samples its source on tick `k` exactly when `k` is a multiple
/// of `w`, and on every other tick emits the value it holds, unchanged.
pub proof fn lemma_seg_period<Src: Process>(
    g: Seg<Src>,
    config: Config,
    input: Src::Input,
    w: nat,
    k: nat,
) where Src::Output: Copy
    requires
        config.wf(),
        g.retained is None,
        w >= 1,
        g.scale_at(config) * w == window(config),
    ensures
        repeated(g, config, input, k).due(config) <==> k % w == 0,
        !repeated(g, config, input, k).due(config) ==> ({
            let h = repeated(g, config, input, k);
            &&& h.retained is Some
            &&& h.step_out(config, input) == h.retained->Some_0
            &&& h.step_next(config, input).retained == h.retained
        }),
        k >= 1 ==> ({
            let h = repeated(g, config, input, k);
            &&& h.seg == g.seg
            &&& h.scale == g.scale_at(config)
            &&& h.retained is Some
            &&& h.phase == ((k - 1) % (w as int) + 1) * g.scale_at(config)
        }),
    decreases k,
{
    let s = g.scale_at(config);
    let d = window(config);
    assert(s > 0) by (nonlinear_arith)
        requires
            s * w == d,
            d > 0,
            s >= 0,
    ;
    assert(s <= 0xffff_ffff_ffff_ffff_ffff_ffff) by (nonlinear_arith)
        requires
            s == config.bpm * g.seg,
            config.bpm <= 0xffff_ffff,
            g.seg <= 0xffff_ffff_ffff_ffff,
    ;
    if k == 0 {
    } else if k == 1 {
        assert(repeated(g, config, input, 0) == g);
        let h = repeated(g, config, input, 1);
        assert(h == g.step_next(config, input));
        assert(h.phase == s);
        assert(h.scale == s);
        assert(h.seg == g.seg);
        assert(h.retained is Some);
        assert(k - 1 == 0);
        assert(0int % (w as int) == 0);
        assert((0int + 1) * s == s);
        assert(0int % (w as int) == 0);
        if w == 1 {
            assert(1nat % w == 0);
        } else {
            lemma_mod_successor(0, w as int);
            assert(0int % (w as int) == 0);
            assert(1nat % w == 1);
            assert(s * 1 < s * w) by (nonlinear_arith)
                requires
                    s > 0,
                    w > 1,
            ;
        }
    } else {
        lemma_seg_period(g, config, input, w, (k - 1) as nat);
        let prev = repeated(g, config, input, (k - 1) as nat);
        let h = repeated(g, config, input, k);
        let r = (k - 2) % (w as int);
        lemma_mod_successor(k - 2, w as int);
        lemma_mod_successor(k - 1, w as int);
        let r2 = (k - 1) % (w as int);
        assert(k - 2 + 1 == k - 1);
        assert(0 <= r < w);
        assert(prev.phase == (r + 1) * s);
        assert(prev.rescaled(s) == prev.phase);
        if r == w - 1 {
            assert((r + 1) * s == s * w) by (nonlinear_arith)
                requires
                    r == w - 1,
            ;
            assert(h.phase == s);
            assert(r2 == 0);
            assert(h.phase == (r2 + 1) * s);
        } else {
            assert((r + 1) * s < s * w) by (nonlinear_arith)
                requires
                    r + 1 < w,
                    s > 0,
            ;
            assert((r + 1) * s + s == (r + 2) * s) by (nonlinear_arith);
            assert((r + 2) * s <= s * w) by (nonlinear_arith)
                requires
                    r + 2 <= w,
                    s > 0,
            ;
            assert(h.phase == (r + 2) * s);
            assert(r2 == r + 1);
            assert(h.phase == (r2 + 1) * s);
        }
        assert(h.rescaled(s) == h.phase);
        if r2 == w - 1 {
            assert((r2 + 1) * s == s * w) by (nonlinear_arith)
                requires
                    r2 == w - 1,
            ;
        } else {
            assert((r2 + 1) * s < s * w) by (nonlinear_arith)
                requires
                    r2 + 1 < w,
                    s > 0,
            ;
        }
    }
}

} // verus!
