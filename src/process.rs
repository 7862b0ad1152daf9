use crate::config::Config;
use vstd::prelude::*;

verus! {

/// A stateful unit that maps one input frame to one output frame per tick.
///
/// Its behaviour is a deterministic state machine: `step_out` is what a tick
/// emits and `step_next` the state it leaves behind. Every process of this
/// library defines the three spec functions; an implementation written
/// outside the verifier may leave them at their defaults, and then nothing
/// is known of what it does.
pub trait Process: Sized {
    type Input;

    type Output;

    /// Output of one tick from this state.
    open spec fn step_out(&self, config: Config, input: Self::Input) -> Self::Output {
        arbitrary()
    }

    /// State after one tick from this state.
    open spec fn step_next(&self, config: Config, input: Self::Input) -> Self {
        arbitrary()
    }

    /// State after `reset`.
    open spec fn restarted(&self) -> Self {
        arbitrary()
    }

    /// Runs one tick.
    fn sample(&mut self, config: &Config, input: Self::Input) -> (r: Self::Output)
        requires
            config.wf(),
        ensures
            r == old(self).step_out(*config, input),
            *final(self) == old(self).step_next(*config, input),
    ;

    /// Reinitialises time-dependent state, keeping the structure.
    fn reset(&mut self)
        ensures
            *final(self) == old(self).restarted(),
    ;
}

/// For every state of `P`, what a reset leaves does not depend on the ticks
/// run before it, and a second reset changes nothing.
pub open spec fn reset_forgets<P: Process>() -> bool {
    &&& forall|p: P, config: Config, input: P::Input|
        #[trigger] p.step_next(config, input).restarted() == p.restarted()
    &&& forall|p: P| #[trigger] p.restarted().restarted() == p.restarted()
}

/// Outputs of `p` driven through `inputs`, one tick each, under one clock.
pub open spec fn outputs<P: Process>(
    p: P,
    config: Config,
    inputs: Seq<P::Input>,
) -> Seq<P::Output>
    decreases inputs.len(),
{
    if inputs.len() == 0 {
        Seq::empty()
    } else {
        seq![p.step_out(config, inputs[0])] + outputs(
            p.step_next(config, inputs[0]),
            config,
            inputs.drop_first(),
        )
    }
}

/// State of `p` after being driven through `inputs`.
pub open spec fn advance<P: Process>(p: P, config: Config, inputs: Seq<P::Input>) -> P
    decreases inputs.len(),
{
    if inputs.len() == 0 {
        p
    } else {
        advance(p.step_next(config, inputs[0]), config, inputs.drop_first())
    }
}

/// State of `p` after `k` ticks on the same input under one clock.
pub open spec fn repeated<P: Process>(p: P, config: Config, input: P::Input, k: nat) -> P
    decreases k,
{
    if k == 0 {
        p
    } else {
        repeated(p, config, input, (k - 1) as nat).step_next(config, input)
    }
}

/// Sequential composition: the upstream's output is the downstream's input
/// on the same tick.
pub struct Pipe<X, Y> {
    pub x: X,
    pub y: Y,
}

impl<X: Process, Y: Process<Input = X::Output>> Process for Pipe<X, Y> {
    type Input = X::Input;

    type Output = Y::Output;

    open spec fn step_out(&self, config: Config, input: X::Input) -> Y::Output {
        self.y.step_out(config, self.x.step_out(config, input))
    }

    open spec fn step_next(&self, config: Config, input: X::Input) -> Self {
        Pipe {
            x: self.x.step_next(config, input),
            y: self.y.step_next(config, self.x.step_out(config, input)),
        }
    }

    open spec fn restarted(&self) -> Self {
        Pipe { x: self.x.restarted(), y: self.y.restarted() }
    }

    fn sample(&mut self, config: &Config, input: X::Input) -> (r: Y::Output) {
        let mid = self.x.sample(config, input);
        self.y.sample(config, mid)
    }

    fn reset(&mut self) {
        self.x.reset();
        self.y.reset();
    }
}

/// A chain forgets its history on reset when both of its parts do.
pub proof fn lemma_pipe_forgets<X: Process, Y: Process<Input = X::Output>>()
    requires
        reset_forgets::<X>(),
        reset_forgets::<Y>(),
    ensures
        reset_forgets::<Pipe<X, Y>>(),
{
}

/// Chaining is associative: `(a then b) then c` and `a then (b then c)` give
/// the same output sequence from the same states and inputs.
pub proof fn lemma_pipe_associative<
    A: Process,
    B: Process<Input = A::Output>,
    C: Process<Input = B::Output>,
>(
    a: A,
    b: B,
    c: C,
    config: Config,
    inputs: Seq<A::Input>,
)
    ensures
        outputs(Pipe { x: Pipe { x: a, y: b }, y: c }, config, inputs) == outputs(
            Pipe { x: a, y: Pipe { x: b, y: c } },
            config,
            inputs,
        ),
    decreases inputs.len(),
{
    if inputs.len() > 0 {
        let i = inputs[0];
        let ao = a.step_out(config, i);
        let bo = b.step_out(config, ao);
        lemma_pipe_associative(
            a.step_next(config, i),
            b.step_next(config, ao),
            c.step_next(config, bo),
            config,
            inputs.drop_first(),
        );
    }
}

/// Parallel composition: both sides read the same input, and the output
/// frame joins their frames, left channels first.
pub struct Stack<X, Y> {
    pub x: X,
    pub y: Y,
}

impl<X, Y> Process for Stack<X, Y> where X: Process, Y: Process<Input = X::Input>, X::Input: Copy {
    type Input = X::Input;

    type Output = (X::Output, Y::Output);

    open spec fn step_out(&self, config: Config, input: X::Input) -> (X::Output, Y::Output) {
        (self.x.step_out(config, input), self.y.step_out(config, input))
    }

    open spec fn step_next(&self, config: Config, input: X::Input) -> Self {
        Stack { x: self.x.step_next(config, input), y: self.y.step_next(config, input) }
    }

    open spec fn restarted(&self) -> Self {
        Stack { x: self.x.restarted(), y: self.y.restarted() }
    }

    fn sample(&mut self, config: &Config, input: X::Input) -> (r: (X::Output, Y::Output)) {
        let left = self.x.sample(config, input);
        let right = self.y.sample(config, input);
        (left, right)
    }

    fn reset(&mut self) {
        self.x.reset();
        self.y.reset();
    }
}

/// A stack forgets its history on reset when both of its sides do.
pub proof fn lemma_stack_forgets<X: Process, Y: Process<Input = X::Input>>() where X::Input: Copy
    requires
        reset_forgets::<X>(),
        reset_forgets::<Y>(),
    ensures
        reset_forgets::<Stack<X, Y>>(),
{
}

/// Driven alone or side by side, each part of a stack produces the same
/// output sequence: the stack's frames are the left side's own frames joined
/// with the right side's, on every tick.
pub proof fn lemma_stack_outputs<X, Y>(x: X, y: Y, config: Config, inputs: Seq<X::Input>) where
    X: Process,
    Y: Process<Input = X::Input>,
    X::Input: Copy,

    ensures
        outputs(Stack { x, y }, config, inputs).len() == inputs.len(),
        forall|k: int|
            0 <= k < inputs.len() ==> {
                &&& (#[trigger] outputs(Stack { x, y }, config, inputs)[k]).0 == outputs(
                    x,
                    config,
                    inputs,
                )[k]
                &&& outputs(Stack { x, y }, config, inputs)[k].1 == outputs(y, config, inputs)[k]
            },
    decreases inputs.len(),
{
    lemma_outputs_len(x, config, inputs);
    lemma_outputs_len(y, config, inputs);
    lemma_outputs_len(Stack { x, y }, config, inputs);
    if inputs.len() > 0 {
        let i = inputs[0];
        let rest = inputs.drop_first();
        lemma_stack_outputs(x.step_next(config, i), y.step_next(config, i), config, rest);
        assert forall|k: int| 1 <= k < inputs.len() implies {
            &&& (#[trigger] outputs(Stack { x, y }, config, inputs)[k]).0 == outputs(
                x,
                config,
                inputs,
            )[k]
            &&& outputs(Stack { x, y }, config, inputs)[k].1 == outputs(y, config, inputs)[k]
        } by {
            let sx = x.step_next(config, i);
            let sy = y.step_next(config, i);
            assert(outputs(Stack { x, y }, config, inputs)[k] == outputs(
                Stack { x: sx, y: sy },
                config,
                rest,
            )[k - 1]);
            assert(outputs(x, config, inputs)[k] == outputs(sx, config, rest)[k - 1]);
            assert(outputs(y, config, inputs)[k] == outputs(sy, config, rest)[k - 1]);
        }
    }
}

/// One output per input.
pub proof fn lemma_outputs_len<P: Process>(p: P, config: Config, inputs: Seq<P::Input>)
    ensures
        outputs(p, config, inputs).len() == inputs.len(),
    decreases inputs.len(),
{
    if inputs.len() > 0 {
        lemma_outputs_len(p.step_next(config, inputs[0]), config, inputs.drop_first());
    }
}

/// A reset leaves the same state whatever ran before it.
pub proof fn lemma_advance_restarted<P: Process>(p: P, config: Config, history: Seq<P::Input>)
    requires
        reset_forgets::<P>(),
    ensures
        advance(p, config, history).restarted() == p.restarted(),
    decreases history.len(),
{
    if history.len() > 0 {
        lemma_advance_restarted(p.step_next(config, history[0]), config, history.drop_first());
        assert(p.step_next(config, history[0]).restarted() == p.restarted());
    }
}

/// Resetting a fresh graph and resetting one that has run for any number of
/// ticks give the same output sequence for the same inputs afterwards.
pub proof fn lemma_reset_round_trip<P: Process>(
    p: P,
    config: Config,
    history: Seq<P::Input>,
    inputs: Seq<P::Input>,
)
    requires
        reset_forgets::<P>(),
    ensures
        outputs(advance(p, config, history).restarted(), config, inputs) == outputs(
            p.restarted(),
            config,
            inputs,
        ),
{
    lemma_advance_restarted(p, config, history);
}

/// Restarts `src` on each rising edge of the trigger `trig` before sampling it.
///
/// `triggered` records that the trigger is held on, so that a long trigger
/// restarts the source once.
pub struct Reset<Src, Trig> {
    pub src: Src,
    pub trig: Trig,
    pub triggered: bool,
}

/// [`Reset`], under the name the timing builders use for it.
pub type ReTrigger<Src, Trig> = Reset<Src, Trig>;

impl<Src, Trig> Reset<Src, Trig> {
    /// Whether the trigger value `trigger` marks a rising edge.
    pub open spec fn rises(&self, trigger: bool) -> bool {
        !self.triggered && trigger
    }

    /// Whether the trigger value `trigger` marks a falling edge.
    pub open spec fn falls(&self, trigger: bool) -> bool {
        self.triggered && !trigger
    }
}

impl<Src: Process, Trig: Process<Input = (), Output = bool>> Reset<Src, Trig> {
    /// The source as it stands once this tick's trigger edge has been handled.
    pub open spec fn armed_src(&self, config: Config) -> Src {
        if self.rises(self.trig.step_out(config, ())) {
            self.src.restarted()
        } else {
            self.src
        }
    }
}

impl<Src: Process, Trig: Process<Input = (), Output = bool>> Process for Reset<Src, Trig> {
    type Input = Src::Input;

    type Output = Src::Output;

    open spec fn step_out(&self, config: Config, input: Src::Input) -> Src::Output {
        self.armed_src(config).step_out(config, input)
    }

    open spec fn step_next(&self, config: Config, input: Src::Input) -> Self {
        let trigger = self.trig.step_out(config, ());
        Reset {
            src: self.armed_src(config).step_next(config, input),
            trig: self.trig.step_next(config, ()),
            triggered: if self.rises(trigger) {
                true
            } else if self.falls(trigger) {
                false
            } else {
                self.triggered
            },
        }
    }

    open spec fn restarted(&self) -> Self {
        Reset { src: self.src.restarted(), trig: self.trig.restarted(), triggered: false }
    }

    fn sample(&mut self, config: &Config, input: Src::Input) -> (r: Src::Output) {
        let trigger = self.trig.sample(config, ());
        if !self.triggered && trigger {
            self.triggered = true;
            self.src.reset();
        } else if self.triggered && !trigger {
            self.triggered = false;
        }
        self.src.sample(config, input)
    }

    fn reset(&mut self) {
        self.src.reset();
        self.trig.reset();
        self.triggered = false;
    }
}

/// A retriggered process forgets its history on reset when its source and
/// its trigger do.
pub proof fn lemma_retrigger_forgets<Src: Process, Trig: Process<Input = (), Output = bool>>()
    requires
        reset_forgets::<Src>(),
        reset_forgets::<Trig>(),
    ensures
        reset_forgets::<Reset<Src, Trig>>(),
{
    assert forall|p: Reset<Src, Trig>, config: Config, input: Src::Input|
        #[trigger] p.step_next(config, input).restarted() == p.restarted() by {
        assert(p.src.step_next(config, input).restarted() == p.src.restarted());
        assert(p.src.restarted().step_next(config, input).restarted()
            == p.src.restarted().restarted());
        assert(p.trig.step_next(config, ()).restarted() == p.trig.restarted());
    }
}

/// A source that emits the same frame on every tick.
pub struct C<T>(pub T);

/// A constant source of `value`.
pub fn c<T: Copy>(value: T) -> (r: An<C<T>>)
    ensures
        r.0 == C(value),
{
    An(C(value))
}

impl<T: Copy> Process for C<T> {
    type Input = ();

    type Output = T;

    open spec fn step_out(&self, config: Config, input: ()) -> T {
        self.0
    }

    open spec fn step_next(&self, config: Config, input: ()) -> Self {
        *self
    }

    open spec fn restarted(&self) -> Self {
        *self
    }

    fn sample(&mut self, config: &Config, input: ()) -> (r: T) {
        self.0
    }

    fn reset(&mut self) {
    }
}

/// A constant source has nothing to forget.
pub proof fn lemma_constant_forgets<T: Copy>()
    ensures
        reset_forgets::<C<T>>(),
{
}

/// A process handle that offers the composition builders.
pub struct An<T>(pub T);

impl<T: Process> Process for An<T> {
    type Input = T::Input;

    type Output = T::Output;

    open spec fn step_out(&self, config: Config, input: T::Input) -> T::Output {
        self.0.step_out(config, input)
    }

    open spec fn step_next(&self, config: Config, input: T::Input) -> Self {
        An(self.0.step_next(config, input))
    }

    open spec fn restarted(&self) -> Self {
        An(self.0.restarted())
    }

    fn sample(&mut self, config: &Config, input: T::Input) -> (r: T::Output) {
        self.0.sample(config, input)
    }

    fn reset(&mut self) {
        self.0.reset();
    }
}

/// A handle forgets its history on reset when what it holds does.
pub proof fn lemma_handle_forgets<T: Process>()
    requires
        reset_forgets::<T>(),
    ensures
        reset_forgets::<An<T>>(),
{
}

impl<X: Process> An<X> {
    /// Feeds this process's output into `y`.
    pub fn then<Y: Process<Input = X::Output>>(self, y: Y) -> (r: An<Pipe<X, Y>>)
        ensures
            r.0 == (Pipe { x: self.0, y }),
    {
        An(Pipe { x: self.0, y })
    }

    /// Runs `y` beside this process on the same input.
    pub fn stack_with<Y: Process<Input = X::Input>>(self, y: Y) -> (r: An<Stack<X, Y>>) where
        X::Input: Copy,

        ensures
            r.0 == (Stack { x: self.0, y }),
    {
        An(Stack { x: self.0, y })
    }

    /// Restarts this process on each rising edge of the trigger `trig`.
    pub fn res<Trig: Process<Input = (), Output = bool>>(
        self,
        trig: Trig,
    ) -> (r: An<Reset<X, Trig>>)
        ensures
            r.0 == (Reset { src: self.0, trig, triggered: false }),
    {
        An(Reset { src: self.0, trig, triggered: false })
    }
}

} // verus!
