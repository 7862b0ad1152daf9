use vstd::prelude::*;

verus! {

/// A fixed-length delay line: each push emits the oldest value held and
/// stores the new one in its place.
///
/// Its view lists the held values oldest first.
pub struct Lookahead<T> {
    buffer: Vec<T>,
    index: usize,
}

impl<T> View for Lookahead<T> {
    type V = Seq<T>;

    closed spec fn view(&self) -> Seq<T> {
        self.buffer@.subrange(self.index as int, self.buffer@.len() as int) + self.buffer@.subrange(
            0,
            self.index as int,
        )
    }
}

impl<T> Lookahead<T> {
    /// The cursor points into a non-empty buffer.
    pub closed spec fn wf(&self) -> bool {
        0 <= self.index < self.buffer@.len()
    }
}

impl<T: Copy> Lookahead<T> {
    /// A delay of `len` ticks, primed with `fill`.
    pub fn new(len: usize, fill: T) -> (r: Self)
        requires
            len > 0,
        ensures
            r.wf(),
            r@ == Seq::new(len as nat, |_i: int| fill),
    {
        let mut buffer: Vec<T> = Vec::with_capacity(len);
        let mut i: usize = 0;
        while i < len
            invariant
                i <= len,
                buffer@ == Seq::new(i as nat, |_i: int| fill),
            decreases len - i,
        {
            buffer.push(fill);
            i = i + 1;
        }
        let r = Lookahead { buffer, index: 0 };
        assert(r@ =~= Seq::new(len as nat, |_i: int| fill));
        r
    }

    /// Number of ticks a value is held.
    pub fn len(&self) -> (r: usize)
        requires
            self.wf(),
        ensures
            r == self@.len(),
            r > 0,
    {
        self.buffer.len()
    }

    /// Emits the oldest value and stores `x` as the newest.
    pub fn push(&mut self, x: T) -> (r: T)
        requires
            old(self).wf(),
        ensures
            final(self).wf(),
            r == old(self)@[0],
            final(self)@ == old(self)@.drop_first().push(x),
    {
        let ghost before = self@;
        let ghost i = self.index as int;
        let ghost n = self.buffer@.len() as int;
        let at = self.index;
        let n = self.buffer.len();
        let out = self.buffer[at];
        self.buffer.set(at, x);
        self.index = if at + 1 == n {
            0
        } else {
            at + 1
        };
        proof {
            assert(before[0] == out);
            assert(self@ =~= before.drop_first().push(x));
        }
        out
    }

    /// The held values in storage order: a rotation of the view.
    pub fn as_slice(&self) -> (r: &[T])
        requires
            self.wf(),
        ensures
            exists|i: int|
                0 <= i < r@.len() && self@ == r@.subrange(i, r@.len() as int) + r@.subrange(0, i),
    {
        let r = self.buffer.as_slice();
        assert(self@ == r@.subrange(self.index as int, r@.len() as int) + r@.subrange(
            0,
            self.index as int,
        ));
        r
    }
}

/// What a delay line holding `held` emits when `xs` is pushed, one by one.
pub open spec fn delay_outputs<T>(held: Seq<T>, xs: Seq<T>) -> Seq<T>
    decreases xs.len(),
{
    if xs.len() == 0 {
        Seq::empty()
    } else {
        seq![held[0]] + delay_outputs(held.drop_first().push(xs[0]), xs.drop_first())
    }
}

/// A delay line of length `n` emits on tick `k` what was pushed on tick
/// `k - n`, and before that the values it was primed with.
pub proof fn lemma_delay<T>(held: Seq<T>, xs: Seq<T>)
    requires
        held.len() > 0,
    ensures
        delay_outputs(held, xs) == (held + xs).subrange(0, xs.len() as int),
    decreases xs.len(),
{
    if xs.len() > 0 {
        let next = held.drop_first().push(xs[0]);
        lemma_delay(next, xs.drop_first());
        assert(next + xs.drop_first() =~= (held + xs).drop_first());
        assert(delay_outputs(held, xs) =~= (held + xs).subrange(0, xs.len() as int));
    }
}

} // verus!
