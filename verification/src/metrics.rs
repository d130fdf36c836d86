//! The sample histories behind the monitor's graphs, and unit conversions of
//! system metrics.
use vstd::prelude::*;

verus! {

/// How many samples a history keeps: one minute at one sample per second.
pub const HISTORY_CAPACITY: usize = 60;

/// The last `HISTORY_CAPACITY` elements of `s`, or all of `s` when it is shorter.
pub open spec fn last_samples<T>(s: Seq<T>) -> Seq<T> {
    if s.len() > HISTORY_CAPACITY {
        s.subrange(s.len() - HISTORY_CAPACITY, s.len() as int)
    } else {
        s
    }
}

/// The content of a history that held `start` after `xs` were pushed in order.
pub open spec fn after_pushes<T>(start: Seq<T>, xs: Seq<T>) -> Seq<T>
    decreases xs.len(),
{
    if xs.len() == 0 {
        start
    } else {
        last_samples(after_pushes(start, xs.drop_last()).push(xs.last()))
    }
}

/// A bounded history of samples, oldest first, that keeps the most recent
/// `HISTORY_CAPACITY` samples.
pub struct History<T> {
    samples: Vec<T>,
}

impl<T> View for History<T> {
    type V = Seq<T>;

    closed spec fn view(&self) -> Seq<T> {
        self.samples@
    }
}

impl<T> History<T> {
    #[verifier::type_invariant]
    spec fn within_capacity(self) -> bool {
        self.samples.len() <= HISTORY_CAPACITY
    }

    /// An empty history.
    pub fn new() -> (h: History<T>)
        ensures
            h@ == Seq::<T>::empty(),
    {
        History { samples: Vec::with_capacity(HISTORY_CAPACITY) }
    }

    /// Appends `sample`, dropping the oldest sample when the history would
    /// otherwise hold more than `HISTORY_CAPACITY`.
    pub fn push_sample(&mut self, sample: T)
        ensures
            final(self)@ == last_samples(old(self)@.push(sample)),
            final(self)@.len() <= HISTORY_CAPACITY,
    {
        proof {
            use_type_invariant(&*self);
        }
        let ghost before = self.samples@;
        let mut samples = Vec::new();
        std::mem::swap(&mut samples, &mut self.samples);
        samples.push(sample);
        if samples.len() > HISTORY_CAPACITY {
            samples.remove(0);
            assert(samples@ =~= before.push(sample).subrange(1, before.len() + 1 as int));
        }
        self.samples = samples;
    }

    /// The samples, oldest first.
    pub fn samples(&self) -> (s: &[T])
        ensures
            s@ == self@,
    {
        self.samples.as_slice()
    }

    /// How many samples the history holds.
    pub fn len(&self) -> (n: usize)
        ensures
            n == self@.len(),
            n <= HISTORY_CAPACITY,
    {
        proof {
            use_type_invariant(self);
        }
        self.samples.len()
    }

    /// Whether the history holds no sample.
    pub fn is_empty(&self) -> (b: bool)
        ensures
            b == (self@.len() == 0),
    {
        self.samples.len() == 0
    }
}

/// Pushes `samples[i]` onto `histories[i]` for every core `i` that has both a
/// history and a sample; other histories stay as they were, and samples
/// without a history are dropped.
pub fn push_core_samples<T>(histories: &mut Vec<History<T>>, samples: Vec<T>)
    ensures
        final(histories)@.len() == old(histories)@.len(),
        forall|i: int|
            0 <= i < old(histories)@.len() ==> (#[trigger] final(histories)@[i])@ == (if i
                < samples@.len() {
                last_samples(old(histories)@[i]@.push(samples@[i]))
            } else {
                old(histories)@[i]@
            }),
{
    let ghost start = histories@;
    let mut pending: Vec<History<T>> = Vec::new();
    std::mem::swap(&mut pending, histories);
    let mut rest = samples;
    let ghost all_samples = rest@;
    let n = pending.len();
    let mut i: usize = 0;
    while i < n
        invariant
            n == start.len(),
            i <= n,
            pending@ == start.subrange(i as int, n as int),
            histories@.len() == i,
            rest@ == if i <= all_samples.len() {
                all_samples.subrange(i as int, all_samples.len() as int)
            } else {
                Seq::<T>::empty()
            },
            forall|j: int|
                0 <= j < i ==> (#[trigger] histories@[j])@ == (if j < all_samples.len() {
                    last_samples(start[j]@.push(all_samples[j]))
                } else {
                    start[j]@
                }),
        decreases n - i,
    {
        let mut history = pending.remove(0);
        assert(history == start[i as int]);
        if rest.len() > 0 {
            let sample = rest.remove(0);
            history.push_sample(sample);
        }
        histories.push(history);
        i = i + 1;
        assert(pending@ =~= start.subrange(i as int, n as int));
        assert(rest@ =~= if i <= all_samples.len() {
            all_samples.subrange(i as int, all_samples.len() as int)
        } else {
            Seq::<T>::empty()
        });
    }
}

/// Pushing onto a history that was already cut to its capacity keeps what
/// pushing onto the uncut sequence keeps.
pub proof fn lemma_last_samples_push<T>(s: Seq<T>, x: T)
    ensures
        last_samples(last_samples(s).push(x)) == last_samples(s.push(x)),
{
    if s.len() > HISTORY_CAPACITY {
        assert(last_samples(last_samples(s).push(x)) =~= last_samples(s.push(x)));
    }
}

/// A history holds, after any pushes, the most recent `HISTORY_CAPACITY`
/// samples of all that it held and was given, oldest first.
pub proof fn lemma_history_keeps_latest<T>(start: Seq<T>, xs: Seq<T>)
    requires
        start.len() <= HISTORY_CAPACITY,
    ensures
        after_pushes(start, xs) == last_samples(start + xs),
    decreases xs.len(),
{
    if xs.len() == 0 {
        assert(start + xs =~= start);
    } else {
        lemma_history_keeps_latest(start, xs.drop_last());
        lemma_last_samples_push(start + xs.drop_last(), xs.last());
        assert((start + xs.drop_last()).push(xs.last()) =~= start + xs);
    }
}

/// A number of bytes in whole mebibytes, rounded down.
pub fn bytes_to_mib(bytes: u64) -> (mib: u64)
    ensures
        mib == bytes / 1024 / 1024,
{
    bytes / 1024 / 1024
}

} // verus!
