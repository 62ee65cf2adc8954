//! Helpers for generating test values: small strings and vectors, and the
//! choice of an item by frequency.
use vstd::prelude::*;

verus! {

/// How often an item should be chosen.
pub type Frequency = u32;

/// The sum of the frequencies of the first `i` items of `xs`.
pub open spec fn cumulative<A>(xs: Seq<(Frequency, A)>, i: int) -> int
    decreases i,
{
    if i <= 0 {
        0
    } else {
        cumulative(xs, i - 1) + xs[i - 1].0
    }
}

/// The running total of the frequencies of `xs` up to and including item
/// `i`.
pub open spec fn total_through<A>(xs: Seq<(Frequency, A)>, i: int) -> int {
    cumulative(xs, i + 1)
}

/// The item of `xs` that the number `n` falls on when each item covers as
/// many numbers as its frequency, counting from the first item: the first
/// item whose running total of frequencies reaches `n`. There must be one.
pub fn pick<A>(n: Frequency, xs: Vec<(Frequency, A)>) -> (r: A)
    requires
        exists|i: int| 0 <= i < xs@.len() && n <= #[trigger] total_through(xs@, i),
    ensures
        exists|i: int|
            0 <= i < xs@.len() && r == xs@[i].1 && n <= #[trigger] total_through(xs@, i) && forall|j: int|
                0 <= j < i ==> n > #[trigger] total_through(xs@, j),
{
    let mut acc = n;
    let mut i: usize = 0;
    while i < xs.len()
        invariant
            i <= xs@.len(),
            acc == n - cumulative(xs@, i as int),
            forall|j: int| 0 <= j < i ==> n > #[trigger] total_through(xs@, j),
            exists|k: int| 0 <= k < xs@.len() && n <= #[trigger] total_through(xs@, k),
        decreases xs@.len() - i,
    {
        let k = xs[i].0;
        if acc <= k {
            proof {
                assert(total_through(xs@, i as int) == cumulative(xs@, i as int) + k);
                assert(n <= total_through(xs@, i as int));
            }
            let mut items = xs;
            let (_, x) = items.remove(i);
            return x;
        }
        acc = acc - k;
        i = i + 1;
    }
    proof {
        let k = choose|k: int| 0 <= k < xs@.len() && n <= #[trigger] total_through(xs@, k);
        assert(n > total_through(xs@, k));
    }
    let mut items = xs;
    items.remove(0).1
}

/// A small string.
#[derive(Debug, Clone)]
pub struct SmallString {
    pub(crate) get_string: String,
}

impl View for SmallString {
    type V = Seq<char>;

    closed spec fn view(&self) -> Seq<char> {
        self.get_string@
    }
}

impl SmallString {
    /// The string held.
    pub fn from(s: SmallString) -> (r: String)
        ensures
            r@ == s@,
    {
        s.get_string
    }
}

/// A small vector.
#[derive(Debug, Clone)]
pub struct SmallVec<A> {
    pub get_small_vec: Vec<A>,
}

impl<A> SmallVec<A> {
    /// The vector held.
    pub fn from(v: SmallVec<A>) -> (r: Vec<A>)
        ensures
            r == v.get_small_vec,
    {
        v.get_small_vec
    }
}

/// A vector of at most 32 elements.
#[derive(Debug, Clone)]
pub struct Vec32<E> {
    pub get_vec32: Vec<E>,
}

} // verus!
