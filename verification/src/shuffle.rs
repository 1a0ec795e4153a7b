//! The single-pass shuffled iterator over a borrowed slice, and the
//! executable permutation it steps with.

use vstd::prelude::*;
use crate::permute::ShuffleError;
use crate::permute::first_hit;
use crate::permute::hit_round;
use crate::permute::mask_w;
use crate::permute::walk;
use crate::permute::permute_spec;
use crate::permute::permute_terminates;
use crate::permute::permute_covers;
use crate::permute::lemma_permute_terminates;
use crate::permute::lemma_permute_bijective;

verus! {

/// Relies on rand::random: a fresh pseudo-random 32-bit value from the
/// thread-local generator; nothing is promised of the value itself.
#[verifier::external_body]
fn sample_seed() -> u32 {
    rand::random::<u32>()
}

/// A single-pass iterator that yields the elements of a borrowed slice
/// in the pseudo-random order given by `permute`. It owns nothing but a
/// cursor and a seed; the slice is only read.
pub struct ShuffleIterator<'a, T> {
    data: &'a [T],
    current: usize,
    seed: u32,
    elements_left: usize,
}

impl<'a, T> ShuffleIterator<'a, T> {
    /// The contents of the borrowed slice.
    pub closed spec fn elems(self) -> Seq<T> {
        self.data@
    }

    /// How many elements have been yielded so far.
    pub closed spec fn cursor(self) -> nat {
        self.elements_left as nat
    }

    /// The seed fixed at construction.
    pub closed spec fn seed_value(self) -> u32 {
        self.seed
    }

    pub open spec fn wf(self) -> bool {
        &&& self.cursor() <= self.elems().len()
        &&& self.elems().len() <= u32::MAX
    }

    /// Builds an iterator over `data` with a freshly sampled seed. The
    /// `current` argument only seeds the scratch field that `next`
    /// overwrites before use.
    pub fn new(data: &'a [T], current: usize) -> (r: Self)
        requires
            data@.len() <= u32::MAX,
        ensures
            r.elems() == data@,
            r.cursor() == 0,
            r.wf(),
    {
        ShuffleIterator { data, current, seed: sample_seed(), elements_left: 0 }
    }

    /// Builds an iterator over `data` with an explicitly chosen seed,
    /// so that a caller can pin the order deterministically.
    pub fn with_seed(data: &'a [T], seed: u32) -> (r: Self)
        requires
            data@.len() <= u32::MAX,
        ensures
            r.elems() == data@,
            r.cursor() == 0,
            r.seed_value() == seed,
            r.wf(),
    {
        ShuffleIterator { data, current: 0, seed, elements_left: 0 }
    }

    /// Permutes the index `i` within `[0, length)` using the given
    /// `seed`: a bijective cycle-walking hash in the style of
    /// correlated multi-jittered sampling. A zero `length` is refused.
    pub fn permute(i: u32, length: u32, seed: u32) -> (r: Result<u32, ShuffleError>)
        requires
            length == 0 || i < length,
        ensures
            length == 0 ==> r == Err::<u32, ShuffleError>(ShuffleError::InvalidLength),
            length >= 1 ==> {
                &&& permute_terminates(i, length, seed)
                &&& r == Ok::<u32, ShuffleError>(permute_spec(i, length, seed))
                &&& permute_spec(i, length, seed) < length
            },
    {
        if length == 0 {
            return Err(ShuffleError::InvalidLength);
        }
        proof {
            lemma_permute_terminates(i, length, seed);
        }
        let ghost h = hit_round(i, length, seed);
        let mut w: u32 = length - 1;
        w = w | (w >> 1);
        w = w | (w >> 2);
        w = w | (w >> 4);
        w = w | (w >> 8);
        w = w | (w >> 16);
        assert(w == mask_w(length));
        let mut cur: u32 = i;
        let ghost mut n: nat = 0;
        loop
            invariant_except_break
                n >= 1 ==> cur >= length,
            invariant
                length >= 1,
                w == mask_w(length),
                cur == walk(i, w, seed, n),
                n <= h,
                first_hit(i, length, seed, h),
            ensures
                cur == walk(i, w, seed, h),
                cur < length,
            decreases h - n,
        {
            proof {
                if n == h {
                    assert(false);
                }
            }
            cur = cur ^ seed;
            cur = cur.wrapping_mul(0xe170893d);
            cur = cur ^ (seed >> 16);
            cur = cur ^ ((cur & w) >> 4);
            cur = cur ^ (seed >> 8);
            cur = cur.wrapping_mul(0x0929eb3f);
            cur = cur ^ (seed >> 23);
            cur = cur ^ ((cur & w) >> 1);
            cur = cur.wrapping_mul(1 | (seed >> 27));
            cur = cur.wrapping_mul(0x6935fa69);
            cur = cur ^ ((cur & w) >> 11);
            cur = cur.wrapping_mul(0x74dcb303);
            cur = cur ^ ((cur & w) >> 2);
            cur = cur.wrapping_mul(0x9e501cc3);
            cur = cur ^ ((cur & w) >> 2);
            cur = cur.wrapping_mul(0xc860a3df);
            cur = cur & w;
            cur = cur ^ (cur >> 5);
            proof {
                n = n + 1;
                assert(cur == walk(i, w, seed, n));
            }
            if cur < length {
                proof {
                    if n < h {
                        assert(walk(i, mask_w(length), seed, n) >= length);
                        assert(false);
                    }
                }
                break;
            }
        }
        Ok(cur.wrapping_add(seed) % length)
    }

    /// Advances one step: yields a reference to the element at the next
    /// permuted index, or nothing once every element has been yielded.
    /// The slice itself is never changed.
    pub fn next(&mut self) -> (r: Option<&'a T>)
        requires
            old(self).wf(),
        ensures
            final(self).wf(),
            final(self).elems() == old(self).elems(),
            final(self).seed_value() == old(self).seed_value(),
            old(self).cursor() == old(self).elems().len() ==> {
                &&& r is None
                &&& final(self).cursor() == old(self).cursor()
            },
            old(self).cursor() < old(self).elems().len() ==> {
                let len = old(self).elems().len() as u32;
                let j = permute_spec(old(self).cursor() as u32, len, old(self).seed_value());
                &&& permute_terminates(old(self).cursor() as u32, len, old(self).seed_value())
                &&& j < len
                &&& final(self).cursor() == old(self).cursor() + 1
                &&& r matches Some(x) && *x == old(self).elems()[j as int]
            },
    {
        if self.elements_left == self.data.len() {
            None
        } else {
            let len32: u32 = self.data.len() as u32;
            let idx32: u32 = self.elements_left as u32;
            let j = match Self::permute(idx32, len32, self.seed) {
                Ok(j) => j,
                Err(_) => {
                    proof {
                        assert(false);
                    }
                    0
                },
            };
            self.current = j as usize;
            self.elements_left = self.elements_left + 1;
            Some(&self.data[self.current])
        }
    }
}

/// A shuffled view of a slice: an iterator over its elements in the
/// pseudo-random order of a freshly seeded permutation.
pub fn shuffled<'a, T>(data: &'a [T]) -> (r: ShuffleIterator<'a, T>)
    requires
        data@.len() <= u32::MAX,
    ensures
        r.elems() == data@,
        r.cursor() == 0,
        r.wf(),
{
    ShuffleIterator::new(data, 0)
}

/// Exhaustiveness of a full iteration: the iterator yields, at step
/// `c`, the element `data[permute_spec(c, len, seed)]` (the `next`
/// contract), so over a whole pass the yielded sequence has the length
/// of the source, visits pairwise distinct indices, and its set of
/// elements is exactly the set of elements of the source — as long as
/// the 32-bit rotation of the permutation cannot wrap.
pub proof fn lemma_shuffle_exhaustive<T>(data: Seq<T>, seed: u32)
    requires
        1 <= data.len() <= u32::MAX,
        seed + data.len() <= 0x1_0000_0000,
    ensures
        Seq::new(data.len(), |c: int| data[permute_spec(c as u32, data.len() as u32, seed) as int]).len()
            == data.len(),
        Seq::new(data.len(), |c: int| data[permute_spec(c as u32, data.len() as u32, seed) as int]).to_set()
            == data.to_set(),
        forall|c1: u32, c2: u32|
            c1 < c2 < data.len() ==> #[trigger] permute_spec(c1, data.len() as u32, seed)
                != #[trigger] permute_spec(c2, data.len() as u32, seed),
{
    let len32 = data.len() as u32;
    let yielded = Seq::new(
        data.len(),
        |c: int| data[permute_spec(c as u32, len32, seed) as int],
    );
    lemma_permute_bijective(len32, seed);
    assert forall|c1: u32, c2: u32| c1 < c2 < data.len() implies #[trigger] permute_spec(
        c1,
        len32,
        seed,
    ) != #[trigger] permute_spec(c2, len32, seed) by {}
    assert forall|x: T| yielded.to_set().contains(x) implies data.to_set().contains(x) by {
        let c = choose|c: int| 0 <= c < yielded.len() && yielded[c] == x;
        crate::permute::lemma_permute_in_range(c as u32, len32, seed);
        assert(data[permute_spec(c as u32, len32, seed) as int] == x);
    }
    assert forall|x: T| data.to_set().contains(x) implies yielded.to_set().contains(x) by {
        let jj = choose|jj: int| 0 <= jj < data.len() && data[jj] == x;
        assert(permute_covers(len32, seed, jj as u32));
        let i = choose|i: u32| i < len32 && #[trigger] permute_spec(i, len32, seed) == jj as u32;
        assert(yielded[i as int] == x);
    }
    assert(yielded.to_set() =~= data.to_set());
}

} // verus!
