//! A Cartesian-product iterator over two owned sequences: the inner
//! sequence cycles fastest, the outer sequence advances once per full
//! inner pass.

use vstd::prelude::*;
use vstd::arithmetic::div_mod::lemma_fundamental_div_mod_converse;

verus! {

/// All pairs of one inner and one outer element, ordered with the
/// inner sequence cycling fastest: entry `k` is
/// `(inner[k % inner.len()], outer[k / inner.len()])`.
pub open spec fn product_seq<A, B>(inner: Seq<A>, outer: Seq<B>) -> Seq<(A, B)> {
    Seq::new(
        inner.len() * outer.len(),
        |k: int| (inner[k % inner.len() as int], outer[k / inner.len() as int]),
    )
}

/// The product iterator: the full inner and outer sequences, a cursor
/// into each, and the outer element the current inner pass is paired
/// with.
#[derive(Clone, Debug)]
pub struct Cartesian<A, B> {
    inner: Vec<A>,
    inner_pos: usize,
    outer: Vec<B>,
    outer_pos: usize,
    curr_outer: Option<B>,
}

impl<A: Copy, B: Copy> Cartesian<A, B> {
    /// The inner sequence.
    pub closed spec fn inner_elems(self) -> Seq<A> {
        self.inner@
    }

    /// The outer sequence.
    pub closed spec fn outer_elems(self) -> Seq<B> {
        self.outer@
    }

    /// The next unread inner index.
    pub closed spec fn inner_cursor(self) -> nat {
        self.inner_pos as nat
    }

    /// The next unread outer index.
    pub closed spec fn outer_cursor(self) -> nat {
        self.outer_pos as nat
    }

    /// The outer element the current inner pass is paired with.
    pub closed spec fn paired_outer(self) -> Option<B> {
        self.curr_outer
    }

    pub open spec fn wf(self) -> bool {
        &&& self.inner_cursor() <= self.inner_elems().len()
        &&& self.outer_cursor() <= self.outer_elems().len()
        &&& (match self.paired_outer() {
            Some(b) => self.outer_cursor() >= 1 && b == self.outer_elems()[self.outer_cursor()
                - 1],
            None => self.outer_cursor() == self.outer_elems().len(),
        })
    }

    /// How many pairs have been yielded so far; once the outer element
    /// runs out the iterator sits at the end of the product.
    pub open spec fn pos(self) -> int {
        if self.paired_outer() is Some {
            (self.outer_cursor() - 1) * self.inner_elems().len() + self.inner_cursor()
        } else {
            (self.inner_elems().len() * self.outer_elems().len()) as int
        }
    }

    /// Starts the product: reads the first outer element (if any) and
    /// stands before the first pair.
    pub fn new(inner: Vec<A>, outer: Vec<B>) -> (r: Self)
        ensures
            r.wf(),
            r.inner_elems() == inner@,
            r.outer_elems() == outer@,
            r.pos() == 0,
    {
        let curr_outer: Option<B> = if outer.len() > 0 {
            Some(outer[0])
        } else {
            None
        };
        let outer_pos: usize = if outer.len() > 0 {
            1
        } else {
            0
        };
        Cartesian { inner, inner_pos: 0, outer, outer_pos, curr_outer }
    }

    /// Reads the next inner element, if one is left in this pass.
    fn inner_next(&mut self) -> (r: Option<A>)
        requires
            old(self).wf(),
        ensures
            final(self).wf(),
            final(self).inner_elems() == old(self).inner_elems(),
            final(self).outer_elems() == old(self).outer_elems(),
            final(self).outer_cursor() == old(self).outer_cursor(),
            final(self).paired_outer() == old(self).paired_outer(),
            old(self).inner_cursor() < old(self).inner_elems().len() ==> {
                &&& r == Some(old(self).inner_elems()[old(self).inner_cursor() as int])
                &&& final(self).inner_cursor() == old(self).inner_cursor() + 1
            },
            old(self).inner_cursor() == old(self).inner_elems().len() ==> {
                &&& r is None
                &&& final(self).inner_cursor() == old(self).inner_cursor()
            },
    {
        if self.inner_pos < self.inner.len() {
            let a = self.inner[self.inner_pos];
            self.inner_pos = self.inner_pos + 1;
            Some(a)
        } else {
            None
        }
    }

    /// Pairs the coming inner pass with the next outer element (or
    /// with nothing, when the outer sequence is exhausted), rewinds
    /// the inner cursor, and reads the first inner element.
    fn reset_inner_advance_outer(&mut self) -> (r: Option<A>)
        requires
            old(self).wf(),
        ensures
            final(self).wf(),
            final(self).inner_elems() == old(self).inner_elems(),
            final(self).outer_elems() == old(self).outer_elems(),
            old(self).outer_cursor() < old(self).outer_elems().len() ==> {
                &&& final(self).paired_outer() == Some(
                    old(self).outer_elems()[old(self).outer_cursor() as int],
                )
                &&& final(self).outer_cursor() == old(self).outer_cursor() + 1
            },
            old(self).outer_cursor() == old(self).outer_elems().len() ==> {
                &&& final(self).paired_outer() is None
                &&& final(self).outer_cursor() == old(self).outer_cursor()
            },
            old(self).inner_elems().len() > 0 ==> {
                &&& r == Some(old(self).inner_elems()[0])
                &&& final(self).inner_cursor() == 1
            },
            old(self).inner_elems().len() == 0 ==> {
                &&& r is None
                &&& final(self).inner_cursor() == 0
            },
    {
        if self.outer_pos < self.outer.len() {
            self.curr_outer = Some(self.outer[self.outer_pos]);
            self.outer_pos = self.outer_pos + 1;
        } else {
            self.curr_outer = None;
        }
        self.inner_pos = 0;
        self.inner_next()
    }

    /// The outer element of the current pass, if any.
    fn get_curr_outer(&self) -> (r: Option<B>)
        ensures
            r == self.paired_outer(),
    {
        match self.curr_outer {
            None => None,
            Some(value) => Some(value),
        }
    }

    /// Yields the next pair of the product, in inner-fastest order, or
    /// nothing once all pairs are out.
    pub fn next(&mut self) -> (r: Option<(A, B)>)
        requires
            old(self).wf(),
        ensures
            final(self).wf(),
            final(self).inner_elems() == old(self).inner_elems(),
            final(self).outer_elems() == old(self).outer_elems(),
            ({
                let prod = product_seq(old(self).inner_elems(), old(self).outer_elems());
                let p = old(self).pos();
                if 0 <= p < prod.len() {
                    r == Some(prod[p]) && final(self).pos() == p + 1
                } else {
                    r is None && final(self).pos() == p
                }
            }),
    {
        let first = self.inner_next();
        let item = if first.is_none() {
            self.reset_inner_advance_outer()
        } else {
            first
        };
        let curr = self.get_curr_outer();
        let r = match (item, curr) {
            (Some(a), Some(b)) => Some((a, b)),
            _ => None,
        };
        proof {
            broadcast use vstd::arithmetic::mul::group_mul_basics;
            broadcast use vstd::arithmetic::mul::group_mul_is_commutative_and_distributive;

            let l = old(self).inner_elems().len() as int;
            let o = old(self).outer_elems().len() as int;
            let p = old(self).pos();
            if old(self).paired_outer() is Some {
                let q0 = old(self).outer_cursor() as int - 1;
                let ip0 = old(self).inner_cursor() as int;
                if ip0 < l {
                    vstd::arithmetic::mul::lemma_mul_inequality(q0 + 1, o, l);
                    lemma_fundamental_div_mod_converse(p, l, q0, ip0);
                } else if old(self).outer_cursor() < o && l > 0 {
                    vstd::arithmetic::mul::lemma_mul_strict_inequality(q0 + 1, o, l);
                    lemma_fundamental_div_mod_converse(p, l, q0 + 1, 0);
                }
            }
        }
        r
    }
}

/// Attaches the product operation to a sequence: `xs.cartesian(ys)`
/// pairs every element of `xs` with every element of `ys`, `xs`
/// cycling fastest.
pub trait CartesianIteratorExt<A, B>: Sized {
    type Item;

    fn cartesian(self, other: Vec<B>) -> (r: Cartesian<A, B>) where A: Copy, B: Copy
        ensures
            r.wf(),
            r.pos() == 0,
            r.outer_elems() == other@,
    ;
}

impl<A: Copy, B: Copy> CartesianIteratorExt<A, B> for Vec<A> {
    type Item = (A, B);

    fn cartesian(self, other: Vec<B>) -> (r: Cartesian<A, B>)
        ensures
            r.wf(),
            r.pos() == 0,
            r.outer_elems() == other@,
    {
        Cartesian::new(self, other)
    }
}

} // verus!
