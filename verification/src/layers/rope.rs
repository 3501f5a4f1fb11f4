//! The angles rotary embeddings turn by, a row a position.

use vstd::arithmetic::div_mod;
use vstd::prelude::*;

use crate::backend::host::ops;
use crate::layers::cache::{self, rope_rows};

verus! {

/// Rows of `rope_dim` values, a position each: the cosines of its angles, then
/// their sines.
pub struct RopeTable<T> {
    pub rope_dim: usize,
    pub angles: Vec<T>,
}

/// What stands at a place of the table.
pub open spec fn angle_at<T, C: Fn(usize, usize) -> T, S: Fn(usize, usize) -> T>(
    cos: C,
    sin: S,
    zero: T,
    rope_dim: int,
    at: int,
) -> T {
    let half = rope_dim / 2;
    let p = (at / rope_dim) as usize;
    let j = at % rope_dim;
    if j < half {
        ops::of2(cos, p, j as usize)
    } else if j < 2 * half {
        ops::of2(sin, p, (j - half) as usize)
    } else {
        zero
    }
}

/// The first `len` values of the table.
pub open spec fn angles_of<T, C: Fn(usize, usize) -> T, S: Fn(usize, usize) -> T>(
    cos: C,
    sin: S,
    zero: T,
    rope_dim: int,
    len: nat,
) -> Seq<T> {
    Seq::new(len, |at: int| angle_at(cos, sin, zero, rope_dim, at))
}

impl<T: Copy> RopeTable<T> {
    /// Every row of the table is its position's.
    pub open spec fn wf<C: Fn(usize, usize) -> T, S: Fn(usize, usize) -> T>(
        self,
        cos: C,
        sin: S,
        zero: T,
    ) -> bool {
        &&& self.rope_dim > 0
        &&& self.angles@.len() % (self.rope_dim as nat) == 0
        &&& self.angles@ == angles_of(cos, sin, zero, self.rope_dim as int, self.angles@.len())
    }

    /// Positions the table covers.
    pub open spec fn rows(self) -> nat {
        self.angles@.len() / (self.rope_dim as nat)
    }

    pub fn new(rope_dim: usize) -> (table: RopeTable<T>)
        ensures
            table.rope_dim == rope_dim,
            table.angles@ == Seq::<T>::empty(),
    {
        RopeTable { rope_dim, angles: Vec::new() }
    }

    /// Extends the table to cover `positions`, to a power of two of them. `cos`
    /// and `sin` give the `i`th angle of a position.
    pub fn cover<C: Fn(usize, usize) -> T, S: Fn(usize, usize) -> T>(
        &mut self,
        cos: &C,
        sin: &S,
        zero: T,
        positions: usize,
    )
        requires
            old(self).wf(*cos, *sin, zero),
            ops::is_op2(*cos),
            ops::is_op2(*sin),
            positions <= usize::MAX / 2,
            2 * positions * old(self).rope_dim <= usize::MAX,
            512 * old(self).rope_dim <= usize::MAX,
        ensures
            final(self).wf(*cos, *sin, zero),
            final(self).rope_dim == old(self).rope_dim,
            old(self).rows() >= positions ==> final(self).angles@ == old(self).angles@,
            old(self).rows() < positions ==> exists|p: nat| #[trigger]
                cache::is_least_power(p, positions as nat) && final(self).rows() == cache::larger(
                    p,
                    512,
                ),
    {
        let dim: usize = self.rope_dim;
        let half: usize = dim / 2;
        let have: usize = self.angles.len() / dim;
        let want = match rope_rows(have, positions) {
            None => {
                return ;
            },
            Some(want) => want,
        };
        let ghost power = choose|p: nat| #[trigger]
            cache::is_least_power(p, positions as nat) && want == cache::larger(p, 512);
        proof {
            assert(want <= 2 * positions || want == 512);
            div_mod::lemma_fundamental_div_mod(self.angles@.len() as int, dim as int);
            assert(want * dim <= usize::MAX) by (nonlinear_arith)
                requires
                    want <= 2 * positions || want == 512,
                    2 * positions * dim <= usize::MAX,
                    512 * dim <= usize::MAX,
                    dim >= 0,
            ;
            assert(dim * have == have * dim) by (nonlinear_arith);
        }
        let mut p: usize = have;
        while p < want
            invariant
                have <= p <= want,
                half == dim / 2,
                dim > 0,
                want * dim <= usize::MAX,
                self.rope_dim == dim,
                ops::is_op2(*cos),
                ops::is_op2(*sin),
                self.angles@.len() == p * dim,
                self.angles@ == angles_of(*cos, *sin, zero, dim as int, (p * dim) as nat),
            decreases want - p,
        {
            let mut j: usize = 0;
            while j < dim
                invariant
                    j <= dim,
                    half == dim / 2,
                    dim > 0,
                    self.rope_dim == dim,
                    ops::is_op2(*cos),
                    ops::is_op2(*sin),
                    self.angles@.len() == p * dim + j,
                    self.angles@ == angles_of(*cos, *sin, zero, dim as int, (p * dim + j) as nat),
                decreases dim - j,
            {
                proof {
                    div_mod::lemma_fundamental_div_mod_converse(
                        p * dim + j,
                        dim as int,
                        p as int,
                        j as int,
                    );
                }
                let v: T = if j < half {
                    cos(p, j)
                } else if j < 2 * half {
                    sin(p, j - half)
                } else {
                    zero
                };
                assert(v == angle_at(*cos, *sin, zero, dim as int, p * dim + j));
                self.angles.push(v);
                j = j + 1;
                assert(self.angles@ =~= angles_of(
                    *cos,
                    *sin,
                    zero,
                    dim as int,
                    (p * dim + j) as nat,
                ));
            }
            assert((p + 1) * dim == p * dim + dim) by (nonlinear_arith);
            p = p + 1;
        }
        proof {
            div_mod::lemma_div_multiples_vanish(want as int, dim as int);
            assert(dim * want == want * dim) by (nonlinear_arith);
            div_mod::lemma_mod_multiples_basic(want as int, dim as int);
        }
    }
}

/// A table's row of a position is the cosines of its angles in turn and then their
/// sines, so many of each as half the rotary dimension.
pub proof fn a_row_is_cosines_and_then_sines<
    T: Copy,
    C: Fn(usize, usize) -> T,
    S: Fn(usize, usize) -> T,
>(table: RopeTable<T>, cos: C, sin: S, zero: T, p: usize, i: usize)
    requires
        table.wf(cos, sin, zero),
        p < table.rows(),
        i < table.rope_dim / 2,
    ensures
        table.angles@[p * table.rope_dim + i] == ops::of2(cos, p, i),
        table.angles@[p * table.rope_dim + table.rope_dim / 2 + i] == ops::of2(sin, p, i),
{
    let dim = table.rope_dim as int;
    let half = dim / 2;
    let len = table.angles@.len() as int;
    div_mod::lemma_fundamental_div_mod(len, dim);
    assert((p + 1) * dim <= len && (p + 1) * dim == p * dim + dim && 0 <= p * dim)
        by (nonlinear_arith)
        requires
            0 <= p,
            p + 1 <= len / dim,
            len == dim * (len / dim) + 0,
            dim > 0,
    ;
    div_mod::lemma_fundamental_div_mod_converse(p * dim + i, dim, p as int, i as int);
    div_mod::lemma_fundamental_div_mod_converse(p * dim + half + i, dim, p as int, half + i);
}

} // verus!
