//! The host's delta net: the rule that advances its state, the convolution that
//! feeds it, and its gates.

use vstd::prelude::*;

use crate::backend::host::contract::{self, HostError};
use crate::backend::host::ops;
use crate::backend::DeltaMix;

verus! {

/// The arithmetic the rule needs.
pub struct Ring<P, M, S> {
    pub plus: P,
    pub times: M,
    pub minus: S,
}

pub open spec fn is_ring<T, P: Fn(T, T) -> T, M: Fn(T, T) -> T, S: Fn(T, T) -> T>(
    o: Ring<P, M, S>,
) -> bool {
    ops::is_op2(o.plus) && ops::is_op2(o.times) && ops::is_op2(o.minus)
}

/// What one position of one head brings: its query, key and value rows, its
/// decay and its write strength.
pub ghost struct Step<T> {
    pub q: Seq<T>,
    pub k: Seq<T>,
    pub v: Seq<T>,
    pub decay: T,
    pub beta: T,
}

/// An element of the state, decayed.
pub open spec fn decayed<T, P: Fn(T, T) -> T, M: Fn(T, T) -> T, S: Fn(T, T) -> T>(
    o: Ring<P, M, S>,
    s: Seq<T>,
    x: Step<T>,
    p: int,
) -> T {
    ops::of2(o.times, s[p], x.decay)
}

/// The first `n` terms of what the decayed state reads back for a key.
pub open spec fn recalled<T, P: Fn(T, T) -> T, M: Fn(T, T) -> T, S: Fn(T, T) -> T>(
    o: Ring<P, M, S>,
    zero: T,
    s: Seq<T>,
    x: Step<T>,
    dim: int,
    j: int,
    n: nat,
) -> T
    decreases n,
{
    if n == 0 {
        zero
    } else {
        let i = n - 1;
        ops::of2(
            o.plus,
            recalled(o, zero, s, x, dim, j, i as nat),
            ops::of2(o.times, decayed(o, s, x, i * dim + j), x.k[i]),
        )
    }
}

/// How far a value is from what the state reads back for its key, by the write
/// strength.
pub open spec fn erred<T, P: Fn(T, T) -> T, M: Fn(T, T) -> T, S: Fn(T, T) -> T>(
    o: Ring<P, M, S>,
    zero: T,
    s: Seq<T>,
    x: Step<T>,
    dim: int,
    j: int,
) -> T {
    ops::of2(o.times, x.beta, ops::of2(o.minus, x.v[j], recalled(o, zero, s, x, dim, j, dim as nat)))
}

/// An element of the state after a position: decayed, with the error written
/// along the key.
pub open spec fn advanced<T, P: Fn(T, T) -> T, M: Fn(T, T) -> T, S: Fn(T, T) -> T>(
    o: Ring<P, M, S>,
    zero: T,
    s: Seq<T>,
    x: Step<T>,
    dim: int,
    p: int,
) -> T {
    ops::of2(
        o.plus,
        decayed(o, s, x, p),
        ops::of2(o.times, x.k[p / dim], erred(o, zero, s, x, dim, p % dim)),
    )
}

/// The state after a position.
pub open spec fn next_state<T, P: Fn(T, T) -> T, M: Fn(T, T) -> T, S: Fn(T, T) -> T>(
    o: Ring<P, M, S>,
    zero: T,
    s: Seq<T>,
    x: Step<T>,
    dim: int,
) -> Seq<T> {
    Seq::new((dim * dim) as nat, |p: int| advanced(o, zero, s, x, dim, p))
}

/// The first `n` terms of what the advanced state reads out for the query.
pub open spec fn read_out<T, P: Fn(T, T) -> T, M: Fn(T, T) -> T, S: Fn(T, T) -> T>(
    o: Ring<P, M, S>,
    zero: T,
    next: Seq<T>,
    x: Step<T>,
    dim: int,
    j: int,
    n: nat,
) -> T
    decreases n,
{
    if n == 0 {
        zero
    } else {
        let i = n - 1;
        ops::of2(
            o.plus,
            read_out(o, zero, next, x, dim, j, i as nat),
            ops::of2(o.times, x.q[i], next[i * dim + j]),
        )
    }
}

/// What position `r` of the packed operands brings.
pub open spec fn step_at<T>(all: Seq<T>, span: int, gates: int, dim: int, r: int) -> Step<T> {
    let at = r * dim;
    Step {
        q: all.subrange(at, at + dim),
        k: all.subrange(span + at, span + at + dim),
        v: all.subrange(2 * span + at, 2 * span + at + dim),
        decay: all[3 * span + r],
        beta: all[3 * span + gates + r],
    }
}

/// A head's state after `t` positions.
pub open spec fn state_after<T, P: Fn(T, T) -> T, M: Fn(T, T) -> T, S: Fn(T, T) -> T>(
    o: Ring<P, M, S>,
    zero: T,
    all: Seq<T>,
    first: Seq<T>,
    heads: int,
    rows: int,
    dim: int,
    h: int,
    t: nat,
) -> Seq<T>
    decreases t,
{
    if t == 0 {
        first.subrange(h * (dim * dim), h * (dim * dim) + dim * dim)
    } else {
        let r = (t - 1) * heads + h;
        next_state(
            o,
            zero,
            state_after(o, zero, all, first, heads, rows, dim, h, (t - 1) as nat),
            step_at(all, rows * heads * dim, rows * heads, dim, r),
            dim,
        )
    }
}

/// An element of the output.
pub open spec fn delta_out<T, P: Fn(T, T) -> T, M: Fn(T, T) -> T, S: Fn(T, T) -> T>(
    o: Ring<P, M, S>,
    zero: T,
    all: Seq<T>,
    first: Seq<T>,
    heads: int,
    rows: int,
    dim: int,
    p: int,
) -> T {
    let (r, j) = (p / dim, p % dim);
    let (t, h) = (r / heads, r % heads);
    read_out(
        o,
        zero,
        state_after(o, zero, all, first, heads, rows, dim, h, (t + 1) as nat),
        step_at(all, rows * heads * dim, rows * heads, dim, r),
        dim,
        j,
        dim as nat,
    )
}

/// A head's plane of the states.
pub open spec fn plane<T>(states: Seq<T>, dim: int, h: int) -> Seq<T> {
    states.subrange(h * (dim * dim), h * (dim * dim) + dim * dim)
}

/// Advances one head's state by one position, and hands back what it reads out.
fn advance<T: Copy, P: Fn(T, T) -> T, M: Fn(T, T) -> T, S: Fn(T, T) -> T>(
    o: &Ring<P, M, S>,
    zero: T,
    all: &[T],
    span: usize,
    gates: usize,
    dim: usize,
    r: usize,
    states: &mut Vec<T>,
    h: usize,
) -> (out: Vec<T>)
    requires
        is_ring(*o),
        3 * span + 2 * gates <= all@.len(),
        r < gates,
        (r + 1) * dim <= span,
        (h + 1) * (dim * dim) <= old(states)@.len(),
    ensures
        ({
            let x = step_at(all@, span as int, gates as int, dim as int, r as int);
            let s = plane(old(states)@, dim as int, h as int);
            let next = next_state(*o, zero, s, x, dim as int);
            &&& final(states)@ == Seq::new(
                old(states)@.len(),
                |p: int|
                    if h * (dim * dim) <= p < h * (dim * dim) + dim * dim {
                        next[p - h * (dim * dim)]
                    } else {
                        old(states)@[p]
                    },
            )
            &&& out@ == Seq::new(
                dim as nat,
                |j: int| read_out(*o, zero, next, x, dim as int, j, dim as nat),
            )
        }),
{
    let ghost x = step_at(all@, span as int, gates as int, dim as int, r as int);
    let ghost first = states@;
    let ghost s = plane(first, dim as int, h as int);
    let ghost next = next_state(*o, zero, s, x, dim as int);
    let (given, held): (usize, usize) = (all.len(), states.len());
    proof {
        assert((r + 1) * dim == r * dim + dim && 0 <= r * dim) by (nonlinear_arith)
            requires
                0 <= r,
                0 <= dim,
        ;
        assert((h + 1) * (dim * dim) == h * (dim * dim) + dim * dim && 0 <= h * (dim * dim) && 0
            <= dim * dim) by (nonlinear_arith)
            requires
                0 <= h,
                0 <= dim,
        ;
    }
    let size: usize = dim * dim;
    let base: usize = h * size;
    let (q_at, k_at, v_at): (usize, usize, usize) = (r * dim, span + r * dim, 2 * span + r * dim);
    let decay = all[3 * span + r];
    let beta = all[3 * span + gates + r];
    let mut error: Vec<T> = Vec::new();
    let mut j: usize = 0;
    while j < dim
        invariant
            j <= dim,
            error@.len() == j,
            forall|c: int|
                0 <= c < j ==> #[trigger] error@[c] == recalled(*o, zero, s, x, dim as int, c, 0),
        decreases dim - j,
    {
        error.push(zero);
        j = j + 1;
    }
    let mut i: usize = 0;
    while i < dim
        invariant
            i <= dim,
            is_ring(*o),
            size == dim * dim,
            base == h * (dim * dim),
            given == all@.len(),
            held == states@.len(),
            held == first.len(),
            base + size <= held,
            k_at + dim <= given,
            s == plane(first, dim as int, h as int),
            x.decay == decay,
            x.k == all@.subrange(k_at as int, k_at + dim),
            error@.len() == dim,
            forall|c: int|
                0 <= c < dim ==> #[trigger] error@[c] == recalled(
                    *o,
                    zero,
                    s,
                    x,
                    dim as int,
                    c,
                    i as nat,
                ),
            forall|p: int|
                0 <= p < held ==> #[trigger] states@[p] == (if base <= p < base + i * dim {
                    decayed(*o, s, x, p - base)
                } else {
                    first[p]
                }),
        decreases dim - i,
    {
        proof {
            contract::lemma_row(i as int, dim as int, dim as int);
        }
        let key = all[k_at + i];
        assert(x.k[i as int] == key);
        let from: usize = base + i * dim;
        let mut j: usize = 0;
        while j < dim
            invariant
                j <= dim,
                i < dim,
                is_ring(*o),
                size == dim * dim,
                base == h * (dim * dim),
                from == base + i * dim,
                from + dim <= base + size,
                held == states@.len(),
                held == first.len(),
                base + size <= held,
                s == plane(first, dim as int, h as int),
                x.decay == decay,
                x.k[i as int] == key,
                error@.len() == dim,
                forall|c: int|
                    0 <= c < dim ==> #[trigger] error@[c] == recalled(
                        *o,
                        zero,
                        s,
                        x,
                        dim as int,
                        c,
                        (if c < j {
                            i + 1
                        } else {
                            i as int
                        }) as nat,
                    ),
                forall|p: int|
                    0 <= p < held ==> #[trigger] states@[p] == (if base <= p < from + j {
                        decayed(*o, s, x, p - base)
                    } else {
                        first[p]
                    }),
            decreases dim - j,
        {
            assert(s[i * dim + j] == first[from + j]);
            let d = (o.times)(states[from + j], decay);
            assert(d == decayed(*o, s, x, i * dim + j));
            states.set(from + j, d);
            let term = (o.times)(d, key);
            let e = (o.plus)(error[j], term);
            error.set(j, e);
            j = j + 1;
        }
        assert((i + 1) * dim == i * dim + dim) by (nonlinear_arith);
        i = i + 1;
    }
    let mut j: usize = 0;
    while j < dim
        invariant
            j <= dim,
            is_ring(*o),
            given == all@.len(),
            v_at + dim <= given,
            x.beta == beta,
            x.v == all@.subrange(v_at as int, v_at + dim),
            error@.len() == dim,
            forall|c: int|
                0 <= c < dim ==> #[trigger] error@[c] == (if c < j {
                    erred(*o, zero, s, x, dim as int, c)
                } else {
                    recalled(*o, zero, s, x, dim as int, c, dim as nat)
                }),
        decreases dim - j,
    {
        assert(x.v[j as int] == all@[v_at + j]);
        let off = (o.minus)(all[v_at + j], error[j]);
        let e = (o.times)(beta, off);
        error.set(j, e);
        j = j + 1;
    }
    let mut out: Vec<T> = Vec::new();
    let mut j: usize = 0;
    while j < dim
        invariant
            j <= dim,
            out@.len() == j,
            forall|c: int|
                0 <= c < j ==> #[trigger] out@[c] == read_out(*o, zero, next, x, dim as int, c, 0),
        decreases dim - j,
    {
        out.push(zero);
        j = j + 1;
    }
    let mut i: usize = 0;
    while i < dim
        invariant
            i <= dim,
            is_ring(*o),
            size == dim * dim,
            base == h * (dim * dim),
            given == all@.len(),
            held == states@.len(),
            held == first.len(),
            base + size <= held,
            q_at + dim <= given,
            k_at + dim <= given,
            s == plane(first, dim as int, h as int),
            next == next_state(*o, zero, s, x, dim as int),
            x.q == all@.subrange(q_at as int, q_at + dim),
            x.k == all@.subrange(k_at as int, k_at + dim),
            error@.len() == dim,
            out@.len() == dim,
            forall|c: int|
                0 <= c < dim ==> #[trigger] error@[c] == erred(*o, zero, s, x, dim as int, c),
            forall|c: int|
                0 <= c < dim ==> #[trigger] out@[c] == read_out(
                    *o,
                    zero,
                    next,
                    x,
                    dim as int,
                    c,
                    i as nat,
                ),
            forall|p: int|
                0 <= p < held ==> #[trigger] states@[p] == (if base <= p < base + i * dim {
                    next[p - base]
                } else if base <= p < base + size {
                    decayed(*o, s, x, p - base)
                } else {
                    first[p]
                }),
        decreases dim - i,
    {
        proof {
            contract::lemma_row(i as int, dim as int, dim as int);
        }
        let (key, query) = (all[k_at + i], all[q_at + i]);
        assert(x.k[i as int] == key && x.q[i as int] == query);
        let from: usize = base + i * dim;
        let mut j: usize = 0;
        while j < dim
            invariant
                j <= dim,
                i < dim,
                is_ring(*o),
                size == dim * dim,
                from == base + i * dim,
                from + dim <= base + size,
                held == states@.len(),
                held == first.len(),
                base + size <= held,
                next == next_state(*o, zero, s, x, dim as int),
                x.k[i as int] == key,
                x.q[i as int] == query,
                error@.len() == dim,
                out@.len() == dim,
                forall|c: int|
                    0 <= c < dim ==> #[trigger] error@[c] == erred(*o, zero, s, x, dim as int, c),
                forall|c: int|
                    0 <= c < dim ==> #[trigger] out@[c] == read_out(
                        *o,
                        zero,
                        next,
                        x,
                        dim as int,
                        c,
                        (if c < j {
                            i + 1
                        } else {
                            i as int
                        }) as nat,
                    ),
                forall|p: int|
                    0 <= p < held ==> #[trigger] states@[p] == (if base <= p < from + j {
                        next[p - base]
                    } else if base <= p < base + size {
                        decayed(*o, s, x, p - base)
                    } else {
                        first[p]
                    }),
            decreases dim - j,
        {
            proof {
                lemma_cell(i as int, j as int, dim as int);
            }
            let write = (o.times)(key, error[j]);
            let n = (o.plus)(states[from + j], write);
            assert(n == next[i * dim + j]);
            states.set(from + j, n);
            let term = (o.times)(query, n);
            let sum = (o.plus)(out[j], term);
            out.set(j, sum);
            j = j + 1;
        }
        assert((i + 1) * dim == i * dim + dim) by (nonlinear_arith);
        i = i + 1;
    }
    assert(out@ =~= Seq::new(
        dim as nat,
        |j: int| read_out(*o, zero, next, x, dim as int, j, dim as nat),
    ));
    assert(states@ =~= Seq::new(
        first.len(),
        |p: int|
            if h * (dim * dim) <= p < h * (dim * dim) + dim * dim {
                next[p - h * (dim * dim)]
            } else {
                first[p]
            },
    ));
    out
}

proof fn lemma_cell(i: int, j: int, dim: int)
    requires
        0 <= i < dim,
        0 <= j < dim,
    ensures
        0 <= i * dim + j < dim * dim,
        (i * dim + j) / dim == i,
        (i * dim + j) % dim == j,
{
    contract::lemma_row(i, dim, dim);
    vstd::arithmetic::div_mod::lemma_fundamental_div_mod_converse(i * dim + j, dim, i, j);
}

/// The gated delta rule over a block of positions, advancing the states. The
/// packed operands are query, key and value planes, then decays and write
/// strengths, each with the head varying fastest.
pub fn delta_rule<T: Copy, P: Fn(T, T) -> T, M: Fn(T, T) -> T, S: Fn(T, T) -> T>(
    o: &Ring<P, M, S>,
    zero: T,
    all: &[T],
    rows: usize,
    heads: usize,
    dim: usize,
    states: &mut Vec<T>,
    dst: &mut Vec<T>,
) -> (result: Result<(), HostError>)
    requires
        is_ring(*o),
        heads * (dim * dim) <= usize::MAX,
        dim * dim <= usize::MAX,
        3 * (rows * heads * dim) + 2 * (rows * heads) <= usize::MAX,
    ensures
        ({
            let span = rows * heads * dim;
            let gates = rows * heads;
            let fits = all@.len() >= 3 * span + 2 * gates && old(states)@.len() >= heads * (dim
                * dim) && old(dst)@.len() >= span;
            match result {
                Err(e) => !fits && e == HostError::DeltaRule && final(states)@ == old(states)@
                    && final(dst)@ == old(dst)@,
                Ok(()) => {
                    &&& fits
                    &&& final(dst)@ == contract::written(
                        old(dst)@,
                        span,
                        |p: int|
                            delta_out(
                                *o,
                                zero,
                                all@,
                                old(states)@,
                                heads as int,
                                rows as int,
                                dim as int,
                                p,
                            ),
                    )
                    &&& final(states)@.len() == old(states)@.len()
                    &&& forall|h: int|
                        0 <= h < heads ==> #[trigger] plane(final(states)@, dim as int, h)
                            == state_after(
                            *o,
                            zero,
                            all@,
                            old(states)@,
                            heads as int,
                            rows as int,
                            dim as int,
                            h,
                            rows as nat,
                        )
                    &&& forall|p: int|
                        heads * (dim * dim) <= p < old(states)@.len() ==> #[trigger] final(states)@[p]
                            == old(states)@[p]
                },
            }
        }),
{
    let size: usize = dim * dim;
    proof {
        assert(0 <= rows * heads) by (nonlinear_arith);
        assert(0 <= rows * heads * dim) by (nonlinear_arith);
    }
    let gates: usize = rows * heads;
    let span: usize = gates * dim;
    if all.len() < 3 * span + 2 * gates || states.len() < heads * size || dst.len() < span {
        return Err(HostError::DeltaRule);
    }
    let ghost first = states@;
    let ghost into = dst@;
    let ghost value = |p: int|
        delta_out(*o, zero, all@, first, heads as int, rows as int, dim as int, p);
    let (given, held, room): (usize, usize, usize) = (all.len(), states.len(), dst.len());
    proof {
        assert(0 * heads == 0 && 0 * dim == 0);
    }
    let mut t: usize = 0;
    while t < rows
        invariant
            t <= rows,
            is_ring(*o),
            size == dim * dim,
            gates == rows * heads,
            span == rows * heads * dim,
            given == all@.len(),
            held == states@.len(),
            held == first.len(),
            room == dst@.len(),
            room == into.len(),
            3 * span + 2 * gates <= given,
            heads * size <= held,
            span <= room,
            value == (|p: int|
                delta_out(*o, zero, all@, first, heads as int, rows as int, dim as int, p)),
            forall|g: int|
                0 <= g < heads ==> #[trigger] plane(states@, dim as int, g) == state_after(
                    *o,
                    zero,
                    all@,
                    first,
                    heads as int,
                    rows as int,
                    dim as int,
                    g,
                    t as nat,
                ),
            forall|p: int| heads * size <= p < held ==> #[trigger] states@[p] == first[p],
            forall|p: int|
                0 <= p < room ==> #[trigger] dst@[p] == (if p < t * heads * dim {
                    value(p)
                } else {
                    into[p]
                }),
        decreases rows - t,
    {
        let mut h: usize = 0;
        proof {
            contract::lemma_row(t as int, rows as int, heads as int);
        }
        let from: usize = t * heads;
        while h < heads
            invariant
                h <= heads,
                t < rows,
                from == t * heads,
                from + heads <= gates,
                is_ring(*o),
                size == dim * dim,
                gates == rows * heads,
                span == rows * heads * dim,
                given == all@.len(),
                held == states@.len(),
                held == first.len(),
                room == dst@.len(),
                room == into.len(),
                3 * span + 2 * gates <= given,
                heads * size <= held,
                span <= room,
                value == (|p: int|
                    delta_out(*o, zero, all@, first, heads as int, rows as int, dim as int, p)),
                forall|g: int|
                    0 <= g < heads ==> #[trigger] plane(states@, dim as int, g) == state_after(
                        *o,
                        zero,
                        all@,
                        first,
                        heads as int,
                        rows as int,
                        dim as int,
                        g,
                        (if g < h {
                            t + 1
                        } else {
                            t as int
                        }) as nat,
                    ),
                forall|p: int| heads * size <= p < held ==> #[trigger] states@[p] == first[p],
                forall|p: int|
                    0 <= p < room ==> #[trigger] dst@[p] == (if p < (from + h) * dim {
                        value(p)
                    } else {
                        into[p]
                    }),
            decreases heads - h,
        {
            let r: usize = from + h;
            let ghost before = states@;
            proof {
                contract::lemma_row(r as int, gates as int, dim as int);
                contract::lemma_row(h as int, heads as int, size as int);
                assert((r + 1) * dim == r * dim + dim) by (nonlinear_arith);
                assert((h + 1) * (dim * dim) == h * (dim * dim) + dim * dim) by (nonlinear_arith);
            }
            let out = advance(o, zero, all, span, gates, dim, r, states, h);
            proof {
                lemma_planes(before, states@, heads as int, dim as int, h as int);
                assert(plane(before, dim as int, h as int) == state_after(
                    *o,
                    zero,
                    all@,
                    first,
                    heads as int,
                    rows as int,
                    dim as int,
                    h as int,
                    t as nat,
                ));
                let x = step_at(all@, span as int, gates as int, dim as int, r as int);
                let next = next_state(
                    *o,
                    zero,
                    plane(before, dim as int, h as int),
                    x,
                    dim as int,
                );
                assert(plane(states@, dim as int, h as int) =~= next);
                assert(next == state_after(
                    *o,
                    zero,
                    all@,
                    first,
                    heads as int,
                    rows as int,
                    dim as int,
                    h as int,
                    (t + 1) as nat,
                ));
                assert forall|g: int| 0 <= g < heads implies #[trigger] plane(
                    states@,
                    dim as int,
                    g,
                ) == state_after(
                    *o,
                    zero,
                    all@,
                    first,
                    heads as int,
                    rows as int,
                    dim as int,
                    g,
                    (if g < h + 1 {
                        t + 1
                    } else {
                        t as int
                    }) as nat,
                ) by {
                    if g != h {
                        assert(plane(states@, dim as int, g) == plane(before, dim as int, g));
                    }
                }
                assert forall|p: int| heads * size <= p < held implies #[trigger] states@[p]
                    == first[p] by {
                    assert(before[p] == first[p]);
                }
            }
            let at: usize = r * dim;
            let mut j: usize = 0;
            while j < dim
                invariant
                    j <= dim,
                    h < heads,
                    t < rows,
                    r == t * heads + h,
                    at == r * dim,
                    at + dim <= span,
                    span <= room,
                    room == dst@.len(),
                    room == into.len(),
                    out@.len() == dim,
                    span == rows * heads * dim,
                    gates == rows * heads,
                    value == (|p: int|
                        delta_out(*o, zero, all@, first, heads as int, rows as int, dim as int, p)),
                    forall|c: int|
                        0 <= c < dim ==> #[trigger] out@[c] == read_out(
                            *o,
                            zero,
                            state_after(
                                *o,
                                zero,
                                all@,
                                first,
                                heads as int,
                                rows as int,
                                dim as int,
                                h as int,
                                (t + 1) as nat,
                            ),
                            step_at(all@, span as int, gates as int, dim as int, r as int),
                            dim as int,
                            c,
                            dim as nat,
                        ),
                    forall|p: int|
                        0 <= p < room ==> #[trigger] dst@[p] == (if p < at + j {
                            value(p)
                        } else {
                            into[p]
                        }),
                decreases dim - j,
            {
                proof {
                    vstd::arithmetic::div_mod::lemma_fundamental_div_mod_converse(
                        at + j,
                        dim as int,
                        r as int,
                        j as int,
                    );
                    vstd::arithmetic::div_mod::lemma_fundamental_div_mod_converse(
                        r as int,
                        heads as int,
                        t as int,
                        h as int,
                    );
                }
                assert(out@[j as int] == value(at + j));
                dst.set(at + j, out[j]);
                j = j + 1;
            }
            h = h + 1;
        }
        assert((t + 1) * heads * dim == (from + heads) * dim) by (nonlinear_arith)
            requires
                from == t * heads,
        ;
        t = t + 1;
    }
    assert(dst@ =~= contract::written(into, span as int, value));
    Ok(())
}

/// Writing one head's plane leaves the others.
proof fn lemma_planes<T>(before: Seq<T>, now: Seq<T>, heads: int, dim: int, h: int)
    requires
        0 <= h < heads,
        0 <= dim,
        heads * (dim * dim) <= before.len(),
        now.len() == before.len(),
        forall|p: int|
            0 <= p < before.len() && !(h * (dim * dim) <= p < h * (dim * dim) + dim * dim)
                ==> #[trigger] now[p] == before[p],
    ensures
        forall|g: int|
            0 <= g < heads && g != h ==> #[trigger] plane(now, dim, g) == plane(before, dim, g),
{
    assert forall|g: int| 0 <= g < heads && g != h implies #[trigger] plane(now, dim, g) == plane(
        before,
        dim,
        g,
    ) by {
        let size = dim * dim;
        assert(0 <= size) by (nonlinear_arith)
            requires
                0 <= dim,
                size == dim * dim,
        ;
        contract::lemma_row(g, heads, size);
        assert(g < h ==> g * size + size <= h * size) by (nonlinear_arith)
            requires
                0 <= size,
        ;
        assert(h < g ==> h * size + size <= g * size) by (nonlinear_arith)
            requires
                0 <= size,
        ;
        assert(plane(now, dim, g) =~= plane(before, dim, g));
    }
}

/// The arithmetic the convolution needs: sums and products, the activation, and
/// the gain that normalizes a row, from its scale and its square.
pub struct Conv<P, M, A, N> {
    pub plus: P,
    pub times: M,
    pub silu: A,
    pub norm: N,
}

pub open spec fn is_conv<
    T,
    P: Fn(T, T) -> T,
    M: Fn(T, T) -> T,
    A: Fn(T) -> T,
    N: Fn(T, T) -> T,
>(o: Conv<P, M, A, N>) -> bool {
    ops::is_op2(o.plus) && ops::is_op2(o.times) && ops::is_op1(o.silu) && ops::is_op2(o.norm)
}

/// The numbers a convolution starts from: what its taps and a row's square add
/// up from, and the scales of the query and of the rest.
pub struct ConvStart<T> {
    pub zero: T,
    pub square: T,
    pub query: T,
    pub rest: T,
}

/// The column of the stream that a packed head reads: a query or key head past
/// those there are reads one of them again.
pub open spec fn column(mix: DeltaMix, which: int, head: int) -> int {
    let heads = if which == 2 {
        mix.heads
    } else {
        mix.kv_heads
    };
    mix.planes@[which] + head % heads as int * mix.head_stride
}

/// Whether every column a head reads lies in the stream and the taps.
pub open spec fn columns_fit(mix: DeltaMix, stream: int, taps: int) -> bool {
    let channels = mix.channels_len() as int;
    mix.rows > 0 && mix.heads > 0 ==> {
        &&& mix.kv_heads > 0
        &&& forall|which: int, head: int|
            0 <= which < 3 && 0 <= head < mix.heads ==> {
                &&& (mix.kernel - 1) * channels + #[trigger] column(mix, which, head)
                    + mix.head_dim <= taps
                &&& (mix.rows - 1 + mix.kernel - 1) * channels + column(mix, which, head)
                    + mix.head_dim <= stream
            }
    }
}

/// The first `n` taps at a position and channel.
pub open spec fn tapped<T, P: Fn(T, T) -> T, M: Fn(T, T) -> T, A: Fn(T) -> T, N: Fn(T, T) -> T>(
    o: Conv<P, M, A, N>,
    zero: T,
    x: Seq<T>,
    w: Seq<T>,
    channels: int,
    position: int,
    c: int,
    n: nat,
) -> T
    decreases n,
{
    if n == 0 {
        zero
    } else {
        let k = n - 1;
        ops::of2(
            o.plus,
            tapped(o, zero, x, w, channels, position, c, k as nat),
            ops::of2(o.times, w[k * channels + c], x[(position + k) * channels + c]),
        )
    }
}

/// A row of a packed plane before it is scaled.
pub open spec fn convolved<
    T,
    P: Fn(T, T) -> T,
    M: Fn(T, T) -> T,
    A: Fn(T) -> T,
    N: Fn(T, T) -> T,
>(o: Conv<P, M, A, N>, at: ConvStart<T>, mix: DeltaMix, x: Seq<T>, w: Seq<T>, which: int, t: int) -> Seq<T> {
    let channels = mix.channels_len() as int;
    let from = column(mix, which, t % mix.heads as int);
    Seq::new(
        mix.head_dim as nat,
        |d: int|
            ops::of1(
                o.silu,
                tapped(
                    o,
                    at.zero,
                    x,
                    w,
                    channels,
                    t / mix.heads as int,
                    from + d,
                    mix.kernel as nat,
                ),
            ),
    )
}

/// What a row of a packed plane is scaled by: the query's scale or none, over
/// its length where it is normalized. The value never is.
pub open spec fn gained<T, P: Fn(T, T) -> T, M: Fn(T, T) -> T, A: Fn(T) -> T, N: Fn(T, T) -> T>(
    o: Conv<P, M, A, N>,
    at: ConvStart<T>,
    mix: DeltaMix,
    which: int,
    row: Seq<T>,
) -> T {
    let scale = if which == 0 {
        at.query
    } else {
        at.rest
    };
    if mix.normalize && which < 2 {
        ops::of2(
            o.norm,
            scale,
            ops::dotted(o.plus, o.times, at.square, row, row, mix.head_dim as nat),
        )
    } else {
        scale
    }
}

/// An element of the packed planes.
pub open spec fn packed_at<T, P: Fn(T, T) -> T, M: Fn(T, T) -> T, A: Fn(T) -> T, N: Fn(T, T) -> T>(
    o: Conv<P, M, A, N>,
    at: ConvStart<T>,
    mix: DeltaMix,
    x: Seq<T>,
    w: Seq<T>,
    p: int,
) -> T {
    let span = mix.span_len() as int;
    let dim = mix.head_dim as int;
    let which = p / span;
    let row = convolved(o, at, mix, x, w, which, p % span / dim);
    ops::of2(o.times, row[p % span % dim], gained(o, at, mix, which, row))
}

fn tap<T: Copy, P: Fn(T, T) -> T, M: Fn(T, T) -> T, A: Fn(T) -> T, N: Fn(T, T) -> T>(
    o: &Conv<P, M, A, N>,
    zero: T,
    x: &[T],
    w: &[T],
    channels: usize,
    position: usize,
    c: usize,
    kernel: usize,
) -> (sum: T)
    requires
        is_conv(*o),
        kernel >= 1,
        (kernel - 1) * channels + c < w@.len(),
        (position + kernel - 1) * channels + c < x@.len(),
    ensures
        sum == tapped(
            *o,
            zero,
            x@,
            w@,
            channels as int,
            position as int,
            c as int,
            kernel as nat,
        ),
{
    let (x_held, w_held): (usize, usize) = (x.len(), w.len());
    let mut sum: T = zero;
    let mut k: usize = 0;
    while k < kernel
        invariant
            k <= kernel,
            is_conv(*o),
            x_held == x@.len(),
            w_held == w@.len(),
            (kernel - 1) * channels + c < w_held,
            (position + kernel - 1) * channels + c < x_held,
            sum == tapped(
                *o,
                zero,
                x@,
                w@,
                channels as int,
                position as int,
                c as int,
                k as nat,
            ),
        decreases kernel - k,
    {
        assert(0 <= k * channels <= (kernel - 1) * channels && 0 <= (position + k) * channels && (
        position + k) * channels <= (position + kernel - 1) * channels) by (nonlinear_arith)
            requires
                0 <= k <= kernel - 1,
                0 <= channels,
                0 <= position,
        ;
        assert(channels >= 1 ==> position + k <= (position + k) * channels) by (nonlinear_arith)
            requires
                0 <= position + k,
        ;
        let tap_at: usize = k * channels + c;
        let at: usize = if channels == 0 {
            assert((position + k) * 0 == 0) by (nonlinear_arith);
            c
        } else {
            (position + k) * channels + c
        };
        let term = (o.times)(w[tap_at], x[at]);
        sum = (o.plus)(sum, term);
        k = k + 1;
    }
    sum
}

/// One row of a packed plane.
fn conv_row<T: Copy, P: Fn(T, T) -> T, M: Fn(T, T) -> T, A: Fn(T) -> T, N: Fn(T, T) -> T>(
    o: &Conv<P, M, A, N>,
    at: &ConvStart<T>,
    mix: DeltaMix,
    x: &[T],
    w: &[T],
    which: usize,
    t: usize,
) -> (row: Vec<T>)
    requires
        is_conv(*o),
        mix.fits(),
        columns_fit(mix, x@.len() as int, w@.len() as int),
        which < 3,
        t < mix.gates_len(),
    ensures
        row@.len() == mix.head_dim,
        ({
            let raw = convolved(*o, *at, mix, x@, w@, which as int, t as int);
            forall|d: int|
                0 <= d < mix.head_dim ==> #[trigger] row@[d] == ops::of2(
                    o.times,
                    raw[d],
                    gained(*o, *at, mix, which as int, raw),
                )
        }),
{
    let dim: usize = mix.head_dim;
    proof {
        contract::lemma_position(t as int, mix.rows as int, mix.heads as int);
    }
    let (position, head): (usize, usize) = (t / mix.heads, t % mix.heads);
    let heads: usize = if which == 2 {
        mix.heads
    } else {
        mix.kv_heads
    };
    let channels: usize = mix.channels();
    let (x_held, w_held): (usize, usize) = (x.len(), w.len());
    let ghost from = column(mix, which as int, head as int);
    proof {
        assert(from == column(mix, which as int, head as int));
        assert(0 <= head % heads * mix.head_stride) by (nonlinear_arith)
            requires
                heads > 0,
                0 <= head,
                0 <= mix.head_stride,
        ;
        assert(0 <= (mix.kernel - 1) * channels) by (nonlinear_arith)
            requires
                mix.kernel >= 1,
                0 <= channels,
        ;
    }
    let column_at: usize = mix.planes[which] + head % heads * mix.head_stride;
    assert(column_at == from);
    let ghost raw = convolved(*o, *at, mix, x@, w@, which as int, t as int);
    let mut row: Vec<T> = Vec::new();
    let mut d: usize = 0;
    while d < dim
        invariant
            d <= dim,
            is_conv(*o),
            dim == mix.head_dim,
            channels == mix.channels_len(),
            mix.kernel >= 1,
            position < mix.rows,
            position == t / mix.heads,
            head == t % mix.heads,
            mix.heads > 0,
            column_at == column(mix, which as int, head as int),
            x_held == x@.len(),
            w_held == w@.len(),
            (mix.kernel - 1) * channels + column_at + dim <= w_held,
            (mix.rows - 1 + mix.kernel - 1) * channels + column_at + dim <= x_held,
            0 <= (mix.kernel - 1) * channels,
            raw == convolved(*o, *at, mix, x@, w@, which as int, t as int),
            row@ == raw.take(d as int),
        decreases dim - d,
    {
        assert((position + mix.kernel - 1) * channels <= (mix.rows - 1 + mix.kernel - 1) * channels)
            by (nonlinear_arith)
            requires
                position <= mix.rows - 1,
                0 <= channels,
        ;
        let c: usize = column_at + d;
        let sum = tap(o, at.zero, x, w, channels, position, c, mix.kernel);
        let v = (o.silu)(sum);
        assert(raw[d as int] == v);
        row.push(v);
        d = d + 1;
        assert(row@ =~= raw.take(d as int));
    }
    assert(row@ =~= raw);
    let scale = if which == 0 {
        at.query
    } else {
        at.rest
    };
    let gain = if mix.normalize && which < 2 {
        let square = ops::dot(&o.plus, &o.times, at.square, row.as_slice(), 0, row.as_slice(), 0, dim);
        assert(row@.subrange(0, dim as int) =~= raw);
        (o.norm)(scale, square)
    } else {
        scale
    };
    assert(gain == gained(*o, *at, mix, which as int, raw));
    let mut d: usize = 0;
    while d < dim
        invariant
            d <= dim,
            is_conv(*o),
            dim == raw.len(),
            row@.len() == dim,
            forall|c: int|
                0 <= c < dim ==> #[trigger] row@[c] == (if c < d {
                    ops::of2(o.times, raw[c], gain)
                } else {
                    raw[c]
                }),
        decreases dim - d,
    {
        let v = (o.times)(row[d], gain);
        row.set(d, v);
        d = d + 1;
    }
    row
}

/// The causal depthwise convolution that feeds the delta rule, split into the
/// packed planes it reads. The stream is the positions carried from the last
/// call, then this call's.
pub fn delta_conv<T: Copy, P: Fn(T, T) -> T, M: Fn(T, T) -> T, A: Fn(T) -> T, N: Fn(T, T) -> T>(
    o: &Conv<P, M, A, N>,
    at: &ConvStart<T>,
    mix: DeltaMix,
    x: &[T],
    w: &[T],
    dst: &mut Vec<T>,
) -> (result: Result<(), HostError>)
    requires
        is_conv(*o),
        mix.fits(),
        x@.len() >= mix.history_size() && w@.len() >= mix.kernel * mix.channels_len()
            && old(dst)@.len() >= mix.packed_size() ==> columns_fit(
            mix,
            x@.len() as int,
            w@.len() as int,
        ),
    ensures
        match result {
            Err(e) => e == HostError::DeltaConv && !(x@.len() >= mix.history_size() && w@.len()
                >= mix.kernel * mix.channels_len() && old(dst)@.len() >= mix.packed_size())
                && final(dst)@ == old(dst)@,
            Ok(()) => x@.len() >= mix.history_size() && w@.len() >= mix.kernel * mix.channels_len()
                && old(dst)@.len() >= mix.packed_size() && final(dst)@ == contract::written(
                old(dst)@,
                (3 * mix.span_len()) as int,
                |p: int| packed_at(*o, *at, mix, x@, w@, p),
            ),
        },
{
    let channels: usize = mix.channels();
    if x.len() < mix.history_len() || w.len() < mix.kernel * channels || dst.len()
        < mix.packed_len() {
        return Err(HostError::DeltaConv);
    }
    let (gates, span, dim): (usize, usize, usize) = (mix.gates(), mix.span(), mix.head_dim);
    let room: usize = dst.len();
    let ghost into = dst@;
    let ghost value = |p: int| packed_at(*o, *at, mix, x@, w@, p);
    let mut which: usize = 0;
    assert(0 * span == 0) by (nonlinear_arith);
    while which < 3
        invariant
            which <= 3,
            is_conv(*o),
            mix.fits(),
            columns_fit(mix, x@.len() as int, w@.len() as int),
            gates == mix.gates_len(),
            span == mix.span_len(),
            dim == mix.head_dim,
            span == gates * dim,
            room == dst@.len(),
            room == into.len(),
            3 * span <= room,
            value == (|p: int| packed_at(*o, *at, mix, x@, w@, p)),
            forall|p: int|
                0 <= p < room ==> #[trigger] dst@[p] == (if p < which * span {
                    value(p)
                } else {
                    into[p]
                }),
        decreases 3 - which,
    {
        proof {
            contract::lemma_row(which as int, 3, span as int);
        }
        let base: usize = which * span;
        let mut t: usize = 0;
        assert(0 * dim == 0) by (nonlinear_arith);
        while t < gates
            invariant
                t <= gates,
                which < 3,
                base == which * span,
                base + span <= 3 * span,
                is_conv(*o),
                mix.fits(),
                columns_fit(mix, x@.len() as int, w@.len() as int),
                gates == mix.gates_len(),
                span == mix.span_len(),
                dim == mix.head_dim,
                span == gates * dim,
                room == dst@.len(),
                room == into.len(),
                3 * span <= room,
                value == (|p: int| packed_at(*o, *at, mix, x@, w@, p)),
                forall|p: int|
                    0 <= p < room ==> #[trigger] dst@[p] == (if p < base + t * dim {
                        value(p)
                    } else {
                        into[p]
                    }),
            decreases gates - t,
        {
            let row = conv_row(o, at, mix, x, w, which, t);
            proof {
                contract::lemma_row(t as int, gates as int, dim as int);
            }
            let from: usize = base + t * dim;
            let mut d: usize = 0;
            while d < dim
                invariant
                    d <= dim,
                    which < 3,
                    t < gates,
                    base == which * span,
                    base + span <= 3 * span,
                    from == base + t * dim,
                    t * dim + dim <= span,
                    0 <= t * dim,
                    span == mix.span_len(),
                    dim == mix.head_dim,
                    room == dst@.len(),
                    room == into.len(),
                    3 * span <= room,
                    row@.len() == dim,
                    value == (|p: int| packed_at(*o, *at, mix, x@, w@, p)),
                    ({
                        let raw = convolved(*o, *at, mix, x@, w@, which as int, t as int);
                        forall|d: int|
                            0 <= d < mix.head_dim ==> #[trigger] row@[d] == ops::of2(
                                o.times,
                                raw[d],
                                gained(*o, *at, mix, which as int, raw),
                            )
                    }),
                    forall|p: int|
                        0 <= p < room ==> #[trigger] dst@[p] == (if p < from + d {
                            value(p)
                        } else {
                            into[p]
                        }),
                decreases dim - d,
            {
                proof {
                    vstd::arithmetic::div_mod::lemma_fundamental_div_mod_converse(
                        from + d,
                        span as int,
                        which as int,
                        t * dim + d,
                    );
                    vstd::arithmetic::div_mod::lemma_fundamental_div_mod_converse(
                        t * dim + d,
                        dim as int,
                        t as int,
                        d as int,
                    );
                }
                assert(row@[d as int] == value(from + d));
                dst.set(from + d, row[d]);
                d = d + 1;
            }
            assert((t + 1) * dim == t * dim + dim) by (nonlinear_arith);
            t = t + 1;
        }
        assert((which + 1) * span == base + span) by (nonlinear_arith)
            requires
                base == which * span,
        ;
        which = which + 1;
    }
    assert(dst@ =~= contract::written(into, 3 * span, value));
    Ok(())
}

/// The arithmetic the gates need.
pub struct Gates<P, M, E, F, G> {
    pub plus: P,
    pub times: M,
    pub exp: E,
    pub softplus: F,
    pub sigmoid: G,
}

pub open spec fn is_gates<
    T,
    P: Fn(T, T) -> T,
    M: Fn(T, T) -> T,
    E: Fn(T) -> T,
    F: Fn(T) -> T,
    G: Fn(T) -> T,
>(o: Gates<P, M, E, F, G>) -> bool {
    ops::is_op2(o.plus) && ops::is_op2(o.times) && ops::is_op1(o.exp) && ops::is_op1(o.softplus) && ops::is_op1(o.sigmoid)
}

/// An element of the gates: the decays `exp(rate * softplus(decay + bias))`,
/// then the write strengths `sigmoid(beta)`.
pub open spec fn gate_at<
    T,
    P: Fn(T, T) -> T,
    M: Fn(T, T) -> T,
    E: Fn(T) -> T,
    F: Fn(T) -> T,
    G: Fn(T) -> T,
>(
    o: Gates<P, M, E, F, G>,
    decays: Seq<T>,
    betas: Seq<T>,
    rate: Seq<T>,
    bias: Seq<T>,
    heads: int,
    gates: int,
    i: int,
) -> T {
    if i < gates {
        let h = i % heads;
        ops::of1(o.exp, ops::of2(o.times, rate[h], ops::of1(o.softplus, ops::of2(o.plus, decays[i], bias[h]))))
    } else {
        ops::of1(o.sigmoid, betas[i - gates])
    }
}

/// The packed operands with the gates written.
pub open spec fn gated<
    T,
    P: Fn(T, T) -> T,
    M: Fn(T, T) -> T,
    E: Fn(T) -> T,
    F: Fn(T) -> T,
    G: Fn(T) -> T,
>(
    o: Gates<P, M, E, F, G>,
    mix: DeltaMix,
    packed: Seq<T>,
    decays: Seq<T>,
    betas: Seq<T>,
    rate: Seq<T>,
    bias: Seq<T>,
) -> Seq<T> {
    Seq::new(
        packed.len(),
        |p: int|
            if 3 * mix.span_len() <= p < mix.packed_size() {
                gate_at(
                    o,
                    decays,
                    betas,
                    rate,
                    bias,
                    mix.heads as int,
                    mix.gates_len() as int,
                    p - 3 * mix.span_len(),
                )
            } else {
                packed[p]
            },
    )
}

/// The delta rule's gates, written after the packed planes. The projections
/// start at `decay_at` and `beta_at`.
pub fn delta_gates<
    T: Copy,
    P: Fn(T, T) -> T,
    M: Fn(T, T) -> T,
    E: Fn(T) -> T,
    F: Fn(T) -> T,
    G: Fn(T) -> T,
>(
    o: &Gates<P, M, E, F, G>,
    decays: &[T],
    decay_at: usize,
    betas: &[T],
    beta_at: usize,
    rate: &[T],
    bias: &[T],
    mix: DeltaMix,
    dst: &mut Vec<T>,
) -> (result: Result<(), HostError>)
    requires
        is_gates(*o),
        mix.packed_size() <= usize::MAX,
        decay_at <= decays@.len(),
        beta_at <= betas@.len(),
    ensures
        ({
            let gates = mix.gates_len();
            let fits = decays@.len() - decay_at >= gates && betas@.len() - beta_at >= gates
                && rate@.len() >= mix.heads && bias@.len() >= mix.heads && old(dst)@.len()
                >= mix.packed_size();
            match result {
                Err(e) => e == HostError::DeltaGates && !fits && final(dst)@ == old(dst)@,
                Ok(()) => fits && final(dst)@ == gated(
                    *o,
                    mix,
                    old(dst)@,
                    decays@.skip(decay_at as int),
                    betas@.skip(beta_at as int),
                    rate@,
                    bias@,
                ),
            }
        }),
{
    let (gates, span): (usize, usize) = (mix.gates(), mix.span());
    if decays.len() - decay_at < gates || betas.len() - beta_at < gates || rate.len() < mix.heads
        || bias.len() < mix.heads || dst.len() < mix.packed_len() {
        return Err(HostError::DeltaGates);
    }
    let room: usize = dst.len();
    let (d_held, b_held): (usize, usize) = (decays.len(), betas.len());
    let from: usize = 3 * span;
    let ghost into = dst@;
    let ghost (a, b) = (decays@.skip(decay_at as int), betas@.skip(beta_at as int));
    let ghost value = |i: int|
        gate_at(*o, a, b, rate@, bias@, mix.heads as int, gates as int, i);
    let mut i: usize = 0;
    while i < gates
        invariant
            i <= gates,
            is_gates(*o),
            gates == mix.gates_len(),
            from == 3 * mix.span_len(),
            from + 2 * gates <= room,
            room == dst@.len(),
            room == into.len(),
            d_held == decays@.len(),
            b_held == betas@.len(),
            decay_at + gates <= d_held,
            beta_at + gates <= b_held,
            rate@.len() >= mix.heads,
            bias@.len() >= mix.heads,
            a == decays@.skip(decay_at as int),
            b == betas@.skip(beta_at as int),
            value == (|i: int| gate_at(*o, a, b, rate@, bias@, mix.heads as int, gates as int, i)),
            forall|p: int|
                0 <= p < room ==> #[trigger] dst@[p] == (if from <= p < from + i || from + gates <= p
                    < from + gates + i {
                    value(p - from)
                } else {
                    into[p]
                }),
        decreases gates - i,
    {
        proof {
            contract::lemma_position(i as int, mix.rows as int, mix.heads as int);
        }
        let h: usize = i % mix.heads;
        assert(a[i as int] == decays@[decay_at + i] && b[i as int] == betas@[beta_at + i]);
        let shifted = (o.plus)(decays[decay_at + i], bias[h]);
        let soft = (o.softplus)(shifted);
        let rated = (o.times)(rate[h], soft);
        let decay = (o.exp)(rated);
        let beta = (o.sigmoid)(betas[beta_at + i]);
        assert(decay == value(i as int));
        assert(beta == value(gates + i));
        dst.set(from + i, decay);
        dst.set(from + gates + i, beta);
        i = i + 1;
    }
    assert(dst@ =~= Seq::new(
        into.len(),
        |p: int|
            if 3 * mix.span_len() <= p < mix.packed_size() {
                value(p - 3 * mix.span_len())
            } else {
                into[p]
            },
    ));
    Ok(())
}

/// A grouped-query delta net's heads share the query and key heads there are, in
/// turn, while every value head has its own.
pub proof fn heads_share_in_turn(mix: DeltaMix, which: int, head: int)
    requires
        0 <= which < 2,
        0 <= head,
        mix.kv_heads > 0,
        head + mix.kv_heads < mix.heads,
    ensures
        column(mix, which, head + mix.kv_heads) == column(mix, which, head),
        column(mix, 2, head) == mix.planes@[2] + head * mix.head_stride,
{
    vstd::arithmetic::div_mod::lemma_mod_add_multiples_vanish(head, mix.kv_heads as int);
    vstd::arithmetic::div_mod::lemma_small_mod(head as nat, mix.heads as nat);
    assert(head + mix.kv_heads == mix.kv_heads + head);
}

} // verus!
