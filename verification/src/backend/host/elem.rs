//! The host's element-wise operations and its normalization.

use vstd::prelude::*;

use crate::backend::host::contract::{self, HostError};
use crate::backend::host::ops;

verus! {

/// The smaller of two lengths.
pub open spec fn shorter(a: nat, b: nat) -> int {
    if a < b {
        a as int
    } else {
        b as int
    }
}

/// `acc += add`, over the shorter of the two.
pub fn add_into<T: Copy, P: Fn(T, T) -> T>(plus: &P, acc: &mut Vec<T>, add: &[T])
    requires
        ops::is_op2(*plus),
    ensures
        final(acc)@ == contract::written(
            old(acc)@,
            shorter(old(acc)@.len(), add@.len()),
            |p: int| ops::of2(*plus, old(acc)@[p], add@[p]),
        ),
{
    let ghost first = acc@;
    let room: usize = acc.len();
    let n: usize = if room < add.len() {
        room
    } else {
        add.len()
    };
    let mut i: usize = 0;
    while i < n
        invariant
            i <= n,
            n <= room,
            n <= add@.len(),
            room == acc@.len(),
            room == first.len(),
            ops::is_op2(*plus),
            forall|p: int|
                0 <= p < room ==> #[trigger] acc@[p] == (if p < i {
                    ops::of2(*plus, first[p], add@[p])
                } else {
                    first[p]
                }),
        decreases n - i,
    {
        let v = plus(acc[i], add[i]);
        acc.set(i, v);
        i = i + 1;
    }
    assert(acc@ =~= contract::written(
        first,
        n as int,
        |p: int| ops::of2(*plus, first[p], add@[p]),
    ));
}

/// An element of `x * sigmoid(gate)`.
pub open spec fn opened<T, M: Fn(T, T) -> T, G: Fn(T) -> T>(
    times: M,
    sigmoid: G,
    x: Seq<T>,
    gate: Seq<T>,
    p: int,
) -> T {
    ops::of2(times, x[p], ops::of1(sigmoid, gate[p]))
}

/// `x *= sigmoid(gate)`, over the shorter of the two.
pub fn gate_into<T: Copy, M: Fn(T, T) -> T, G: Fn(T) -> T>(
    times: &M,
    sigmoid: &G,
    x: &mut Vec<T>,
    gate: &[T],
)
    requires
        ops::is_op2(*times),
        ops::is_op1(*sigmoid),
    ensures
        final(x)@ == contract::written(
            old(x)@,
            shorter(old(x)@.len(), gate@.len()),
            |p: int| opened(*times, *sigmoid, old(x)@, gate@, p),
        ),
{
    let ghost first = x@;
    let room: usize = x.len();
    let n: usize = if room < gate.len() {
        room
    } else {
        gate.len()
    };
    let mut i: usize = 0;
    while i < n
        invariant
            i <= n,
            n <= room,
            n <= gate@.len(),
            room == x@.len(),
            room == first.len(),
            ops::is_op2(*times),
            ops::is_op1(*sigmoid),
            forall|p: int|
                0 <= p < room ==> #[trigger] x@[p] == (if p < i {
                    opened(*times, *sigmoid, first, gate@, p)
                } else {
                    first[p]
                }),
        decreases n - i,
    {
        let open_by = sigmoid(gate[i]);
        let v = times(x[i], open_by);
        x.set(i, v);
        i = i + 1;
    }
    assert(x@ =~= contract::written(
        first,
        n as int,
        |p: int| opened(*times, *sigmoid, first, gate@, p),
    ));
}

/// An element of `silu(gate) * up` over two windows.
pub open spec fn swiglued<T, M: Fn(T, T) -> T, A: Fn(T) -> T>(
    times: M,
    silu: A,
    gate: Seq<T>,
    gate_at: int,
    up: Seq<T>,
    up_at: int,
    p: int,
) -> T {
    ops::of2(times, ops::of1(silu, gate[gate_at + p]), up[up_at + p])
}

/// `out = silu(gate) * up` over `len` elements or all of `out`. The operands
/// take an offset because a fused projection leaves them as two windows of one
/// buffer.
pub fn swiglu<T: Copy, M: Fn(T, T) -> T, A: Fn(T) -> T>(
    times: &M,
    silu: &A,
    gate: &[T],
    gate_at: usize,
    up: &[T],
    up_at: usize,
    out: &mut Vec<T>,
    len: usize,
)
    requires
        ops::is_op2(*times),
        ops::is_op1(*silu),
        gate_at + shorter(old(out)@.len(), len as nat) <= gate@.len(),
        up_at + shorter(old(out)@.len(), len as nat) <= up@.len(),
    ensures
        final(out)@ == contract::written(
            old(out)@,
            shorter(old(out)@.len(), len as nat),
            |p: int| swiglued(*times, *silu, gate@, gate_at as int, up@, up_at as int, p),
        ),
{
    let ghost first = out@;
    let (room, g_held, u_held): (usize, usize, usize) = (out.len(), gate.len(), up.len());
    let n: usize = if room < len {
        room
    } else {
        len
    };
    let mut i: usize = 0;
    while i < n
        invariant
            i <= n,
            n <= room,
            room == out@.len(),
            room == first.len(),
            g_held == gate@.len(),
            u_held == up@.len(),
            gate_at + n <= g_held,
            up_at + n <= u_held,
            ops::is_op2(*times),
            ops::is_op1(*silu),
            forall|p: int|
                0 <= p < room ==> #[trigger] out@[p] == (if p < i {
                    swiglued(*times, *silu, gate@, gate_at as int, up@, up_at as int, p)
                } else {
                    first[p]
                }),
        decreases n - i,
    {
        let g = silu(gate[gate_at + i]);
        let v = times(g, up[up_at + i]);
        out.set(i, v);
        i = i + 1;
    }
    assert(out@ =~= contract::written(
        first,
        n as int,
        |p: int| swiglued(*times, *silu, gate@, gate_at as int, up@, up_at as int, p),
    ));
}

/// An element of normalized rows: times the inverse of its row's length, then
/// its channel's gain. `inverse` is of a row's square.
pub open spec fn normed<T, P: Fn(T, T) -> T, M: Fn(T, T) -> T, I: Fn(T) -> T>(
    plus: P,
    times: M,
    inverse: I,
    start: T,
    x: Seq<T>,
    gain: Seq<T>,
    width: int,
    p: int,
) -> T {
    let c = p / width * width;
    let row = x.subrange(c, c + width);
    let inv = ops::of1(inverse, ops::dotted(plus, times, start, row, row, width as nat));
    ops::of2(times, ops::of2(times, x[p], inv), gain[p % width])
}

/// Root-mean-square normalization with a gain by channel, over each row.
pub fn rms_norm_rows<T: Copy, P: Fn(T, T) -> T, M: Fn(T, T) -> T, I: Fn(T) -> T>(
    plus: &P,
    times: &M,
    inverse: &I,
    start: T,
    src: &[T],
    rows: usize,
    width: usize,
    gain: &[T],
    dst: &mut Vec<T>,
) -> (result: Result<(), HostError>)
    requires
        ops::is_op2(*plus),
        ops::is_op2(*times),
        ops::is_op1(*inverse),
        rows * width <= usize::MAX,
        src@.len() >= rows * width && gain@.len() >= width ==> rows * width <= old(dst)@.len(),
    ensures
        ({
            let fits = src@.len() >= rows * width && gain@.len() >= width;
            match result {
                Err(e) => e == HostError::Norm && !fits && final(dst)@ == old(dst)@,
                Ok(()) => fits && final(dst)@ == contract::written(
                    old(dst)@,
                    rows * width,
                    |p: int| normed(*plus, *times, *inverse, start, src@, gain@, width as int, p),
                ),
            }
        }),
{
    let room: usize = dst.len();
    let all: usize = rows * width;
    if src.len() < all || gain.len() < width {
        return Err(HostError::Norm);
    }
    let ghost first = dst@;
    let ghost value = |p: int|
        normed(*plus, *times, *inverse, start, src@, gain@, width as int, p);
    assert(0 * width == 0) by (nonlinear_arith);
    let mut r: usize = 0;
    while r < rows
        invariant
            r <= rows,
            all == rows * width,
            all <= room,
            all <= src@.len(),
            width <= gain@.len(),
            room == dst@.len(),
            room == first.len(),
            ops::is_op2(*plus),
            ops::is_op2(*times),
            ops::is_op1(*inverse),
            value == (|p: int|
                normed(*plus, *times, *inverse, start, src@, gain@, width as int, p)),
            forall|p: int|
                0 <= p < room ==> #[trigger] dst@[p] == (if p < r * width {
                    value(p)
                } else {
                    first[p]
                }),
        decreases rows - r,
    {
        proof {
            contract::lemma_row(r as int, rows as int, width as int);
        }
        let from: usize = r * width;
        let square = ops::dot(plus, times, start, src, from, src, from, width);
        let inv = inverse(square);
        let mut i: usize = 0;
        while i < width
            invariant
                i <= width,
                from == r * width,
                from + width <= all,
                all <= room,
                all <= src@.len(),
                width <= gain@.len(),
                room == dst@.len(),
                room == first.len(),
                ops::is_op2(*times),
                inv == ops::of1(
                    *inverse,
                    ops::dotted(
                        *plus,
                        *times,
                        start,
                        src@.subrange(from as int, from + width),
                        src@.subrange(from as int, from + width),
                        width as nat,
                    ),
                ),
                value == (|p: int|
                    normed(*plus, *times, *inverse, start, src@, gain@, width as int, p)),
                forall|p: int|
                    0 <= p < room ==> #[trigger] dst@[p] == (if p < from + i {
                        value(p)
                    } else {
                        first[p]
                    }),
            decreases width - i,
        {
            proof {
                vstd::arithmetic::div_mod::lemma_fundamental_div_mod_converse(
                    from + i,
                    width as int,
                    r as int,
                    i as int,
                );
            }
            let scaled = times(src[from + i], inv);
            let v = times(scaled, gain[i]);
            assert(v == value(from + i));
            dst.set(from + i, v);
            i = i + 1;
        }
        assert((r + 1) * width == r * width + width) by (nonlinear_arith);
        r = r + 1;
    }
    assert(dst@ =~= contract::written(first, rows * width, value));
    Ok(())
}

/// Every whole row of a buffer normalized, as far as the gain goes.
pub open spec fn all_normed<T, P: Fn(T, T) -> T, M: Fn(T, T) -> T, I: Fn(T) -> T>(
    plus: P,
    times: M,
    inverse: I,
    start: T,
    x: Seq<T>,
    gain: Seq<T>,
    width: int,
) -> Seq<T> {
    Seq::new(
        x.len(),
        |p: int|
            if p < x.len() as int / width * width && p % width < gain.len() {
                normed(plus, times, inverse, start, x, gain, width, p)
            } else {
                x[p]
            },
    )
}

/// The same in place, over every whole row, the gain as far as it goes.
pub fn rms_norm<T: Copy, P: Fn(T, T) -> T, M: Fn(T, T) -> T, I: Fn(T) -> T>(
    plus: &P,
    times: &M,
    inverse: &I,
    start: T,
    x: &mut Vec<T>,
    width: usize,
    gain: &[T],
)
    requires
        ops::is_op2(*plus),
        ops::is_op2(*times),
        ops::is_op1(*inverse),
        width > 0,
    ensures
        final(x)@ == all_normed(*plus, *times, *inverse, start, old(x)@, gain@, width as int),
{
    let ghost first = x@;
    let held: usize = x.len();
    let rows: usize = held / width;
    let n: usize = if gain.len() < width {
        gain.len()
    } else {
        width
    };
    let ghost whole = all_normed(*plus, *times, *inverse, start, first, gain@, width as int);
    proof {
        vstd::arithmetic::div_mod::lemma_fundamental_div_mod(held as int, width as int);
        assert(width * rows == rows * width) by (nonlinear_arith);
        assert(0 * width == 0) by (nonlinear_arith);
    }
    let mut r: usize = 0;
    while r < rows
        invariant
            r <= rows,
            rows == held / width,
            rows * width <= held,
            held == x@.len(),
            held == first.len(),
            width > 0,
            n <= width,
            n <= gain@.len(),
            n < width ==> n == gain@.len(),
            ops::is_op2(*plus),
            ops::is_op2(*times),
            ops::is_op1(*inverse),
            whole == all_normed(*plus, *times, *inverse, start, first, gain@, width as int),
            forall|p: int|
                0 <= p < held ==> #[trigger] x@[p] == (if p < r * width {
                    whole[p]
                } else {
                    first[p]
                }),
        decreases rows - r,
    {
        proof {
            contract::lemma_row(r as int, rows as int, width as int);
        }
        let from: usize = r * width;
        let square = ops::dot(plus, times, start, x.as_slice(), from, x.as_slice(), from, width);
        assert(x@.subrange(from as int, from + width) =~= first.subrange(
            from as int,
            from + width,
        ));
        let inv = inverse(square);
        let mut i: usize = 0;
        while i < n
            invariant
                i <= n,
                n <= width,
                n <= gain@.len(),
                r < rows,
                rows == held / width,
                from == r * width,
                from + width <= rows * width,
                rows * width <= held,
                held == x@.len(),
                held == first.len(),
                ops::is_op2(*times),
                inv == ops::of1(
                    *inverse,
                    ops::dotted(
                        *plus,
                        *times,
                        start,
                        first.subrange(from as int, from + width),
                        first.subrange(from as int, from + width),
                        width as nat,
                    ),
                ),
                whole == all_normed(*plus, *times, *inverse, start, first, gain@, width as int),
                forall|p: int|
                    0 <= p < held ==> #[trigger] x@[p] == (if p < from + i {
                        whole[p]
                    } else {
                        first[p]
                    }),
            decreases n - i,
        {
            proof {
                vstd::arithmetic::div_mod::lemma_fundamental_div_mod_converse(
                    from + i,
                    width as int,
                    r as int,
                    i as int,
                );
            }
            let scaled = times(x[from + i], inv);
            let v = times(scaled, gain[i]);
            assert(v == whole[from + i]);
            x.set(from + i, v);
            i = i + 1;
        }
        assert((r + 1) * width == r * width + width) by (nonlinear_arith);
        proof {
            assert forall|p: int| 0 <= p < held implies #[trigger] x@[p] == (if p < (r + 1)
                * width {
                whole[p]
            } else {
                first[p]
            }) by {
                if from + n <= p < from + width {
                    vstd::arithmetic::div_mod::lemma_fundamental_div_mod_converse(
                        p,
                        width as int,
                        r as int,
                        p - from,
                    );
                    assert(whole[p] == first[p]);
                }
            }
        }
        r = r + 1;
    }
    assert(x@ =~= whole);
}

/// Rows are normalized independently: an element depends on its own row alone.
pub proof fn rows_are_normalized_independently<
    T,
    P: Fn(T, T) -> T,
    M: Fn(T, T) -> T,
    I: Fn(T) -> T,
>(
    plus: P,
    times: M,
    inverse: I,
    start: T,
    x: Seq<T>,
    y: Seq<T>,
    gain: Seq<T>,
    width: int,
    p: int,
)
    requires
        width > 0,
        0 <= p,
        p / width * width + width <= x.len(),
        p / width * width + width <= y.len(),
        x.subrange(p / width * width, p / width * width + width) == y.subrange(
            p / width * width,
            p / width * width + width,
        ),
    ensures
        normed(plus, times, inverse, start, x, gain, width, p) == normed(
            plus,
            times,
            inverse,
            start,
            y,
            gain,
            width,
            p,
        ),
{
    let c = p / width * width;
    vstd::arithmetic::div_mod::lemma_fundamental_div_mod(p, width);
    assert(width * (p / width) == c) by (nonlinear_arith)
        requires
            c == p / width * width,
    ;
    assert(0 <= c) by (nonlinear_arith)
        requires
            c == p / width * width,
            0 <= p,
            width > 0,
    ;
    assert(x[p] == x.subrange(c, c + width)[p - c]);
    assert(y[p] == y.subrange(c, c + width)[p - c]);
}

} // verus!
