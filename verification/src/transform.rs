//! The Walsh-Hadamard transform of a row, and the two sides of a folded weight
//! it takes an activation or a looked-up row through.

use vstd::arithmetic::{div_mod, power2};
use vstd::prelude::*;

use crate::backend::device::kernels::hadamard as kernel;
use crate::backend::host::contract;
use crate::backend::host::ops;
use crate::backend::HeadPerm;
use crate::hadamard::{self, perm_source};

verus! {

/// Sums and differences of elements `half` apart, over runs of twice that.
pub open spec fn crossed<T, P: Fn(T, T) -> T, S: Fn(T, T) -> T>(
    plus: P,
    minus: S,
    x: Seq<T>,
    half: int,
) -> Seq<T> {
    Seq::new(
        x.len(),
        |i: int|
            if i / half % 2 == 0 {
                ops::of2(plus, x[i], x[i + half])
            } else {
                ops::of2(minus, x[i - half], x[i])
            },
    )
}

/// A block after the first `e` stages, each crossing elements twice as far apart
/// as the last.
pub open spec fn staged<T, P: Fn(T, T) -> T, S: Fn(T, T) -> T>(
    plus: P,
    minus: S,
    x: Seq<T>,
    e: nat,
) -> Seq<T>
    decreases e,
{
    if e == 0 {
        x
    } else {
        crossed(
            plus,
            minus,
            staged(plus, minus, x, (e - 1) as nat),
            power2::pow2((e - 1) as nat) as int,
        )
    }
}

/// The exponent of a power of two.
pub open spec fn log_of(block: nat) -> nat {
    choose|e: nat| block == #[trigger] power2::pow2(e)
}

/// A row transformed in blocks and scaled. What is past the last whole block
/// stays.
pub open spec fn transformed<T, P: Fn(T, T) -> T, S: Fn(T, T) -> T, M: Fn(T, T) -> T>(
    plus: P,
    minus: S,
    times: M,
    scale: T,
    x: Seq<T>,
    block: int,
) -> Seq<T> {
    Seq::new(
        x.len(),
        |p: int|
            if p < x.len() as int / block * block {
                let c = p / block * block;
                ops::of2(
                    times,
                    staged(plus, minus, x.subrange(c, c + block), log_of(block as nat))[p % block],
                    scale,
                )
            } else {
                x[p]
            },
    )
}

/// Twice a smaller power of two divides a larger.
proof fn lemma_halves(e: nat, k: nat)
    requires
        e < k,
    ensures
        power2::pow2(e) > 0,
        2 * power2::pow2(e) == power2::pow2(e + 1),
        power2::pow2(k) % power2::pow2(e + 1) == 0,
        power2::pow2(e + 1) <= power2::pow2(k),
{
    power2::lemma_pow2_pos(e);
    power2::lemma_pow2_pos(e + 1);
    power2::lemma_pow2_unfold(e + 1);
    let rest = (k - e - 1) as nat;
    power2::lemma_pow2_adds(rest, e + 1);
    power2::lemma_pow2_pos(rest);
    assert(rest + (e + 1) == k);
    let (a, b) = (power2::pow2(rest) as int, power2::pow2(e + 1) as int);
    div_mod::lemma_mod_multiples_basic(a, b);
    assert(b <= a * b) by (nonlinear_arith)
        requires
            a >= 1,
            b >= 0,
    ;
}

/// An element that is the first of its pair has its second in the block.
proof fn lemma_pair(i: int, half: int, block: int)
    requires
        0 <= i < block,
        half > 0,
        block % (2 * half) == 0,
    ensures
        i / half % 2 == 0 ==> i + half < block,
        i / half % 2 != 0 ==> i >= half,
{
    div_mod::lemma_fundamental_div_mod(i, half);
    let q = i / half;
    assert(half * q == q * half) by (nonlinear_arith);
    if q % 2 == 0 {
        let m = q / 2;
        let n = block / (2 * half);
        div_mod::lemma_fundamental_div_mod(block, 2 * half);
        assert(2 * half * n == n * (2 * half)) by (nonlinear_arith);
        assert(m < n) by (nonlinear_arith)
            requires
                2 * m * half <= i,
                i < n * (2 * half),
                half > 0,
        ;
        assert(q * half + 2 * half <= block) by (nonlinear_arith)
            requires
                q == 2 * m,
                m + 1 <= n,
                block == n * (2 * half),
                half > 0,
        ;
    } else {
        assert(q >= 1) by {
            assert(q >= 0) by (nonlinear_arith)
                requires
                    q == i / half,
                    0 <= i,
                    half > 0,
            ;
        }
        assert(q * half >= half) by (nonlinear_arith)
            requires
                q >= 1,
                half > 0,
        ;
    }
}

fn cross<T: Copy, P: Fn(T, T) -> T, S: Fn(T, T) -> T>(
    plus: &P,
    minus: &S,
    x: &Vec<T>,
    half: usize,
) -> (out: Vec<T>)
    requires
        ops::is_op2(*plus),
        ops::is_op2(*minus),
        half > 0,
        x@.len() as int % (2 * half) == 0,
    ensures
        out@ == crossed(*plus, *minus, x@, half as int),
{
    let held: usize = x.len();
    let ghost whole = crossed(*plus, *minus, x@, half as int);
    let mut out: Vec<T> = Vec::new();
    let mut i: usize = 0;
    while i < held
        invariant
            i <= held,
            held == x@.len(),
            half > 0,
            held as int % (2 * half) == 0,
            ops::is_op2(*plus),
            ops::is_op2(*minus),
            whole == crossed(*plus, *minus, x@, half as int),
            out@ == whole.take(i as int),
        decreases held - i,
    {
        proof {
            lemma_pair(i as int, half as int, held as int);
        }
        let v = if i / half % 2 == 0 {
            plus(x[i], x[i + half])
        } else {
            minus(x[i - half], x[i])
        };
        assert(v == whole[i as int]);
        out.push(v);
        i = i + 1;
        assert(out@ =~= whole.take(i as int));
    }
    assert(whole.take(i as int) =~= whole);
    out
}

fn stage<T: Copy, P: Fn(T, T) -> T, S: Fn(T, T) -> T>(plus: &P, minus: &S, x: Vec<T>) -> (out: Vec<
    T,
>)
    requires
        ops::is_op2(*plus),
        ops::is_op2(*minus),
        hadamard::is_power(x@.len()),
    ensures
        out@ == staged(*plus, *minus, x@, log_of(x@.len())),
        out@.len() == x@.len(),
{
    let ghost first = x@;
    let ghost k = log_of(first.len());
    assert(first.len() == power2::pow2(k));
    let block: usize = x.len();
    let mut out = x;
    let mut half: usize = 1;
    let ghost mut e: nat = 0;
    proof {
        power2::lemma2_to64();
        power2::lemma_pow2_pos(k);
    }
    while half < block
        invariant
            ops::is_op2(*plus),
            ops::is_op2(*minus),
            e <= k,
            half as nat == power2::pow2(e),
            block as nat == power2::pow2(k),
            half <= block,
            half >= 1,
            out@.len() == block,
            out@ == staged(*plus, *minus, first, e),
        decreases block - half,
    {
        proof {
            if e >= k {
                assert(e == k);
            }
            lemma_halves(e, k);
        }
        out = cross(plus, minus, &out, half);
        half = 2 * half;
        proof {
            e = e + 1;
        }
    }
    proof {
        if e < k {
            power2::lemma_pow2_strictly_increases(e, k);
        }
    }
    out
}

/// The normalized transform of a row in place, in blocks.
pub fn fwht<T: Copy, P: Fn(T, T) -> T, S: Fn(T, T) -> T, M: Fn(T, T) -> T>(
    plus: &P,
    minus: &S,
    times: &M,
    scale: T,
    x: &mut Vec<T>,
    block: usize,
)
    requires
        ops::is_op2(*plus),
        ops::is_op2(*minus),
        ops::is_op2(*times),
        hadamard::is_power(block as nat),
    ensures
        final(x)@ == transformed(*plus, *minus, *times, scale, old(x)@, block as int),
{
    let ghost first = x@;
    let ghost whole = transformed(*plus, *minus, *times, scale, first, block as int);
    let held: usize = x.len();
    proof {
        let e = log_of(block as nat);
        power2::lemma_pow2_pos(e);
    }
    let chunks: usize = held / block;
    proof {
        div_mod::lemma_fundamental_div_mod(held as int, block as int);
        assert(block * chunks == chunks * block) by (nonlinear_arith);
        assert(0 * block == 0) by (nonlinear_arith);
    }
    let mut c: usize = 0;
    while c < chunks
        invariant
            c <= chunks,
            chunks == held / block,
            held == x@.len(),
            held == first.len(),
            block > 0,
            chunks * block <= held,
            ops::is_op2(*plus),
            ops::is_op2(*minus),
            ops::is_op2(*times),
            hadamard::is_power(block as nat),
            whole == transformed(*plus, *minus, *times, scale, first, block as int),
            forall|p: int|
                0 <= p < held ==> #[trigger] x@[p] == (if p < c * block {
                    whole[p]
                } else {
                    first[p]
                }),
        decreases chunks - c,
    {
        proof {
            contract::lemma_row(c as int, chunks as int, block as int);
        }
        let base: usize = c * block;
        let ghost run = first.subrange(base as int, base + block);
        let mut part: Vec<T> = Vec::new();
        let mut i: usize = 0;
        while i < block
            invariant
                i <= block,
                base == c * block,
                base + block <= held,
                held == x@.len(),
                held == first.len(),
                run == first.subrange(base as int, base + block),
                part@ == run.take(i as int),
                forall|p: int| base <= p < held ==> #[trigger] x@[p] == first[p],
            decreases block - i,
        {
            assert(x@[base + i] == first[base + i]);
            part.push(x[base + i]);
            i = i + 1;
            assert(part@ =~= run.take(i as int));
        }
        assert(part@ =~= run);
        let out = stage(plus, minus, part);
        let mut i: usize = 0;
        while i < block
            invariant
                i <= block,
                c < chunks,
                chunks == held / block,
                chunks * block <= held,
                base == c * block,
                base + block <= chunks * block,
                held == x@.len(),
                held == first.len(),
                block > 0,
                ops::is_op2(*times),
                run == first.subrange(base as int, base + block),
                out@.len() == block,
                out@ == staged(*plus, *minus, run, log_of(block as nat)),
                whole == transformed(*plus, *minus, *times, scale, first, block as int),
                forall|p: int|
                    0 <= p < held ==> #[trigger] x@[p] == (if p < base + i {
                        whole[p]
                    } else {
                        first[p]
                    }),
            decreases block - i,
        {
            proof {
                div_mod::lemma_fundamental_div_mod_converse(
                    base + i,
                    block as int,
                    c as int,
                    i as int,
                );
            }
            let v = times(out[i], scale);
            assert(v == whole[base + i]);
            x.set(base + i, v);
            i = i + 1;
        }
        assert((c + 1) * block == c * block + block) by (nonlinear_arith);
        c = c + 1;
    }
    assert(x@ =~= whole);
}

/// Where element `j` of a row comes from.
pub open spec fn origin(perm: Option<HeadPerm>, j: int) -> int {
    match perm {
        Some(perm) => hadamard::source_of(perm, j),
        None => j,
    }
}

/// Every element a row of `n` reads lies in the source.
pub open spec fn origins_fit(perm: Option<HeadPerm>, n: int, len: int) -> bool {
    &&& perm matches Some(perm) ==> perm.head_dim > 0 && perm.repeat > 0
    &&& forall|j: int| 0 <= j < n ==> 0 <= #[trigger] origin(perm, j) < len
}

/// A row regrouped and signed. What is past the signs stays.
pub open spec fn signed<T, M: Fn(T, T) -> T>(
    times: M,
    src: Seq<T>,
    signs: Seq<T>,
    perm: Option<HeadPerm>,
    out: Seq<T>,
) -> Seq<T> {
    Seq::new(
        out.len(),
        |j: int|
            if j < signs.len() {
                ops::of2(times, src[origin(perm, j)], signs[j])
            } else {
                out[j]
            },
    )
}

/// A row through the activation side.
pub open spec fn rotated_row<T, P: Fn(T, T) -> T, S: Fn(T, T) -> T, M: Fn(T, T) -> T>(
    plus: P,
    minus: S,
    times: M,
    scale: T,
    src: Seq<T>,
    signs: Seq<T>,
    perm: Option<HeadPerm>,
    out: Seq<T>,
    block: int,
) -> Seq<T> {
    transformed(plus, minus, times, scale, signed(times, src, signs, perm, out), block)
}

/// A looked-up row restored.
pub open spec fn restored_row<T, P: Fn(T, T) -> T, S: Fn(T, T) -> T, M: Fn(T, T) -> T>(
    plus: P,
    minus: S,
    times: M,
    scale: T,
    row: Seq<T>,
    signs: Seq<T>,
    block: int,
) -> Seq<T> {
    let mid = transformed(plus, minus, times, scale, row, block);
    signed(times, mid, signs, None, mid)
}

/// One row through the activation side: regroup, sign, transform.
pub fn rotate_row<T: Copy, P: Fn(T, T) -> T, S: Fn(T, T) -> T, M: Fn(T, T) -> T>(
    plus: &P,
    minus: &S,
    times: &M,
    scale: T,
    src: &[T],
    signs: &[T],
    perm: Option<HeadPerm>,
    block: usize,
    out: &mut Vec<T>,
)
    requires
        ops::is_op2(*plus),
        ops::is_op2(*minus),
        ops::is_op2(*times),
        hadamard::is_power(block as nat),
        origins_fit(
            perm,
            if signs@.len() < old(out)@.len() {
                signs@.len() as int
            } else {
                old(out)@.len() as int
            },
            src@.len() as int,
        ),
    ensures
        final(out)@ == rotated_row(
            *plus,
            *minus,
            *times,
            scale,
            src@,
            signs@,
            perm,
            old(out)@,
            block as int,
        ),
{
    let ghost first = out@;
    let ghost whole = signed(*times, src@, signs@, perm, first);
    let (room, given): (usize, usize) = (out.len(), src.len());
    let n: usize = if signs.len() < room {
        signs.len()
    } else {
        room
    };
    let mut j: usize = 0;
    while j < n
        invariant
            j <= n,
            n <= signs@.len(),
            n <= room,
            room == out@.len(),
            room == first.len(),
            given == src@.len(),
            ops::is_op2(*times),
            origins_fit(perm, n as int, given as int),
            whole == signed(*times, src@, signs@, perm, first),
            forall|p: int|
                0 <= p < room ==> #[trigger] out@[p] == (if p < j {
                    whole[p]
                } else {
                    first[p]
                }),
        decreases n - j,
    {
        assert(0 <= origin(perm, j as int) < given);
        let from: usize = match perm {
            Some(perm) => perm_source(perm, j),
            None => j,
        };
        let v = times(src[from], signs[j]);
        out.set(j, v);
        j = j + 1;
    }
    assert(out@ =~= whole);
    fwht(plus, minus, times, scale, out, block);
}

/// A looked-up table row restored in place: transform, then sign.
pub fn restore_row<T: Copy, P: Fn(T, T) -> T, S: Fn(T, T) -> T, M: Fn(T, T) -> T>(
    plus: &P,
    minus: &S,
    times: &M,
    scale: T,
    row: &mut Vec<T>,
    signs: &[T],
    block: usize,
)
    requires
        ops::is_op2(*plus),
        ops::is_op2(*minus),
        ops::is_op2(*times),
        hadamard::is_power(block as nat),
    ensures
        final(row)@ == restored_row(
            *plus,
            *minus,
            *times,
            scale,
            old(row)@,
            signs@,
            block as int,
        ),
{
    fwht(plus, minus, times, scale, row, block);
    let ghost mid = row@;
    let ghost whole = signed(*times, mid, signs@, None, mid);
    let room: usize = row.len();
    let n: usize = if signs.len() < room {
        signs.len()
    } else {
        room
    };
    let mut j: usize = 0;
    while j < n
        invariant
            j <= n,
            n <= signs@.len(),
            n <= room,
            room == row@.len(),
            room == mid.len(),
            ops::is_op2(*times),
            whole == signed(*times, mid, signs@, None, mid),
            forall|p: int|
                0 <= p < room ==> #[trigger] row@[p] == (if p < j {
                    whole[p]
                } else {
                    mid[p]
                }),
        decreases n - j,
    {
        let v = times(row[j], signs[j]);
        assert(v == whole[j as int]);
        row.set(j, v);
        j = j + 1;
    }
    assert(row@ =~= whole);
}

/// Sums and differences of integers, exact.
pub open spec fn is_exact<P: Fn(int, int) -> int, S: Fn(int, int) -> int>(plus: P, minus: S) -> bool {
    &&& forall|a: int, b: int| #[trigger] ops::of2(plus, a, b) == a + b
    &&& forall|a: int, b: int| #[trigger] ops::of2(minus, a, b) == a - b
}

/// A row times a number.
pub open spec fn scaled(x: Seq<int>, c: int) -> Seq<int> {
    Seq::new(x.len(), |i: int| c * x[i])
}

/// Which of its pair an element is: the first or the second.
spec fn second(i: int, half: int) -> bool {
    i / half % 2 != 0
}

/// Moving by a multiple of twice `half` leaves which of its pair an element is.
proof fn lemma_far(i: int, half: int, far: int)
    requires
        half > 0,
        far % (2 * half) == 0,
    ensures
        second(i + far, half) == second(i, half),
        second(i - far, half) == second(i, half),
{
    let m = far / (2 * half);
    div_mod::lemma_fundamental_div_mod(far, 2 * half);
    assert(far == half * (2 * m)) by (nonlinear_arith)
        requires
            far == 2 * half * m,
    ;
    div_mod::lemma_hoist_over_denominator(i, 2 * m, half as nat);
    div_mod::lemma_hoist_over_denominator(i, -2 * m, half as nat);
    assert((2 * m) * half == half * (2 * m)) by (nonlinear_arith);
    assert((-2 * m) * half == -(half * (2 * m))) by (nonlinear_arith);
}

/// Moving to the other of its pair leaves an element's run of a larger size.
proof fn lemma_near(i: int, half: int, far: int)
    requires
        0 <= i,
        half > 0,
        far > 0,
        far % (2 * half) == 0,
    ensures
        !second(i, half) ==> (i + half) / far == i / far && second(i + half, half),
        second(i, half) ==> (i - half) / far == i / far && !second(i - half, half),
{
    let q = i / half;
    let r = i % half;
    div_mod::lemma_fundamental_div_mod(i, half);
    assert(half * q == q * half) by (nonlinear_arith);
    let m = far / (2 * half);
    div_mod::lemma_fundamental_div_mod(far, 2 * half);
    let n = i / far;
    let rest = i % far;
    div_mod::lemma_fundamental_div_mod(i, far);
    assert(far * n == n * far) by (nonlinear_arith);
    assert(far == half * (2 * m)) by (nonlinear_arith)
        requires
            far == 2 * half * m,
    ;
    // The run starts at an even place.
    let s = q - n * (2 * m);
    assert(rest == s * half + r) by (nonlinear_arith)
        requires
            i == q * half + r,
            i == n * far + rest,
            far == half * (2 * m),
            s == q - n * (2 * m),
    ;
    assert((n * (2 * m)) % 2 == 0) by {
        assert(n * (2 * m) == (n * m) * 2) by (nonlinear_arith);
        div_mod::lemma_mod_multiples_basic(n * m, 2);
    }
    assert(0 <= s < 2 * m) by (nonlinear_arith)
        requires
            0 <= s * half + r < half * (2 * m),
            0 <= r < half,
    ;
    if q % 2 == 0 {
        assert(s % 2 == 0);
        assert(s + 2 <= 2 * m);
        assert(rest + half < far) by (nonlinear_arith)
            requires
                rest == s * half + r,
                r < half,
                s + 2 <= 2 * m,
                far == half * (2 * m),
                half > 0,
        ;
        div_mod::lemma_fundamental_div_mod_converse(i + half, far, n, rest + half);
        assert((q + 1) * half == q * half + half) by (nonlinear_arith);
        div_mod::lemma_fundamental_div_mod_converse(i + half, half, q + 1, r);
    } else {
        assert(s % 2 == 1);
        assert(s >= 1);
        assert(rest - half >= 0) by (nonlinear_arith)
            requires
                rest == s * half + r,
                0 <= r,
                s >= 1,
                half > 0,
        ;
        div_mod::lemma_fundamental_div_mod_converse(i - half, far, n, rest - half);
        assert((q - 1) * half == q * half - half) by (nonlinear_arith);
        div_mod::lemma_fundamental_div_mod_converse(i - half, half, q - 1, r);
    }
}

/// Crossing twice doubles.
proof fn lemma_cross_twice<P: Fn(int, int) -> int, S: Fn(int, int) -> int>(
    plus: P,
    minus: S,
    x: Seq<int>,
    half: int,
)
    requires
        is_exact(plus, minus),
        half > 0,
        x.len() as int % (2 * half) == 0,
    ensures
        crossed(plus, minus, crossed(plus, minus, x, half), half) == scaled(x, 2),
{
    let y = crossed(plus, minus, x, half);
    let z = crossed(plus, minus, y, half);
    assert forall|i: int| 0 <= i < x.len() implies #[trigger] z[i] == scaled(x, 2)[i] by {
        lemma_pair(i, half, x.len() as int);
        lemma_near(i, half, 2 * half);
        div_mod::lemma_mod_self_0(2 * half);
        if !second(i, half) {
            assert(y[i] == x[i] + x[i + half]);
            assert(y[i + half] == x[i] - x[i + half]);
        } else {
            assert(y[i - half] == x[i - half] + x[i]);
            assert(y[i] == x[i - half] - x[i]);
        }
    }
    assert(z =~= scaled(x, 2));
}

/// Crossings of two distances commute.
proof fn lemma_crosses_commute<P: Fn(int, int) -> int, S: Fn(int, int) -> int>(
    plus: P,
    minus: S,
    x: Seq<int>,
    half: int,
    far: int,
)
    requires
        is_exact(plus, minus),
        half > 0,
        far > 0,
        far % (2 * half) == 0,
        x.len() as int % (2 * half) == 0,
        x.len() as int % (2 * far) == 0,
    ensures
        crossed(plus, minus, crossed(plus, minus, x, half), far) == crossed(
            plus,
            minus,
            crossed(plus, minus, x, far),
            half,
        ),
{
    let (a, b) = (crossed(plus, minus, x, half), crossed(plus, minus, x, far));
    let (u, v) = (crossed(plus, minus, a, far), crossed(plus, minus, b, half));
    let n = x.len() as int;
    assert forall|i: int| 0 <= i < n implies #[trigger] u[i] == v[i] by {
        lemma_pair(i, half, n);
        lemma_pair(i, far, n);
        lemma_far(i, half, far);
        lemma_near(i, half, far);
        let j = if second(i, far) {
            i - far
        } else {
            i + far
        };
        let k = if second(i, half) {
            i - half
        } else {
            i + half
        };
        lemma_pair(j, half, n);
        lemma_pair(k, far, n);
        assert(second(j, half) == second(i, half));
        assert(second(k, far) == second(i, far));
        assert(a[i] == if second(i, half) { x[i - half] - x[i] } else { x[i] + x[i + half] });
        assert(a[j] == if second(i, half) { x[j - half] - x[j] } else { x[j] + x[j + half] });
        assert(b[i] == if second(i, far) { x[i - far] - x[i] } else { x[i] + x[i + far] });
        assert(b[k] == if second(i, far) { x[k - far] - x[k] } else { x[k] + x[k + far] });
    }
    assert(u =~= v);
}

proof fn lemma_crossed_scaled<P: Fn(int, int) -> int, S: Fn(int, int) -> int>(
    plus: P,
    minus: S,
    x: Seq<int>,
    half: int,
    c: int,
)
    requires
        is_exact(plus, minus),
        half > 0,
        x.len() as int % (2 * half) == 0,
    ensures
        crossed(plus, minus, scaled(x, c), half) == scaled(crossed(plus, minus, x, half), c),
{
    let (u, v) = (
        crossed(plus, minus, scaled(x, c), half),
        scaled(crossed(plus, minus, x, half), c),
    );
    assert forall|i: int| 0 <= i < x.len() implies #[trigger] u[i] == v[i] by {
        lemma_pair(i, half, x.len() as int);
        if second(i, half) {
            assert(c * (x[i - half] - x[i]) == c * x[i - half] - c * x[i]) by (nonlinear_arith);
        } else {
            assert(c * (x[i] + x[i + half]) == c * x[i] + c * x[i + half]) by (nonlinear_arith);
        }
    }
    assert(u =~= v);
}

/// A stage commutes with all the stages before it.
proof fn lemma_stage_commutes<P: Fn(int, int) -> int, S: Fn(int, int) -> int>(
    plus: P,
    minus: S,
    x: Seq<int>,
    k: nat,
    e: nat,
    f: nat,
)
    requires
        is_exact(plus, minus),
        x.len() == power2::pow2(k),
        e <= f < k,
    ensures
        staged(plus, minus, crossed(plus, minus, x, power2::pow2(f) as int), e) == crossed(
            plus,
            minus,
            staged(plus, minus, x, e),
            power2::pow2(f) as int,
        ),
    decreases e,
{
    let far = power2::pow2(f) as int;
    lemma_staged_len(plus, minus, x, e);
    if e > 0 {
        let half = power2::pow2((e - 1) as nat) as int;
        lemma_stage_commutes(plus, minus, x, k, (e - 1) as nat, f);
        lemma_staged_len(plus, minus, x, (e - 1) as nat);
        lemma_halves((e - 1) as nat, k);
        lemma_halves(f, k);
        if e - 1 < f {
            lemma_halves((e - 1) as nat, f);
        }
        lemma_crosses_commute(plus, minus, staged(plus, minus, x, (e - 1) as nat), half, far);
    }
}

proof fn lemma_staged_len<P: Fn(int, int) -> int, S: Fn(int, int) -> int>(
    plus: P,
    minus: S,
    x: Seq<int>,
    e: nat,
)
    ensures
        staged(plus, minus, x, e).len() == x.len(),
    decreases e,
{
    if e > 0 {
        lemma_staged_len(plus, minus, x, (e - 1) as nat);
    }
}

proof fn lemma_staged_scaled<P: Fn(int, int) -> int, S: Fn(int, int) -> int>(
    plus: P,
    minus: S,
    x: Seq<int>,
    k: nat,
    e: nat,
    c: int,
)
    requires
        is_exact(plus, minus),
        x.len() == power2::pow2(k),
        e <= k,
    ensures
        staged(plus, minus, scaled(x, c), e) == scaled(staged(plus, minus, x, e), c),
    decreases e,
{
    if e > 0 {
        lemma_staged_scaled(plus, minus, x, k, (e - 1) as nat, c);
        lemma_staged_len(plus, minus, x, (e - 1) as nat);
        lemma_halves((e - 1) as nat, k);
        lemma_crossed_scaled(
            plus,
            minus,
            staged(plus, minus, x, (e - 1) as nat),
            power2::pow2((e - 1) as nat) as int,
            c,
        );
    }
}

proof fn lemma_twice<P: Fn(int, int) -> int, S: Fn(int, int) -> int>(
    plus: P,
    minus: S,
    x: Seq<int>,
    k: nat,
    e: nat,
)
    requires
        is_exact(plus, minus),
        x.len() == power2::pow2(k),
        e <= k,
    ensures
        staged(plus, minus, staged(plus, minus, x, e), e) == scaled(x, power2::pow2(e) as int),
    decreases e,
{
    power2::lemma2_to64();
    if e == 0 {
        assert(scaled(x, 1) =~= x);
    } else {
        let d = (e - 1) as nat;
        let half = power2::pow2(d) as int;
        let inner = staged(plus, minus, x, d);
        lemma_staged_len(plus, minus, x, d);
        lemma_halves(d, k);
        // The last stage of the first transform moves past the others.
        lemma_stage_commutes(plus, minus, inner, k, d, d);
        lemma_twice(plus, minus, x, k, d);
        let once = scaled(x, half);
        lemma_cross_twice(plus, minus, once, half);
        assert(scaled(once, 2) =~= scaled(x, 2 * half)) by {
            assert forall|i: int| 0 <= i < x.len() implies 2 * (half * #[trigger] x[i]) == (2
                * half) * x[i] by {
                assert(2 * (half * x[i]) == (2 * half) * x[i]) by (nonlinear_arith);
            }
        }
        power2::lemma_pow2_unfold(e);
    }
}

/// In exact arithmetic the transform is its own inverse but for its size: taken
/// twice, it multiplies every element of a block by the block's length.
pub proof fn the_transform_undoes_itself<P: Fn(int, int) -> int, S: Fn(int, int) -> int>(
    plus: P,
    minus: S,
    x: Seq<int>,
    i: int,
)
    requires
        is_exact(plus, minus),
        hadamard::is_power(x.len()),
        0 <= i < x.len(),
    ensures
        staged(plus, minus, staged(plus, minus, x, log_of(x.len())), log_of(x.len()))[i] == x.len()
            * x[i],
{
    let k = log_of(x.len());
    lemma_twice(plus, minus, x, k, k);
}

/// An entry of the Sylvester matrix: one, negated where row and column share an
/// odd number of ones.
pub open spec fn sylvester(r: nat, c: nat) -> int {
    if kernel::shared_ones(r, c) % 2 == 1 {
        -1
    } else {
        1
    }
}

/// The first `n` terms of a row of the Sylvester matrix times a run that starts at
/// `base`.
pub open spec fn row_sum(x: Seq<int>, base: int, r: nat, n: nat) -> int
    decreases n,
{
    if n == 0 {
        0
    } else {
        row_sum(x, base, r, (n - 1) as nat) + sylvester(r, (n - 1) as nat) * x[base + n - 1]
    }
}

/// A bit above both numbers is shared where both have it.
proof fn lemma_shared_top(a: nat, b: nat, d: nat, p: nat, q: nat)
    requires
        a < power2::pow2(d),
        b < power2::pow2(d),
        p <= 1,
        q <= 1,
    ensures
        kernel::shared_ones(a + p * power2::pow2(d), b + q * power2::pow2(d))
            == kernel::shared_ones(a, b) + p * q,
    decreases d,
{
    power2::lemma2_to64();
    let h = power2::pow2(d);
    power2::lemma_pow2_pos(d);
    let (x, y) = (a + p * h, b + q * h);
    assert(p * h == if p == 1 { h } else { 0 }) by (nonlinear_arith)
        requires
            p <= 1,
    ;
    assert(q * h == if q == 1 { h } else { 0 }) by (nonlinear_arith)
        requires
            q <= 1,
    ;
    assert(p * q == if p == 1 { q } else { 0 }) by (nonlinear_arith)
        requires
            p <= 1,
    ;
    reveal_with_fuel(kernel::shared_ones, 2);
    if d == 0 {
        if x != 0 {
            assert((x % 2) * (y % 2) == p * q) by (nonlinear_arith)
                requires
                    x == p,
                    y == q,
                    p <= 1,
                    q <= 1,
            ;
        }
    } else {
        let g = power2::pow2((d - 1) as nat);
        power2::lemma_pow2_unfold(d);
        assert(p * g == if p == 1 { g } else { 0 }) by (nonlinear_arith)
            requires
                p <= 1,
        ;
        assert(q * g == if q == 1 { g } else { 0 }) by (nonlinear_arith)
            requires
                q <= 1,
        ;
        assert(x / 2 == a / 2 + p * g);
        assert(y / 2 == b / 2 + q * g);
        assert(x % 2 == a % 2 && y % 2 == b % 2);
        lemma_shared_top(a / 2, b / 2, (d - 1) as nat, p, q);
        if a == 0 {
            assert((a % 2) * (b % 2) == 0) by (nonlinear_arith)
                requires
                    a == 0,
            ;
            assert(kernel::shared_ones(0, b / 2) == 0);
            assert(kernel::shared_ones(0, b) == 0);
        }
    }
}

/// A row of a matrix twice the size is the rows of its two halves, the second
/// negated in the lower.
proof fn lemma_row_doubles(x: Seq<int>, base: int, r: nat, d: nat, p: nat, n: nat)
    requires
        r < power2::pow2(d),
        p <= 1,
        n <= power2::pow2(d),
    ensures
        row_sum(x, base, r + p * power2::pow2(d), n) == row_sum(x, base, r, n),
        row_sum(x, base, r + p * power2::pow2(d), power2::pow2(d) + n) == row_sum(
            x,
            base,
            r,
            power2::pow2(d),
        ) + (if p == 0 {
            row_sum(x, base + power2::pow2(d), r, n)
        } else {
            -row_sum(x, base + power2::pow2(d), r, n)
        }),
    decreases n,
{
    let h = power2::pow2(d);
    let t = r + p * h;
    if n == 0 {
        lemma_row_whole(x, base, r, d, p, h);
    } else {
        let c = (n - 1) as nat;
        lemma_row_doubles(x, base, r, d, p, c);
        lemma_shared_top(r, c, d, p, 0);
        lemma_shared_top(r, c, d, p, 1);
        assert(0 * h == 0 && 1 * h == h) by (nonlinear_arith);
        assert(p * 0 == 0 && p * 1 == p) by (nonlinear_arith);
        assert(sylvester(t, c) == sylvester(r, c));
        assert(sylvester(t, h + c) == if p == 0 { sylvester(r, c) } else { -sylvester(r, c) });
        assert((-sylvester(r, c)) * x[base + h + c] == -(sylvester(r, c) * x[base + h + c]))
            by (nonlinear_arith);
        assert((h + n - 1) as nat == h + c);
        assert(base + (h + n) - 1 == base + h + c);
    }
}

proof fn lemma_row_whole(x: Seq<int>, base: int, r: nat, d: nat, p: nat, n: nat)
    requires
        r < power2::pow2(d),
        p <= 1,
        n <= power2::pow2(d),
    ensures
        row_sum(x, base, r + p * power2::pow2(d), n) == row_sum(x, base, r, n),
    decreases n,
{
    if n > 0 {
        let c = (n - 1) as nat;
        lemma_row_whole(x, base, r, d, p, c);
        lemma_shared_top(r, c, d, p, 0);
        assert(0 * power2::pow2(d) == 0) by (nonlinear_arith);
        assert(p * 0 == 0) by (nonlinear_arith);
    }
}

/// After `e` stages an element is a row of the matrix of that size times its run.
proof fn lemma_staged_row<P: Fn(int, int) -> int, S: Fn(int, int) -> int>(
    plus: P,
    minus: S,
    x: Seq<int>,
    k: nat,
    e: nat,
    i: int,
)
    requires
        is_exact(plus, minus),
        x.len() == power2::pow2(k),
        e <= k,
        0 <= i < x.len(),
    ensures
        ({
            let size = power2::pow2(e);
            let r = i % (size as int);
            staged(plus, minus, x, e)[i] == row_sum(x, i - r, r as nat, size)
        }),
    decreases e,
{
    power2::lemma2_to64();
    power2::lemma_pow2_pos(e);
    if e == 0 {
        reveal_with_fuel(row_sum, 2);
        reveal_with_fuel(kernel::shared_ones, 2);
        assert(i % 1 == 0);
        assert(sylvester(0, 0) == 1);
        assert(1 * x[i] == x[i]);
    } else {
        let d = (e - 1) as nat;
        let h = power2::pow2(d) as int;
        let size = power2::pow2(e) as int;
        let inner = staged(plus, minus, x, d);
        lemma_staged_len(plus, minus, x, d);
        lemma_halves(d, k);
        lemma_pair(i, h, x.len() as int);
        lemma_near(i, h, 2 * h);
        div_mod::lemma_mod_self_0(2 * h);
        let r = i % size;
        let s = i % h;
        // The place in the run is the place in its half, and which half.
        let q = i / h;
        div_mod::lemma_fundamental_div_mod(i, h);
        let top: int = q % 2;
        let m = q / 2;
        assert(q >= 0) by (nonlinear_arith)
            requires
                q == i / h,
                0 <= i,
                h > 0,
        ;
        assert(i == m * size + (top * h + s)) by (nonlinear_arith)
            requires
                i == h * q + s,
                q == 2 * m + top,
                size == 2 * h,
        ;
        assert(0 <= top * h + s < size) by (nonlinear_arith)
            requires
                top == 0 || top == 1,
                0 <= s < h,
                size == 2 * h,
        ;
        div_mod::lemma_fundamental_div_mod_converse(i, size, m, top * h + s);
        assert(r == top * h + s);
        let base = i - r;
        assert(top * h == if top == 1 { h } else { 0 }) by (nonlinear_arith)
            requires
                top == 0 || top == 1,
        ;
        lemma_row_doubles(x, base, s as nat, d, top as nat, h as nat);
        if top == 0 {
            lemma_staged_row(plus, minus, x, k, d, i);
            lemma_staged_row(plus, minus, x, k, d, i + h);
            div_mod::lemma_mod_add_multiples_vanish(i, h);
            assert((i + h) % h == s);
        } else {
            lemma_staged_row(plus, minus, x, k, d, i - h);
            lemma_staged_row(plus, minus, x, k, d, i);
            div_mod::lemma_mod_sub_multiples_vanish(i, h);
            assert((i - h) % h == s);
        }
    }
}

/// In exact arithmetic, row `r` of a transformed block is the scaled sum of the
/// block's elements, each negated where its place shares an odd number of ones
/// with `r`.
pub proof fn the_transform_is_sylvesters<
    P: Fn(int, int) -> int,
    S: Fn(int, int) -> int,
    M: Fn(int, int) -> int,
>(plus: P, minus: S, times: M, scale: int, x: Seq<int>, block: int, p: int)
    requires
        is_exact(plus, minus),
        is_product(times),
        block > 0,
        hadamard::is_power(block as nat),
        0 <= p < x.len() as int / block * block,
    ensures
        transformed(plus, minus, times, scale, x, block)[p] == row_sum(
            x,
            p / block * block,
            (p % block) as nat,
            block as nat,
        ) * scale,
{
    let k = log_of(block as nat);
    let n = x.len() as int / block;
    div_mod::lemma_fundamental_div_mod(x.len() as int, block);
    assert(block * n == n * block) by (nonlinear_arith);
    contract::lemma_position(p, n, block);
    let c = p / block * block;
    let r = p % block;
    let run = x.subrange(c, c + block);
    lemma_staged_row(plus, minus, run, k, k, r);
    div_mod::lemma_small_mod(r as nat, block as nat);
    lemma_row_moved(x, run, c, r as nat, block as nat);
}

proof fn lemma_row_moved(x: Seq<int>, run: Seq<int>, at: int, r: nat, n: nat)
    requires
        0 <= at,
        at + n <= x.len(),
        n <= run.len(),
        forall|i: int| 0 <= i < n ==> #[trigger] run[i] == x[at + i],
    ensures
        row_sum(run, 0, r, n) == row_sum(x, at, r, n),
    decreases n,
{
    if n > 0 {
        lemma_row_moved(x, run, at, r, (n - 1) as nat);
        assert(run[n - 1] == x[at + n - 1]);
    }
}

/// Products of integers, exact.
pub open spec fn is_product<M: Fn(int, int) -> int>(times: M) -> bool {
    forall|a: int, b: int| #[trigger] ops::of2(times, a, b) == a * b
}

/// A transformed row, unscaled, is its blocks' transforms.
proof fn lemma_blocks<P: Fn(int, int) -> int, S: Fn(int, int) -> int, M: Fn(int, int) -> int>(
    plus: P,
    minus: S,
    times: M,
    x: Seq<int>,
    block: int,
    c: int,
)
    requires
        is_product(times),
        block > 0,
        0 <= c,
        (c + 1) * block <= x.len(),
        x.len() as int % block == 0,
    ensures
        transformed(plus, minus, times, 1, x, block).subrange(c * block, c * block + block)
            == staged(
            plus,
            minus,
            x.subrange(c * block, c * block + block),
            log_of(block as nat),
        ),
{
    let y = transformed(plus, minus, times, 1, x, block);
    let run = x.subrange(c * block, c * block + block);
    assert((c + 1) * block == c * block + block && 0 <= c * block) by (nonlinear_arith)
        requires
            0 <= c,
            block > 0,
    ;
    lemma_staged_len(plus, minus, run, log_of(block as nat));
    div_mod::lemma_fundamental_div_mod(x.len() as int, block);
    assert(block * (x.len() as int / block) == x.len() as int / block * block) by (nonlinear_arith);
    let part = y.subrange(c * block, c * block + block);
    let whole = staged(plus, minus, run, log_of(block as nat));
    assert forall|i: int| 0 <= i < block implies #[trigger] part[i] == whole[i] by {
        let p = c * block + i;
        div_mod::lemma_fundamental_div_mod_converse(p, block, c, i);
        assert(y[p] == ops::of2(times, whole[i], 1));
    }
    assert(part =~= whole);
}

/// In exact arithmetic, a row rotated and then restored is the row times the
/// block's length: the signs cancel and the transform undoes itself.
pub proof fn restoring_undoes_rotating<
    P: Fn(int, int) -> int,
    S: Fn(int, int) -> int,
    M: Fn(int, int) -> int,
>(plus: P, minus: S, times: M, x: Seq<int>, signs: Seq<int>, block: int, p: int)
    requires
        is_exact(plus, minus),
        is_product(times),
        block > 0,
        hadamard::is_power(block as nat),
        x.len() as int % block == 0,
        signs.len() == x.len(),
        forall|i: int| 0 <= i < signs.len() ==> #[trigger] signs[i] == 1 || signs[i] == -1,
        0 <= p < x.len(),
    ensures
        restored_row(
            plus,
            minus,
            times,
            1,
            rotated_row(plus, minus, times, 1, x, signs, None, x, block),
            signs,
            block,
        )[p] == block * x[p],
{
    let first = signed(times, x, signs, None, x);
    let rotated = transformed(plus, minus, times, 1, first, block);
    let mid = transformed(plus, minus, times, 1, rotated, block);
    let (c, i) = (p / block, p % block);
    let n = x.len() as int / block;
    div_mod::lemma_fundamental_div_mod(x.len() as int, block);
    assert(block * n == n * block) by (nonlinear_arith);
    contract::lemma_position(p, n, block);
    lemma_blocks(plus, minus, times, first, block, c);
    lemma_blocks(plus, minus, times, rotated, block, c);
    let run = first.subrange(c * block, c * block + block);
    let k = log_of(block as nat);
    the_transform_undoes_itself(plus, minus, run, i);
    assert(mid.subrange(c * block, c * block + block)[i] == mid[p]);
    assert(run[i] == first[p]);
    assert(mid[p] == block * (x[p] * signs[p]));
    assert((block * (x[p] * signs[p])) * signs[p] == block * x[p]) by (nonlinear_arith)
        requires
            signs[p] == 1 || signs[p] == -1,
    ;
}

/// What the activation side is, in exact arithmetic. `y` is the row with its heads
/// regrouped and then signed, grouped head `k * repeat + r` being tiled head
/// `r * groups + k`; element `p` of the rotated row is row `p % block` of the
/// Sylvester matrix times its own block of `y`.
pub proof fn a_rotated_row_is_regrouped_signed_and_transformed<
    P: Fn(int, int) -> int,
    S: Fn(int, int) -> int,
    M: Fn(int, int) -> int,
>(
    plus: P,
    minus: S,
    times: M,
    scale: int,
    src: Seq<int>,
    signs: Seq<int>,
    perm: HeadPerm,
    y: Seq<int>,
    out: Seq<int>,
    block: int,
    p: int,
)
    requires
        is_exact(plus, minus),
        is_product(times),
        block > 0,
        hadamard::is_power(block as nat),
        out.len() == hadamard::row_len(perm),
        signs.len() == out.len(),
        y.len() == out.len(),
        forall|k: int, r: int, d: int|
            0 <= k < perm.groups && 0 <= r < perm.repeat && 0 <= d < perm.head_dim ==> y[
            #[trigger] hadamard::placed(perm.head_dim, perm.repeat, k, r, d)] == src[
            hadamard::placed(perm.head_dim, perm.groups, r, k, d)] * signs[hadamard::placed(
                perm.head_dim,
                perm.repeat,
                k,
                r,
                d,
            )],
        0 <= p < out.len() as int / block * block,
    ensures
        rotated_row(plus, minus, times, scale, src, signs, Some(perm), out, block)[p] == row_sum(
            y,
            p / block * block,
            (p % block) as nat,
            block as nat,
        ) * scale,
{
    let x = signed(times, src, signs, Some(perm), out);
    assert forall|j: int| 0 <= j < out.len() implies #[trigger] x[j] == y[j] by {
        let (d, n, g) = (perm.head_dim as int, perm.repeat as int, perm.groups as int);
        assert(d * g * n == (g * n) * d && 0 <= g * n) by (nonlinear_arith)
            requires
                0 <= g,
                0 <= n,
        ;
        contract::lemma_position(j, g * n, d);
        contract::lemma_position(j / d, g, n);
        let (k, r) = (j / d / n, j / d % n);
        assert(j == hadamard::placed(perm.head_dim, perm.repeat, k, r, j % d));
        hadamard::a_grouped_head_is_its_tiled_one(perm, k, r, j % d);
    }
    assert(x =~= y);
    the_transform_is_sylvesters(plus, minus, times, scale, x, block, p);
}

} // verus!
