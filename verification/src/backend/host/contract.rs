//! The host's projections: dense, and of quantized activations against
//! quantized weights.

use vstd::prelude::*;

use crate::backend::host::ops;
use crate::text::{self, Args};

verus! {

broadcast use crate::text::lemma_filled_args;

/// A row-major position is its row and column.
pub proof fn lemma_position(p: int, rows: int, cols: int)
    requires
        0 <= p < rows * cols,
        0 <= rows,
        0 <= cols,
    ensures
        cols > 0,
        0 <= p / cols < rows,
        0 <= p % cols < cols,
        p == p / cols * cols + p % cols,
        0 <= p / cols * cols,
        (p / cols + 1) * cols == p / cols * cols + cols,
        (p / cols + 1) * cols <= rows * cols,
{
    assert(cols > 0) by (nonlinear_arith)
        requires
            0 <= p < rows * cols,
            0 <= rows,
            0 <= cols,
    ;
    vstd::arithmetic::div_mod::lemma_fundamental_div_mod(p, cols);
    let (i, j) = (p / cols, p % cols);
    assert(cols * i == i * cols) by (nonlinear_arith);
    assert(0 <= i) by (nonlinear_arith)
        requires
            0 <= p,
            cols > 0,
            i == p / cols,
    ;
    assert(i < rows) by (nonlinear_arith)
        requires
            i * cols + j == p,
            0 <= j,
            p < rows * cols,
            cols > 0,
    ;
    assert(0 <= i * cols && (i + 1) * cols == i * cols + cols && (i + 1) * cols <= rows * cols)
        by (nonlinear_arith)
        requires
            0 <= i < rows,
            cols > 0,
    ;
}

/// A buffer whose first `n` elements are written.
pub open spec fn written<T>(into: Seq<T>, n: int, value: spec_fn(int) -> T) -> Seq<T> {
    Seq::new(
        into.len(),
        |p: int|
            if p < n {
                value(p)
            } else {
                into[p]
            },
    )
}

/// What an operation of the host refuses.
#[derive(Clone, Copy, PartialEq, Eq, Structural, Debug)]
pub enum HostError {
    MatmulOperands,
    MatmulDest,
    UnknownWeight,
    WeightWidth { stored: usize, n: usize },
    WeightShape { k: usize, n: usize, quants: usize, scales: usize },
    UnknownAct,
    ActSize { act: usize, held: usize, m: usize, k: usize },
    QuantDest,
    QuantizeSource,
    Norm,
    Rope,
    Attention,
    DeltaConv,
    DeltaGates,
    DeltaRule,
}

pub const MATMUL_OPERANDS: &'static str = "matmul operands are too small";

pub const MATMUL_DEST: &'static str = "matmul destination is too small";

pub const UNKNOWN_WEIGHT: &'static str = "use of an unknown quantized weight handle";

pub const WEIGHT_WIDTH: &'static str =
    "quantized weight was uploaded with n = $0, used with n = $1";

pub const WEIGHT_SHAPE: &'static str =
    "a [$0, $1] quantized weight was uploaded with $2 quants and $3 scales";

pub const UNKNOWN_ACT: &'static str = "use of an unknown quantized activation handle";

pub const ACT_SIZE: &'static str = "quantized activation $0 holds $1 values, used as $2 x $3";

pub const QUANT_DEST: &'static str = "matmul_quant destination is too small";

pub const QUANTIZE_SOURCE: &'static str = "quantize_act activation is too small";

pub const NORM: &'static str = "rms_norm operands are too small";

pub const ROPE: &'static str = "rope operands are too small";

pub const ATTENTION: &'static str = "attention operands are too small";

pub const DELTA_CONV: &'static str = "delta_conv operands or destination are too small";

pub const DELTA_GATES: &'static str = "delta_gates operands or destination are too small";

pub const DELTA_RULE: &'static str =
    "delta_rule operands, state or destination are too small";

/// The words of each refusal.
pub open spec fn words(error: HostError) -> Seq<char> {
    match error {
        HostError::MatmulOperands => MATMUL_OPERANDS@,
        HostError::MatmulDest => MATMUL_DEST@,
        HostError::UnknownWeight => UNKNOWN_WEIGHT@,
        HostError::WeightWidth { stored, n } => text::filled(
            WEIGHT_WIDTH@,
            seq![text::decimal(stored as nat), text::decimal(n as nat)],
        ),
        HostError::WeightShape { k, n, quants, scales } => text::filled(
            WEIGHT_SHAPE@,
            seq![
                text::decimal(k as nat),
                text::decimal(n as nat),
                text::decimal(quants as nat),
                text::decimal(scales as nat),
            ],
        ),
        HostError::UnknownAct => UNKNOWN_ACT@,
        HostError::ActSize { act, held, m, k } => text::filled(
            ACT_SIZE@,
            seq![
                text::decimal(act as nat),
                text::decimal(held as nat),
                text::decimal(m as nat),
                text::decimal(k as nat),
            ],
        ),
        HostError::QuantDest => QUANT_DEST@,
        HostError::QuantizeSource => QUANTIZE_SOURCE@,
        HostError::Norm => NORM@,
        HostError::Rope => ROPE@,
        HostError::Attention => ATTENTION@,
        HostError::DeltaConv => DELTA_CONV@,
        HostError::DeltaGates => DELTA_GATES@,
        HostError::DeltaRule => DELTA_RULE@,
    }
}

impl HostError {
    pub fn message(self) -> (s: String)
        ensures
            s@ == words(self),
    {
        match self {
            HostError::MatmulOperands => MATMUL_OPERANDS.to_owned(),
            HostError::MatmulDest => MATMUL_DEST.to_owned(),
            HostError::UnknownWeight => UNKNOWN_WEIGHT.to_owned(),
            HostError::WeightWidth { stored, n } => Args::new().num(stored).num(n).fill(
                WEIGHT_WIDTH,
            ),
            HostError::WeightShape { k, n, quants, scales } => Args::new().num(k).num(n).num(
                quants,
            ).num(scales).fill(WEIGHT_SHAPE),
            HostError::UnknownAct => UNKNOWN_ACT.to_owned(),
            HostError::ActSize { act, held, m, k } => Args::new().num(act).num(held).num(m).num(
                k,
            ).fill(ACT_SIZE),
            HostError::QuantDest => QUANT_DEST.to_owned(),
            HostError::QuantizeSource => QUANTIZE_SOURCE.to_owned(),
            HostError::Norm => NORM.to_owned(),
            HostError::Rope => ROPE.to_owned(),
            HostError::Attention => ATTENTION.to_owned(),
            HostError::DeltaConv => DELTA_CONV.to_owned(),
            HostError::DeltaGates => DELTA_GATES.to_owned(),
            HostError::DeltaRule => DELTA_RULE.to_owned(),
        }
    }
}

/// The first `n` terms of a dense projection's element, those of a zero
/// activation skipped.
pub open spec fn projected<
    T,
    P: Fn(T, T) -> T,
    M: Fn(T, T) -> T,
    Z: Fn(T) -> bool,
>(plus: P, times: M, is_zero: Z, zero: T, row: Seq<T>, right: Seq<T>, cols: int, j: int, n: nat) -> T
    decreases n,
{
    if n == 0 {
        zero
    } else {
        let p = n - 1;
        let before = projected(plus, times, is_zero, zero, row, right, cols, j, p as nat);
        if ops::of1(is_zero, row[p]) {
            before
        } else {
            ops::of2(plus, before, ops::of2(times, row[p], right[p * cols + j]))
        }
    }
}

/// An element of a dense product, by its place.
pub open spec fn multiplied<T, P: Fn(T, T) -> T, M: Fn(T, T) -> T, Z: Fn(T) -> bool>(
    plus: P,
    times: M,
    is_zero: Z,
    zero: T,
    left: Seq<T>,
    right: Seq<T>,
    k: int,
    n: int,
    p: int,
) -> T {
    projected(
        plus,
        times,
        is_zero,
        zero,
        left.subrange(p / n * k, p / n * k + k),
        right,
        n,
        p % n,
        k as nat,
    )
}

/// `out[m, n] = left[m, k] @ right[k, n]`, all row-major.
pub fn matmul<T: Copy, P: Fn(T, T) -> T, M: Fn(T, T) -> T, Z: Fn(T) -> bool>(
    plus: &P,
    times: &M,
    is_zero: &Z,
    zero: T,
    left: &[T],
    right: &[T],
    m: usize,
    k: usize,
    n: usize,
    dst: &mut Vec<T>,
) -> (result: Result<(), HostError>)
    requires
        ops::is_op2(*plus),
        ops::is_op2(*times),
        ops::is_op1(*is_zero),
        m * k <= usize::MAX,
        k * n <= usize::MAX,
        m * n <= usize::MAX,
    ensures
        match result {
            Err(HostError::MatmulOperands) => (left@.len() < m * k || right@.len() < k * n)
                && final(dst)@ == old(dst)@,
            Err(HostError::MatmulDest) => left@.len() >= m * k && right@.len() >= k * n
                && old(dst)@.len() < m * n && final(dst)@ == old(dst)@,
            Err(_) => false,
            Ok(()) => {
                &&& left@.len() >= m * k && right@.len() >= k * n && old(dst)@.len() >= m * n
                &&& final(dst)@ == written(
                    old(dst)@,
                    m * n,
                    |p: int|
                        multiplied(*plus, *times, *is_zero, zero, left@, right@, k as int, n as int, p),
                )
            },
        },
{
    if left.len() < m * k || right.len() < k * n {
        return Err(HostError::MatmulOperands);
    }
    if dst.len() < m * n {
        return Err(HostError::MatmulDest);
    }
    let (left_held, right_held, held): (usize, usize, usize) = (left.len(), right.len(), dst.len());
    let ghost value = |p: int|
        multiplied(*plus, *times, *is_zero, zero, left@, right@, k as int, n as int, p);
    let all: usize = m * n;
    let mut p: usize = 0;
    while p < all
        invariant
            p <= all,
            all == m * n,
            left_held == left@.len(),
            right_held == right@.len(),
            held == dst@.len(),
            held == old(dst)@.len(),
            m * k <= left_held,
            k * n <= right_held,
            all <= held,
            ops::is_op2(*plus),
            ops::is_op2(*times),
            ops::is_op1(*is_zero),
            value == (|p: int|
                multiplied(*plus, *times, *is_zero, zero, left@, right@, k as int, n as int, p)),
            forall|q: int|
                0 <= q < held ==> #[trigger] dst@[q] == (if q < p {
                    value(q)
                } else {
                    old(dst)@[q]
                }),
        decreases all - p,
    {
        proof {
            lemma_position(p as int, m as int, n as int);
            lemma_row(p as int / n as int, m as int, k as int);
        }
        let (i, j): (usize, usize) = (p / n, p % n);
        let from: usize = i * k;
        let ghost row = left@.subrange(from as int, from + k);
        let mut sum: T = zero;
        let mut q: usize = 0;
        while q < k
            invariant
                q <= k,
                j < n,
                from + k <= left_held,
                left_held == left@.len(),
                right_held == right@.len(),
                k * n <= right_held,
                row == left@.subrange(from as int, from + k),
                ops::is_op2(*plus),
                ops::is_op2(*times),
                ops::is_op1(*is_zero),
                sum == projected(
                    *plus,
                    *times,
                    *is_zero,
                    zero,
                    row,
                    right@,
                    n as int,
                    j as int,
                    q as nat,
                ),
            decreases k - q,
        {
            proof {
                lemma_row(q as int, k as int, n as int);
            }
            let scale = left[from + q];
            assert(row[q as int] == scale);
            if !is_zero(scale) {
                let product = times(scale, right[q * n + j]);
                sum = plus(sum, product);
            }
            q = q + 1;
        }
        assert(sum == value(p as int));
        dst.set(p, sum);
        p = p + 1;
    }
    assert(dst@ =~= written(old(dst)@, m * n, value));
    Ok(())
}

/// A row lies within its matrix.
pub proof fn lemma_row(i: int, rows: int, cols: int)
    requires
        0 <= i < rows,
        0 <= cols,
    ensures
        0 <= i * cols,
        i * cols + cols <= rows * cols,
{
    assert(0 <= i * cols && i * cols + cols <= rows * cols) by (nonlinear_arith)
        requires
            0 <= i < rows,
            0 <= cols,
    ;
}

/// The integer dot of the first `n` pairs of two rows.
pub open spec fn int_dot(a: Seq<i8>, b: Seq<i8>, n: nat) -> int
    decreases n,
{
    if n == 0 {
        0
    } else {
        int_dot(a, b, (n - 1) as nat) + a[n - 1] * b[n - 1]
    }
}

/// The integer dot of a block of a quantized activation and a quantized weight.
pub fn block_dot(a: &[i8], a_at: usize, b: &[i8], b_at: usize) -> (sum: i32)
    requires
        a_at + 32 <= a@.len(),
        b_at + 32 <= b@.len(),
    ensures
        sum == int_dot(
            a@.subrange(a_at as int, a_at + 32),
            b@.subrange(b_at as int, b_at + 32),
            32,
        ),
{
    let ghost (x, y) = (
        a@.subrange(a_at as int, a_at + 32),
        b@.subrange(b_at as int, b_at + 32),
    );
    let (a_held, b_held): (usize, usize) = (a.len(), b.len());
    let mut sum: i32 = 0;
    let mut i: usize = 0;
    while i < 32
        invariant
            i <= 32,
            a_held == a@.len(),
            b_held == b@.len(),
            a_at + 32 <= a@.len(),
            b_at + 32 <= b@.len(),
            x == a@.subrange(a_at as int, a_at + 32),
            y == b@.subrange(b_at as int, b_at + 32),
            sum == int_dot(x, y, i as nat),
            -16384 * i <= sum <= 16384 * i,
        decreases 32 - i,
    {
        let (u, v): (i32, i32) = (a[a_at + i] as i32, b[b_at + i] as i32);
        assert(-16384 <= u * v <= 16384) by (nonlinear_arith)
            requires
                -128 <= u <= 127,
                -128 <= v <= 127,
        ;
        sum = sum + u * v;
        i = i + 1;
    }
    sum
}

/// A quantized weight: its quants `[n, k]`, a scale per block and output, and
/// its output width.
pub struct QuantWeight<T> {
    pub qs: Vec<i8>,
    pub scales: Vec<T>,
    pub n: usize,
}

/// Quantized rows: their quants, and a scale per block.
pub struct QuantRows<T> {
    pub qs: Vec<i8>,
    pub scales: Vec<T>,
}

/// The first `n` blocks of a quantized projection's element.
pub open spec fn quantized<T, P: Fn(T, T) -> T, M: Fn(T, T) -> T, C: Fn(i32) -> T>(
    plus: P,
    times: M,
    convert: C,
    zero: T,
    w: QuantWeight<T>,
    act: QuantRows<T>,
    k: int,
    i: int,
    j: int,
    n: nat,
) -> T
    decreases n,
{
    if n == 0 {
        zero
    } else {
        let b = n - 1;
        let partial = int_dot(
            act.qs@.subrange(i * k + 32 * b, i * k + 32 * b + 32),
            w.qs@.subrange(j * k + 32 * b, j * k + 32 * b + 32),
            32,
        );
        ops::of2(
            plus,
            quantized(plus, times, convert, zero, w, act, k, i, j, b as nat),
            ops::of2(
                times,
                ops::of2(times, ops::of1(convert, partial as i32), w.scales@[b * w.n + j]),
                act.scales@[i * (k / 32) + b],
            ),
        )
    }
}

/// What refuses a quantized projection, if anything: the first of these that
/// is wrong.
pub open spec fn quant_refusal<T>(
    w: Option<&QuantWeight<T>>,
    act: Option<&QuantRows<T>>,
    at: usize,
    m: usize,
    k: usize,
    n: usize,
    dst: nat,
) -> Option<HostError> {
    match w {
        None => Some(HostError::UnknownWeight),
        Some(w) => if w.n != n {
            Some(HostError::WeightWidth { stored: w.n, n })
        } else if !(w.qs@.len() == k * n && w.scales@.len() == k / 32 * n) {
            Some(
                HostError::WeightShape {
                    k,
                    n,
                    quants: w.qs@.len() as usize,
                    scales: w.scales@.len() as usize,
                },
            )
        } else {
            match act {
                None => Some(HostError::UnknownAct),
                Some(a) => if !(a.qs@.len() >= m * k && a.scales@.len() >= m * (k / 32)) {
                    Some(HostError::ActSize { act: at, held: a.qs@.len() as usize, m, k })
                } else if dst < m * n {
                    Some(HostError::QuantDest)
                } else {
                    None
                },
            }
        },
    }
}

/// A projection of quantized rows against a quantized weight. The handles were
/// looked up already; `at` is the activation's.
pub fn matmul_quant_act<T: Copy, P: Fn(T, T) -> T, M: Fn(T, T) -> T, C: Fn(i32) -> T>(
    plus: &P,
    times: &M,
    convert: &C,
    zero: T,
    w: Option<&QuantWeight<T>>,
    act: Option<&QuantRows<T>>,
    at: usize,
    m: usize,
    k: usize,
    n: usize,
    dst: &mut Vec<T>,
) -> (result: Result<(), HostError>)
    requires
        ops::is_op2(*plus),
        ops::is_op2(*times),
        ops::is_op1(*convert),
        m * k <= usize::MAX,
        k * n <= usize::MAX,
        m * n <= usize::MAX,
    ensures
        match result {
            Err(e) => quant_refusal(w, act, at, m, k, n, old(dst)@.len()) == Some(e)
                && final(dst)@ == old(dst)@,
            Ok(()) => quant_refusal(w, act, at, m, k, n, old(dst)@.len()) is None && final(dst)@
                == written(
                old(dst)@,
                m * n,
                |p: int|
                    quantized(
                        *plus,
                        *times,
                        *convert,
                        zero,
                        *w->Some_0,
                        *act->Some_0,
                        k as int,
                        p / n as int,
                        p % n as int,
                        (k / 32) as nat,
                    ),
            ),
        },
{
    let w = match w {
        Some(w) => w,
        None => {
            return Err(HostError::UnknownWeight);
        },
    };
    if w.n != n {
        return Err(HostError::WeightWidth { stored: w.n, n });
    }
    let blocks: usize = k / 32;
    proof {
        assert(blocks * n <= k * n && m * blocks <= m * k) by (nonlinear_arith)
            requires
                blocks <= k,
                0 <= n,
                0 <= m,
        ;
    }
    if w.qs.len() != k * n || w.scales.len() != blocks * n {
        return Err(
            HostError::WeightShape { k, n, quants: w.qs.len(), scales: w.scales.len() },
        );
    }
    let a = match act {
        Some(a) => a,
        None => {
            return Err(HostError::UnknownAct);
        },
    };
    if a.qs.len() < m * k || a.scales.len() < m * blocks {
        return Err(HostError::ActSize { act: at, held: a.qs.len(), m, k });
    }
    if dst.len() < m * n {
        return Err(HostError::QuantDest);
    }
    let (a_held, s_held, held): (usize, usize, usize) = (
        a.qs.len(),
        a.scales.len(),
        dst.len(),
    );
    let ghost value = |p: int|
        quantized(
            *plus,
            *times,
            *convert,
            zero,
            *w,
            *a,
            k as int,
            p / n as int,
            p % n as int,
            blocks as nat,
        );
    let all: usize = m * n;
    let mut p: usize = 0;
    while p < all
        invariant
            p <= all,
            all == m * n,
            blocks == k / 32,
            a_held == a.qs@.len(),
            s_held == a.scales@.len(),
            held == dst@.len(),
            held == old(dst)@.len(),
            m * k <= a_held,
            m * blocks <= s_held,
            w.n == n,
            w.qs@.len() == k * n,
            w.scales@.len() == blocks * n,
            k * n <= usize::MAX,
            blocks * n <= usize::MAX,
            all <= held,
            ops::is_op2(*plus),
            ops::is_op2(*times),
            ops::is_op1(*convert),
            value == (|p: int|
                quantized(
                    *plus,
                    *times,
                    *convert,
                    zero,
                    *w,
                    *a,
                    k as int,
                    p / n as int,
                    p % n as int,
                    blocks as nat,
                )),
            forall|q: int|
                0 <= q < held ==> #[trigger] dst@[q] == (if q < p {
                    value(q)
                } else {
                    old(dst)@[q]
                }),
        decreases all - p,
    {
        proof {
            lemma_position(p as int, m as int, n as int);
            lemma_row(p as int / n as int, m as int, k as int);
            lemma_row(p as int / n as int, m as int, blocks as int);
            lemma_row(p as int % n as int, n as int, k as int);
            assert(n * k == k * n) by (nonlinear_arith);
        }
        let (i, j): (usize, usize) = (p / n, p % n);
        let (a_at, s_at, w_at): (usize, usize, usize) = (i * k, i * blocks, j * k);
        let mut sum: T = zero;
        let mut b: usize = 0;
        while b < blocks
            invariant
                b <= blocks,
                blocks == k / 32,
                j < n,
                a_at == i * k,
                w_at == j * k,
                s_at == i * blocks,
                a_at + k <= a_held,
                s_at + blocks <= s_held,
                w_at + k <= w.qs@.len(),
                w.qs@.len() <= usize::MAX,
                a_held == a.qs@.len(),
                s_held == a.scales@.len(),
                w.n == n,
                w.scales@.len() == blocks * n,
                blocks * n <= usize::MAX,
                ops::is_op2(*plus),
                ops::is_op2(*times),
                ops::is_op1(*convert),
                sum == quantized(
                    *plus,
                    *times,
                    *convert,
                    zero,
                    *w,
                    *a,
                    k as int,
                    i as int,
                    j as int,
                    b as nat,
                ),
            decreases blocks - b,
        {
            proof {
                lemma_row(b as int, blocks as int, n as int);
            }
            let partial: i32 = block_dot(
                a.qs.as_slice(),
                a_at + 32 * b,
                w.qs.as_slice(),
                w_at + 32 * b,
            );
            let term = convert(partial);
            let scaled = times(term, w.scales[b * n + j]);
            let product = times(scaled, a.scales[s_at + b]);
            sum = plus(sum, product);
            b = b + 1;
        }
        assert(sum == value(p as int));
        dst.set(p, sum);
        p = p + 1;
    }
    assert(dst@ =~= written(old(dst)@, m * n, value));
    Ok(())
}

} // verus!
