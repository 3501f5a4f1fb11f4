//! What the host's contractions come to in exact arithmetic, and what a sequence
//! cut in blocks comes to.

use vstd::prelude::*;

use crate::backend::host::attention::{self, AttnStart, Soft};
use crate::backend::host::contract::{self, QuantRows, QuantWeight};
use crate::backend::host::delta::{self, Conv, ConvStart, Ring};
use crate::backend::host::ops;
use crate::backend::{Attn, DeltaMix};

verus! {

/// Sums and products of integers, exact, and a test for zero.
pub open spec fn is_exact<
    P: Fn(int, int) -> int,
    M: Fn(int, int) -> int,
    C: Fn(i32) -> int,
    Z: Fn(int) -> bool,
>(plus: P, times: M, convert: C, is_zero: Z) -> bool {
    &&& forall|a: int, b: int| #[trigger] ops::of2(plus, a, b) == a + b
    &&& forall|a: int, b: int| #[trigger] ops::of2(times, a, b) == a * b
    &&& forall|v: i32| #[trigger] ops::of1(convert, v) == v
    &&& forall|v: int| #[trigger] ops::of1(is_zero, v) == (v == 0)
}

/// Row `i` of a quantized activation, dequantized.
pub open spec fn dense_row(act: QuantRows<int>, k: int, i: int) -> Seq<int> {
    Seq::new(
        k as nat,
        |p: int| act.qs@[i * k + p] as int * act.scales@[i * (k / 32) + p / 32],
    )
}

/// A quantized weight, dequantized and laid out inputs by outputs.
pub open spec fn dense_weight(w: QuantWeight<int>, k: int) -> Seq<int> {
    Seq::new(
        (k * w.n) as nat,
        |q: int|
            {
                let (p, j) = (q / w.n as int, q % w.n as int);
                w.qs@[j * k + p] as int * w.scales@[p / 32 * w.n + j]
            },
    )
}

/// One term of the dense product.
proof fn lemma_term(w: QuantWeight<int>, act: QuantRows<int>, k: int, i: int, j: int, p: int)
    requires
        0 <= p < k,
        0 <= j < w.n,
    ensures
        dense_row(act, k, i)[p] == act.qs@[i * k + p] as int * act.scales@[i * (k / 32) + p / 32],
        dense_weight(w, k)[p * w.n + j] == w.qs@[j * k + p] as int * w.scales@[p / 32 * w.n + j],
{
    contract::lemma_row(p, k, w.n as int);
    vstd::arithmetic::div_mod::lemma_fundamental_div_mod_converse(
        p * w.n + j,
        w.n as int,
        p,
        j,
    );
}

/// The dense product so far, into a block by `t` of its elements, is what it was
/// at the start of the block and the block's integer dot under both scales.
proof fn lemma_block<
    P: Fn(int, int) -> int,
    M: Fn(int, int) -> int,
    C: Fn(i32) -> int,
    Z: Fn(int) -> bool,
>(
    plus: P,
    times: M,
    convert: C,
    is_zero: Z,
    w: QuantWeight<int>,
    act: QuantRows<int>,
    k: int,
    i: int,
    j: int,
    b: int,
    t: nat,
)
    requires
        is_exact(plus, times, convert, is_zero),
        0 <= b,
        t <= 32,
        32 * b + 32 <= k,
        0 <= i,
        0 <= j < w.n,
        i * k + k <= act.qs@.len(),
        j * k + k <= w.qs@.len(),
    ensures
        contract::projected(
            plus,
            times,
            is_zero,
            0,
            dense_row(act, k, i),
            dense_weight(w, k),
            w.n as int,
            j,
            (32 * b + t) as nat,
        ) == contract::projected(
            plus,
            times,
            is_zero,
            0,
            dense_row(act, k, i),
            dense_weight(w, k),
            w.n as int,
            j,
            (32 * b) as nat,
        ) + contract::int_dot(
            act.qs@.subrange(i * k + 32 * b, i * k + 32 * b + 32),
            w.qs@.subrange(j * k + 32 * b, j * k + 32 * b + 32),
            t,
        ) * w.scales@[b * w.n + j] * act.scales@[i * (k / 32) + b],
    decreases t,
{
    let (sw, sa) = (w.scales@[b * w.n + j], act.scales@[i * (k / 32) + b]);
    assert(0 <= i * k && 0 <= j * k) by (nonlinear_arith)
        requires
            0 <= i,
            0 <= j,
            0 <= k,
    ;
    let (x, y) = (
        act.qs@.subrange(i * k + 32 * b, i * k + 32 * b + 32),
        w.qs@.subrange(j * k + 32 * b, j * k + 32 * b + 32),
    );
    if t == 0 {
        assert(0 * sw * sa == 0) by (nonlinear_arith);
    } else {
        let s = (t - 1) as nat;
        lemma_block(plus, times, convert, is_zero, w, act, k, i, j, b, s);
        let p = 32 * b + s;
        assert(p / 32 == b);
        lemma_term(w, act, k, i, j, p);
        let (q, v) = (x[s as int] as int, y[s as int] as int);
        assert(act.qs@[i * k + p] == x[s as int]);
        assert(w.qs@[j * k + p] == y[s as int]);
        assert((q * sa) * (v * sw) == (q * v) * sw * sa) by (nonlinear_arith);
        let dot = contract::int_dot(x, y, s);
        assert((dot + q * v) * sw * sa == dot * sw * sa + (q * v) * sw * sa) by (nonlinear_arith);
    }
}

/// In exact arithmetic a quantized contraction is the dense one of what its
/// operands dequantize to.
pub proof fn a_quantized_product_is_the_dequantized_one<
    P: Fn(int, int) -> int,
    M: Fn(int, int) -> int,
    C: Fn(i32) -> int,
    Z: Fn(int) -> bool,
>(
    plus: P,
    times: M,
    convert: C,
    is_zero: Z,
    w: QuantWeight<int>,
    act: QuantRows<int>,
    i: int,
    j: int,
    blocks: nat,
    n: nat,
)
    requires
        is_exact(plus, times, convert, is_zero),
        n <= blocks,
        0 <= i,
        0 <= j < w.n,
        i * (32 * blocks) + 32 * blocks <= act.qs@.len(),
        j * (32 * blocks) + 32 * blocks <= w.qs@.len(),
    ensures
        contract::quantized(plus, times, convert, 0, w, act, 32 * blocks as int, i, j, n)
            == contract::projected(
            plus,
            times,
            is_zero,
            0,
            dense_row(act, 32 * blocks as int, i),
            dense_weight(w, 32 * blocks as int),
            w.n as int,
            j,
            32 * n,
        ),
    decreases n,
{
    if n > 0 {
        let b = (n - 1) as nat;
        let k = 32 * blocks as int;
        a_quantized_product_is_the_dequantized_one(
            plus,
            times,
            convert,
            is_zero,
            w,
            act,
            i,
            j,
            blocks,
            b,
        );
        lemma_block(plus, times, convert, is_zero, w, act, k, i, j, b as int, 32);
        let (x, y) = (
            act.qs@.subrange(i * k + 32 * b, i * k + 32 * b + 32),
            w.qs@.subrange(j * k + 32 * b, j * k + 32 * b + 32),
        );
        lemma_small(x, y, 32);
    }
}

/// A block's dot fits its word.
proof fn lemma_small(x: Seq<i8>, y: Seq<i8>, n: nat)
    requires
        n <= 32,
    ensures
        -0x4000 * n <= contract::int_dot(x, y, n) <= 0x4000 * n,
    decreases n,
{
    if n > 0 {
        lemma_small(x, y, (n - 1) as nat);
        let (a, b) = (x[n - 1] as int, y[n - 1] as int);
        assert(-0x4000 <= a * b <= 0x4000) by (nonlinear_arith)
            requires
                -128 <= a <= 127,
                -128 <= b <= 127,
        ;
    }
}

/// Whether packed operands of `rows` positions are those of a longer block from
/// its position `from` on.
pub open spec fn is_part<T>(
    part: Seq<T>,
    rows: int,
    all: Seq<T>,
    total: int,
    from: int,
    heads: int,
    dim: int,
) -> bool {
    forall|r: int|
        0 <= r < rows * heads ==> #[trigger] delta::step_at(
            part,
            rows * heads * dim,
            rows * heads,
            dim,
            r,
        ) == delta::step_at(all, total * heads * dim, total * heads, dim, from * heads + r)
}

proof fn lemma_before_cut<T, P: Fn(T, T) -> T, M: Fn(T, T) -> T, S: Fn(T, T) -> T>(
    o: Ring<P, M, S>,
    zero: T,
    all: Seq<T>,
    part: Seq<T>,
    first: Seq<T>,
    heads: int,
    rows: int,
    total: int,
    dim: int,
    h: int,
    t: nat,
)
    requires
        0 <= h < heads,
        t <= rows,
        is_part(part, rows, all, total, 0, heads, dim),
    ensures
        delta::state_after(o, zero, part, first, heads, rows, dim, h, t) == delta::state_after(
            o,
            zero,
            all,
            first,
            heads,
            total,
            dim,
            h,
            t,
        ),
    decreases t,
{
    if t > 0 {
        lemma_before_cut(o, zero, all, part, first, heads, rows, total, dim, h, (t - 1) as nat);
        let r = (t - 1) * heads + h;
        assert(0 <= r < rows * heads && 0 * heads + r == r) by (nonlinear_arith)
            requires
                r == (t - 1) * heads + h,
                1 <= t <= rows,
                0 <= h < heads,
        ;
        assert(delta::step_at(part, rows * heads * dim, rows * heads, dim, r) == delta::step_at(
            all,
            total * heads * dim,
            total * heads,
            dim,
            0 * heads + r,
        ));
    }
}

proof fn lemma_after_cut<T, P: Fn(T, T) -> T, M: Fn(T, T) -> T, S: Fn(T, T) -> T>(
    o: Ring<P, M, S>,
    zero: T,
    all: Seq<T>,
    part: Seq<T>,
    first: Seq<T>,
    carried: Seq<T>,
    heads: int,
    from: nat,
    rows: int,
    dim: int,
    h: int,
    t: nat,
)
    requires
        0 <= h < heads,
        t <= rows,
        is_part(part, rows, all, from + rows, from as int, heads, dim),
        delta::plane(carried, dim, h) == delta::state_after(
            o,
            zero,
            all,
            first,
            heads,
            from + rows,
            dim,
            h,
            from,
        ),
    ensures
        delta::state_after(o, zero, part, carried, heads, rows, dim, h, t) == delta::state_after(
            o,
            zero,
            all,
            first,
            heads,
            from + rows,
            dim,
            h,
            (from + t) as nat,
        ),
    decreases t,
{
    if t > 0 {
        lemma_after_cut(
            o,
            zero,
            all,
            part,
            first,
            carried,
            heads,
            from,
            rows,
            dim,
            h,
            (t - 1) as nat,
        );
        let r = (t - 1) * heads + h;
        assert(0 <= r < rows * heads && from * heads + r == (from + t - 1) * heads + h)
            by (nonlinear_arith)
            requires
                r == (t - 1) * heads + h,
                1 <= t <= rows,
                0 <= h < heads,
        ;
        assert(delta::step_at(part, rows * heads * dim, rows * heads, dim, r) == delta::step_at(
            all,
            (from + rows) * heads * dim,
            (from + rows) * heads,
            dim,
            from * heads + r,
        ));
    }
}

/// A block of positions may be cut in two: the second part, carrying on from the
/// states the first left, leaves the states the whole block leaves and puts out
/// what the whole block puts out.
pub proof fn a_block_may_be_cut<T, P: Fn(T, T) -> T, M: Fn(T, T) -> T, S: Fn(T, T) -> T>(
    o: Ring<P, M, S>,
    zero: T,
    all: Seq<T>,
    one: Seq<T>,
    two: Seq<T>,
    first: Seq<T>,
    carried: Seq<T>,
    heads: int,
    a: nat,
    b: nat,
    dim: int,
    h: int,
)
    requires
        0 <= h < heads,
        0 < dim,
        is_part(one, a as int, all, (a + b) as int, 0, heads, dim),
        is_part(two, b as int, all, (a + b) as int, a as int, heads, dim),
        forall|g: int|
            0 <= g < heads ==> #[trigger] delta::plane(carried, dim, g) == delta::state_after(
                o,
                zero,
                one,
                first,
                heads,
                a as int,
                dim,
                g,
                a,
            ),
    ensures
        delta::state_after(o, zero, two, carried, heads, b as int, dim, h, b)
            == delta::state_after(o, zero, all, first, heads, (a + b) as int, dim, h, a + b),
        forall|p: int|
            0 <= p < a * heads * dim ==> #[trigger] delta::delta_out(
                o,
                zero,
                one,
                first,
                heads,
                a as int,
                dim,
                p,
            ) == delta::delta_out(o, zero, all, first, heads, (a + b) as int, dim, p),
        forall|p: int|
            0 <= p < b * heads * dim ==> #[trigger] delta::delta_out(
                o,
                zero,
                two,
                carried,
                heads,
                b as int,
                dim,
                p,
            ) == delta::delta_out(
                o,
                zero,
                all,
                first,
                heads,
                (a + b) as int,
                dim,
                a * heads * dim + p,
            ),
{
    let total = (a + b) as int;
    assert forall|g: int| 0 <= g < heads implies #[trigger] delta::plane(carried, dim, g)
        == delta::state_after(o, zero, all, first, heads, total, dim, g, a) by {
        lemma_before_cut(o, zero, all, one, first, heads, a as int, total, dim, g, a);
    }
    lemma_after_cut(o, zero, all, two, first, carried, heads, a, b as int, dim, h, b);
    assert forall|p: int| 0 <= p < a * heads * dim implies #[trigger] delta::delta_out(
        o,
        zero,
        one,
        first,
        heads,
        a as int,
        dim,
        p,
    ) == delta::delta_out(o, zero, all, first, heads, total, dim, p) by {
        contract::lemma_position(p, a * heads, dim);
        let r = p / dim;
        contract::lemma_position(r, a as int, heads);
        let (t, g) = (r / heads, r % heads);
        lemma_before_cut(
            o,
            zero,
            all,
            one,
            first,
            heads,
            a as int,
            total,
            dim,
            g,
            (t + 1) as nat,
        );
        assert(0 * heads + r == r);
        assert(delta::step_at(one, a * heads * dim, a * heads, dim, r) == delta::step_at(
            all,
            total * heads * dim,
            total * heads,
            dim,
            0 * heads + r,
        ));
    }
    assert forall|p: int| 0 <= p < b * heads * dim implies #[trigger] delta::delta_out(
        o,
        zero,
        two,
        carried,
        heads,
        b as int,
        dim,
        p,
    ) == delta::delta_out(o, zero, all, first, heads, total, dim, a * heads * dim + p) by {
        contract::lemma_position(p, b * heads, dim);
        let r = p / dim;
        contract::lemma_position(r, b as int, heads);
        let (t, g) = (r / heads, r % heads);
        let q = a * heads * dim + p;
        let s = a * heads + r;
        vstd::arithmetic::div_mod::lemma_fundamental_div_mod(p, dim);
        vstd::arithmetic::div_mod::lemma_fundamental_div_mod(r, heads);
        assert(q == s * dim + p % dim) by (nonlinear_arith)
            requires
                q == a * heads * dim + p,
                s == a * heads + r,
                p == dim * r + p % dim,
        ;
        vstd::arithmetic::div_mod::lemma_fundamental_div_mod_converse(q, dim, s, p % dim);
        assert(s == (a + t) * heads + g) by (nonlinear_arith)
            requires
                s == a * heads + r,
                r == heads * t + g,
        ;
        vstd::arithmetic::div_mod::lemma_fundamental_div_mod_converse(s, heads, a + t, g);
        assert(delta::plane(carried, dim, g) == delta::state_after(
            o,
            zero,
            all,
            first,
            heads,
            total,
            dim,
            g,
            a,
        ));
        lemma_after_cut(
            o,
            zero,
            all,
            two,
            first,
            carried,
            heads,
            a,
            b as int,
            dim,
            g,
            (t + 1) as nat,
        );
        assert(delta::step_at(two, b * heads * dim, b * heads, dim, r) == delta::step_at(
            all,
            total * heads * dim,
            total * heads,
            dim,
            a * heads + r,
        ));
    }
}

/// A prompt may be attended in parts: over the same caches, its rows from the
/// `a`th on put out what they put out as a call of their own, that much further
/// into the sequence.
pub proof fn a_prompt_may_be_attended_in_parts<
    T,
    H,
    P: Fn(T, T) -> T,
    M: Fn(T, T) -> T,
    X: Fn(T, T) -> T,
    S: Fn(T, T) -> T,
    E: Fn(T) -> T,
    I: Fn(T) -> T,
    W: Fn(H) -> T,
>(
    o: Soft<P, M, X, S, E, I>,
    widen: W,
    at: AttnStart<T>,
    queries: Seq<T>,
    keys: Seq<H>,
    values: Seq<H>,
    whole: Attn,
    part: Attn,
    a: int,
    p: int,
)
    requires
        0 <= a,
        a + part.rows <= whole.rows,
        part.start_pos == whole.start_pos + a,
        part.n_head == whole.n_head,
        part.n_kv == whole.n_kv,
        part.head_dim == whole.head_dim,
        whole.rows * whole.n_head * whole.head_dim <= queries.len(),
        0 <= p < part.rows * part.n_head * part.head_dim,
    ensures
        attention::attended(
            o,
            widen,
            at,
            queries.subrange(a * whole.n_head * whole.head_dim, queries.len() as int),
            keys,
            values,
            part,
            p,
        ) == attention::attended(
            o,
            widen,
            at,
            queries,
            keys,
            values,
            whole,
            a * whole.n_head * whole.head_dim + p,
        ),
{
    let (heads, dim) = (whole.n_head as int, whole.head_dim as int);
    let all = part.rows * heads;
    assert(0 <= all) by (nonlinear_arith)
        requires
            all == part.rows * heads,
            0 <= part.rows,
            0 <= heads,
    ;
    contract::lemma_position(p, all, dim);
    let r = p / dim;
    contract::lemma_position(r, part.rows as int, heads);
    let (t, h) = (r / heads, r % heads);
    let q = a * heads * dim + p;
    let s = a * heads + r;
    assert(q == s * dim + p % dim) by (nonlinear_arith)
        requires
            q == a * heads * dim + p,
            s == a * heads + r,
            p == r * dim + p % dim,
    ;
    vstd::arithmetic::div_mod::lemma_fundamental_div_mod_converse(q, dim, s, p % dim);
    assert(s == (a + t) * heads + h) by (nonlinear_arith)
        requires
            s == a * heads + r,
            r == t * heads + h,
    ;
    vstd::arithmetic::div_mod::lemma_fundamental_div_mod_converse(s, heads, a + t, h);
    assert(0 <= a * heads * dim && s * dim == a * heads * dim + r * dim && s * dim + dim
        <= whole.rows * heads * dim) by (nonlinear_arith)
        requires
            0 <= a,
            0 < heads,
            0 < dim,
            s == a * heads + r,
            s == (a + t) * heads + h,
            0 <= t < part.rows,
            0 <= h < heads,
            a + part.rows <= whole.rows,
    ;
    assert(queries.subrange(a * heads * dim, queries.len() as int).subrange(r * dim, r * dim + dim)
        =~= queries.subrange(s * dim, s * dim + dim));
}

proof fn lemma_tapped<T, P: Fn(T, T) -> T, M: Fn(T, T) -> T, A: Fn(T) -> T, N: Fn(T, T) -> T>(
    o: Conv<P, M, A, N>,
    zero: T,
    x: Seq<T>,
    w: Seq<T>,
    channels: int,
    a: int,
    position: int,
    c: int,
    n: nat,
)
    requires
        0 <= a,
        0 <= position,
        0 <= c < channels,
        n > 0 ==> (a + position + n) * channels <= x.len(),
        a * channels <= x.len(),
    ensures
        delta::tapped(
            o,
            zero,
            x.subrange(a * channels, x.len() as int),
            w,
            channels,
            position,
            c,
            n,
        ) == delta::tapped(o, zero, x, w, channels, a + position, c, n),
    decreases n,
{
    if n > 0 {
        let k = n - 1;
        assert(0 <= a * channels && 0 <= (position + k) * channels && a * channels + (position + k)
            * channels == (a + position + k) * channels && (a + position + k) * channels + channels
            == (a + position + n) * channels) by (nonlinear_arith)
            requires
                0 <= a,
                0 <= position,
                0 <= k,
                n == k + 1,
                0 <= channels,
        ;
        lemma_tapped(o, zero, x, w, channels, a, position, c, k as nat);
        assert(x.subrange(a * channels, x.len() as int)[(position + k) * channels + c] == x[(a
            + position + k) * channels + c]);
    }
}

/// A convolution may be cut: a call whose stream starts at the whole's position
/// `a`, the positions its first taps see carried ahead of its own, convolves its
/// rows to what the whole convolves them to.
pub proof fn a_convolution_may_be_cut<
    T,
    P: Fn(T, T) -> T,
    M: Fn(T, T) -> T,
    A: Fn(T) -> T,
    N: Fn(T, T) -> T,
>(
    o: Conv<P, M, A, N>,
    at: ConvStart<T>,
    whole: DeltaMix,
    part: DeltaMix,
    x: Seq<T>,
    w: Seq<T>,
    which: int,
    a: int,
    t: int,
)
    requires
        0 <= a,
        a + part.rows <= whole.rows,
        part == (DeltaMix { rows: part.rows, ..whole }),
        whole.kernel >= 1,
        0 <= which < 3,
        x.len() >= (whole.kernel - 1 + whole.rows) * whole.channels_len(),
        0 <= t < part.rows * part.heads,
        0 <= delta::column(whole, which, t % (whole.heads as int)),
        delta::column(whole, which, t % (whole.heads as int)) + whole.head_dim
            <= whole.channels_len(),
    ensures
        delta::convolved(
            o,
            at,
            part,
            x.subrange(a * whole.channels_len(), x.len() as int),
            w,
            which,
            t,
        ) == delta::convolved(o, at, whole, x, w, which, a * whole.heads + t),
{
    let heads = whole.heads as int;
    let channels = whole.channels_len() as int;
    contract::lemma_position(t, part.rows as int, heads);
    let (position, head) = (t / heads, t % heads);
    assert(a * heads + t == (a + position) * heads + head) by (nonlinear_arith)
        requires
            t == position * heads + head,
    ;
    vstd::arithmetic::div_mod::lemma_fundamental_div_mod_converse(
        a * heads + t,
        heads,
        a + position,
        head,
    );
    assert((a + position + whole.kernel) * channels <= (whole.kernel - 1 + whole.rows) * channels
        && a * channels <= (whole.kernel - 1 + whole.rows) * channels) by (nonlinear_arith)
        requires
            position < part.rows,
            a + part.rows <= whole.rows,
            0 <= position,
            0 <= a,
            1 <= whole.kernel,
            0 <= channels,
    ;
    let from = delta::column(whole, which, head);
    let short = x.subrange(a * channels, x.len() as int);
    let (one, two) = (
        delta::convolved(o, at, part, short, w, which, t),
        delta::convolved(o, at, whole, x, w, which, a * heads + t),
    );
    assert forall|d: int| 0 <= d < whole.head_dim implies one[d] == two[d] by {
        lemma_tapped(
            o,
            at.zero,
            x,
            w,
            channels,
            a,
            position,
            from + d,
            whole.kernel as nat,
        );
    }
    assert(one =~= two);
}

} // verus!
