//! The host's causal attention and rotary embedding.

use vstd::prelude::*;

use crate::backend::host::contract::{self, HostError};
use crate::backend::host::ops;
use crate::backend::{Attn, Rope};

verus! {

/// The arithmetic a softmax needs. `invert` is of the sum.
pub struct Soft<P, M, X, S, E, I> {
    pub plus: P,
    pub times: M,
    pub max: X,
    pub minus: S,
    pub exp: E,
    pub invert: I,
}

pub open spec fn is_soft<
    T,
    P: Fn(T, T) -> T,
    M: Fn(T, T) -> T,
    X: Fn(T, T) -> T,
    S: Fn(T, T) -> T,
    E: Fn(T) -> T,
    I: Fn(T) -> T,
>(o: Soft<P, M, X, S, E, I>) -> bool {
    ops::is_op2(o.plus) && ops::is_op2(o.times) && ops::is_op2(o.max) && ops::is_op2(o.minus) && ops::is_op1(o.exp)
        && ops::is_op1(o.invert)
}

/// The largest of the first `n`, from `low`.
pub open spec fn topped<T, X: Fn(T, T) -> T>(max: X, low: T, row: Seq<T>, n: nat) -> T
    decreases n,
{
    if n == 0 {
        low
    } else {
        ops::of2(max, topped(max, low, row, (n - 1) as nat), row[n - 1])
    }
}

/// The first `n` of a row added up from `zero`.
pub open spec fn summed<T, P: Fn(T, T) -> T>(plus: P, zero: T, row: Seq<T>, n: nat) -> T
    decreases n,
{
    if n == 0 {
        zero
    } else {
        ops::of2(plus, summed(plus, zero, row, (n - 1) as nat), row[n - 1])
    }
}

/// The exponentials of a row, shifted by its largest.
pub open spec fn raised<
    T,
    P: Fn(T, T) -> T,
    M: Fn(T, T) -> T,
    X: Fn(T, T) -> T,
    S: Fn(T, T) -> T,
    E: Fn(T) -> T,
    I: Fn(T) -> T,
>(o: Soft<P, M, X, S, E, I>, low: T, row: Seq<T>) -> Seq<T> {
    let top = topped(o.max, low, row, row.len());
    Seq::new(row.len(), |i: int| ops::of1(o.exp, ops::of2(o.minus, row[i], top)))
}

/// A row's softmax.
pub open spec fn softmaxed<
    T,
    P: Fn(T, T) -> T,
    M: Fn(T, T) -> T,
    X: Fn(T, T) -> T,
    S: Fn(T, T) -> T,
    E: Fn(T) -> T,
    I: Fn(T) -> T,
>(o: Soft<P, M, X, S, E, I>, low: T, zero: T, row: Seq<T>) -> Seq<T> {
    let up = raised(o, low, row);
    let inv = ops::of1(o.invert, summed(o.plus, zero, up, row.len()));
    Seq::new(row.len(), |i: int| ops::of2(o.times, up[i], inv))
}

/// In-place softmax, shifted by the largest for stability.
pub fn softmax<
    T: Copy,
    P: Fn(T, T) -> T,
    M: Fn(T, T) -> T,
    X: Fn(T, T) -> T,
    S: Fn(T, T) -> T,
    E: Fn(T) -> T,
    I: Fn(T) -> T,
>(o: &Soft<P, M, X, S, E, I>, low: T, zero: T, row: &mut Vec<T>)
    requires
        is_soft(*o),
    ensures
        final(row)@ == softmaxed(*o, low, zero, old(row)@),
{
    let ghost first = row@;
    let n: usize = row.len();
    let mut top: T = low;
    let mut i: usize = 0;
    while i < n
        invariant
            i <= n,
            n == row@.len(),
            row@ == first,
            is_soft(*o),
            top == topped(o.max, low, first, i as nat),
        decreases n - i,
    {
        top = (o.max)(top, row[i]);
        i = i + 1;
    }
    let ghost up = raised(*o, low, first);
    let mut sum: T = zero;
    let mut i: usize = 0;
    while i < n
        invariant
            i <= n,
            n == row@.len(),
            n == first.len(),
            is_soft(*o),
            up == raised(*o, low, first),
            top == topped(o.max, low, first, first.len()),
            sum == summed(o.plus, zero, up, i as nat),
            forall|j: int|
                0 <= j < n ==> #[trigger] row@[j] == (if j < i {
                    up[j]
                } else {
                    first[j]
                }),
        decreases n - i,
    {
        let shifted = (o.minus)(row[i], top);
        let e = (o.exp)(shifted);
        assert(e == up[i as int]);
        row.set(i, e);
        sum = (o.plus)(sum, e);
        i = i + 1;
    }
    let inv = (o.invert)(sum);
    let mut i: usize = 0;
    while i < n
        invariant
            i <= n,
            n == row@.len(),
            n == up.len(),
            is_soft(*o),
            forall|j: int|
                0 <= j < n ==> #[trigger] row@[j] == (if j < i {
                    ops::of2(o.times, up[j], inv)
                } else {
                    up[j]
                }),
        decreases n - i,
    {
        let v = (o.times)(row[i], inv);
        row.set(i, v);
        i = i + 1;
    }
    assert(row@ =~= softmaxed(*o, low, zero, first));
}

/// The numbers attention starts from: what products and outputs add up from,
/// the least number, and the scale of the scores.
pub struct AttnStart<T> {
    pub dot: T,
    pub zero: T,
    pub low: T,
    pub scale: T,
}

/// A run of a cache, widened.
pub open spec fn widened<T, H, W: Fn(H) -> T>(widen: W, cache: Seq<H>, at: int, dim: nat) -> Seq<T> {
    Seq::new(dim, |d: int| ops::of1(widen, cache[at + d]))
}

/// The scores of a query over the positions it sees.
pub open spec fn scored<
    T,
    H,
    P: Fn(T, T) -> T,
    M: Fn(T, T) -> T,
    X: Fn(T, T) -> T,
    S: Fn(T, T) -> T,
    E: Fn(T) -> T,
    I: Fn(T) -> T,
    W: Fn(H) -> T,
>(
    o: Soft<P, M, X, S, E, I>,
    widen: W,
    at: AttnStart<T>,
    query: Seq<T>,
    keys: Seq<H>,
    width: int,
    column: int,
    visible: nat,
) -> Seq<T> {
    Seq::new(
        visible,
        |j: int|
            ops::of2(
                o.times,
                ops::dotted(
                    o.plus,
                    o.times,
                    at.dot,
                    query,
                    widened(widen, keys, j * width + column, query.len()),
                    query.len(),
                ),
                at.scale,
            ),
    )
}

/// The first `n` positions' share of an output.
pub open spec fn mixed<T, H, P: Fn(T, T) -> T, M: Fn(T, T) -> T, W: Fn(H) -> T>(
    plus: P,
    times: M,
    widen: W,
    zero: T,
    probs: Seq<T>,
    values: Seq<H>,
    width: int,
    at: int,
    n: nat,
) -> T
    decreases n,
{
    if n == 0 {
        zero
    } else {
        let j = n - 1;
        ops::of2(
            plus,
            mixed(plus, times, widen, zero, probs, values, width, at, j as nat),
            ops::of2(times, probs[j], ops::of1(widen, values[j * width + at])),
        )
    }
}

/// An element of the output: row `t` attends to positions up to its own, each
/// group of query heads to one key head.
pub open spec fn attended<
    T,
    H,
    P: Fn(T, T) -> T,
    M: Fn(T, T) -> T,
    X: Fn(T, T) -> T,
    S: Fn(T, T) -> T,
    E: Fn(T) -> T,
    I: Fn(T) -> T,
    W: Fn(H) -> T,
>(
    o: Soft<P, M, X, S, E, I>,
    widen: W,
    at: AttnStart<T>,
    queries: Seq<T>,
    keys: Seq<H>,
    values: Seq<H>,
    spec: Attn,
    p: int,
) -> T {
    let dim = spec.head_dim as int;
    let width = spec.n_kv * dim;
    let (row, d) = (p / dim, p % dim);
    let (t, h) = (row / spec.n_head as int, row % spec.n_head as int);
    let column = h / (spec.n_head / spec.n_kv) as int * dim;
    let visible = (spec.start_pos + t + 1) as nat;
    let scores = scored(
        o,
        widen,
        at,
        queries.subrange(row * dim, row * dim + dim),
        keys,
        width,
        column,
        visible,
    );
    mixed(
        o.plus,
        o.times,
        widen,
        at.zero,
        softmaxed(o, at.low, at.zero, scores),
        values,
        width,
        column + d,
        visible,
    )
}

proof fn lemma_before(j: int, visible: int, width: int)
    requires
        0 <= j < visible,
        0 <= width,
    ensures
        0 <= j * width <= (visible - 1) * width,
{
    assert(0 <= j * width <= (visible - 1) * width) by (nonlinear_arith)
        requires
            0 <= j < visible,
            0 <= width,
    ;
}

/// Whether the operands hold what a call names.
pub open spec fn caches_fit(spec: Attn, queries: int, keys: int, values: int) -> bool {
    let len = (spec.start_pos + spec.rows) * (spec.n_kv * spec.head_dim);
    queries >= spec.rows * spec.n_head * spec.head_dim && keys >= len && values >= len
}

/// Whether every head's window of every position lies in a cache of this length.
pub open spec fn heads_fit(spec: Attn, len: int) -> bool {
    let dim = spec.head_dim as int;
    let group = (spec.n_head / spec.n_kv) as int;
    &&& group > 0
    &&& forall|h: int|
        0 <= h < spec.n_head ==> (spec.start_pos + spec.rows - 1) * (spec.n_kv * dim) + #[trigger] (
        h / group) * dim + dim <= len
}

/// Where every key head serves a whole group of query heads, caches that hold
/// the positions hold every window.
pub proof fn whole_groups_fit(spec: Attn, len: int)
    requires
        spec.n_kv > 0,
        spec.n_head > 0,
        spec.rows > 0,
        spec.n_head % spec.n_kv == 0,
        len >= (spec.start_pos + spec.rows) * (spec.n_kv * spec.head_dim),
    ensures
        heads_fit(spec, len),
{
    let dim = spec.head_dim as int;
    let width = spec.n_kv * dim;
    let group = (spec.n_head / spec.n_kv) as int;
    let total = spec.start_pos + spec.rows;
    vstd::arithmetic::div_mod::lemma_fundamental_div_mod(spec.n_head as int, spec.n_kv as int);
    assert(group > 0) by (nonlinear_arith)
        requires
            0 < spec.n_kv * group,
            0 <= group,
            0 < spec.n_kv,
    ;
    assert(0 <= width) by (nonlinear_arith)
        requires
            width == spec.n_kv * dim,
            0 <= dim,
            0 <= spec.n_kv,
    ;
    contract::lemma_row(total - 1, total, width);
    assert forall|h: int| 0 <= h < spec.n_head implies (total - 1) * width + #[trigger] (h / group)
        * dim + dim <= len by {
        assert(0 <= h / group < spec.n_kv) by (nonlinear_arith)
            requires
                0 <= h < spec.n_kv * group,
                group > 0,
        ;
        contract::lemma_row(h / group, spec.n_kv as int, dim);
    }
}

/// One query's scores.
fn scores_of<
    T: Copy,
    H: Copy,
    P: Fn(T, T) -> T,
    M: Fn(T, T) -> T,
    X: Fn(T, T) -> T,
    S: Fn(T, T) -> T,
    E: Fn(T) -> T,
    I: Fn(T) -> T,
    W: Fn(H) -> T,
>(
    o: &Soft<P, M, X, S, E, I>,
    widen: &W,
    at: &AttnStart<T>,
    queries: &[T],
    from: usize,
    dim: usize,
    keys: &[H],
    width: usize,
    column: usize,
    visible: usize,
) -> (scores: Vec<T>)
    requires
        is_soft(*o),
        ops::is_op1(*widen),
        from + dim <= queries@.len(),
        visible > 0,
        (visible - 1) * width + column + dim <= keys@.len(),
    ensures
        scores@ == scored(
            *o,
            *widen,
            *at,
            queries@.subrange(from as int, from + dim),
            keys@,
            width as int,
            column as int,
            visible as nat,
        ),
{
    let (q_held, k_held): (usize, usize) = (queries.len(), keys.len());
    let ghost query = queries@.subrange(from as int, from + dim);
    let ghost whole = scored(
        *o,
        *widen,
        *at,
        query,
        keys@,
        width as int,
        column as int,
        visible as nat,
    );
    let mut scores: Vec<T> = Vec::new();
    let mut j: usize = 0;
    while j < visible
        invariant
            j <= visible,
            is_soft(*o),
            ops::is_op1(*widen),
            q_held == queries@.len(),
            k_held == keys@.len(),
            from + dim <= q_held,
            (visible - 1) * width + column + dim <= k_held,
            query == queries@.subrange(from as int, from + dim),
            whole == scored(
                *o,
                *widen,
                *at,
                query,
                keys@,
                width as int,
                column as int,
                visible as nat,
            ),
            scores@ == whole.take(j as int),
        decreases visible - j,
    {
        proof {
            lemma_before(j as int, visible as int, width as int);
        }
        let start: usize = j * width + column;
        let ghost key = widened(*widen, keys@, start as int, dim as nat);
        let mut sum: T = at.dot;
        let mut d: usize = 0;
        while d < dim
            invariant
                d <= dim,
                is_soft(*o),
                ops::is_op1(*widen),
                q_held == queries@.len(),
                k_held == keys@.len(),
                from + dim <= q_held,
                start + dim <= k_held,
                query == queries@.subrange(from as int, from + dim),
                key == widened(*widen, keys@, start as int, dim as nat),
                sum == ops::dotted(
                    o.plus,
                    o.times,
                    at.dot,
                    query,
                    key,
                    d as nat,
                ),
            decreases dim - d,
        {
            let wide = widen(keys[start + d]);
            let term = (o.times)(queries[from + d], wide);
            sum = (o.plus)(sum, term);
            d = d + 1;
        }
        let score = (o.times)(sum, at.scale);
        assert(score == whole[j as int]);
        scores.push(score);
        j = j + 1;
        assert(scores@ =~= whole.take(j as int));
    }
    assert(whole.take(j as int) =~= whole);
    scores
}

/// Causal softmax attention against the key and value caches. The head varies
/// fastest in the queries and the output; the caches are `[positions, width]`.
pub fn attention<
    T: Copy,
    H: Copy,
    P: Fn(T, T) -> T,
    M: Fn(T, T) -> T,
    X: Fn(T, T) -> T,
    S: Fn(T, T) -> T,
    E: Fn(T) -> T,
    I: Fn(T) -> T,
    W: Fn(H) -> T,
>(
    o: &Soft<P, M, X, S, E, I>,
    widen: &W,
    at: &AttnStart<T>,
    queries: &[T],
    keys: &[H],
    values: &[H],
    spec: Attn,
    dst: &mut Vec<T>,
) -> (result: Result<(), HostError>)
    requires
        is_soft(*o),
        ops::is_op1(*widen),
        spec.n_kv > 0,
        spec.start_pos + spec.rows <= usize::MAX,
        spec.n_kv * spec.head_dim <= usize::MAX,
        spec.rows * spec.n_head <= usize::MAX,
        spec.rows * spec.n_head * spec.head_dim <= usize::MAX,
        (spec.start_pos + spec.rows) * (spec.n_kv * spec.head_dim) <= usize::MAX,
        spec.rows > 0 && spec.n_head > 0 && caches_fit(
            spec,
            queries@.len() as int,
            keys@.len() as int,
            values@.len() as int,
        ) ==> {
            &&& spec.rows * spec.n_head * spec.head_dim <= old(dst)@.len()
            &&& heads_fit(spec, keys@.len() as int)
            &&& heads_fit(spec, values@.len() as int)
        },
    ensures
        ({
            let span = spec.rows * spec.n_head * spec.head_dim;
            let fits = caches_fit(
                spec,
                queries@.len() as int,
                keys@.len() as int,
                values@.len() as int,
            );
            match result {
                Err(e) => e == HostError::Attention && !fits && final(dst)@ == old(dst)@,
                Ok(()) => fits && final(dst)@ == contract::written(
                    old(dst)@,
                    span,
                    |p: int| attended(*o, *widen, *at, queries@, keys@, values@, spec, p),
                ),
            }
        }),
{
    let dim: usize = spec.head_dim;
    let width: usize = spec.n_kv * dim;
    let total: usize = spec.start_pos + spec.rows;
    let all: usize = spec.rows * spec.n_head;
    let room: usize = dst.len();
    let span: usize = all * dim;
    if queries.len() < span || keys.len() < total * width || values.len() < total * width {
        return Err(HostError::Attention);
    }
    let group: usize = spec.n_head / spec.n_kv;
    let (k_held, v_held): (usize, usize) = (keys.len(), values.len());
    let ghost into = dst@;
    let ghost value = |p: int| attended(*o, *widen, *at, queries@, keys@, values@, spec, p);
    proof {
        assert(0 * dim == 0) by (nonlinear_arith);
        assert(spec.rows == 0 || spec.n_head == 0 ==> all * dim == 0) by (nonlinear_arith)
            requires
                all == spec.rows * spec.n_head,
        ;
    }
    let mut row: usize = 0;
    while row < all
        invariant
            row <= all,
            is_soft(*o),
            ops::is_op1(*widen),
            dim == spec.head_dim,
            width == spec.n_kv * dim,
            total == spec.start_pos + spec.rows,
            all == spec.rows * spec.n_head,
            span == all * dim,
            span <= room,
            room == dst@.len(),
            room == into.len(),
            span <= queries@.len(),
            k_held == keys@.len(),
            v_held == values@.len(),
            spec.n_kv > 0,
            group == spec.n_head / spec.n_kv,
            spec.rows > 0 && spec.n_head > 0 ==> heads_fit(spec, k_held as int) && heads_fit(
                spec,
                v_held as int,
            ),
            value == (|p: int| attended(*o, *widen, *at, queries@, keys@, values@, spec, p)),
            forall|p: int|
                0 <= p < room ==> #[trigger] dst@[p] == (if p < row * dim {
                    value(p)
                } else {
                    into[p]
                }),
        decreases all - row,
    {
        proof {
            contract::lemma_position(row as int, spec.rows as int, spec.n_head as int);
            contract::lemma_row(row as int, all as int, dim as int);
        }
        let (t, h): (usize, usize) = (row / spec.n_head, row % spec.n_head);
        assert(heads_fit(spec, k_held as int) && heads_fit(spec, v_held as int));
        proof {
            let c = h as int / group as int;
            lemma_before(t as int, spec.rows as int, 0);
            assert(0 <= (total - 1) * width && 0 <= c * dim) by (nonlinear_arith)
                requires
                    total >= 1,
                    0 <= width,
                    0 <= c,
                    0 <= dim,
            ;
            assert((total - 1) * width + c * dim + dim <= k_held);
        }
        let column: usize = h / group * dim;
        let visible: usize = spec.start_pos + t + 1;
        assert((visible - 1) * width <= (total - 1) * width) by (nonlinear_arith)
            requires
                visible <= total,
                0 <= width,
        ;
        let from: usize = row * dim;
        let mut probs = scores_of(
            o,
            widen,
            at,
            queries,
            from,
            dim,
            keys,
            width,
            column,
            visible,
        );
        let ghost scores = probs@;
        softmax(o, at.low, at.zero, &mut probs);
        let mut d: usize = 0;
        while d < dim
            invariant
                d <= dim,
                row < all,
                is_soft(*o),
                ops::is_op1(*widen),
                dim == spec.head_dim,
                width == spec.n_kv * dim,
                all == spec.rows * spec.n_head,
                span == all * dim,
                span <= room,
                room == dst@.len(),
                room == into.len(),
                v_held == values@.len(),
                visible > 0,
                (visible - 1) * width + column + dim <= v_held,
                from == row * dim,
                from + dim <= span,
                t == row / spec.n_head,
                h == row % spec.n_head,
                spec.n_head > 0,
                group == spec.n_head / spec.n_kv,
                group > 0,
                column == h / group * dim,
                visible == spec.start_pos + t + 1,
                probs@.len() == visible,
                probs@ == softmaxed(*o, at.low, at.zero, scores),
                scores == scored(
                    *o,
                    *widen,
                    *at,
                    queries@.subrange(from as int, from + dim),
                    keys@,
                    width as int,
                    column as int,
                    visible as nat,
                ),
                value == (|p: int| attended(*o, *widen, *at, queries@, keys@, values@, spec, p)),
                forall|p: int|
                    0 <= p < room ==> #[trigger] dst@[p] == (if p < from + d {
                        value(p)
                    } else {
                        into[p]
                    }),
            decreases dim - d,
        {
            let mut sum: T = at.zero;
            let mut j: usize = 0;
            while j < visible
                invariant
                    j <= visible,
                    d < dim,
                    is_soft(*o),
                    ops::is_op1(*widen),
                    v_held == values@.len(),
                    (visible - 1) * width + column + dim <= v_held,
                    probs@.len() == visible,
                    sum == mixed(
                        o.plus,
                        o.times,
                        *widen,
                        at.zero,
                        probs@,
                        values@,
                        width as int,
                        column + d,
                        j as nat,
                    ),
                decreases visible - j,
            {
                proof {
                    lemma_before(j as int, visible as int, width as int);
                }
                let wide = widen(values[j * width + column + d]);
                let term = (o.times)(probs[j], wide);
                sum = (o.plus)(sum, term);
                j = j + 1;
            }
            proof {
                vstd::arithmetic::div_mod::lemma_fundamental_div_mod_converse(
                    from + d,
                    dim as int,
                    row as int,
                    d as int,
                );
            }
            assert(sum == value(from + d));
            dst.set(from + d, sum);
            d = d + 1;
        }
        assert((row + 1) * dim == row * dim + dim) by (nonlinear_arith);
        row = row + 1;
    }
    assert(dst@ =~= contract::written(into, span as int, value));
    Ok(())
}

/// An element of a rotated buffer: pairs half a rotary dimension apart turn by
/// their position's angle, the rest of a head stays.
pub open spec fn rotated<T, P: Fn(T, T) -> T, M: Fn(T, T) -> T, S: Fn(T, T) -> T>(
    plus: P,
    times: M,
    minus: S,
    x: Seq<T>,
    angles: Seq<T>,
    spec: Rope,
    p: int,
) -> T {
    let half = spec.rope_dim as int / 2;
    let (r, c) = (p / spec.head_dim as int, p % spec.head_dim as int);
    let at = (spec.start_pos + r / spec.heads as int) * spec.rope_dim;
    if c < half {
        ops::of2(
            minus,
            ops::of2(times, x[p], angles[at + c]),
            ops::of2(times, x[p + half], angles[at + half + c]),
        )
    } else if c < 2 * half {
        ops::of2(
            plus,
            ops::of2(times, x[p - half], angles[at + c]),
            ops::of2(times, x[p], angles[at + c - half]),
        )
    } else {
        x[p]
    }
}

/// Rotary embedding, in place. A row of the table is a position's cosines, then
/// its sines.
pub fn rope<T: Copy, P: Fn(T, T) -> T, M: Fn(T, T) -> T, S: Fn(T, T) -> T>(
    plus: &P,
    times: &M,
    minus: &S,
    dst: &mut Vec<T>,
    rows: usize,
    angles: &[T],
    spec: Rope,
) -> (result: Result<(), HostError>)
    requires
        ops::is_op2(*plus),
        ops::is_op2(*times),
        ops::is_op2(*minus),
        2 * (spec.rope_dim as int / 2) <= spec.head_dim,
        rows * spec.heads <= usize::MAX,
        rows * spec.heads * spec.head_dim <= usize::MAX,
        spec.start_pos + rows <= usize::MAX,
        (spec.start_pos + rows) * spec.rope_dim <= usize::MAX,
    ensures
        ({
            let span = rows * spec.heads * spec.head_dim;
            let fits = old(dst)@.len() >= span && angles@.len() >= (spec.start_pos + rows)
                * spec.rope_dim;
            match result {
                Err(e) => e == HostError::Rope && !fits && final(dst)@ == old(dst)@,
                Ok(()) => fits && final(dst)@ == contract::written(
                    old(dst)@,
                    span,
                    |p: int| rotated(*plus, *times, *minus, old(dst)@, angles@, spec, p),
                ),
            }
        }),
{
    let all: usize = rows * spec.heads;
    let span: usize = all * spec.head_dim;
    if dst.len() < span || angles.len() < (spec.start_pos + rows) * spec.rope_dim {
        return Err(HostError::Rope);
    }
    let (half, dim): (usize, usize) = (spec.rope_dim / 2, spec.head_dim);
    let (room, held): (usize, usize) = (dst.len(), angles.len());
    let ghost into = dst@;
    let ghost value = |p: int| rotated(*plus, *times, *minus, into, angles@, spec, p);
    assert(0 * dim == 0) by (nonlinear_arith);
    let mut r: usize = 0;
    while r < all
        invariant
            r <= all,
            ops::is_op2(*plus),
            ops::is_op2(*times),
            ops::is_op2(*minus),
            all == rows * spec.heads,
            span == all * dim,
            dim == spec.head_dim,
            half == spec.rope_dim / 2,
            2 * half <= dim,
            span <= room,
            room == dst@.len(),
            room == into.len(),
            held == angles@.len(),
            spec.start_pos + rows <= usize::MAX,
            (spec.start_pos + rows) * spec.rope_dim <= held,
            value == (|p: int| rotated(*plus, *times, *minus, into, angles@, spec, p)),
            forall|p: int|
                0 <= p < room ==> #[trigger] dst@[p] == (if p < r * dim {
                    value(p)
                } else {
                    into[p]
                }),
        decreases all - r,
    {
        proof {
            contract::lemma_position(r as int, rows as int, spec.heads as int);
            contract::lemma_row(r as int, all as int, dim as int);
        }
        let pos: usize = spec.start_pos + r / spec.heads;
        proof {
            contract::lemma_row(pos as int, spec.start_pos + rows, spec.rope_dim as int);
        }
        let at: usize = pos * spec.rope_dim;
        let from: usize = r * dim;
        let mut i: usize = 0;
        while i < half
            invariant
                i <= half,
                r < all,
                ops::is_op2(*plus),
                ops::is_op2(*times),
                ops::is_op2(*minus),
                dim == spec.head_dim,
                half == spec.rope_dim / 2,
                2 * half <= dim,
                from == r * dim,
                from + dim <= room,
                room == dst@.len(),
                room == into.len(),
                held == angles@.len(),
                at == (spec.start_pos + r as int / spec.heads as int) * spec.rope_dim,
                at + spec.rope_dim <= held,
                value == (|p: int| rotated(*plus, *times, *minus, into, angles@, spec, p)),
                forall|p: int|
                    0 <= p < room ==> #[trigger] dst@[p] == (if p < from || from <= p < from + i
                        || from + half <= p < from + half + i {
                        value(p)
                    } else {
                        into[p]
                    }),
            decreases half - i,
        {
            proof {
                vstd::arithmetic::div_mod::lemma_fundamental_div_mod_converse(
                    from + i,
                    dim as int,
                    r as int,
                    i as int,
                );
                vstd::arithmetic::div_mod::lemma_fundamental_div_mod_converse(
                    from + half + i,
                    dim as int,
                    r as int,
                    half + i,
                );
            }
            let (a, b) = (dst[from + i], dst[from + half + i]);
            let (cos, sin) = (angles[at + i], angles[at + half + i]);
            let (ac, bs) = (times(a, cos), times(b, sin));
            let low = minus(ac, bs);
            let (sa, bc) = (times(a, sin), times(b, cos));
            let high = plus(sa, bc);
            assert(low == value(from + i));
            assert(high == value(from + half + i));
            dst.set(from + i, low);
            dst.set(from + half + i, high);
            i = i + 1;
        }
        assert((r + 1) * dim == r * dim + dim) by (nonlinear_arith);
        proof {
            assert forall|p: int| 0 <= p < room implies #[trigger] dst@[p] == (if p < (r + 1) * dim {
                value(p)
            } else {
                into[p]
            }) by {
                if from + 2 * half <= p < from + dim {
                    vstd::arithmetic::div_mod::lemma_fundamental_div_mod_converse(
                        p,
                        dim as int,
                        r as int,
                        p - from,
                    );
                    assert(value(p) == into[p]);
                }
            }
        }
        r = r + 1;
    }
    assert(dst@ =~= contract::written(into, span as int, value));
    Ok(())
}

/// A row sees no position after its own: what the caches hold there changes
/// nothing.
pub proof fn attention_is_causal<
    T,
    H,
    P: Fn(T, T) -> T,
    M: Fn(T, T) -> T,
    X: Fn(T, T) -> T,
    S: Fn(T, T) -> T,
    E: Fn(T) -> T,
    I: Fn(T) -> T,
    W: Fn(H) -> T,
>(
    o: Soft<P, M, X, S, E, I>,
    widen: W,
    at: AttnStart<T>,
    queries: Seq<T>,
    keys: Seq<H>,
    other_keys: Seq<H>,
    values: Seq<H>,
    other_values: Seq<H>,
    spec: Attn,
    p: int,
)
    requires
        spec.n_kv > 0,
        spec.n_head % spec.n_kv == 0,
        0 <= p < spec.rows * spec.n_head * spec.head_dim <= queries.len(),
        forall|i: int|
            0 <= i < (spec.start_pos + p / spec.head_dim as int / spec.n_head as int + 1) * (
            spec.n_kv * spec.head_dim) ==> #[trigger] keys[i] == other_keys[i],
        forall|i: int|
            0 <= i < (spec.start_pos + p / spec.head_dim as int / spec.n_head as int + 1) * (
            spec.n_kv * spec.head_dim) ==> #[trigger] values[i] == other_values[i],
    ensures
        attended(o, widen, at, queries, keys, values, spec, p) == attended(
            o,
            widen,
            at,
            queries,
            other_keys,
            other_values,
            spec,
            p,
        ),
{
    let dim = spec.head_dim as int;
    let width = spec.n_kv * dim;
    let group = (spec.n_head / spec.n_kv) as int;
    let all = spec.rows * spec.n_head;
    assert(0 <= all) by (nonlinear_arith)
        requires
            all == spec.rows * spec.n_head,
            0 <= spec.rows,
            0 <= spec.n_head,
    ;
    contract::lemma_position(p, all, dim);
    let (row, d) = (p / dim, p % dim);
    contract::lemma_position(row, spec.rows as int, spec.n_head as int);
    let (t, h) = (row / spec.n_head as int, row % spec.n_head as int);
    vstd::arithmetic::div_mod::lemma_fundamental_div_mod(spec.n_head as int, spec.n_kv as int);
    assert(group > 0) by (nonlinear_arith)
        requires
            0 <= h < spec.n_kv * group,
            0 <= group,
    ;
    assert(0 <= h / group < spec.n_kv) by (nonlinear_arith)
        requires
            0 <= h < spec.n_kv * group,
            group > 0,
    ;
    contract::lemma_row(h / group, spec.n_kv as int, dim);
    let column = h / group * dim;
    let visible = (spec.start_pos + t + 1) as nat;
    let query = queries.subrange(row * dim, row * dim + dim);
    let a = scored(o, widen, at, query, keys, width, column, visible);
    let b = scored(o, widen, at, query, other_keys, width, column, visible);
    assert(query.len() == dim);
    assert forall|j: int| 0 <= j < visible implies #[trigger] a[j] == b[j] by {
        contract::lemma_row(j, visible as int, width);
        lemma_widened(widen, keys, other_keys, j * width + column, query.len());
    }
    assert(a =~= b);
    lemma_mixed(
        o.plus,
        o.times,
        widen,
        at.zero,
        softmaxed(o, at.low, at.zero, a),
        values,
        other_values,
        width,
        column + d,
        visible,
    );
}

proof fn lemma_widened<T, H, W: Fn(H) -> T>(widen: W, a: Seq<H>, b: Seq<H>, at: int, dim: nat)
    requires
        forall|i: int| at <= i < at + dim ==> #[trigger] a[i] == b[i],
    ensures
        widened(widen, a, at, dim) == widened(widen, b, at, dim),
{
    assert forall|d: int| 0 <= d < dim implies #[trigger] widened(widen, a, at, dim)[d] == widened(
        widen,
        b,
        at,
        dim,
    )[d] by {
        assert(a[at + d] == b[at + d]);
    }
    assert(widened(widen, a, at, dim) =~= widened(widen, b, at, dim));
}

proof fn lemma_mixed<T, H, P: Fn(T, T) -> T, M: Fn(T, T) -> T, W: Fn(H) -> T>(
    plus: P,
    times: M,
    widen: W,
    zero: T,
    probs: Seq<T>,
    values: Seq<H>,
    others: Seq<H>,
    width: int,
    at: int,
    n: nat,
)
    requires
        0 <= at < width,
        forall|i: int| 0 <= i < n * width ==> #[trigger] values[i] == others[i],
    ensures
        mixed(plus, times, widen, zero, probs, values, width, at, n) == mixed(
            plus,
            times,
            widen,
            zero,
            probs,
            others,
            width,
            at,
            n,
        ),
    decreases n,
{
    if n > 0 {
        contract::lemma_row(n - 1, n as int, width);
        assert((n - 1) * width + at < n * width);
        lemma_mixed(plus, times, widen, zero, probs, values, others, width, at, (n - 1) as nat);
        assert(values[(n - 1) * width + at] == others[(n - 1) * width + at]);
    }
}

} // verus!
