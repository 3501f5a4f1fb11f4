//! What the host's operations compute, head by head and element by element: sums
//! and products where the arithmetic is exact, and what one call owes another.

use vstd::arithmetic::div_mod;
use vstd::prelude::*;

use crate::backend::host::attention::{self, AttnStart, Soft};
use crate::backend::host::contract;
use crate::backend::host::delta::{self, Conv, ConvStart, Gates, Ring};
use crate::backend::host::elem;
use crate::backend::host::moe::{self, Feed, Pick, Router, Stack};
use crate::backend::host::ops;
use crate::backend::{Attn, DeltaMix, Rope};

verus! {

/// Where a row-major matrix of some width keeps an element.
pub open spec fn cell(row: int, col: int, width: int) -> int {
    row * width + col
}

/// `f(0) + f(1) + ..`, of `n` terms.
pub open spec fn sigma(n: nat, f: spec_fn(int) -> int) -> int
    decreases n,
{
    if n == 0 {
        0
    } else {
        sigma((n - 1) as nat, f) + f(n - 1)
    }
}

/// Sums and products of integers.
pub open spec fn adds_and_multiplies<P: Fn(int, int) -> int, M: Fn(int, int) -> int>(
    plus: P,
    times: M,
) -> bool {
    &&& forall|a: int, b: int| #[trigger] ops::of2(plus, a, b) == a + b
    &&& forall|a: int, b: int| #[trigger] ops::of2(times, a, b) == a * b
}

pub proof fn lemma_sigma(n: nat, f: spec_fn(int) -> int, g: spec_fn(int) -> int)
    requires
        forall|i: int| 0 <= i < n ==> #[trigger] f(i) == g(i),
    ensures
        sigma(n, f) == sigma(n, g),
    decreases n,
{
    if n > 0 {
        lemma_sigma((n - 1) as nat, f, g);
        assert(f(n - 1) == g(n - 1));
    }
}

pub proof fn lemma_dot<P: Fn(int, int) -> int, M: Fn(int, int) -> int>(
    plus: P,
    times: M,
    a: Seq<int>,
    b: Seq<int>,
    n: nat,
)
    requires
        adds_and_multiplies(plus, times),
    ensures
        ops::dotted(plus, times, 0, a, b, n) == sigma(n, |i: int| a[i] * b[i]),
    decreases n,
{
    if n > 0 {
        lemma_dot(plus, times, a, b, (n - 1) as nat);
        lemma_sigma((n - 1) as nat, |i: int| a[i] * b[i], |i: int| a[i] * b[i]);
    }
}

/// A cell tells its row and column.
pub proof fn lemma_cell(row: int, col: int, rows: int, width: int)
    requires
        0 <= row < rows,
        0 <= col < width,
    ensures
        0 <= cell(row, col, width) < rows * width,
        cell(row, col, width) / width == row,
        cell(row, col, width) % width == col,
        0 <= row * width,
        row * width + width <= rows * width,
{
    contract::lemma_row(row, rows, width);
    div_mod::lemma_fundamental_div_mod_converse(row * width + col, width, row, col);
}

proof fn lemma_dotted_alike<T, P: Fn(T, T) -> T, M: Fn(T, T) -> T>(
    plus: P,
    times: M,
    start: T,
    a: Seq<T>,
    b: Seq<T>,
    c: Seq<T>,
    d: Seq<T>,
    n: nat,
)
    requires
        forall|i: int| 0 <= i < n ==> #[trigger] a[i] == c[i],
        forall|i: int| 0 <= i < n ==> #[trigger] b[i] == d[i],
    ensures
        ops::dotted(plus, times, start, a, b, n) == ops::dotted(plus, times, start, c, d, n),
    decreases n,
{
    if n > 0 {
        lemma_dotted_alike(plus, times, start, a, b, c, d, (n - 1) as nat);
        assert(a[n - 1] == c[n - 1] && b[n - 1] == d[n - 1]);
    }
}

proof fn lemma_mixed_alike<T, H, P: Fn(T, T) -> T, M: Fn(T, T) -> T, W: Fn(H) -> T>(
    plus: P,
    times: M,
    widen: W,
    zero: T,
    probs: Seq<T>,
    values: Seq<H>,
    width: int,
    at: int,
    others: Seq<H>,
    other_width: int,
    other_at: int,
    n: nat,
)
    requires
        forall|j: int|
            0 <= j < n ==> values[#[trigger] cell(j, at, width)] == others[cell(
                j,
                other_at,
                other_width,
            )],
    ensures
        attention::mixed(plus, times, widen, zero, probs, values, width, at, n)
            == attention::mixed(
            plus,
            times,
            widen,
            zero,
            probs,
            others,
            other_width,
            other_at,
            n,
        ),
    decreases n,
{
    if n > 0 {
        lemma_mixed_alike(
            plus,
            times,
            widen,
            zero,
            probs,
            values,
            width,
            at,
            others,
            other_width,
            other_at,
            (n - 1) as nat,
        );
        assert(values[cell(n - 1, at, width)] == others[cell(n - 1, other_at, other_width)]);
    }
}

/// A head attends alone. Query head `group * g + i` puts out what an attention of
/// one head puts out over its own queries and over key and value head `g`: what the
/// other heads hold changes nothing, and each group of query heads reads its own
/// key head.
pub proof fn a_head_attends_alone<
    T,
    H,
    P: Fn(T, T) -> T,
    M: Fn(T, T) -> T,
    X: Fn(T, T) -> T,
    S: Fn(T, T) -> T,
    E: Fn(T) -> T,
    I: Fn(T) -> T,
    W: Fn(H) -> T,
>(
    o: Soft<P, M, X, S, E, I>,
    widen: W,
    at: AttnStart<T>,
    queries: Seq<T>,
    keys: Seq<H>,
    values: Seq<H>,
    spec: Attn,
    own_queries: Seq<T>,
    own_keys: Seq<H>,
    own_values: Seq<H>,
    group: int,
    t: int,
    g: int,
    i: int,
    d: int,
)
    requires
        spec.n_head == group * spec.n_kv,
        0 <= t < spec.rows,
        0 <= g < spec.n_kv,
        0 <= i < group,
        0 <= d < spec.head_dim,
        spec.rows * spec.n_head * spec.head_dim <= queries.len(),
        spec.rows * spec.head_dim <= own_queries.len(),
        forall|c: int|
            0 <= c < spec.head_dim ==> own_queries[#[trigger] cell(t, c, spec.head_dim as int)]
                == queries[cell(
                cell(t, group * g + i, spec.n_head as int),
                c,
                spec.head_dim as int,
            )],
        forall|j: int, c: int|
            0 <= j <= spec.start_pos + t && 0 <= c < spec.head_dim ==> own_keys[#[trigger] cell(
                j,
                c,
                spec.head_dim as int,
            )] == keys[cell(cell(j, g, spec.n_kv as int), c, spec.head_dim as int)],
        forall|j: int, c: int|
            0 <= j <= spec.start_pos + t && 0 <= c < spec.head_dim ==> own_values[#[trigger] cell(
                j,
                c,
                spec.head_dim as int,
            )] == values[cell(cell(j, g, spec.n_kv as int), c, spec.head_dim as int)],
    ensures
        attention::attended(
            o,
            widen,
            at,
            queries,
            keys,
            values,
            spec,
            cell(cell(t, group * g + i, spec.n_head as int), d, spec.head_dim as int),
        ) == attention::attended(
            o,
            widen,
            at,
            own_queries,
            own_keys,
            own_values,
            (Attn { n_head: 1, n_kv: 1, ..spec }),
            cell(t, d, spec.head_dim as int),
        ),
{
    let (dim, heads, kv) = (spec.head_dim as int, spec.n_head as int, spec.n_kv as int);
    let one = Attn { n_head: 1, n_kv: 1, ..spec };
    let h = group * g + i;
    assert(0 <= h < heads && heads / kv == group && h / group == g) by (nonlinear_arith)
        requires
            heads == group * kv,
            0 <= g < kv,
            0 <= i < group,
            h == group * g + i,
    ;
    lemma_cell(t, h, spec.rows as int, heads);
    let row = cell(t, h, heads);
    lemma_cell(row, d, spec.rows * heads, dim);
    lemma_cell(t, d, spec.rows as int, dim);
    let visible = (spec.start_pos + t + 1) as nat;
    let width = kv * dim;
    let query = queries.subrange(row * dim, row * dim + dim);
    let own_query = own_queries.subrange(t * dim, t * dim + dim);
    assert forall|c: int| 0 <= c < dim implies #[trigger] query[c] == own_query[c] by {
        assert(own_queries[cell(t, c, dim)] == queries[cell(row, c, dim)]);
    }
    assert(query =~= own_query);
    let a = attention::scored(o, widen, at, query, keys, width, g * dim, visible);
    let b = attention::scored(o, widen, at, own_query, own_keys, 1 * dim, 0, visible);
    assert forall|j: int| 0 <= j < visible implies #[trigger] a[j] == b[j] by {
        let x = attention::widened(widen, keys, j * width + g * dim, query.len());
        let y = attention::widened(widen, own_keys, j * (1 * dim) + 0, query.len());
        assert forall|c: int| 0 <= c < dim implies #[trigger] x[c] == y[c] by {
            assert(own_keys[cell(j, c, dim)] == keys[cell(cell(j, g, kv), c, dim)]);
            assert(j * width + g * dim == (j * kv + g) * dim) by (nonlinear_arith)
                requires
                    width == kv * dim,
            ;
        }
        assert(x =~= y);
    }
    assert(a =~= b);
    let probs = attention::softmaxed(o, at.low, at.zero, a);
    assert forall|j: int| 0 <= j < visible implies values[#[trigger] cell(j, g * dim + d, width)]
        == own_values[cell(j, 0 + d, 1 * dim)] by {
        assert(own_values[cell(j, d, dim)] == values[cell(cell(j, g, kv), d, dim)]);
        assert(j * width + (g * dim + d) == (j * kv + g) * dim + d) by (nonlinear_arith)
            requires
                width == kv * dim,
        ;
    }
    lemma_mixed_alike(
        o.plus,
        o.times,
        widen,
        at.zero,
        probs,
        values,
        width,
        g * dim + d,
        own_values,
        1 * dim,
        0 + d,
        visible,
    );
    assert(t / 1 == t && t % 1 == 0);
    assert(0int / 1 * dim == 0) by (nonlinear_arith);
    assert(one.n_head / one.n_kv == 1);
}

/// The arithmetic of a softmax over the integers, with any exponential and any
/// inverse.
pub open spec fn is_exact_soft<
    P: Fn(int, int) -> int,
    M: Fn(int, int) -> int,
    X: Fn(int, int) -> int,
    S: Fn(int, int) -> int,
    E: Fn(int) -> int,
    I: Fn(int) -> int,
>(o: Soft<P, M, X, S, E, I>) -> bool {
    &&& adds_and_multiplies(o.plus, o.times)
    &&& forall|a: int, b: int|
        #[trigger] ops::of2(o.max, a, b) == (if a < b {
            b
        } else {
            a
        })
    &&& forall|a: int, b: int| #[trigger] ops::of2(o.minus, a, b) == a - b
}

/// Whether a number is the largest of a row and a least one.
pub open spec fn is_largest(top: int, low: int, row: Seq<int>) -> bool {
    &&& low <= top
    &&& forall|i: int| 0 <= i < row.len() ==> #[trigger] row[i] <= top
    &&& top == low || row.contains(top)
}

proof fn lemma_topped<X: Fn(int, int) -> int>(max: X, low: int, row: Seq<int>, n: nat)
    requires
        n <= row.len(),
        forall|a: int, b: int|
            #[trigger] ops::of2(max, a, b) == (if a < b {
                b
            } else {
                a
            }),
    ensures
        is_largest(attention::topped(max, low, row, n), low, row.take(n as int)),
    decreases n,
{
    let top = attention::topped(max, low, row, n);
    if n > 0 {
        let before = attention::topped(max, low, row, (n - 1) as nat);
        let (head, all) = (row.take(n - 1), row.take(n as int));
        lemma_topped(max, low, row, (n - 1) as nat);
        assert forall|i: int| 0 <= i < n implies #[trigger] all[i] <= top by {
            if i < n - 1 {
                assert(head[i] <= before);
            }
        }
        if top == before && before != low {
            let i = choose|i: int| 0 <= i < n - 1 && head[i] == before;
            assert(all[i] == top);
        } else if top != before {
            assert(all[n - 1] == top);
        }
    }
}

proof fn lemma_summed<P: Fn(int, int) -> int>(plus: P, row: Seq<int>, n: nat)
    requires
        forall|a: int, b: int| #[trigger] ops::of2(plus, a, b) == a + b,
    ensures
        attention::summed(plus, 0, row, n) == sigma(n, |i: int| row[i]),
    decreases n,
{
    if n > 0 {
        lemma_summed(plus, row, (n - 1) as nat);
        lemma_sigma((n - 1) as nat, |i: int| row[i], |i: int| row[i]);
    }
}

/// A softmax gives each number its exponential, counted from the largest, over the
/// sum of them all.
pub proof fn a_softmax_shares_out<
    P: Fn(int, int) -> int,
    M: Fn(int, int) -> int,
    X: Fn(int, int) -> int,
    S: Fn(int, int) -> int,
    E: Fn(int) -> int,
    I: Fn(int) -> int,
>(o: Soft<P, M, X, S, E, I>, low: int, row: Seq<int>)
    requires
        is_exact_soft(o),
    ensures
        exists|top: int|
            #![trigger is_largest(top, low, row)]
            is_largest(top, low, row) && attention::softmaxed(
                o,
                low,
                0,
                row,
            ).len() == row.len() && forall|j: int|
                0 <= j < row.len() ==> #[trigger] attention::softmaxed(o, low, 0, row)[j]
                    == ops::of1(o.exp, row[j] - top) * ops::of1(
                    o.invert,
                    sigma(row.len(), |i: int| ops::of1(o.exp, row[i] - top)),
                ),
{
    let top = attention::topped(o.max, low, row, row.len());
    lemma_topped(o.max, low, row, row.len());
    assert(row.take(row.len() as int) =~= row);
    let up = attention::raised(o, low, row);
    lemma_summed(o.plus, up, row.len());
    let terms = |i: int| ops::of1(o.exp, row[i] - top);
    let raised = |i: int| up[i];
    assert forall|i: int| 0 <= i < row.len() implies #[trigger] raised(i) == terms(i) by {
        assert(ops::of2(o.minus, row[i], top) == row[i] - top);
    }
    lemma_sigma(row.len(), raised, terms);
    assert forall|j: int| 0 <= j < row.len() implies #[trigger] attention::softmaxed(
        o,
        low,
        0,
        row,
    )[j] == ops::of1(o.exp, row[j] - top) * ops::of1(o.invert, sigma(row.len(), terms)) by {
        assert(ops::of2(o.minus, row[j], top) == row[j] - top);
        assert(up[j] == terms(j));
    }
    assert(is_largest(top, low, row));
}

proof fn lemma_mixed_sum<H, P: Fn(int, int) -> int, M: Fn(int, int) -> int, W: Fn(H) -> int>(
    plus: P,
    times: M,
    widen: W,
    probs: Seq<int>,
    values: Seq<H>,
    width: int,
    at: int,
    n: nat,
)
    requires
        adds_and_multiplies(plus, times),
    ensures
        attention::mixed(plus, times, widen, 0, probs, values, width, at, n) == sigma(
            n,
            |j: int| probs[j] * ops::of1(widen, values[cell(j, at, width)]),
        ),
    decreases n,
{
    if n > 0 {
        lemma_mixed_sum(plus, times, widen, probs, values, width, at, (n - 1) as nat);
    }
}

/// What attention is, for one head in exact arithmetic: the products of its query
/// with the key of every position up to its own, scaled; the softmax of those; and
/// the values of those positions summed by it.
pub proof fn attention_sums_values_by_their_scores<
    H,
    P: Fn(int, int) -> int,
    M: Fn(int, int) -> int,
    X: Fn(int, int) -> int,
    S: Fn(int, int) -> int,
    E: Fn(int) -> int,
    I: Fn(int) -> int,
    W: Fn(H) -> int,
>(
    o: Soft<P, M, X, S, E, I>,
    widen: W,
    at: AttnStart<int>,
    queries: Seq<int>,
    keys: Seq<H>,
    values: Seq<H>,
    spec: Attn,
    scores: Seq<int>,
    t: int,
    d: int,
)
    requires
        is_exact_soft(o),
        at.dot == 0,
        at.zero == 0,
        spec.n_head == 1,
        spec.n_kv == 1,
        0 <= t < spec.rows,
        0 <= d < spec.head_dim,
        spec.rows * spec.head_dim <= queries.len(),
        scores.len() == spec.start_pos + t + 1,
        forall|j: int|
            0 <= j < scores.len() ==> #[trigger] scores[j] == at.scale * sigma(
                spec.head_dim as nat,
                |c: int|
                    queries[t * spec.head_dim + c] * ops::of1(
                        widen,
                        keys[j * spec.head_dim + c],
                    ),
            ),
    ensures
        exists|top: int|
            #![trigger is_largest(top, at.low, scores)]
            is_largest(top, at.low, scores) && attention::attended(
                o,
                widen,
                at,
                queries,
                keys,
                values,
                spec,
                t * spec.head_dim + d,
            ) == sigma(
                scores.len(),
                |j: int|
                    (ops::of1(o.exp, scores[j] - top) * ops::of1(
                        o.invert,
                        sigma(scores.len(), |i: int| ops::of1(o.exp, scores[i] - top)),
                    )) * ops::of1(widen, values[j * spec.head_dim + d]),
            ),
{
    let dim = spec.head_dim as int;
    lemma_cell(t, d, spec.rows as int, dim);
    assert(t / 1 == t && t % 1 == 0);
    let visible = (spec.start_pos + t + 1) as nat;
    let query = queries.subrange(t * dim, t * dim + dim);
    assert(0int / 1 * dim == 0) by (nonlinear_arith);
    assert(1 * dim == dim);
    let a = attention::scored(o, widen, at, query, keys, dim, 0, visible);
    assert forall|j: int| 0 <= j < visible implies #[trigger] a[j] == scores[j] by {
        let key = attention::widened(widen, keys, j * dim + 0, query.len());
        lemma_dot(o.plus, o.times, query, key, dim as nat);
        let f = |i: int| query[i] * key[i];
        let g = |c: int| queries[t * dim + c] * ops::of1(widen, keys[j * dim + c]);
        assert forall|i: int| 0 <= i < dim implies #[trigger] f(i) == g(i) by {}
        lemma_sigma(dim as nat, f, g);
        let sum = sigma(dim as nat, g);
        assert(sum * at.scale == at.scale * sum) by (nonlinear_arith);
    }
    assert(a =~= scores);
    a_softmax_shares_out(o, at.low, scores);
    let top = choose|top: int|
        #![trigger is_largest(top, at.low, scores)]
        is_largest(top, at.low, scores) && attention::softmaxed(
            o,
            at.low,
            0,
            scores,
        ).len() == scores.len() && forall|j: int|
            0 <= j < scores.len() ==> #[trigger] attention::softmaxed(o, at.low, 0, scores)[j]
                == ops::of1(o.exp, scores[j] - top) * ops::of1(
                o.invert,
                sigma(scores.len(), |i: int| ops::of1(o.exp, scores[i] - top)),
            );
    let probs = attention::softmaxed(o, at.low, 0, scores);
    lemma_mixed_sum(o.plus, o.times, widen, probs, values, dim, d, visible);
    let f = |j: int| probs[j] * ops::of1(widen, values[cell(j, d, dim)]);
    let g = |j: int|
        (ops::of1(o.exp, scores[j] - top) * ops::of1(
            o.invert,
            sigma(scores.len(), |i: int| ops::of1(o.exp, scores[i] - top)),
        )) * ops::of1(widen, values[j * spec.head_dim + d]);
    assert forall|j: int| 0 <= j < visible implies #[trigger] f(j) == g(j) by {
        assert(probs[j] == attention::softmaxed(o, at.low, 0, scores)[j]);
    }
    lemma_sigma(visible, f, g);
    assert(is_largest(top, at.low, scores));
}

/// A prompt may be rotated in parts: its rows from the `a`th on come out as they do
/// in a call of their own, that much further into the sequence.
pub proof fn a_prompt_may_be_rotated_in_parts<
    T,
    P: Fn(T, T) -> T,
    M: Fn(T, T) -> T,
    S: Fn(T, T) -> T,
>(
    plus: P,
    times: M,
    minus: S,
    x: Seq<T>,
    angles: Seq<T>,
    whole: Rope,
    part: Rope,
    rows: int,
    a: int,
    p: int,
)
    requires
        0 <= a <= rows,
        part == (Rope { start_pos: part.start_pos, ..whole }),
        part.start_pos == whole.start_pos + a,
        2 * (whole.rope_dim as int / 2) <= whole.head_dim,
        rows * whole.heads * whole.head_dim <= x.len(),
        0 <= p < (rows - a) * whole.heads * whole.head_dim,
    ensures
        attention::rotated(
            plus,
            times,
            minus,
            x.subrange(a * whole.heads * whole.head_dim, x.len() as int),
            angles,
            part,
            p,
        ) == attention::rotated(
            plus,
            times,
            minus,
            x,
            angles,
            whole,
            a * whole.heads * whole.head_dim + p,
        ),
{
    let (heads, dim) = (whole.heads as int, whole.head_dim as int);
    let all = (rows - a) * heads;
    assert(0 <= all) by (nonlinear_arith)
        requires
            all == (rows - a) * heads,
            a <= rows,
            0 <= heads,
    ;
    contract::lemma_position(p, all, dim);
    let (r, c) = (p / dim, p % dim);
    contract::lemma_position(r, rows - a, heads);
    let (t, h) = (r / heads, r % heads);
    let s = a * heads + r;
    assert(a * heads * dim + p == s * dim + c && 0 <= a * heads * dim && a * heads * dim + all * dim
        == rows * heads * dim) by (nonlinear_arith)
        requires
            p == r * dim + c,
            s == a * heads + r,
            all == (rows - a) * heads,
            0 <= a,
            0 <= heads,
            0 <= dim,
    ;
    div_mod::lemma_fundamental_div_mod_converse(s * dim + c, dim, s, c);
    assert(s == (a + t) * heads + h) by (nonlinear_arith)
        requires
            s == a * heads + r,
            r == t * heads + h,
    ;
    div_mod::lemma_fundamental_div_mod_converse(s, heads, a + t, h);
}

/// What a rotary embedding is, in exact arithmetic: the pair of elements `i` and
/// `half + i` of every head of row `t` turns by the angle the table has for position
/// `start_pos + t` and pair `i`, a row of the table being its cosines and then its
/// sines. What lies past the pairs stays.
pub proof fn a_pair_turns_by_its_position<
    P: Fn(int, int) -> int,
    M: Fn(int, int) -> int,
    S: Fn(int, int) -> int,
>(
    plus: P,
    times: M,
    minus: S,
    x: Seq<int>,
    angles: Seq<int>,
    spec: Rope,
    rows: int,
    t: int,
    h: int,
    i: int,
)
    requires
        adds_and_multiplies(plus, times),
        forall|a: int, b: int| #[trigger] ops::of2(minus, a, b) == a - b,
        2 * (spec.rope_dim as int / 2) <= spec.head_dim,
        0 <= t < rows,
        0 <= h < spec.heads,
        0 <= i < spec.head_dim,
    ensures
        ({
            let half = spec.rope_dim as int / 2;
            let from = (t * spec.heads + h) * spec.head_dim;
            let row = (spec.start_pos + t) * spec.rope_dim;
            let to = |p: int| attention::rotated(plus, times, minus, x, angles, spec, p);
            let (cos, sin) = (angles[row + i], angles[row + half + i]);
            let (low, high) = (x[from + i], x[from + half + i]);
            &&& i < half ==> to(from + i) == cos * low - sin * high
            &&& i < half ==> to(from + half + i) == sin * low + cos * high
            &&& 2 * half <= i ==> to(from + i) == x[from + i]
        }),
{
    let (heads, dim) = (spec.heads as int, spec.head_dim as int);
    let half = spec.rope_dim as int / 2;
    lemma_cell(t, h, rows, heads);
    let r = cell(t, h, heads);
    lemma_cell(r, i, rows * heads, dim);
    let from = r * dim;
    let row = (spec.start_pos + t) * spec.rope_dim;
    if i < half {
        lemma_cell(r, half + i, rows * heads, dim);
        let (cos, sin) = (angles[row + i], angles[row + half + i]);
        let (low, high) = (x[from + i], x[from + half + i]);
        assert(low * cos == cos * low && high * sin == sin * high && low * sin == sin * low && high
            * cos == cos * high) by (nonlinear_arith);
        assert(angles[row + (half + i)] == sin);
        assert(angles[row + (half + i) - half] == cos);
        assert(x[from + half + i - half] == low);
    }
}

proof fn lemma_tapped_sum<
    P: Fn(int, int) -> int,
    M: Fn(int, int) -> int,
    A: Fn(int) -> int,
    N: Fn(int, int) -> int,
>(
    o: Conv<P, M, A, N>,
    x: Seq<int>,
    w: Seq<int>,
    channels: int,
    position: int,
    c: int,
    n: nat,
)
    requires
        adds_and_multiplies(o.plus, o.times),
    ensures
        delta::tapped(o, 0, x, w, channels, position, c, n) == sigma(
            n,
            |k: int| w[k * channels + c] * x[(position + k) * channels + c],
        ),
    decreases n,
{
    if n > 0 {
        lemma_tapped_sum(o, x, w, channels, position, c, (n - 1) as nat);
    }
}

/// The column of the stream where head `h` of the query (0), key (1) or value (2)
/// starts: a query or key head past those there are is one of them again.
pub open spec fn head_column(mix: DeltaMix, plane: int, h: int) -> int {
    let own = if plane == 2 {
        h
    } else {
        h % mix.kv_heads as int
    };
    mix.planes@[plane] + own * mix.head_stride
}

/// What the delta net's convolution is, in exact arithmetic, for head `h` of row
/// `t`. `row` is what the taps make of the head's channels over the positions up to
/// the row's own, activated. The query is that row by its own scale and the key by
/// the other, both over their length where the mix says so; the value is by the
/// other scale and never over its length.
pub proof fn a_convolution_normalizes_query_and_key<
    P: Fn(int, int) -> int,
    M: Fn(int, int) -> int,
    A: Fn(int) -> int,
    N: Fn(int, int) -> int,
>(
    o: Conv<P, M, A, N>,
    at: ConvStart<int>,
    mix: DeltaMix,
    x: Seq<int>,
    w: Seq<int>,
    row: Seq<int>,
    plane: int,
    t: int,
    h: int,
    d: int,
)
    requires
        adds_and_multiplies(o.plus, o.times),
        at.zero == 0,
        at.square == 0,
        mix.kv_heads > 0,
        0 <= plane < 3,
        0 <= t < mix.rows,
        0 <= h < mix.heads,
        0 <= d < mix.head_dim,
        row.len() == mix.head_dim,
        forall|c: int|
            0 <= c < row.len() ==> #[trigger] row[c] == ops::of1(
                o.silu,
                sigma(
                    mix.kernel as nat,
                    |k: int|
                        w[k * mix.channels_len() + (head_column(mix, plane, h) + c)] * x[(t + k)
                            * mix.channels_len() + (head_column(mix, plane, h) + c)],
                ),
            ),
    ensures
        ({
            let span = mix.rows * mix.heads * mix.head_dim;
            let out = delta::packed_at(
                o,
                at,
                mix,
                x,
                w,
                plane * span + ((t * mix.heads + h) * mix.head_dim + d),
            );
            let square = sigma(mix.head_dim as nat, |c: int| row[c] * row[c]);
            &&& plane == 0 ==> out == row[d] * (if mix.normalize {
                ops::of2(o.norm, at.query, square)
            } else {
                at.query
            })
            &&& plane == 1 ==> out == row[d] * (if mix.normalize {
                ops::of2(o.norm, at.rest, square)
            } else {
                at.rest
            })
            &&& plane == 2 ==> out == row[d] * at.rest
        }),
{
    let (heads, dim) = (mix.heads as int, mix.head_dim as int);
    let span = mix.rows * heads * dim;
    let channels = mix.channels_len() as int;
    lemma_cell(t, h, mix.rows as int, heads);
    let r = cell(t, h, heads);
    lemma_cell(r, d, mix.rows * heads, dim);
    let within = cell(r, d, dim);
    lemma_cell(plane, within, 3, span);
    let p = plane * span + within;
    assert(p == cell(plane, within, span));
    let full = delta::convolved(o, at, mix, x, w, plane, r);
    let from = delta::column(mix, plane, h);
    div_mod::lemma_small_mod(h as nat, heads as nat);
    assert(from == head_column(mix, plane, h));
    assert forall|c: int| 0 <= c < dim implies #[trigger] full[c] == row[c] by {
        lemma_tapped_sum(o, x, w, channels, t, from + c, mix.kernel as nat);
        let f = |k: int| w[k * channels + (from + c)] * x[(t + k) * channels + (from + c)];
        let g = |k: int|
            w[k * mix.channels_len() + (head_column(mix, plane, h) + c)] * x[(t + k)
                * mix.channels_len() + (head_column(mix, plane, h) + c)];
        assert forall|k: int| 0 <= k < mix.kernel implies #[trigger] f(k) == g(k) by {}
        lemma_sigma(mix.kernel as nat, f, g);
    }
    assert(full =~= row);
    lemma_dot(o.plus, o.times, row, row, dim as nat);
    lemma_sigma(dim as nat, |i: int| row[i] * row[i], |c: int| row[c] * row[c]);
}

proof fn lemma_recalled_sum<
    P: Fn(int, int) -> int,
    M: Fn(int, int) -> int,
    S: Fn(int, int) -> int,
>(o: Ring<P, M, S>, s: Seq<int>, x: delta::Step<int>, dim: int, j: int, n: nat)
    requires
        adds_and_multiplies(o.plus, o.times),
    ensures
        delta::recalled(o, 0, s, x, dim, j, n) == sigma(
            n,
            |i: int| x.decay * s[i * dim + j] * x.k[i],
        ),
    decreases n,
{
    if n > 0 {
        lemma_recalled_sum(o, s, x, dim, j, (n - 1) as nat);
        let i = n - 1;
        assert(s[i * dim + j] * x.decay * x.k[i] == x.decay * s[i * dim + j] * x.k[i])
            by (nonlinear_arith);
    }
}

proof fn lemma_read_sum<P: Fn(int, int) -> int, M: Fn(int, int) -> int, S: Fn(int, int) -> int>(
    o: Ring<P, M, S>,
    next: Seq<int>,
    x: delta::Step<int>,
    dim: int,
    j: int,
    n: nat,
)
    requires
        adds_and_multiplies(o.plus, o.times),
    ensures
        delta::read_out(o, 0, next, x, dim, j, n) == sigma(n, |i: int| x.q[i] * next[i * dim + j]),
    decreases n,
{
    if n > 0 {
        lemma_read_sum(o, next, x, dim, j, (n - 1) as nat);
    }
}

/// What the gated delta rule is, in exact arithmetic, for head `h` of row `t`. The
/// packed operands are the queries, keys and values by row and head, then every
/// decay, then every write strength. The state decays, and what it then recalls for
/// the key is corrected towards the value, along the key and by the write strength.
/// The output is what the corrected state holds for the query.
pub proof fn the_rule_corrects_what_is_recalled<
    P: Fn(int, int) -> int,
    M: Fn(int, int) -> int,
    S: Fn(int, int) -> int,
>(
    o: Ring<P, M, S>,
    all: Seq<int>,
    first: Seq<int>,
    heads: int,
    rows: int,
    dim: int,
    t: int,
    h: int,
    i: int,
    j: int,
)
    requires
        adds_and_multiplies(o.plus, o.times),
        forall|a: int, b: int| #[trigger] ops::of2(o.minus, a, b) == a - b,
        0 <= t < rows,
        0 <= h < heads,
        0 <= i < dim,
        0 <= j < dim,
        3 * (rows * heads * dim) + 2 * (rows * heads) <= all.len(),
        heads * (dim * dim) <= first.len(),
    ensures
        ({
            let span = rows * heads * dim;
            let r = t * heads + h;
            let q = |c: int| all[r * dim + c];
            let k = |c: int| all[span + (r * dim + c)];
            let v = |c: int| all[2 * span + (r * dim + c)];
            let decay = all[3 * span + r];
            let strength = all[3 * span + rows * heads + r];
            let s = delta::state_after(o, 0, all, first, heads, rows, dim, h, t as nat);
            let next = delta::state_after(o, 0, all, first, heads, rows, dim, h, (t + 1) as nat);
            &&& delta::state_after(o, 0, all, first, heads, rows, dim, h, 0)[i * dim + j]
                == first[h * (dim * dim) + (i * dim + j)]
            &&& next[i * dim + j] == decay * s[i * dim + j] + k(i) * (strength * (v(j) - sigma(
                dim as nat,
                |c: int| decay * s[c * dim + j] * k(c),
            )))
            &&& delta::delta_out(o, 0, all, first, heads, rows, dim, r * dim + j) == sigma(
                dim as nat,
                |c: int| q(c) * next[c * dim + j],
            )
        }),
{
    let span = rows * heads * dim;
    lemma_cell(t, h, rows, heads);
    let r = cell(t, h, heads);
    lemma_cell(r, j, rows * heads, dim);
    lemma_cell(i, j, dim, dim);
    contract::lemma_row(h, heads, dim * dim);
    let x = delta::step_at(all, span, rows * heads, dim, r);
    let s = delta::state_after(o, 0, all, first, heads, rows, dim, h, t as nat);
    let next = delta::state_after(o, 0, all, first, heads, rows, dim, h, (t + 1) as nat);
    assert(next == delta::next_state(o, 0, s, x, dim));
    let q = |c: int| all[r * dim + c];
    let k = |c: int| all[span + (r * dim + c)];
    let v = |c: int| all[2 * span + (r * dim + c)];
    let decay = all[3 * span + r];
    lemma_recalled_sum(o, s, x, dim, j, dim as nat);
    let f = |c: int| x.decay * s[c * dim + j] * x.k[c];
    let g = |c: int| decay * s[c * dim + j] * k(c);
    assert forall|c: int| 0 <= c < dim implies #[trigger] f(c) == g(c) by {
        assert(x.k[c] == k(c));
    }
    lemma_sigma(dim as nat, f, g);
    assert(x.v[j] == v(j));
    assert(x.k[i] == k(i));
    assert(s[i * dim + j] * decay == decay * s[i * dim + j]) by (nonlinear_arith);
    lemma_read_sum(o, next, x, dim, j, dim as nat);
    let f = |c: int| x.q[c] * next[c * dim + j];
    let g = |c: int| q(c) * next[c * dim + j];
    assert forall|c: int| 0 <= c < dim implies #[trigger] f(c) == g(c) by {
        assert(x.q[c] == q(c));
    }
    lemma_sigma(dim as nat, f, g);
}

proof fn lemma_sigma_splits(n: nat, a: spec_fn(int) -> int, b: spec_fn(int) -> int, by: int)
    ensures
        sigma(n, |i: int| a(i) + b(i) * by) == sigma(n, a) + sigma(n, b) * by,
    decreases n,
{
    if n > 0 {
        lemma_sigma_splits((n - 1) as nat, a, b, by);
        let i = n - 1;
        let sum = sigma((n - 1) as nat, b);
        assert((sum + b(i)) * by == sum * by + b(i) * by) by (nonlinear_arith);
    } else {
        assert(0 * by == 0) by (nonlinear_arith);
    }
}

/// What the delta rule is for: a value written at full strength along a key of length
/// one is what the state then recalls for that key, whatever it held before.
pub proof fn a_written_value_is_recalled<
    P: Fn(int, int) -> int,
    M: Fn(int, int) -> int,
    S: Fn(int, int) -> int,
>(o: Ring<P, M, S>, s: Seq<int>, x: delta::Step<int>, dim: int, j: int)
    requires
        adds_and_multiplies(o.plus, o.times),
        forall|a: int, b: int| #[trigger] ops::of2(o.minus, a, b) == a - b,
        0 <= j < dim,
        x.beta == 1,
        sigma(dim as nat, |i: int| x.k[i] * x.k[i]) == 1,
    ensures
        sigma(
            dim as nat,
            |i: int| x.k[i] * delta::next_state(o, 0, s, x, dim)[i * dim + j],
        ) == x.v[j],
{
    let next = delta::next_state(o, 0, s, x, dim);
    lemma_recalled_sum(o, s, x, dim, j, dim as nat);
    let held = |i: int| x.decay * s[i * dim + j] * x.k[i];
    let keys = |i: int| x.k[i] * x.k[i];
    let missing = x.v[j] - sigma(dim as nat, held);
    let f = |i: int| x.k[i] * next[i * dim + j];
    let g = |i: int| held(i) + keys(i) * missing;
    assert forall|i: int| 0 <= i < dim implies #[trigger] f(i) == g(i) by {
        lemma_cell(i, j, dim, dim);
        let (k, e, old_at) = (x.k[i], missing, s[i * dim + j]);
        assert(next[cell(i, j, dim)] == old_at * x.decay + k * (1 * e));
        assert(k * (old_at * x.decay + k * (1 * e)) == x.decay * old_at * k + k * k * e)
            by (nonlinear_arith);
    }
    lemma_sigma(dim as nat, f, g);
    lemma_sigma_splits(dim as nat, held, keys, missing);
    lemma_sigma(dim as nat, keys, |i: int| x.k[i] * x.k[i]);
    assert(1 * missing == missing);
}

/// What the gates are, in exact arithmetic, for head `h` of row `t`: first the decays,
/// by the head's rate and bias, then the write strengths.
pub proof fn gates_go_by_their_head<
    P: Fn(int, int) -> int,
    M: Fn(int, int) -> int,
    E: Fn(int) -> int,
    F: Fn(int) -> int,
    G: Fn(int) -> int,
>(
    o: Gates<P, M, E, F, G>,
    decays: Seq<int>,
    betas: Seq<int>,
    rate: Seq<int>,
    bias: Seq<int>,
    heads: int,
    rows: int,
    t: int,
    h: int,
)
    requires
        adds_and_multiplies(o.plus, o.times),
        0 <= t < rows,
        0 <= h < heads,
    ensures
        ({
            let r = t * heads + h;
            let gates = rows * heads;
            &&& delta::gate_at(o, decays, betas, rate, bias, heads, gates, r) == ops::of1(
                o.exp,
                rate[h] * ops::of1(o.softplus, decays[r] + bias[h]),
            )
            &&& delta::gate_at(o, decays, betas, rate, bias, heads, gates, gates + r) == ops::of1(
                o.sigmoid,
                betas[r],
            )
        }),
{
    lemma_cell(t, h, rows, heads);
}

proof fn lemma_projected_sum<
    P: Fn(int, int) -> int,
    M: Fn(int, int) -> int,
    Z: Fn(int) -> bool,
>(
    plus: P,
    times: M,
    is_zero: Z,
    row: Seq<int>,
    right: Seq<int>,
    cols: int,
    j: int,
    n: nat,
)
    requires
        adds_and_multiplies(plus, times),
        forall|v: int| #[trigger] ops::of1(is_zero, v) == (v == 0),
    ensures
        contract::projected(plus, times, is_zero, 0, row, right, cols, j, n) == sigma(
            n,
            |p: int| row[p] * right[p * cols + j],
        ),
    decreases n,
{
    if n > 0 {
        lemma_projected_sum(plus, times, is_zero, row, right, cols, j, (n - 1) as nat);
        let p = n - 1;
        if row[p] == 0 {
            assert(0 * right[p * cols + j] == 0);
        }
    }
}

/// What a dense projection is, in exact arithmetic: the matrix product.
pub proof fn a_product_sums_over_its_rows_and_columns<
    P: Fn(int, int) -> int,
    M: Fn(int, int) -> int,
    Z: Fn(int) -> bool,
>(
    plus: P,
    times: M,
    is_zero: Z,
    left: Seq<int>,
    right: Seq<int>,
    m: int,
    k: int,
    n: int,
    i: int,
    j: int,
)
    requires
        adds_and_multiplies(plus, times),
        forall|v: int| #[trigger] ops::of1(is_zero, v) == (v == 0),
        0 <= i < m,
        0 <= j < n,
        0 <= k,
        m * k <= left.len(),
    ensures
        contract::multiplied(plus, times, is_zero, 0, left, right, k, n, i * n + j) == sigma(
            k as nat,
            |p: int| left[i * k + p] * right[p * n + j],
        ),
{
    lemma_cell(i, j, m, n);
    contract::lemma_row(i, m, k);
    let row = left.subrange(i * k, i * k + k);
    lemma_projected_sum(plus, times, is_zero, row, right, n, j, k as nat);
    let f = |p: int| row[p] * right[p * n + j];
    let g = |p: int| left[i * k + p] * right[p * n + j];
    assert forall|p: int| 0 <= p < k implies #[trigger] f(p) == g(p) by {}
    lemma_sigma(k as nat, f, g);
}

/// What a normalization is, in exact arithmetic: each element of a row by the inverse
/// of the row's own sum of squares and by its channel's gain.
pub proof fn a_row_is_normalized_by_its_squares<
    P: Fn(int, int) -> int,
    M: Fn(int, int) -> int,
    I: Fn(int) -> int,
>(
    plus: P,
    times: M,
    inverse: I,
    x: Seq<int>,
    gain: Seq<int>,
    rows: int,
    width: int,
    r: int,
    c: int,
)
    requires
        adds_and_multiplies(plus, times),
        0 <= r < rows,
        0 <= c < width,
        rows * width <= x.len(),
    ensures
        elem::normed(plus, times, inverse, 0, x, gain, width, r * width + c) == x[r * width + c]
            * ops::of1(
            inverse,
            sigma(width as nat, |i: int| x[r * width + i] * x[r * width + i]),
        ) * gain[c],
{
    lemma_cell(r, c, rows, width);
    let row = x.subrange(r * width, r * width + width);
    lemma_dot(plus, times, row, row, width as nat);
    let f = |i: int| row[i] * row[i];
    let g = |i: int| x[r * width + i] * x[r * width + i];
    assert forall|i: int| 0 <= i < width implies #[trigger] f(i) == g(i) by {}
    lemma_sigma(width as nat, f, g);
}

/// A SwiGLU goes by its gate through the activation alone and by its up row
/// proportionally: where the up row is a sum, so is the output.
pub proof fn a_swiglu_is_proportional_to_up<M: Fn(int, int) -> int, A: Fn(int) -> int>(
    times: M,
    silu: A,
    gate: Seq<int>,
    gate_at: int,
    up: Seq<int>,
    one: Seq<int>,
    two: Seq<int>,
    up_at: int,
    p: int,
)
    requires
        forall|a: int, b: int| #[trigger] ops::of2(times, a, b) == a * b,
        up[up_at + p] == one[up_at + p] + two[up_at + p],
    ensures
        elem::swiglued(times, silu, gate, gate_at, up, up_at, p) == elem::swiglued(
            times,
            silu,
            gate,
            gate_at,
            one,
            up_at,
            p,
        ) + elem::swiglued(times, silu, gate, gate_at, two, up_at, p),
        elem::swiglued(times, silu, gate, gate_at, up, up_at, p) == ops::of1(
            silu,
            gate[gate_at + p],
        ) * up[up_at + p],
{
    let s = ops::of1(silu, gate[gate_at + p]);
    let (a, b) = (one[up_at + p], two[up_at + p]);
    assert(s * (a + b) == s * a + s * b) by (nonlinear_arith);
}

/// A row opened by gates goes by each of them through the sigmoid alone and by the row
/// proportionally.
pub proof fn a_gate_opens_proportionally<M: Fn(int, int) -> int, G: Fn(int) -> int>(
    times: M,
    sigmoid: G,
    x: Seq<int>,
    gate: Seq<int>,
    p: int,
)
    requires
        forall|a: int, b: int| #[trigger] ops::of2(times, a, b) == a * b,
    ensures
        elem::opened(times, sigmoid, x, gate, p) == x[p] * ops::of1(sigmoid, gate[p]),
{
}

/// A row of a matrix kept by outputs, against a row.
pub open spec fn row_dot(w: Seq<int>, j: int, x: Seq<int>) -> int {
    sigma(x.len(), |c: int| w[j * x.len() + c] * x[c])
}

proof fn lemma_applied<
    P: Fn(int, int) -> int,
    M: Fn(int, int) -> int,
    A: Fn(int) -> int,
    G: Fn(int) -> int,
>(o: Feed<P, M, A, G>, w: Seq<int>, n: nat, x: Seq<int>, j: int)
    requires
        adds_and_multiplies(o.plus, o.times),
        n * x.len() <= w.len(),
        0 <= j < n,
    ensures
        moe::applied(o, 0, w, n, x)[j] == row_dot(w, j, x),
{
    contract::lemma_row(j, n as int, x.len() as int);
    let row = w.subrange(j * x.len(), j * x.len() + x.len());
    lemma_dot(o.plus, o.times, row, x, x.len());
    let f = |i: int| row[i] * x[i];
    let g = |c: int| w[j * x.len() + c] * x[c];
    assert forall|i: int| 0 <= i < x.len() implies #[trigger] f(i) == g(i) by {}
    lemma_sigma(x.len(), f, g);
}

/// What an expert is, in exact arithmetic: `down . (silu(gate . x) * (up . x))`, its
/// matrices kept by outputs.
pub proof fn an_expert_feeds_forward<
    P: Fn(int, int) -> int,
    M: Fn(int, int) -> int,
    A: Fn(int) -> int,
    G: Fn(int) -> int,
    F: Fn(Stack, usize) -> Vec<int>,
>(
    o: Feed<P, M, A, G>,
    decode: F,
    d_ff: nat,
    e: usize,
    x: Seq<int>,
    hidden: Seq<int>,
    i: int,
)
    requires
        adds_and_multiplies(o.plus, o.times),
        d_ff * x.len() <= moe::decoded(decode, Stack::Gate, e).len(),
        d_ff * x.len() <= moe::decoded(decode, Stack::Up, e).len(),
        x.len() * d_ff <= moe::decoded(decode, Stack::Down, e).len(),
        0 <= i < x.len(),
        hidden.len() == d_ff,
        forall|j: int|
            0 <= j < d_ff ==> #[trigger] hidden[j] == ops::of1(
                o.silu,
                row_dot(moe::decoded(decode, Stack::Gate, e), j, x),
            ) * row_dot(moe::decoded(decode, Stack::Up, e), j, x),
    ensures
        moe::fed(o, decode, 0, d_ff, e, x)[i] == row_dot(
            moe::decoded(decode, Stack::Down, e),
            i,
            hidden,
        ),
{
    let g = moe::applied(o, 0, moe::decoded(decode, Stack::Gate, e), d_ff, x);
    let u = moe::applied(o, 0, moe::decoded(decode, Stack::Up, e), d_ff, x);
    let h = Seq::new(d_ff, |j: int| ops::of2(o.times, ops::of1(o.silu, g[j]), u[j]));
    assert forall|j: int| 0 <= j < d_ff implies #[trigger] h[j] == hidden[j] by {
        lemma_applied(o, moe::decoded(decode, Stack::Gate, e), d_ff, x, j);
        lemma_applied(o, moe::decoded(decode, Stack::Up, e), d_ff, x, j);
    }
    assert(h =~= hidden);
    lemma_applied(o, moe::decoded(decode, Stack::Down, e), x.len(), h, i);
}

proof fn lemma_combined_sum<
    P: Fn(int, int) -> int,
    M: Fn(int, int) -> int,
    A: Fn(int) -> int,
    G: Fn(int) -> int,
    F: Fn(Stack, usize) -> Vec<int>,
>(
    o: Feed<P, M, A, G>,
    decode: F,
    d_ff: nat,
    x: Seq<int>,
    picks: Seq<Pick<int>>,
    n: nat,
    i: int,
)
    requires
        adds_and_multiplies(o.plus, o.times),
        0 <= i < x.len(),
    ensures
        moe::combined(o, decode, 0, 0, d_ff, x, picks, n).len() == x.len(),
        moe::combined(o, decode, 0, 0, d_ff, x, picks, n)[i] == sigma(
            n,
            |q: int| picks[q].weight * moe::fed(o, decode, 0, d_ff, picks[q].expert, x)[i],
        ),
    decreases n,
{
    if n > 0 {
        lemma_combined_sum(o, decode, d_ff, x, picks, (n - 1) as nat, i);
    }
}

/// What a routed feed-forward adds to element `i` of row `r`, in exact arithmetic: the
/// outputs of the row's own picks by their weights, and the row of the shared expert by
/// the sigmoid of the row's gate.
pub proof fn a_row_sums_its_experts<
    P: Fn(int, int) -> int,
    M: Fn(int, int) -> int,
    A: Fn(int) -> int,
    G: Fn(int) -> int,
    F: Fn(Stack, usize) -> Vec<int>,
>(
    o: Feed<P, M, A, G>,
    decode: F,
    at: moe::MoeStart<int>,
    c: moe::MoeCall,
    x: Seq<int>,
    own: Seq<int>,
    shared: Option<(Seq<int>, Seq<int>)>,
    routes: Seq<Seq<Pick<int>>>,
    r: int,
    i: int,
)
    requires
        adds_and_multiplies(o.plus, o.times),
        at.dot == 0,
        at.zero == 0,
        0 <= r < c.rows,
        0 <= i < c.d_model,
        c.rows * c.d_model <= x.len(),
        shared matches Some(s) ==> c.rows * c.d_model <= s.0.len(),
        own.len() == c.d_model,
        forall|j: int| 0 <= j < own.len() ==> #[trigger] own[j] == x[r * c.d_model + j],
    ensures
        ({
            let routed = sigma(
                routes[r].len(),
                |q: int|
                    routes[r][q].weight * moe::fed(
                        o,
                        decode,
                        0,
                        c.d_ff as nat,
                        routes[r][q].expert,
                        own,
                    )[i],
            );
            let out = moe::moe_output(
                o,
                decode,
                at,
                c,
                x,
                shared,
                routes,
                r * c.d_model + i,
            );
            match shared {
                None => out == routed,
                Some((rows, gates)) => out == routed + ops::of1(o.sigmoid, gates[r]) * rows[r
                    * c.d_model + i],
            }
        }),
{
    let d = c.d_model as int;
    lemma_cell(r, i, c.rows as int, d);
    let row = moe::row_of(x, r, d);
    assert(row =~= own);
    lemma_combined_sum(o, decode, c.d_ff as nat, own, routes[r], routes[r].len(), i);
}

proof fn lemma_sigma_scaled(n: nat, f: spec_fn(int) -> int, by: int)
    ensures
        sigma(n, |i: int| f(i) * by) == sigma(n, f) * by,
    decreases n,
{
    if n > 0 {
        lemma_sigma_scaled((n - 1) as nat, f, by);
        let sum = sigma((n - 1) as nat, f);
        assert((sum + f(n - 1)) * by == sum * by + f(n - 1) * by) by (nonlinear_arith);
    } else {
        assert(0 * by == 0) by (nonlinear_arith);
    }
}

/// A route's weights are in the proportion of their experts' probabilities and add up
/// to one, where a quotient times its divisor is what was divided.
pub proof fn a_routes_weights_add_up_to_one<
    P: Fn(int, int) -> int,
    X: Fn(int, int) -> int,
    S: Fn(int, int) -> int,
    E: Fn(int) -> int,
    D: Fn(int, int) -> int,
    B: Fn(int) -> u32,
>(
    o: Router<P, X, S, E, D, B>,
    low: int,
    logits: Seq<int>,
    n: nat,
    picks: Seq<Pick<int>>,
)
    requires
        forall|a: int, b: int| #[trigger] ops::of2(o.plus, a, b) == a + b,
        forall|a: int, b: int| b != 0 ==> #[trigger] ops::of2(o.over, a, b) * b == a,
        moe::is_route(o, low, 0, logits, n, picks),
        sigma(
            n,
            |i: int| moe::probabilities(o, low, 0, logits)[picks[i].expert as int],
        ) != 0,
    ensures
        sigma(n, |i: int| picks[i].weight) == 1,
        forall|i: int|
            0 <= i < n ==> (#[trigger] picks[i]).weight * sigma(
                n,
                |j: int| moe::probabilities(o, low, 0, logits)[picks[j].expert as int],
            ) == moe::probabilities(o, low, 0, logits)[picks[i].expert as int],
{
    let probs = moe::probabilities(o, low, 0, logits);
    let chosen = Seq::new(n, |i: int| probs[picks[i].expert as int]);
    let all = |i: int| probs[picks[i].expert as int];
    let total = sigma(n, all);
    lemma_summed(o.plus, chosen, n);
    let f = |i: int| chosen[i];
    assert forall|i: int| 0 <= i < n implies #[trigger] f(i) == all(i) by {}
    lemma_sigma(n, f, all);
    let w = |i: int| picks[i].weight;
    let g = |i: int| w(i) * total;
    assert forall|i: int| 0 <= i < n implies #[trigger] g(i) == all(i) by {
        assert(ops::of2(o.over, chosen[i], total) * total == chosen[i]);
    }
    lemma_sigma(n, g, all);
    lemma_sigma_scaled(n, w, total);
    let sum = sigma(n, w);
    assert(sum == 1) by (nonlinear_arith)
        requires
            sum * total == total,
            total != 0,
    ;
    assert forall|i: int| 0 <= i < n implies (#[trigger] picks[i]).weight * total == all(i) by {
        assert(g(i) == all(i));
    }
}

/// What the convolution and the gates pack is what the rule reads: its query, key and
/// value of head `h` of row `t` are the head's rows of the three planes, and its decay
/// and write strength the head's gates.
pub proof fn the_rule_reads_what_a_mix_packs<
    T,
    P: Fn(T, T) -> T,
    M: Fn(T, T) -> T,
    A: Fn(T) -> T,
    N: Fn(T, T) -> T,
    E: Fn(T) -> T,
    F: Fn(T) -> T,
    G: Fn(T) -> T,
>(
    o: Conv<P, M, A, N>,
    g: Gates<P, M, E, F, G>,
    at: ConvStart<T>,
    mix: DeltaMix,
    x: Seq<T>,
    w: Seq<T>,
    decays: Seq<T>,
    betas: Seq<T>,
    rate: Seq<T>,
    bias: Seq<T>,
    into: Seq<T>,
    t: int,
    h: int,
    d: int,
)
    requires
        into.len() >= mix.packed_size(),
        0 <= t < mix.rows,
        0 <= h < mix.heads,
        0 <= d < mix.head_dim,
    ensures
        ({
            let (rows, heads, dim) = (mix.rows as int, mix.heads as int, mix.head_dim as int);
            let (span, gates) = (rows * heads * dim, rows * heads);
            let r = t * heads + h;
            let planes = contract::written(
                into,
                3 * span,
                |p: int| delta::packed_at(o, at, mix, x, w, p),
            );
            let all = delta::gated(g, mix, planes, decays, betas, rate, bias);
            let step = delta::step_at(all, span, gates, dim, r);
            let from = |which: int| delta::packed_at(o, at, mix, x, w, which * span + (r * dim + d));
            let gate = |i: int|
                delta::gate_at(g, decays, betas, rate, bias, heads, gates, i);
            &&& step.q[d] == from(0)
            &&& step.k[d] == from(1)
            &&& step.v[d] == from(2)
            &&& step.decay == gate(r)
            &&& step.beta == gate(gates + r)
        }),
{
    let (rows, heads, dim) = (mix.rows as int, mix.heads as int, mix.head_dim as int);
    let (span, gates) = (rows * heads * dim, rows * heads);
    lemma_cell(t, h, rows, heads);
    let r = cell(t, h, heads);
    lemma_cell(r, d, gates, dim);
    assert(mix.span_len() == span && mix.gates_len() == gates);
}

/// The experts a routed feed-forward lists are each row's own, in the row's order.
pub proof fn the_list_is_every_rows_picks<T>(
    routes: Seq<Seq<Pick<T>>>,
    n_used: int,
    r: int,
    i: int,
)
    requires
        0 <= r < routes.len(),
        0 <= i < n_used,
    ensures
        moe::listed(routes, n_used)[r * n_used + i] == routes[r][i].expert,
{
    lemma_cell(r, i, routes.len() as int, n_used);
}

/// A row is routed by its own logits.
pub proof fn a_row_is_routed_by_its_own_logits<
    T,
    P: Fn(T, T) -> T,
    X: Fn(T, T) -> T,
    S: Fn(T, T) -> T,
    E: Fn(T) -> T,
    D: Fn(T, T) -> T,
    B: Fn(T) -> u32,
>(
    o: Router<P, X, S, E, D, B>,
    at: moe::MoeStart<T>,
    c: moe::MoeCall,
    logits: Seq<T>,
    own: Seq<T>,
    routes: Seq<Seq<Pick<T>>>,
    r: int,
)
    requires
        moe::are_routes(o, at, c, logits, routes),
        0 <= r < c.rows,
        c.rows * c.n_expert <= logits.len(),
        own.len() == c.n_expert,
        forall|j: int| 0 <= j < own.len() ==> #[trigger] own[j] == logits[r * c.n_expert + j],
    ensures
        moe::is_route(o, at.low, at.dot, own, c.n_used as nat, routes[r]),
{
    contract::lemma_row(r, c.rows as int, c.n_expert as int);
    assert(moe::row_of(logits, r, c.n_expert as int) =~= own);
}

/// The probabilities a router goes by are in the proportion of the exponentials of its
/// logits, counted from the largest, and add up to one, where a quotient times its
/// divisor is what was divided.
pub proof fn a_routers_probabilities_add_up_to_one<
    P: Fn(int, int) -> int,
    X: Fn(int, int) -> int,
    S: Fn(int, int) -> int,
    E: Fn(int) -> int,
    D: Fn(int, int) -> int,
    B: Fn(int) -> u32,
>(o: Router<P, X, S, E, D, B>, low: int, logits: Seq<int>)
    requires
        forall|a: int, b: int| #[trigger] ops::of2(o.plus, a, b) == a + b,
        forall|a: int, b: int| #[trigger] ops::of2(o.minus, a, b) == a - b,
        forall|a: int, b: int|
            #[trigger] ops::of2(o.max, a, b) == (if a < b {
                b
            } else {
                a
            }),
        forall|a: int, b: int| b != 0 ==> #[trigger] ops::of2(o.over, a, b) * b == a,
        forall|a: int| #[trigger] ops::of1(o.exp, a) > 0,
        logits.len() > 0,
    ensures
        exists|top: int| #[trigger]
            is_largest(top, low, logits) && forall|j: int|
                0 <= j < logits.len() ==> #[trigger] moe::probabilities(o, low, 0, logits)[j]
                    * sigma(logits.len(), |i: int| ops::of1(o.exp, logits[i] - top)) == ops::of1(
                    o.exp,
                    logits[j] - top,
                ),
        sigma(logits.len(), |i: int| moe::probabilities(o, low, 0, logits)[i]) == 1,
{
    let top = attention::topped(o.max, low, logits, logits.len());
    lemma_topped(o.max, low, logits, logits.len());
    assert(logits.take(logits.len() as int) =~= logits);
    let up = moe::exponentials(o, low, logits);
    lemma_summed(o.plus, up, logits.len());
    let terms = |i: int| ops::of1(o.exp, logits[i] - top);
    let raised = |i: int| up[i];
    assert forall|i: int| 0 <= i < logits.len() implies #[trigger] raised(i) == terms(i) by {
        assert(ops::of2(o.minus, logits[i], top) == logits[i] - top);
    }
    lemma_sigma(logits.len(), raised, terms);
    let total = sigma(logits.len(), terms);
    lemma_sigma_positive(logits.len(), terms);
    let probs = moe::probabilities(o, low, 0, logits);
    assert forall|j: int| 0 <= j < logits.len() implies #[trigger] probs[j] * total == terms(j) by {
        assert(raised(j) == terms(j));
        assert(ops::of2(o.over, up[j], total) * total == up[j]);
    }
    let p = |i: int| probs[i];
    let scaled = |i: int| p(i) * total;
    assert forall|i: int| 0 <= i < logits.len() implies #[trigger] scaled(i) == terms(i) by {
        assert(probs[i] * total == terms(i));
    }
    lemma_sigma(logits.len(), scaled, terms);
    lemma_sigma_scaled(logits.len(), p, total);
    let sum = sigma(logits.len(), p);
    assert(sum == 1) by (nonlinear_arith)
        requires
            sum * total == total,
            total != 0,
    ;
    lemma_sigma(logits.len(), p, |i: int| moe::probabilities(o, low, 0, logits)[i]);
    assert(is_largest(top, low, logits));
}

proof fn lemma_sigma_positive(n: nat, f: spec_fn(int) -> int)
    requires
        forall|i: int| 0 <= i < n ==> #[trigger] f(i) > 0,
    ensures
        n > 0 ==> sigma(n, f) > 0,
        sigma(n, f) >= 0,
    decreases n,
{
    if n > 0 {
        lemma_sigma_positive((n - 1) as nat, f);
        assert(f(n - 1) > 0);
    }
}

} // verus!
