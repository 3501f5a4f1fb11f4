//! What a backend runs for an operation it has no kernel of its own for: the
//! same thing in terms of the operations every backend has.

use vstd::prelude::*;

use crate::backend::{Buf, HBuf, HPlane, Plane, QAct, QBuf, Rope};

verus! {

/// A buffer: one of the call's, or the `n`th the operations before took.
#[derive(Clone, Copy, PartialEq, Eq, Structural, Debug)]
pub enum Place {
    Given(Buf),
    Taken(usize),
}

/// A quantized activation: one of the call's, or the one made just before.
#[derive(Clone, Copy, PartialEq, Eq, Structural, Debug)]
pub enum Rows {
    Given(QAct),
    Made,
}

/// An operation every backend has.
#[derive(Clone, Copy, PartialEq, Eq, Structural, Debug)]
pub enum Op {
    Take { len: usize },
    Release { at: usize },
    Copy2d {
        src: Plane,
        dst: Place,
        pitch: usize,
        rows: usize,
        width: usize,
    },
    Store2d { src: Plane, dst: HPlane, rows: usize, width: usize },
    Rope { x: Buf, rows: usize, table: Buf, spec: Rope },
    Norm { x: Buf, rows: usize, width: usize, gain: Buf, eps_bits: u32, out: Place },
    Swiglu {
        gate: Place,
        gate_at: usize,
        up: Place,
        up_at: usize,
        out: Buf,
        len: usize,
    },
    Quantize { a: Buf, m: usize, k: usize },
    Project { act: Rows, m: usize, k: usize, w: QBuf, n: usize, out: Place },
    Sum { acc: Buf, add: Place },
}

/// How many buffers operations take.
pub open spec fn taken(ops: Seq<Op>) -> nat
    decreases ops.len(),
{
    if ops.len() == 0 {
        0
    } else {
        taken(ops.drop_last()) + if ops.last() is Take {
            1nat
        } else {
            0
        }
    }
}

/// The buffers operations have taken and not released.
pub open spec fn live(ops: Seq<Op>) -> Set<nat>
    decreases ops.len(),
{
    if ops.len() == 0 {
        Set::empty()
    } else {
        let before = live(ops.drop_last());
        match ops.last() {
            Op::Take { .. } => before.insert(taken(ops.drop_last())),
            Op::Release { at } => before.remove(at as nat),
            _ => before,
        }
    }
}

pub open spec fn held(live: Set<nat>, place: Place) -> bool {
    place matches Place::Taken(n) ==> live.contains(n as nat)
}

/// Whether an operation reads and writes only what is there.
pub open spec fn allowed(live: Set<nat>, made: bool, op: Op) -> bool {
    match op {
        Op::Release { at } => live.contains(at as nat),
        Op::Copy2d { dst, .. } => held(live, dst),
        Op::Norm { out, .. } => held(live, out),
        Op::Swiglu { gate, up, .. } => held(live, gate) && held(live, up),
        Op::Project { act, out, .. } => held(live, out) && (act == Rows::Made ==> made),
        Op::Sum { add, .. } => held(live, add),
        _ => true,
    }
}

/// Whether operations read nothing before it is taken or made, and nothing after
/// it is released.
pub open spec fn sound(ops: Seq<Op>) -> bool
    decreases ops.len(),
{
    ops.len() > 0 ==> {
        let before = ops.drop_last();
        sound(before) && allowed(
            live(before),
            before.len() > 0 && before.last() is Quantize,
            ops.last(),
        )
    }
}

/// Whether operations read only what is there, and keep none of what they take.
pub open spec fn settles(ops: Seq<Op>) -> bool {
    sound(ops) && live(ops) =~= Set::empty()
}

/// What the `n`th operation does to what is live, and what it needs of it.
spec fn step(ops: Seq<Op>, n: int) -> bool {
    let before = ops.take(n);
    let after = ops.take(n + 1);
    &&& taken(after) == taken(before) + if ops[n] is Take {
        1nat
    } else {
        0
    }
    &&& live(after) == (match ops[n] {
        Op::Take { .. } => live(before).insert(taken(before)),
        Op::Release { at } => live(before).remove(at as nat),
        _ => live(before),
    })
    &&& sound(after) == (sound(before) && allowed(
        live(before),
        n > 0 && ops[n - 1] is Quantize,
        ops[n],
    ))
}

proof fn lemma_steps(ops: Seq<Op>)
    ensures
        ops.take(0) == Seq::<Op>::empty(),
        ops.take(ops.len() as int) == ops,
        forall|n: int| 0 <= n < ops.len() ==> #[trigger] step(ops, n),
{
    assert(ops.take(0) =~= Seq::empty());
    assert(ops.take(ops.len() as int) =~= ops);
    assert forall|n: int| 0 <= n < ops.len() implies #[trigger] step(ops, n) by {
        assert(ops.take(n + 1).drop_last() =~= ops.take(n));
        if n > 0 {
            assert(ops.take(n).last() == ops[n - 1]);
        }
    }
}

/// What [`swiglu_planes`] runs.
pub open spec fn swiglu_planes_ops(gate: Plane, up: Plane, out: Buf, rows: usize, width: usize) -> Seq<Op> {
    seq![
            Op::Take { len: (rows * width) as usize },
            Op::Take { len: (rows * width) as usize },
            Op::Copy2d { src: gate, dst: Place::Taken(0), pitch: width, rows, width },
            Op::Copy2d { src: up, dst: Place::Taken(1), pitch: width, rows, width },
            Op::Swiglu {
                gate: Place::Taken(0),
                gate_at: 0,
                up: Place::Taken(1),
                up_at: 0,
                out,
                len: (rows * width) as usize,
            },
            Op::Release { at: 0 },
            Op::Release { at: 1 },
        ]
}

/// `silu(gate) * up` over two windows, pulled apart into dense copies.
pub fn swiglu_planes(gate: Plane, up: Plane, out: Buf, rows: usize, width: usize) -> (ops: Vec<Op>)
    requires
        rows * width <= usize::MAX,
    ensures
        settles(ops@),
        ops@ == swiglu_planes_ops(gate, up, out, rows, width),
{
    let len: usize = rows * width;
    let ops = vec![
        Op::Take { len },
        Op::Take { len },
        Op::Copy2d { src: gate, dst: Place::Taken(0), pitch: width, rows, width },
        Op::Copy2d { src: up, dst: Place::Taken(1), pitch: width, rows, width },
        Op::Swiglu {
            gate: Place::Taken(0),
            gate_at: 0,
            up: Place::Taken(1),
            up_at: 0,
            out,
            len,
        },
        Op::Release { at: 0 },
        Op::Release { at: 1 },
    ];
    proof {
        lemma_steps(ops@);
        assert(step(ops@, 0));
        assert(step(ops@, 1));
        assert(step(ops@, 2));
        assert(step(ops@, 3));
        assert(step(ops@, 4));
        assert(step(ops@, 5));
        assert(step(ops@, 6));
    }
    assert(ops@ =~= swiglu_planes_ops(gate, up, out, rows, width));
    ops
}

/// What [`rope_gather`] runs.
pub open spec fn rope_gather_ops(src: Plane, rows: usize, table: Buf, spec: Rope, dest: Buf) -> Seq<Op> {
    ({
            let width = (spec.heads * spec.head_dim) as usize;
            seq![
                Op::Copy2d { src, dst: Place::Given(dest), pitch: width, rows, width },
                Op::Rope { x: dest, rows, table, spec },
            ]
        })
}

/// The rotary embedding of a window, into a dense buffer.
pub fn rope_gather(src: Plane, rows: usize, table: Buf, spec: Rope, dest: Buf) -> (ops: Vec<Op>)
    requires
        spec.heads * spec.head_dim <= usize::MAX,
    ensures
        settles(ops@),
        ops@ == rope_gather_ops(src, rows, table, spec, dest),
{
    let width: usize = spec.heads * spec.head_dim;
    let ops = vec![
        Op::Copy2d { src, dst: Place::Given(dest), pitch: width, rows, width },
        Op::Rope { x: dest, rows, table, spec },
    ];
    proof {
        lemma_steps(ops@);
        assert(step(ops@, 0));
        assert(step(ops@, 1));
    }
    assert(ops@ =~= rope_gather_ops(src, rows, table, spec, dest));
    ops
}

/// What [`store_2d_pair`] runs.
pub open spec fn store_2d_pair_ops(a: (Plane, HPlane), b: (Plane, HPlane), rows: usize, width: usize) -> Seq<Op> {
    seq![
            Op::Store2d { src: a.0, dst: a.1, rows, width },
            Op::Store2d { src: b.0, dst: b.1, rows, width },
        ]
}

/// Two windows stored in halves, one after the other.
pub fn store_2d_pair(a: (Plane, HPlane), b: (Plane, HPlane), rows: usize, width: usize) -> (ops:
    Vec<Op>)
    ensures
        settles(ops@),
        ops@ == store_2d_pair_ops(a, b, rows, width),
{
    let ops = vec![
        Op::Store2d { src: a.0, dst: a.1, rows, width },
        Op::Store2d { src: b.0, dst: b.1, rows, width },
    ];
    proof {
        lemma_steps(ops@);
        assert(step(ops@, 0));
        assert(step(ops@, 1));
    }
    assert(ops@ =~= store_2d_pair_ops(a, b, rows, width));
    ops
}

/// What [`matmul_quant`] runs.
pub open spec fn matmul_quant_ops(a: Buf, m: usize, k: usize, w: QBuf, n: usize, out: Buf) -> Seq<Op> {
    seq![
            Op::Quantize { a, m, k },
            Op::Project { act: Rows::Made, m, k, w, n, out: Place::Given(out) },
        ]
}

/// A projection that quantizes its own activation.
pub fn matmul_quant(a: Buf, m: usize, k: usize, w: QBuf, n: usize, out: Buf) -> (ops: Vec<Op>)
    ensures
        settles(ops@),
        ops@ == matmul_quant_ops(a, m, k, w, n, out),
{
    let ops = vec![
        Op::Quantize { a, m, k },
        Op::Project { act: Rows::Made, m, k, w, n, out: Place::Given(out) },
    ];
    proof {
        lemma_steps(ops@);
        assert(step(ops@, 0));
        assert(step(ops@, 1));
    }
    assert(ops@ =~= matmul_quant_ops(a, m, k, w, n, out));
    ops
}

/// What [`matmul_quant_add`] runs.
pub open spec fn matmul_quant_add_ops(act: QAct, m: usize, k: usize, w: QBuf, n: usize, out: Buf) -> Seq<Op> {
    seq![
            Op::Take { len: (m * n) as usize },
            Op::Project { act: Rows::Given(act), m, k, w, n, out: Place::Taken(0) },
            Op::Sum { acc: out, add: Place::Taken(0) },
            Op::Release { at: 0 },
        ]
}

/// A projection added to what is there.
pub fn matmul_quant_add(act: QAct, m: usize, k: usize, w: QBuf, n: usize, out: Buf) -> (ops: Vec<
    Op,
>)
    requires
        m * n <= usize::MAX,
    ensures
        settles(ops@),
        ops@ == matmul_quant_add_ops(act, m, k, w, n, out),
{
    let ops = vec![
        Op::Take { len: m * n },
        Op::Project { act: Rows::Given(act), m, k, w, n, out: Place::Taken(0) },
        Op::Sum { acc: out, add: Place::Taken(0) },
        Op::Release { at: 0 },
    ];
    proof {
        lemma_steps(ops@);
        assert(step(ops@, 0));
        assert(step(ops@, 1));
        assert(step(ops@, 2));
        assert(step(ops@, 3));
    }
    assert(ops@ =~= matmul_quant_add_ops(act, m, k, w, n, out));
    ops
}

/// What [`rms_norm_q`] runs.
pub open spec fn rms_norm_q_ops(x: Buf, rows: usize, width: usize, gain: Buf, eps_bits: u32, out: Buf) -> Seq<Op> {
    seq![
            Op::Norm { x, rows, width, gain, eps_bits, out: Place::Given(out) },
            Op::Quantize { a: out, m: rows, k: width },
        ]
}

/// A normalization whose result is quantized too.
pub fn rms_norm_q(x: Buf, rows: usize, width: usize, gain: Buf, eps_bits: u32, out: Buf) -> (ops:
    Vec<Op>)
    ensures
        settles(ops@),
        ops@ == rms_norm_q_ops(x, rows, width, gain, eps_bits, out),
{
    let ops = vec![
        Op::Norm { x, rows, width, gain, eps_bits, out: Place::Given(out) },
        Op::Quantize { a: out, m: rows, k: width },
    ];
    proof {
        lemma_steps(ops@);
        assert(step(ops@, 0));
        assert(step(ops@, 1));
    }
    assert(ops@ =~= rms_norm_q_ops(x, rows, width, gain, eps_bits, out));
    ops
}

/// What [`swiglu_q`] runs.
pub open spec fn swiglu_q_ops(gate: Buf, gate_at: usize, up: Buf, up_at: usize, out: Buf, len: usize) -> Seq<Op> {
    seq![
            Op::Swiglu {
                gate: Place::Given(gate),
                gate_at,
                up: Place::Given(up),
                up_at,
                out,
                len,
            },
            Op::Quantize { a: out, m: 1, k: len },
        ]
}

/// `silu(gate) * up`, quantized too, as one row.
pub fn swiglu_q(gate: Buf, gate_at: usize, up: Buf, up_at: usize, out: Buf, len: usize) -> (ops:
    Vec<Op>)
    ensures
        settles(ops@),
        ops@ == swiglu_q_ops(gate, gate_at, up, up_at, out, len),
{
    let ops = vec![
        Op::Swiglu {
            gate: Place::Given(gate),
            gate_at,
            up: Place::Given(up),
            up_at,
            out,
            len,
        },
        Op::Quantize { a: out, m: 1, k: len },
    ];
    proof {
        lemma_steps(ops@);
        assert(step(ops@, 0));
        assert(step(ops@, 1));
    }
    assert(ops@ =~= swiglu_q_ops(gate, gate_at, up, up_at, out, len));
    ops
}

/// What [`rms_norm_gated`] runs.
pub open spec fn rms_norm_gated_ops(x: Buf, rows: usize, width: usize, gain: Buf, eps_bits: u32, gate: Buf, gate_at: usize, out: Buf) -> Seq<Op> {
    seq![
            Op::Take { len: (rows * width) as usize },
            Op::Norm { x, rows, width, gain, eps_bits, out: Place::Taken(0) },
            Op::Swiglu {
                gate: Place::Given(gate),
                gate_at,
                up: Place::Taken(0),
                up_at: 0,
                out,
                len: (rows * width) as usize,
            },
            Op::Release { at: 0 },
            Op::Quantize { a: out, m: rows, k: width },
        ]
}

/// `silu(gate) * norm(x)`, quantized too.
pub fn rms_norm_gated(
    x: Buf,
    rows: usize,
    width: usize,
    gain: Buf,
    eps_bits: u32,
    gate: Buf,
    gate_at: usize,
    out: Buf,
) -> (ops: Vec<Op>)
    requires
        rows * width <= usize::MAX,
    ensures
        settles(ops@),
        ops@ == rms_norm_gated_ops(x, rows, width, gain, eps_bits, gate, gate_at, out),
{
    let len: usize = rows * width;
    let ops = vec![
        Op::Take { len },
        Op::Norm { x, rows, width, gain, eps_bits, out: Place::Taken(0) },
        Op::Swiglu {
            gate: Place::Given(gate),
            gate_at,
            up: Place::Taken(0),
            up_at: 0,
            out,
            len,
        },
        Op::Release { at: 0 },
        Op::Quantize { a: out, m: rows, k: width },
    ];
    proof {
        lemma_steps(ops@);
        assert(step(ops@, 0));
        assert(step(ops@, 1));
        assert(step(ops@, 2));
        assert(step(ops@, 3));
        assert(step(ops@, 4));
    }
    assert(ops@ =~= rms_norm_gated_ops(x, rows, width, gain, eps_bits, gate, gate_at, out));
    ops
}

/// The operations every backend has, over whole buffers.
#[verifier::reject_recursive_types(T)]
pub ghost struct Work<T> {
    pub fresh: spec_fn(nat) -> Seq<T>,
    pub silu: spec_fn(T) -> T,
    pub times: spec_fn(T, T) -> T,
    pub plus: spec_fn(T, T) -> T,
    /// Rows of a width normalized: the rows, how many, their width, the gain, and the
    /// epsilon's bits.
    pub norm: spec_fn(Seq<T>, usize, usize, Seq<T>, u32) -> Seq<T>,
    /// Rows of a width quantized.
    pub quantize: spec_fn(Seq<T>, usize, usize) -> Seq<T>,
    /// Quantized rows against a weight: how many, their width, and the outputs.
    pub project: spec_fn(Seq<T>, usize, usize, QBuf, usize) -> Seq<T>,
    /// Rows turned by a table.
    pub turn: spec_fn(Seq<T>, usize, Seq<T>, Rope) -> Seq<T>,
}

/// What the call's buffers hold, what those taken do, how many were taken, and what was
/// quantized last.
pub ghost struct Store<T> {
    pub bufs: Map<Buf, Seq<T>>,
    pub halves: Map<HBuf, Seq<T>>,
    pub acts: Map<QAct, Seq<T>>,
    pub own: Map<int, Seq<T>>,
    pub count: int,
    pub made: Seq<T>,
}

impl<T> Store<T> {
    pub open spec fn read(self, place: Place) -> Seq<T> {
        match place {
            Place::Given(buf) => self.bufs[buf],
            Place::Taken(n) => self.own[n as int],
        }
    }

    pub open spec fn write(self, place: Place, row: Seq<T>) -> Store<T> {
        match place {
            Place::Given(buf) => Store { bufs: self.bufs.insert(buf, row), ..self },
            Place::Taken(n) => Store { own: self.own.insert(n as int, row), ..self },
        }
    }
}

/// A buffer with rows of a width laid into it from an offset on, a pitch apart: element
/// `c` of row `r` is that of the rows' own place, so far into theirs.
pub open spec fn rows_over<T>(
    into: Seq<T>,
    at: int,
    pitch: int,
    from: Seq<T>,
    first: int,
    from_pitch: int,
    rows: int,
    width: int,
) -> Seq<T> {
    Seq::new(
        into.len(),
        |p: int|
            {
                let (r, c) = ((p - at) / pitch, (p - at) % pitch);
                if at <= p && r < rows && c < width {
                    from[first + r * from_pitch + c]
                } else {
                    into[p]
                }
            },
    )
}

/// What an operation leaves.
pub open spec fn after_op<T>(o: Work<T>, s: Store<T>, op: Op) -> Store<T> {
    match op {
        Op::Take { len } => Store {
            own: s.own.insert(s.count, (o.fresh)(len as nat)),
            count: s.count + 1,
            ..s
        },
        Op::Release { .. } => s,
        Op::Copy2d { src, dst, pitch, rows, width } => s.write(
            dst,
            rows_over(
                s.read(dst),
                0,
                pitch as int,
                s.bufs[src.buf],
                src.offset as int,
                src.pitch as int,
                rows as int,
                width as int,
            ),
        ),
        Op::Store2d { src, dst, rows, width } => Store {
            halves: s.halves.insert(
                dst.buf,
                rows_over(
                    s.halves[dst.buf],
                    dst.offset as int,
                    dst.pitch as int,
                    s.bufs[src.buf],
                    src.offset as int,
                    src.pitch as int,
                    rows as int,
                    width as int,
                ),
            ),
            ..s
        },
        Op::Rope { x, rows, table, spec } => s.write(
            Place::Given(x),
            (o.turn)(s.bufs[x], rows, s.bufs[table], spec),
        ),
        Op::Norm { x, rows, width, gain, eps_bits, out } => s.write(
            out,
            (o.norm)(s.bufs[x], rows, width, s.bufs[gain], eps_bits),
        ),
        Op::Swiglu { gate, gate_at, up, up_at, out, len } => {
            let (g, u, into) = (s.read(gate), s.read(up), s.bufs[out]);
            s.write(
                Place::Given(out),
                Seq::new(
                    into.len(),
                    |p: int|
                        if p < len {
                            (o.times)((o.silu)(g[gate_at + p]), u[up_at + p])
                        } else {
                            into[p]
                        },
                ),
            )
        },
        Op::Quantize { a, m, k } => Store { made: (o.quantize)(s.bufs[a], m, k), ..s },
        Op::Project { act, m, k, w, n, out } => {
            let rows = match act {
                Rows::Given(q) => s.acts[q],
                Rows::Made => s.made,
            };
            s.write(out, (o.project)(rows, m, k, w, n))
        },
        Op::Sum { acc, add } => {
            let (into, more) = (s.bufs[acc], s.read(add));
            s.write(
                Place::Given(acc),
                Seq::new(into.len(), |p: int| (o.plus)(into[p], more[p])),
            )
        },
    }
}

/// What operations leave, one after the other.
pub open spec fn after_ops<T>(o: Work<T>, s: Store<T>, ops: Seq<Op>) -> Store<T>
    decreases ops.len(),
{
    if ops.len() == 0 {
        s
    } else {
        after_op(o, after_ops(o, s, ops.drop_last()), ops.last())
    }
}

proof fn lemma_next<T>(o: Work<T>, s: Store<T>, ops: Seq<Op>, n: int)
    requires
        0 <= n < ops.len(),
    ensures
        after_ops(o, s, ops.take(n + 1)) == after_op(o, after_ops(o, s, ops.take(n)), ops[n]),
        n == 0 ==> after_ops(o, s, ops.take(n)) == s,
        n + 1 == ops.len() ==> after_ops(o, s, ops.take(n + 1)) == after_ops(o, s, ops),
{
    assert(ops.take(n + 1).drop_last() =~= ops.take(n));
    assert(ops.take(n + 1).last() == ops[n]);
    if n + 1 == ops.len() {
        assert(ops.take(n + 1) =~= ops);
    }
}

/// A SwiGLU of two windows leaves, for row `r` and column `c`, the activation of that
/// element of one window, which gates, times that of the other.
pub proof fn a_windowed_swiglu_computes<T>(
    o: Work<T>,
    s: Store<T>,
    gate: Plane,
    up: Plane,
    out: Buf,
    rows: usize,
    width: usize,
    r: int,
    c: int,
)
    requires
        s.count == 0,
        rows * width <= usize::MAX,
        forall|n: nat| (#[trigger] (o.fresh)(n)).len() == n,
        s.bufs[out].len() == rows * width,
        0 <= r < rows,
        0 <= c < width,
    ensures
        after_ops(o, s, swiglu_planes_ops(gate, up, out, rows, width)).bufs[out][r * width + c]
            == (o.times)(
            (o.silu)(s.bufs[gate.buf][gate.offset + r * gate.pitch + c]),
            s.bufs[up.buf][up.offset + r * up.pitch + c],
        ),
{
    let ops = swiglu_planes_ops(gate, up, out, rows, width);
    crate::backend::host::meaning::lemma_cell(r, c, rows as int, width as int);
    lemma_next(o, s, ops, 0);
    lemma_next(o, s, ops, 1);
    lemma_next(o, s, ops, 2);
    lemma_next(o, s, ops, 3);
    let s4 = after_ops(o, s, ops.take(4));
    let p = r * width + c;
    assert(s4.own[0][p] == s.bufs[gate.buf][gate.offset + r * gate.pitch + c]);
    assert(s4.own[1][p] == s.bufs[up.buf][up.offset + r * up.pitch + c]);
    lemma_next(o, s, ops, 4);
    lemma_next(o, s, ops, 5);
    lemma_next(o, s, ops, 6);
}

/// A rotary embedding of a window turns the window's rows, laid side by side.
pub proof fn a_gathered_rotation_computes<T>(
    o: Work<T>,
    s: Store<T>,
    src: Plane,
    rows: usize,
    table: Buf,
    spec: Rope,
    dest: Buf,
    window: Seq<T>,
)
    requires
        spec.heads * spec.head_dim <= usize::MAX,
        table != dest,
        window.len() == s.bufs[dest].len(),
        s.bufs[dest].len() == rows * (spec.heads * spec.head_dim),
        forall|r: int, c: int|
            0 <= r < rows && 0 <= c < spec.heads * spec.head_dim ==> window[
            #[trigger] crate::backend::host::meaning::cell(
                r,
                c,
                spec.heads * spec.head_dim,
            )] == s.bufs[src.buf][src.offset + r * src.pitch + c],
    ensures
        after_ops(o, s, rope_gather_ops(src, rows, table, spec, dest)).bufs[dest] == (o.turn)(
            window,
            rows,
            s.bufs[table],
            spec,
        ),
{
    let ops = rope_gather_ops(src, rows, table, spec, dest);
    lemma_next(o, s, ops, 0);
    lemma_next(o, s, ops, 1);
    let width = spec.heads * spec.head_dim;
    let laid = after_ops(o, s, ops.take(1)).bufs[dest];
    assert forall|p: int| 0 <= p < laid.len() implies #[trigger] laid[p] == window[p] by {
        crate::backend::host::contract::lemma_position(p, rows as int, width);
        let (r, c) = (p / width, p % width);
        assert(window[crate::backend::host::meaning::cell(r, c, width)] == s.bufs[src.buf][src.offset
            + r * src.pitch + c]);
    }
    assert(laid =~= window);
}

/// Two windows stored one after the other are each where its own target says.
pub proof fn a_stored_pair_is_two_stores<T>(
    o: Work<T>,
    s: Store<T>,
    a: (Plane, HPlane),
    b: (Plane, HPlane),
    rows: usize,
    width: usize,
    r: int,
    c: int,
)
    requires
        a.1.buf != b.1.buf,
        0 <= r < rows,
        0 <= c < width <= a.1.pitch,
        width <= b.1.pitch,
        a.1.offset + r * a.1.pitch + c < s.halves[a.1.buf].len(),
        b.1.offset + r * b.1.pitch + c < s.halves[b.1.buf].len(),
    ensures
        ({
            let after = after_ops(o, s, store_2d_pair_ops(a, b, rows, width)).halves;
            &&& after[a.1.buf][a.1.offset + r * a.1.pitch + c] == s.bufs[a.0.buf][a.0.offset + r
                * a.0.pitch + c]
            &&& after[b.1.buf][b.1.offset + r * b.1.pitch + c] == s.bufs[b.0.buf][b.0.offset + r
                * b.0.pitch + c]
        }),
{
    let ops = store_2d_pair_ops(a, b, rows, width);
    lemma_next(o, s, ops, 0);
    lemma_next(o, s, ops, 1);
    crate::backend::host::meaning::lemma_cell(r, c, rows as int, a.1.pitch as int);
    crate::backend::host::meaning::lemma_cell(r, c, rows as int, b.1.pitch as int);
}

/// A projection that quantizes its own activation projects its quantized copy.
pub proof fn a_quantizing_projection_computes<T>(
    o: Work<T>,
    s: Store<T>,
    a: Buf,
    m: usize,
    k: usize,
    w: QBuf,
    n: usize,
    out: Buf,
)
    ensures
        after_ops(o, s, matmul_quant_ops(a, m, k, w, n, out)).bufs == s.bufs.insert(
            out,
            (o.project)((o.quantize)(s.bufs[a], m, k), m, k, w, n),
        ),
{
    let ops = matmul_quant_ops(a, m, k, w, n, out);
    lemma_next(o, s, ops, 0);
    lemma_next(o, s, ops, 1);
}

/// A projection added to what is there leaves the sum, element by element.
pub proof fn an_added_projection_computes<T>(
    o: Work<T>,
    s: Store<T>,
    act: QAct,
    m: usize,
    k: usize,
    w: QBuf,
    n: usize,
    out: Buf,
    p: int,
)
    requires
        s.count == 0,
        m * n <= usize::MAX,
        0 <= p < s.bufs[out].len(),
    ensures
        after_ops(o, s, matmul_quant_add_ops(act, m, k, w, n, out)).bufs[out][p] == (o.plus)(
            s.bufs[out][p],
            (o.project)(s.acts[act], m, k, w, n)[p],
        ),
{
    let ops = matmul_quant_add_ops(act, m, k, w, n, out);
    lemma_next(o, s, ops, 0);
    lemma_next(o, s, ops, 1);
    lemma_next(o, s, ops, 2);
    lemma_next(o, s, ops, 3);
}

/// A normalization that quantizes leaves the normalized rows and makes their copy.
pub proof fn a_quantizing_normalization_computes<T>(
    o: Work<T>,
    s: Store<T>,
    x: Buf,
    rows: usize,
    width: usize,
    gain: Buf,
    eps_bits: u32,
    out: Buf,
)
    ensures
        ({
            let normed = (o.norm)(s.bufs[x], rows, width, s.bufs[gain], eps_bits);
            let after = after_ops(o, s, rms_norm_q_ops(x, rows, width, gain, eps_bits, out));
            after.bufs == s.bufs.insert(out, normed) && after.made == (o.quantize)(
                normed,
                rows,
                width,
            )
        }),
{
    let ops = rms_norm_q_ops(x, rows, width, gain, eps_bits, out);
    lemma_next(o, s, ops, 0);
    lemma_next(o, s, ops, 1);
}

/// A SwiGLU that quantizes leaves the activated gate times up, and makes the copy of
/// that row.
pub proof fn a_quantizing_swiglu_computes<T>(
    o: Work<T>,
    s: Store<T>,
    gate: Buf,
    gate_at: usize,
    up: Buf,
    up_at: usize,
    out: Buf,
    len: usize,
    p: int,
)
    requires
        s.bufs[out].len() == len,
        0 <= p < len,
    ensures
        ({
            let after = after_ops(o, s, swiglu_q_ops(gate, gate_at, up, up_at, out, len));
            &&& after.bufs[out][p] == (o.times)(
                (o.silu)(s.bufs[gate][gate_at + p]),
                s.bufs[up][up_at + p],
            )
            &&& after.made == (o.quantize)(after.bufs[out], 1, len)
        }),
{
    let ops = swiglu_q_ops(gate, gate_at, up, up_at, out, len);
    lemma_next(o, s, ops, 0);
    lemma_next(o, s, ops, 1);
}

/// A gated normalization leaves the activated gate times the normalized rows, and makes
/// their copy.
pub proof fn a_gated_normalization_computes<T>(
    o: Work<T>,
    s: Store<T>,
    x: Buf,
    rows: usize,
    width: usize,
    gain: Buf,
    eps_bits: u32,
    gate: Buf,
    gate_at: usize,
    out: Buf,
    p: int,
)
    requires
        s.count == 0,
        rows * width <= usize::MAX,
        s.bufs[out].len() == rows * width,
        0 <= p < rows * width,
    ensures
        ({
            let after = after_ops(
                o,
                s,
                rms_norm_gated_ops(x, rows, width, gain, eps_bits, gate, gate_at, out),
            );
            &&& after.bufs[out][p] == (o.times)(
                (o.silu)(s.bufs[gate][gate_at + p]),
                (o.norm)(s.bufs[x], rows, width, s.bufs[gain], eps_bits)[p],
            )
            &&& after.made == (o.quantize)(after.bufs[out], rows, width)
        }),
{
    let ops = rms_norm_gated_ops(x, rows, width, gain, eps_bits, gate, gate_at, out);
    lemma_next(o, s, ops, 0);
    lemma_next(o, s, ops, 1);
    lemma_next(o, s, ops, 2);
    lemma_next(o, s, ops, 3);
    lemma_next(o, s, ops, 4);
}

} // verus!
