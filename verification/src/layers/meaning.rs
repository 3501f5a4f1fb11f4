//! What the calls of a program compute: buffers of numbers, and what each call
//! makes of them.

use vstd::arithmetic::div_mod;
use vstd::prelude::*;

use crate::backend::host::contract;
use crate::backend::{Buf, HeadPerm};
use crate::layers::ffn::{self, FfnShape, GateUpShape};
use crate::layers::linear::{self, Linear};
use crate::layers::moe::{self, MoeShape};
use crate::layers::program::{self, ActReg, Call, Form, Prog, Reg, Shape, Shared};

verus! {

/// The operations of a backend, a row at a time. `weight` is which of the caller's
/// weights is read.
#[verifier::reject_recursive_types(T)]
pub ghost struct Ops<T> {
    pub zero: T,
    /// What a buffer of so many elements holds before anything is written to it.
    pub fresh: spec_fn(nat) -> Seq<T>,
    pub plus: spec_fn(T, T) -> T,
    /// The numbers a row's quantized copy stands for.
    pub quantize: spec_fn(Seq<T>) -> Seq<T>,
    /// A weight in planes, against a quantized copy.
    pub planes: spec_fn(usize, Seq<T>) -> Seq<T>,
    /// A weight in its blocks, against a row and its quantized copy if there is one.
    pub raw: spec_fn(usize, Seq<T>, Option<Seq<T>>) -> Seq<T>,
    /// A dense weight, in either order.
    pub dense: spec_fn(usize, Seq<T>) -> Seq<T>,
    /// The transform ahead of a folded weight.
    pub rotate: spec_fn(usize, Option<HeadPerm>, Seq<T>) -> Seq<T>,
    pub norm: spec_fn(Seq<T>) -> Seq<T>,
    /// `silu(gate) * up`.
    pub swiglu: spec_fn(T, T) -> T,
    /// A row dotted with the shared expert's vector.
    pub gate: spec_fn(Seq<T>) -> T,
    /// The chosen experts' output for a row, its copy, its scores, and the shared
    /// expert's row with its gate.
    pub experts: spec_fn(Seq<T>, Option<Seq<T>>, Seq<T>, Seq<T>, T) -> Seq<T>,
    /// The numbers of the experts that a row's scores choose, so many of them.
    pub chosen: spec_fn(Seq<T>, nat) -> Seq<T>,
}

impl<T> Ops<T> {
    /// An operation on a row keeps its width.
    pub open spec fn wf(self) -> bool {
        &&& forall|n: nat| (#[trigger] (self.fresh)(n)).len() == n
        &&& forall|row: Seq<T>| (#[trigger] (self.quantize)(row)).len() == row.len()
        &&& forall|w: usize, perm: Option<HeadPerm>, row: Seq<T>|
            (#[trigger] (self.rotate)(w, perm, row)).len() == row.len()
    }

    /// A weight's output for a row, against its quantized copy where there is one.
    pub open spec fn project(
        self,
        form: Form,
        weight: usize,
        row: Seq<T>,
        copy: Option<Seq<T>>,
    ) -> Seq<T> {
        match form {
            Form::Planes => match copy {
                Some(copy) => (self.planes)(weight, copy),
                None => (self.planes)(weight, (self.quantize)(row)),
            },
            Form::Raw(_) => (self.raw)(weight, row, copy),
            Form::Rows => (self.dense)(weight, row),
            Form::Dense | Form::Decoded => (self.dense)(weight, row),
        }
    }

    /// A weight's output for a row as it is: through its transform if it is folded.
    pub open spec fn applied(self, s: Shape, weight: usize, row: Seq<T>) -> Seq<T> {
        match s.rotation {
            None => self.project(s.form, weight, row, None),
            Some(r) => {
                let turned = (self.rotate)(weight, r.perm, row);
                self.project(s.form, weight, turned, Some((self.quantize)(turned)))
            },
        }
    }
}

/// Row `r` of a buffer of rows `width` wide.
pub open spec fn row<T>(x: Seq<T>, r: int, width: int) -> Seq<T> {
    x.subrange(r * width, r * width + width)
}

/// Rows each put through a function.
pub open spec fn by_rows<T>(
    x: Seq<T>,
    rows: nat,
    width: nat,
    f: spec_fn(Seq<T>) -> Seq<T>,
) -> Seq<T> {
    Seq::new(
        rows * width,
        |q: int| f(row(x, q / (width as int), width as int))[q % (width as int)],
    )
}

/// What the buffers hold, and what the quantized activations stand for.
#[verifier::reject_recursive_types(T)]
pub ghost struct Memory<T> {
    pub bufs: Map<Reg, Seq<T>>,
    pub acts: Map<ActReg, Seq<T>>,
}

impl<T> Memory<T> {
    /// A row's quantized copy, if there is one.
    pub open spec fn copy(self, act: Option<ActReg>, r: int, width: int) -> Option<Seq<T>> {
        match act {
            Some(act) => Some(row(self.acts[act], r, width)),
            None => None,
        }
    }

    pub open spec fn hold(self, reg: Reg, x: Seq<T>) -> Memory<T> {
        Memory { bufs: self.bufs.insert(reg, x), acts: self.acts }
    }

    /// The first `n` elements of a buffer written.
    pub open spec fn write(self, reg: Reg, n: int, value: spec_fn(int) -> T) -> Memory<T> {
        self.hold(reg, contract::written(self.bufs[reg], n, value))
    }

    pub open spec fn keep(self, act: usize, x: Seq<T>) -> Memory<T> {
        Memory { bufs: self.bufs, acts: self.acts.insert(ActReg::Made(act), x) }
    }
}

/// What a call leaves.
pub open spec fn step<T>(ops: Ops<T>, m: Memory<T>, call: Call) -> Memory<T> {
    match call {
        Call::Take { to, len } => m.hold(Reg::Made(to), (ops.fresh)(len as nat)),
        Call::Zeroed { to, len } => m.hold(
            Reg::Made(to),
            Seq::new(len as nat, |q: int| ops.zero),
        ),
        Call::Release { buf, .. } => Memory { bufs: m.bufs.remove(buf), acts: m.acts },
        Call::Quantize { x, rows, width, to } => m.keep(
            to,
            by_rows(m.bufs[x], rows as nat, width as nat, ops.quantize),
        ),
        Call::Project { weight, form, x, act, rows, in_dim, out_dim, out } => m.write(
            out,
            rows * out_dim,
            |q: int|
                ops.project(
                    form,
                    weight,
                    row(m.bufs[x], q / out_dim as int, in_dim as int),
                    m.copy(act, q / out_dim as int, in_dim as int),
                )[q % out_dim as int],
        ),
        Call::Accumulate { weight, act, rows, in_dim, out_dim, dest } => m.write(
            dest,
            rows * out_dim,
            |q: int|
                (ops.plus)(
                    m.bufs[dest][q],
                    (ops.planes)(weight, row(m.acts[act], q / out_dim as int, in_dim as int))[q
                        % out_dim as int],
                ),
        ),
        Call::Sum { dest, from } => {
            let n = if m.bufs[dest].len() < m.bufs[from].len() {
                m.bufs[dest].len()
            } else {
                m.bufs[from].len()
            };
            m.write(dest, n as int, |q: int| (ops.plus)(m.bufs[dest][q], m.bufs[from][q]))
        },
        Call::Transform { weight, x, rows, width, perm, out, act } => {
            let turned = m.write(
                out,
                rows * width,
                |q: int|
                    (ops.rotate)(weight, perm, row(m.bufs[x], q / width as int, width as int))[q
                        % width as int],
            );
            match act {
                Some(a) => turned.keep(
                    a,
                    by_rows(turned.bufs[out], rows as nat, width as nat, ops.quantize),
                ),
                None => turned,
            }
        },
        Call::Norm { x, rows, width, out } => normed(ops, m, x, rows, width, out),
        Call::NormQuantize { x, rows, width, out, act } => {
            let n = normed(ops, m, x, rows, width, out);
            n.keep(act, by_rows(n.bufs[out], rows as nat, width as nat, ops.quantize))
        },
        Call::NormTransform { weight, x, rows, width, normed: plain, out, act } => {
            let n = normed(ops, m, x, rows, width, plain);
            let turned = n.write(
                out,
                rows * width,
                |q: int|
                    (ops.rotate)(
                        weight,
                        None,
                        row(n.bufs[plain], q / width as int, width as int),
                    )[q % width as int],
            );
            turned.keep(act, by_rows(turned.bufs[out], rows as nat, width as nat, ops.quantize))
        },
        Call::SwigluQuantize { gate, gate_at, up, up_at, out, len, act } => {
            let joined = m.write(
                out,
                len as int,
                |q: int| (ops.swiglu)(m.bufs[gate][gate_at + q], m.bufs[up][up_at + q]),
            );
            joined.keep(act, by_rows(joined.bufs[out], 1, len as nat, ops.quantize))
        },
        Call::SwigluPlanes { gate, up, out, rows, width } => m.write(
            out,
            rows * width,
            |q: int|
                (ops.swiglu)(
                    m.bufs[gate.buf][gate.offset + q / width as int * gate.pitch + q
                        % width as int],
                    m.bufs[up.buf][up.offset + q / width as int * up.pitch + q % width as int],
                ),
        ),
        Call::Gate { x, rows, width, out } => m.write(
            out,
            rows as int,
            |q: int| (ops.gate)(row(m.bufs[x], q, width as int)),
        ),
        Call::Experts {
            x,
            act,
            rows,
            d_model,
            logits,
            n_expert,
            n_used,
            shared,
            gate,
            dest,
            routes,
            ..
        } => {
            let fed = m.write(
                dest,
                rows * d_model,
                |q: int|
                    {
                        let r = q / d_model as int;
                        (ops.plus)(
                            m.bufs[dest][q],
                            (ops.experts)(
                                row(m.bufs[x], r, d_model as int),
                                m.copy(act, r, d_model as int),
                                row(m.bufs[logits], r, n_expert as int),
                                row(m.bufs[shared], r, d_model as int),
                                m.bufs[gate][r],
                            )[q % d_model as int],
                        )
                    },
            );
            match routes {
                Some(list) => fed.write(
                    Reg::Given(list),
                    rows * n_used,
                    |q: int|
                        (ops.chosen)(
                            row(m.bufs[logits], q / n_used as int, n_expert as int),
                            n_used as nat,
                        )[q % n_used as int],
                ),
                None => fed,
            }
        },
    }
}

/// Rows normalized into a buffer.
pub open spec fn normed<T>(
    ops: Ops<T>,
    m: Memory<T>,
    x: Reg,
    rows: usize,
    width: usize,
    out: Reg,
) -> Memory<T> {
    m.write(
        out,
        rows * width,
        |q: int| (ops.norm)(row(m.bufs[x], q / width as int, width as int))[q % width as int],
    )
}

/// What a run of calls leaves.
pub open spec fn run<T>(ops: Ops<T>, m: Memory<T>, calls: Seq<Call>) -> Memory<T>
    decreases calls.len(),
{
    if calls.len() == 0 {
        m
    } else {
        step(ops, run(ops, m, calls.drop_last()), calls.last())
    }
}

broadcast proof fn lemma_run_push<T>(ops: Ops<T>, m: Memory<T>, calls: Seq<Call>, call: Call)
    ensures
        #[trigger] run(ops, m, calls.push(call)) == step(ops, run(ops, m, calls), call),
{
    assert(calls.push(call).drop_last() =~= calls);
}

/// A buffer numbered before `n`.
pub open spec fn below(reg: Reg, n: nat) -> bool {
    reg matches Reg::Made(t) ==> t < n
}

/// Two memories agree on every buffer and copy numbered before a program's next,
/// but for one buffer.
pub open spec fn same_but<T>(a: Memory<T>, b: Memory<T>, p: Prog, dest: Reg) -> bool {
    &&& forall|reg: Reg| below(reg, p.bufs) && reg != dest ==> #[trigger] b.bufs[reg] == a.bufs[reg]
    &&& forall|act: ActReg|
        (act matches ActReg::Made(t) ==> t < p.acts) ==> #[trigger] b.acts[act] == a.acts[act]
}

/// Rows of a weight's output added into a buffer.
pub open spec fn added<T>(
    ops: Ops<T>,
    into: Seq<T>,
    rows: usize,
    width: usize,
    f: spec_fn(int) -> Seq<T>,
) -> Seq<T> {
    contract::written(
        into,
        rows * width,
        |q: int| (ops.plus)(into[q], f(q / width as int)[q % width as int]),
    )
}

/// A place among rows is its row and its column.
proof fn lemma_place(q: int, rows: int, width: int)
    requires
        0 <= q < rows * width,
        0 <= width,
    ensures
        0 <= q / width < rows,
        0 <= q % width < width,
        q == q / width * width + q % width,
        q / width * width + width <= rows * width,
{
    assert(width > 0) by (nonlinear_arith)
        requires
            0 <= q < rows * width,
            0 <= width,
    ;
    div_mod::lemma_fundamental_div_mod(q, width);
    assert(width * (q / width) == q / width * width) by (nonlinear_arith);
    assert(0 <= q / width < rows) by (nonlinear_arith)
        requires
            0 <= q < rows * width,
            q == q / width * width + q % width,
            0 <= q % width < width,
    ;
    assert(q / width * width + width <= rows * width) by (nonlinear_arith)
        requires
            q / width + 1 <= rows,
            width > 0,
    ;
}

/// A row and a column are a place.
proof fn lemma_at(r: int, i: int, width: int)
    requires
        0 <= i < width,
        0 <= r,
    ensures
        (r * width + i) / width == r,
        (r * width + i) % width == i,
        0 <= r * width,
{
    div_mod::lemma_fundamental_div_mod_converse(r * width + i, width, r, i);
    assert(0 <= r * width) by (nonlinear_arith)
        requires
            0 <= r,
            0 < width,
    ;
}

/// A row of rows put through a function is the function of the row.
proof fn lemma_by_rows<T>(
    x: Seq<T>,
    rows: nat,
    width: nat,
    f: spec_fn(Seq<T>) -> Seq<T>,
    r: int,
)
    requires
        0 <= r < rows,
        rows * width <= x.len(),
        forall|y: Seq<T>| (#[trigger] f(y)).len() == y.len(),
    ensures
        row(by_rows(x, rows, width, f), r, width as int) == f(row(x, r, width as int)),
{
    let all = by_rows(x, rows, width, f);
    let w = width as int;
    assert(0 <= r * w && r * w + w <= rows * width) by (nonlinear_arith)
        requires
            0 <= r,
            r + 1 <= rows,
            w == width,
            0 <= w,
    ;
    let one = row(all, r, w);
    let want = f(row(x, r, w));
    assert(want.len() == w);
    assert forall|i: int| 0 <= i < w implies one[i] == want[i] by {
        lemma_at(r, i, w);
        assert(one[i] == all[r * w + i]);
    }
    assert(one =~= want);
}

/// A row of a buffer just written by rows.
proof fn lemma_written_row<T>(
    into: Seq<T>,
    rows: int,
    width: int,
    value: spec_fn(int) -> T,
    want: Seq<T>,
    r: int,
)
    requires
        0 <= r < rows,
        0 <= width,
        rows * width <= into.len(),
        want.len() == width,
        forall|i: int| 0 <= i < width ==> value(r * width + i) == #[trigger] want[i],
    ensures
        row(contract::written(into, rows * width, value), r, width) == want,
{
    let all = contract::written(into, rows * width, value);
    assert(0 <= r * width && r * width + width <= rows * width) by (nonlinear_arith)
        requires
            0 <= r,
            r + 1 <= rows,
            0 <= width,
    ;
    let one = row(all, r, width);
    assert forall|i: int| 0 <= i < width implies one[i] == want[i] by {
        assert(one[i] == all[r * width + i]);
    }
    assert(one =~= want);
}

/// A ready row's projection added as a separate pass.
proof fn lemma_adding_dense<T>(
    ops: Ops<T>,
    m: Memory<T>,
    p: Prog,
    s: Shape,
    weight: usize,
    x: Reg,
    act: Option<ActReg>,
    rows: usize,
    dest: Reg,
)
    requires
        ops.wf(),
        program::sized(s, rows),
        p.bufs < usize::MAX,
        below(x, p.bufs),
        below(dest, p.bufs),
        act matches Some(ActReg::Made(t)) ==> t < p.acts,
        run(ops, m, p.calls).bufs[dest].len() >= rows * s.out_dim,
    ensures
        ({
            let a = run(ops, m, p.calls);
            let q = program::adding_dense(p, s, weight, x, act, rows, dest);
            let b = run(ops, m, q.calls);
            let copies = if program::is_quantized(s) || program::is_raw(s) {
                act
            } else {
                None
            };
            &&& same_but(a, b, p, dest)
            &&& b.bufs[dest] == added(
                ops,
                a.bufs[dest],
                rows,
                s.out_dim,
                |r: int|
                    ops.project(
                        s.form,
                        weight,
                        row(a.bufs[x], r, s.in_dim as int),
                        a.copy(copies, r, s.in_dim as int),
                    ),
            )
        }),
{
    broadcast use lemma_run_push;

    let a = run(ops, m, p.calls);
    let out = p.buf();
    let copies = if program::is_quantized(s) || program::is_raw(s) {
        act
    } else {
        None
    };
    let taken = p.taking(rows * s.out_dim);
    let t = run(ops, m, taken.calls);
    assert(t == a.hold(out, (ops.fresh)((rows * s.out_dim) as nat)));
    let projected = program::plain(taken, s, weight, x, act, rows, out);
    let u = run(ops, m, projected.calls);
    assert(x != out && dest != out);
    assert(t.bufs[x] == a.bufs[x]);
    assert(u.bufs[out].len() == rows * s.out_dim);
    let summed = projected.then_call(Call::Sum { dest, from: out });
    let v = run(ops, m, summed.calls);
    let f = |r: int|
        ops.project(
            s.form,
            weight,
            row(a.bufs[x], r, s.in_dim as int),
            a.copy(copies, r, s.in_dim as int),
        );
    let want = added(ops, a.bufs[dest], rows, s.out_dim, f);
    assert(u.bufs[dest] == a.bufs[dest]);
    assert forall|q: int| 0 <= q < rows * s.out_dim implies #[trigger] u.bufs[out][q] == f(
        q / s.out_dim as int,
    )[q % s.out_dim as int] by {}
    assert(v.bufs[dest] =~= want);
}

/// A ready row's projection added, its quantized copy at hand or made.
proof fn lemma_adding_plain<T>(
    ops: Ops<T>,
    m: Memory<T>,
    p: Prog,
    s: Shape,
    weight: usize,
    x: Reg,
    act: Option<ActReg>,
    rows: usize,
    dest: Reg,
)
    requires
        ops.wf(),
        program::sized(s, rows),
        p.bufs < usize::MAX,
        p.acts < usize::MAX,
        below(x, p.bufs),
        below(dest, p.bufs),
        act matches Some(ActReg::Made(t)) ==> t < p.acts,
        run(ops, m, p.calls).bufs[dest].len() >= rows * s.out_dim,
        run(ops, m, p.calls).bufs[x].len() >= rows * s.in_dim,
    ensures
        ({
            let a = run(ops, m, p.calls);
            let q = program::adding_plain(p, s, weight, x, act, rows, dest);
            let b = run(ops, m, q.calls);
            &&& same_but(a, b, p, dest)
            &&& b.bufs[dest] == added(
                ops,
                a.bufs[dest],
                rows,
                s.out_dim,
                |r: int|
                    ops.project(
                        s.form,
                        weight,
                        row(a.bufs[x], r, s.in_dim as int),
                        a.copy(act, r, s.in_dim as int),
                    ),
            )
        }),
{
    let a = run(ops, m, p.calls);
    let f = |r: int|
        ops.project(
            s.form,
            weight,
            row(a.bufs[x], r, s.in_dim as int),
            a.copy(act, r, s.in_dim as int),
        );
    let q = program::adding_plain(p, s, weight, x, act, rows, dest);
    let b = run(ops, m, q.calls);
    let want = added(ops, a.bufs[dest], rows, s.out_dim, f);
    if program::is_quantized(s) {
        broadcast use lemma_run_push;

        match act {
            Some(_) => {
                assert(b.bufs[dest] =~= want);
            },
            None => {
                let made = p.acting(
                    Call::Quantize { x, rows, width: s.in_dim, to: p.acts as usize },
                );
                let t = run(ops, m, made.calls);
                assert forall|q: int| 0 <= q < rows * s.out_dim implies #[trigger] b.bufs[dest][q]
                    == want[q] by {
                    lemma_place(q, rows as int, s.out_dim as int);
                    lemma_by_rows(
                        a.bufs[x],
                        rows as nat,
                        s.in_dim as nat,
                        ops.quantize,
                        q / s.out_dim as int,
                    );
                }
                assert(b.bufs[dest] =~= want);
            },
        }
    } else {
        lemma_adding_dense(ops, m, p, s, weight, x, act, rows, dest);
        let copies = if program::is_raw(s) {
            act
        } else {
            None
        };
        assert forall|r: int|
            ops.project(
                s.form,
                weight,
                row(a.bufs[x], r, s.in_dim as int),
                a.copy(copies, r, s.in_dim as int),
            ) == #[trigger] f(r) by {}
        assert(b.bufs[dest] =~= want);
    }
}

/// Row `r` of a shared input is the transform of the input's, and its copy the
/// quantized transform.
spec fn readies<T>(
    ops: Ops<T>,
    a: Memory<T>,
    b: Memory<T>,
    s: Shape,
    weight: usize,
    x: Reg,
    shared: Shared,
    r: int,
) -> bool {
    let turned = (ops.rotate)(
        weight,
        s.rotation->Some_0.perm,
        row(a.bufs[x], r, s.in_dim as int),
    );
    &&& row(b.bufs[shared.x], r, s.in_dim as int) == turned
    &&& shared.act is Some ==> b.copy(shared.act, r, s.in_dim as int) == Some(
        (ops.quantize)(turned),
    )
}

/// A row transformed for a weight, and quantized where the contraction can use it.
proof fn lemma_sharing<T>(
    ops: Ops<T>,
    m: Memory<T>,
    p: Prog,
    s: Shape,
    weight: usize,
    x: Reg,
    rows: usize,
)
    requires
        ops.wf(),
        program::sized(s, rows),
        s.rotation is Some,
        p.bufs < usize::MAX,
        p.acts < usize::MAX,
        below(x, p.bufs),
        run(ops, m, p.calls).bufs[x].len() >= rows * s.in_dim,
    ensures
        ({
            let a = run(ops, m, p.calls);
            let (q, shared) = program::sharing(p, s, weight, x, None, rows);
            let b = run(ops, m, q.calls);
            &&& same_but(a, b, p, p.buf())
            &&& shared.x == p.buf()
            &&& b.bufs[shared.x].len() == rows * s.in_dim
            &&& (shared.act is Some == (program::is_quantized(s) || program::is_raw(s)))
            &&& shared.act is Some ==> shared.act == Some(p.act())
            &&& forall|r: int|
                0 <= r < rows ==> #[trigger] readies(ops, a, b, s, weight, x, shared, r)
        }),
{
    broadcast use lemma_run_push;

    let a = run(ops, m, p.calls);
    let (q, shared) = program::sharing(p, s, weight, x, None, rows);
    let b = run(ops, m, q.calls);
    let width = s.in_dim as int;
    let perm = s.rotation->Some_0.perm;
    let taken = p.taking(rows * s.in_dim);
    let t = run(ops, m, taken.calls);
    assert(t.bufs[p.buf()].len() == rows * s.in_dim);
    assert(t.bufs[x] == a.bufs[x]);
    assert forall|r: int| 0 <= r < rows implies #[trigger] readies(
        ops,
        a,
        b,
        s,
        weight,
        x,
        shared,
        r,
    ) by {
        let turned = (ops.rotate)(weight, perm, row(a.bufs[x], r, width));
        assert(0 <= r * width && r * width + width <= rows * width) by (nonlinear_arith)
            requires
                0 <= r,
                r + 1 <= rows,
                0 <= width,
        ;
        let value = |q: int|
            (ops.rotate)(weight, perm, row(a.bufs[x], q / width, width))[q % width];
        assert forall|i: int| 0 <= i < width implies value(r * width + i) == #[trigger] turned[i] by {
            lemma_at(r, i, width);
        }
        lemma_written_row(t.bufs[p.buf()], rows as int, width, value, turned, r);
        assert(b.bufs[p.buf()] == contract::written(t.bufs[p.buf()], rows * width, value));
        if shared.act is Some {
            lemma_by_rows(b.bufs[p.buf()], rows as nat, s.in_dim as nat, ops.quantize, r);
        }
    }
}

/// An accumulating projection adds to each row of its target the weight's output
/// for that row of its input, and touches nothing else that was there.
pub proof fn an_addition_computes<T>(
    ops: Ops<T>,
    m: Memory<T>,
    p: Prog,
    s: Shape,
    weight: usize,
    x: Reg,
    rows: usize,
    dest: Reg,
)
    requires
        ops.wf(),
        program::sized(s, rows),
        p.bufs + 2 <= usize::MAX,
        p.acts + 2 <= usize::MAX,
        below(x, p.bufs),
        below(dest, p.bufs),
        run(ops, m, p.calls).bufs[dest].len() >= rows * s.out_dim,
        run(ops, m, p.calls).bufs[x].len() >= rows * s.in_dim,
    ensures
        ({
            let a = run(ops, m, p.calls);
            let b = run(ops, m, program::adding(p, s, weight, x, rows, dest).calls);
            &&& same_but(a, b, p, dest)
            &&& b.bufs[dest] == added(
                ops,
                a.bufs[dest],
                rows,
                s.out_dim,
                |r: int| ops.applied(s, weight, row(a.bufs[x], r, s.in_dim as int)),
            )
        }),
{
    let a = run(ops, m, p.calls);
    let f = |r: int| ops.applied(s, weight, row(a.bufs[x], r, s.in_dim as int));
    let want = added(ops, a.bufs[dest], rows, s.out_dim, f);
    let done = program::adding(p, s, weight, x, rows, dest);
    let b = run(ops, m, done.calls);
    if s.rotation is None {
        lemma_adding_plain(ops, m, p, s, weight, x, None, rows, dest);
        assert(b.bufs[dest] =~= want);
    } else {
        let (q, input) = program::sharing(p, s, weight, x, None, rows);
        lemma_sharing(ops, m, p, s, weight, x, rows);
        let t = run(ops, m, q.calls);
        assert(t.bufs[dest] == a.bufs[dest]);
        lemma_adding_plain(ops, m, q, s, weight, input.x, input.act, rows, dest);
        let mid = program::adding_plain(q, s, weight, input.x, input.act, rows, dest);
        let u = run(ops, m, mid.calls);
        lemma_run_push(
            ops,
            m,
            mid.calls,
            Call::Release { buf: input.x, guards: program::adding_calls(s, input.act) },
        );
        assert forall|q: int| 0 <= q < rows * s.out_dim implies #[trigger] u.bufs[dest][q]
            == want[q] by {
            lemma_place(q, rows as int, s.out_dim as int);
            let r = q / s.out_dim as int;
            assert(readies(ops, a, t, s, weight, x, input, r));
        }
        assert(u.bufs[dest] =~= want);
        assert(b.bufs[dest] == u.bufs[dest]);
    }
}

/// An accumulating projection with a quantized copy of its input at hand computes
/// what one without it does.
pub proof fn an_addition_with_a_copy_computes<T>(
    ops: Ops<T>,
    m: Memory<T>,
    p: Prog,
    s: Shape,
    weight: usize,
    x: Reg,
    act: ActReg,
    rows: usize,
    dest: Reg,
)
    requires
        ops.wf(),
        program::sized(s, rows),
        p.bufs + 2 <= usize::MAX,
        p.acts + 2 <= usize::MAX,
        below(x, p.bufs),
        below(dest, p.bufs),
        act matches ActReg::Made(t) ==> t < p.acts,
        run(ops, m, p.calls).bufs[dest].len() >= rows * s.out_dim,
        run(ops, m, p.calls).bufs[x].len() >= rows * s.in_dim,
        forall|r: int|
            0 <= r < rows ==> #[trigger] row(
                run(ops, m, p.calls).acts[act],
                r,
                s.in_dim as int,
            ) == (ops.quantize)(row(run(ops, m, p.calls).bufs[x], r, s.in_dim as int)),
    ensures
        ({
            let a = run(ops, m, p.calls);
            let q = program::adding_with(p, s, weight, x, Some(act), rows, dest);
            let b = run(ops, m, q.calls);
            &&& same_but(a, b, p, dest)
            &&& b.bufs[dest] == added(
                ops,
                a.bufs[dest],
                rows,
                s.out_dim,
                |r: int| ops.applied(s, weight, row(a.bufs[x], r, s.in_dim as int)),
            )
        }),
{
    let a = run(ops, m, p.calls);
    let f = |r: int| ops.applied(s, weight, row(a.bufs[x], r, s.in_dim as int));
    let want = added(ops, a.bufs[dest], rows, s.out_dim, f);
    let done = program::adding_with(p, s, weight, x, Some(act), rows, dest);
    let b = run(ops, m, done.calls);
    if s.rotation is Some {
        an_addition_computes(ops, m, p, s, weight, x, rows, dest);
    } else if program::is_quantized(s) {
        lemma_run_push(
            ops,
            m,
            p.calls,
            Call::Accumulate {
                weight,
                act,
                rows,
                in_dim: s.in_dim,
                out_dim: s.out_dim,
                dest,
            },
        );
        assert forall|q: int| 0 <= q < rows * s.out_dim implies #[trigger] b.bufs[dest][q]
            == want[q] by {
            lemma_place(q, rows as int, s.out_dim as int);
            assert(row(a.acts[act], q / s.out_dim as int, s.in_dim as int) == (ops.quantize)(
                row(a.bufs[x], q / s.out_dim as int, s.in_dim as int),
            ));
        }
        assert(b.bufs[dest] =~= want);
    } else {
        lemma_adding_dense(ops, m, p, s, weight, x, None, rows, dest);
        assert(b.bufs[dest] =~= want);
    }
}

/// What a feed-forward's gate and up give for a row: the two halves of a stacked
/// weight's output, or two weights' own.
pub open spec fn gate_and_up<T>(
    ops: Ops<T>,
    f: FfnShape,
    weight: usize,
    x: Seq<T>,
    copy: Option<Seq<T>>,
) -> (Seq<T>, Seq<T>) {
    match f.gate_up {
        GateUpShape::Fused(both) => {
            let out = ops.project(both.form, weight, x, copy);
            let width = f.down.in_dim;
            (
                Seq::new(width as nat, |i: int| out[i]),
                Seq::new(width as nat, |i: int| out[width + i]),
            )
        },
        GateUpShape::Split { gate, up } => (
            ops.project(gate.form, weight, x, copy),
            ops.project(up.form, (weight + 1) as usize, x, copy),
        ),
    }
}

/// `silu(gate) * up` of a row, the feed-forward's width of it.
pub open spec fn hidden<T>(ops: Ops<T>, width: usize, gate: Seq<T>, up: Seq<T>) -> Seq<T> {
    Seq::new(width as nat, |i: int| (ops.swiglu)(gate[i], up[i]))
}

/// `down(silu(gate(x)) * up(x))` of a row.
pub open spec fn fed<T>(
    ops: Ops<T>,
    f: FfnShape,
    weight: usize,
    x: Seq<T>,
    copy: Option<Seq<T>>,
) -> Seq<T> {
    let (gate, up) = gate_and_up(ops, f, weight, x, copy);
    ops.applied(f.down, (weight + 2) as usize, hidden(ops, f.down.in_dim, gate, up))
}

/// The width of the rows a feed-forward reads.
pub open spec fn reads_width(f: FfnShape) -> int {
    match f.gate_up {
        GateUpShape::Fused(both) => both.in_dim as int,
        GateUpShape::Split { gate, up } => gate.in_dim as int,
    }
}

/// The three weights fit together: gate and up as wide as down reads, stacked with
/// or without padding, or apart over rows of one width.
pub open spec fn fits_together(f: FfnShape) -> bool {
    match f.gate_up {
        GateUpShape::Fused(both) => 2 * f.down.in_dim <= both.out_dim,
        GateUpShape::Split { gate, up } => {
            &&& gate.out_dim == f.down.in_dim
            &&& up.out_dim == f.down.in_dim
            &&& up.in_dim == gate.in_dim
        },
    }
}

/// The feed-forward as far as its gate and up joined, in the first buffer it takes.
spec fn joining(p: Prog, f: FfnShape, weight: usize, x: Shared, rows: usize) -> Prog {
    let width = f.down.in_dim;
    let joined = p.buf();
    let (q, g, u) = ffn::gated(p.taking(rows * width), f, weight, x, rows);
    if rows == 1 {
        q.acting(
            Call::SwigluQuantize {
                gate: g.buf,
                gate_at: g.offset,
                up: u.buf,
                up_at: u.offset,
                out: joined,
                len: width,
                act: q.acts as usize,
            },
        )
    } else {
        q.then_call(Call::SwigluPlanes { gate: g, up: u, out: joined, rows, width })
    }
}

/// Row `r` of a buffer is `silu(gate(x)) * up(x)` of that row of the input.
spec fn joins<T>(
    ops: Ops<T>,
    a: Memory<T>,
    b: Memory<T>,
    f: FfnShape,
    weight: usize,
    x: Shared,
    joined: Reg,
    r: int,
) -> bool {
    let (gate, up) = gate_and_up(
        ops,
        f,
        weight,
        row(a.bufs[x.x], r, reads_width(f)),
        a.copy(x.act, r, reads_width(f)),
    );
    row(b.bufs[joined], r, f.down.in_dim as int) == hidden(ops, f.down.in_dim, gate, up)
}

/// Every row's gate and up, joined.
proof fn lemma_joined<T>(
    ops: Ops<T>,
    m: Memory<T>,
    p: Prog,
    f: FfnShape,
    weight: usize,
    x: Shared,
    rows: usize,
)
    requires
        ops.wf(),
        f.sized(rows),
        fits_together(f),
        weight + 2 <= usize::MAX,
        p.bufs + 8 <= usize::MAX,
        p.acts + 8 <= usize::MAX,
        below(x.x, p.bufs),
        x.act matches Some(ActReg::Made(t)) ==> t < p.acts,
    ensures
        ({
            let a = run(ops, m, p.calls);
            let width = f.down.in_dim;
            let joined = p.buf();
            let (q, g, u) = ffn::gated(p.taking(rows * width), f, weight, x, rows);
            let made = joining(p, f, weight, x, rows);
            let b = run(ops, m, made.calls);
            &&& same_but(a, b, p, joined)
            &&& b.bufs[joined].len() == rows * width
            &&& q.acts == p.acts
            &&& p.bufs + 1 <= made.bufs <= p.bufs + 3
            &&& made.acts <= p.acts + 1
            &&& g.buf != joined && u.buf != joined
            &&& !below(g.buf, p.bufs) && !below(u.buf, p.bufs)
            &&& forall|r: int|
                0 <= r < rows ==> #[trigger] joins(ops, a, b, f, weight, x, joined, r)
            &&& rows == 1 ==> b.acts[q.act()] == by_rows(
                b.bufs[joined],
                1,
                width as nat,
                ops.quantize,
            )
        }),
{
    broadcast use lemma_run_push;

    let a = run(ops, m, p.calls);
    let width = f.down.in_dim;
    let joined = p.buf();
    let start = p.taking(rows * width);
    let t = run(ops, m, start.calls);
    assert(t.bufs[joined].len() == rows * width);
    let (q, g, u) = ffn::gated(start, f, weight, x, rows);
    let c = run(ops, m, q.calls);
    let reads = reads_width(f);
    assert(c.bufs[joined] == t.bufs[joined]);
    // Gate and up of every row stand where their planes say.
    assert forall|r: int, i: int| 0 <= r < rows && 0 <= i < width implies ({
        let (gate, up) = gate_and_up(
            ops,
            f,
            weight,
            row(a.bufs[x.x], r, reads),
            a.copy(x.act, r, reads),
        );
        &&& #[trigger] c.bufs[g.buf][g.offset + r * g.pitch + i] == gate[i]
        &&& c.bufs[u.buf][u.offset + r * u.pitch + i] == up[i]
    }) by {
        let xr = row(a.bufs[x.x], r, reads);
        let copy = a.copy(x.act, r, reads);
        match f.gate_up {
            GateUpShape::Fused(both) => {
                let n = both.out_dim as int;
                lemma_at(r, i, n);
                lemma_at(r, width + i, n);
                assert(r * n + n <= rows * n) by (nonlinear_arith)
                    requires
                        r + 1 <= rows,
                        0 <= n,
                ;
                assert(0 <= r * n);
                assert(ops.project(
                    both.form,
                    weight,
                    xr,
                    a.copy(
                        if program::is_quantized(both) || program::is_raw(both) {
                            x.act
                        } else {
                            None
                        },
                        r,
                        reads,
                    ),
                ) == ops.project(both.form, weight, xr, copy));
            },
            GateUpShape::Split { gate, up } => {
                let n = width as int;
                lemma_at(r, i, n);
                assert(r * n + n <= rows * n) by (nonlinear_arith)
                    requires
                        r + 1 <= rows,
                        0 <= n,
                ;
                assert(0 <= r * n);
            },
        }
    }
    let made = joining(p, f, weight, x, rows);
    let b = run(ops, m, made.calls);
    assert forall|r: int| 0 <= r < rows implies #[trigger] joins(
        ops,
        a,
        b,
        f,
        weight,
        x,
        joined,
        r,
    ) by {
        let (gate, up) = gate_and_up(
            ops,
            f,
            weight,
            row(a.bufs[x.x], r, reads),
            a.copy(x.act, r, reads),
        );
        let want = hidden(ops, width, gate, up);
        let w = width as int;
        let value = if rows == 1 {
            |q: int| (ops.swiglu)(c.bufs[g.buf][g.offset + q], c.bufs[u.buf][u.offset + q])
        } else {
            |q: int|
                (ops.swiglu)(
                    c.bufs[g.buf][g.offset + q / w * g.pitch + q % w],
                    c.bufs[u.buf][u.offset + q / w * u.pitch + q % w],
                )
        };
        assert(1 * w == w);
        assert(b.bufs[joined] == contract::written(t.bufs[joined], rows * w, value));
        assert forall|i: int| 0 <= i < w implies value(r * w + i) == #[trigger] want[i] by {
            lemma_at(r, i, w);
            assert(c.bufs[g.buf][g.offset + r * g.pitch + i] == gate[i]);
            if rows == 1 {
                assert(r == 0);
                assert(0 * w == 0 && 0 * g.pitch == 0 && 0 * u.pitch == 0);
            }
        }
        lemma_written_row(t.bufs[joined], rows as int, w, value, want, r);
    }
}

/// The feed-forward adds to each row of its target `down(silu(gate(x)) * up(x))`
/// of that row of its input, and touches nothing else that was there.
pub proof fn a_feed_forward_computes<T>(
    ops: Ops<T>,
    m: Memory<T>,
    p: Prog,
    f: FfnShape,
    weight: usize,
    x: Shared,
    rows: usize,
    dest: Reg,
)
    requires
        ops.wf(),
        f.sized(rows),
        fits_together(f),
        weight + 2 <= usize::MAX,
        p.bufs + 16 <= usize::MAX,
        p.acts + 16 <= usize::MAX,
        below(x.x, p.bufs),
        below(dest, p.bufs),
        x.act matches Some(ActReg::Made(t)) ==> t < p.acts,
        run(ops, m, p.calls).bufs[dest].len() >= rows * f.down.out_dim,
    ensures
        ({
            let a = run(ops, m, p.calls);
            let b = run(ops, m, ffn::feeding(p, f, weight, x, rows, dest).calls);
            &&& same_but(a, b, p, dest)
            &&& b.bufs[dest] == added(
                ops,
                a.bufs[dest],
                rows,
                f.down.out_dim,
                |r: int|
                    fed(
                        ops,
                        f,
                        weight,
                        row(a.bufs[x.x], r, reads_width(f)),
                        a.copy(x.act, r, reads_width(f)),
                    ),
            )
        }),
{
    let a = run(ops, m, p.calls);
    let width = f.down.in_dim;
    let down = (weight + 2) as usize;
    let joined = p.buf();
    let (q, g, u) = ffn::gated(p.taking(rows * width), f, weight, x, rows);
    let made = joining(p, f, weight, x, rows);
    lemma_joined(ops, m, p, f, weight, x, rows);
    let b = run(ops, m, made.calls);
    let ready = ffn::releasing(made, g.buf, u.buf);
    let c = run(ops, m, ready.calls);
    assert(same_but(a, c, p, joined) && c.bufs[joined] == b.bufs[joined] && c.acts == b.acts) by {
        broadcast use lemma_run_push;

    }
    assert(c.bufs[dest] == a.bufs[dest]);
    let last = if rows == 1 {
        program::adding_with(ready, f.down, down, joined, Some(q.act()), rows, dest)
    } else {
        program::adding(ready, f.down, down, joined, rows, dest)
    };
    if rows == 1 {
        assert forall|r: int| 0 <= r < rows implies #[trigger] row(
            c.acts[q.act()],
            r,
            width as int,
        ) == (ops.quantize)(row(c.bufs[joined], r, width as int)) by {
            lemma_by_rows(c.bufs[joined], 1, width as nat, ops.quantize, r);
        }
        an_addition_with_a_copy_computes(
            ops,
            m,
            ready,
            f.down,
            down,
            joined,
            q.act(),
            rows,
            dest,
        );
    } else {
        an_addition_computes(ops, m, ready, f.down, down, joined, rows, dest);
    }
    let d = run(ops, m, last.calls);
    lemma_run_push(ops, m, last.calls, Call::Release { buf: joined, guards: 0 });
    let e = run(ops, m, ffn::feeding(p, f, weight, x, rows, dest).calls);
    let want = added(
        ops,
        a.bufs[dest],
        rows,
        f.down.out_dim,
        |r: int|
            fed(
                ops,
                f,
                weight,
                row(a.bufs[x.x], r, reads_width(f)),
                a.copy(x.act, r, reads_width(f)),
            ),
    );
    assert(e.bufs[dest] == d.bufs[dest]);
    assert forall|k: int| 0 <= k < rows * f.down.out_dim implies #[trigger] d.bufs[dest][k]
        == want[k] by {
        lemma_place(k, rows as int, f.down.out_dim as int);
        let r = k / f.down.out_dim as int;
        assert(joins(ops, a, b, f, weight, x, joined, r));
    }
    assert(d.bufs[dest] =~= want);
}

/// A projection writes to each row of its target the weight's output for that row
/// of its input, and touches nothing else that was there.
pub proof fn a_projection_computes<T>(
    ops: Ops<T>,
    m: Memory<T>,
    p: Prog,
    s: Shape,
    weight: usize,
    x: Reg,
    act: Option<ActReg>,
    rows: usize,
    out: Reg,
)
    requires
        ops.wf(),
        program::sized(s, rows),
        p.bufs < usize::MAX,
        p.acts < usize::MAX,
        below(x, p.bufs),
        below(out, p.bufs),
        act matches Some(ActReg::Made(t)) ==> t < p.acts,
        run(ops, m, p.calls).bufs[x].len() >= rows * s.in_dim,
    ensures
        ({
            let a = run(ops, m, p.calls);
            let b = run(ops, m, program::projecting(p, s, weight, x, act, rows, out).calls);
            let f = |r: int|
                if s.rotation is Some {
                    ops.applied(s, weight, row(a.bufs[x], r, s.in_dim as int))
                } else {
                    ops.project(
                        s.form,
                        weight,
                        row(a.bufs[x], r, s.in_dim as int),
                        a.copy(act, r, s.in_dim as int),
                    )
                };
            &&& same_but(a, b, p, out)
            &&& b.bufs[out] == contract::written(
                a.bufs[out],
                rows * s.out_dim,
                |q: int| f(q / s.out_dim as int)[q % s.out_dim as int],
            )
        }),
{
    broadcast use lemma_run_push;

    let a = run(ops, m, p.calls);
    let b = run(ops, m, program::projecting(p, s, weight, x, act, rows, out).calls);
    let f = |r: int|
        if s.rotation is Some {
            ops.applied(s, weight, row(a.bufs[x], r, s.in_dim as int))
        } else {
            ops.project(
                s.form,
                weight,
                row(a.bufs[x], r, s.in_dim as int),
                a.copy(act, r, s.in_dim as int),
            )
        };
    let want = contract::written(
        a.bufs[out],
        rows * s.out_dim,
        |q: int| f(q / s.out_dim as int)[q % s.out_dim as int],
    );
    if s.rotation is Some {
        let (q, input) = program::sharing(p, s, weight, x, None, rows);
        lemma_sharing(ops, m, p, s, weight, x, rows);
        let t = run(ops, m, q.calls);
        assert(t.bufs[out] == a.bufs[out]);
        assert forall|k: int| 0 <= k < a.bufs[out].len() implies #[trigger] b.bufs[out][k]
            == want[k] by {
            if k < rows * s.out_dim {
                lemma_place(k, rows as int, s.out_dim as int);
                assert(readies(ops, a, t, s, weight, x, input, k / s.out_dim as int));
            }
        }
    }
    assert(b.bufs[out] =~= want);
}

/// A row times a dense weight, as the host multiplies: output `j` is the row
/// dotted with column `j`.
pub open spec fn product<T, P: Fn(T, T) -> T, M: Fn(T, T) -> T, Z: Fn(T) -> bool>(
    plus: P,
    times: M,
    is_zero: Z,
    zero: T,
    l: Linear<T>,
    x: Seq<T>,
) -> Seq<T> {
    Seq::new(
        l.out_dim as nat,
        |j: int|
            contract::projected(
                plus,
                times,
                is_zero,
                zero,
                x,
                l.weight->Dense_0@,
                l.out_dim as int,
                j,
                l.in_dim as nat,
            ),
    )
}

/// Dotting with equal columns gives equal sums.
proof fn lemma_same_column<T, P: Fn(T, T) -> T, M: Fn(T, T) -> T, Z: Fn(T) -> bool>(
    plus: P,
    times: M,
    is_zero: Z,
    zero: T,
    x: Seq<T>,
    a: Seq<T>,
    a_cols: int,
    i: int,
    b: Seq<T>,
    b_cols: int,
    j: int,
    n: nat,
)
    requires
        forall|p: int| 0 <= p < n ==> a[#[trigger] (p * a_cols) + i] == b[p * b_cols + j],
    ensures
        contract::projected(plus, times, is_zero, zero, x, a, a_cols, i, n) == contract::projected(
            plus,
            times,
            is_zero,
            zero,
            x,
            b,
            b_cols,
            j,
            n,
        ),
    decreases n,
{
    if n > 0 {
        lemma_same_column(
            plus,
            times,
            is_zero,
            zero,
            x,
            a,
            a_cols,
            i,
            b,
            b_cols,
            j,
            (n - 1) as nat,
        );
        let p = n - 1;
        assert(a[(p * a_cols) + i] == b[p * b_cols + j]);
    }
}

/// Two weights stacked fit together with what reads them, padded or not.
proof fn lemma_two_stacked<T>(
    gate: Linear<T>,
    up: Linear<T>,
    zero: T,
    narrow: bool,
    both: Linear<T>,
)
    requires
        linear::fuses(seq![&gate, &up], Seq::empty(), zero, narrow, Ok(both)),
    ensures
        ({
            let widths = linear::widths_of(seq![&gate, &up]);
            &&& linear::total(widths.take(0)) == 0
            &&& linear::total(widths.take(1)) == gate.out_dim
            &&& linear::total(widths) == gate.out_dim + up.out_dim
        }),
        gate.out_dim + up.out_dim <= both.out_dim,
        both.in_dim == gate.in_dim,
{
    let parts = seq![&gate, &up];
    let widths = linear::widths_of(parts);
    assert(widths =~= seq![gate.out_dim as nat, up.out_dim as nat]);
    reveal_with_fuel(linear::total, 3);
    assert(widths.take(0) =~= Seq::empty());
    assert(widths.take(1) =~= seq![gate.out_dim as nat]);
    assert(widths.take(1).drop_last() =~= Seq::empty());
    assert(widths.drop_last() =~= widths.take(1));
}

/// A stacked dense gate and up give what the two give apart, however the stack is
/// padded.
pub proof fn a_dense_stack_is_its_parts<
    T,
    P: Fn(T, T) -> T,
    M: Fn(T, T) -> T,
    Z: Fn(T) -> bool,
>(
    ops: Ops<T>,
    plus: P,
    times: M,
    is_zero: Z,
    zero: T,
    gate: Linear<T>,
    up: Linear<T>,
    both: Linear<T>,
    narrow: bool,
    f: FfnShape,
    weight: usize,
    x: Seq<T>,
    copy: Option<Seq<T>>,
)
    requires
        gate.wf(),
        up.wf(),
        gate.weight is Dense,
        up.weight is Dense,
        gate.out_dim == up.out_dim,
        linear::fuses(seq![&gate, &up], Seq::empty(), zero, narrow, Ok(both)),
        f.gate_up == GateUpShape::Fused(program::shape_of(both)),
        f.down.in_dim == gate.out_dim,
        (ops.dense)(weight, x) == product(plus, times, is_zero, zero, both, x),
    ensures
        fits_together(f),
        gate_and_up(ops, f, weight, x, copy) == (
            product(plus, times, is_zero, zero, gate, x),
            product(plus, times, is_zero, zero, up, x),
        ),
{
    let parts = seq![&gate, &up];
    let none = Seq::<Vec<T>>::empty();
    lemma_two_stacked(gate, up, zero, narrow, both);
    assert(parts[0] == &gate && parts[1] == &up);
    assert(!linear::uniform(parts));
    assert(linear::decodes_whole(parts, none));
    let (g, u) = gate_and_up(ops, f, weight, x, copy);
    let width = gate.out_dim as int;
    let data = both.weight->Dense_0@;
    assert forall|j: int| 0 <= j < width implies g[j] == product(
        plus,
        times,
        is_zero,
        zero,
        gate,
        x,
    )[j] by {
        linear::a_fused_output_is_its_parts(parts, none, zero, narrow, both, 0, j);
        assert forall|p: int| 0 <= p < gate.in_dim implies data[#[trigger] (p * both.out_dim) + j]
            == gate.weight->Dense_0@[p * gate.out_dim + j] by {
            assert(linear::dense_parts(parts, none)[0] == gate.weight->Dense_0@);
        }
        lemma_same_column(
            plus,
            times,
            is_zero,
            zero,
            x,
            data,
            both.out_dim as int,
            j,
            gate.weight->Dense_0@,
            width,
            j,
            gate.in_dim as nat,
        );
    }
    assert forall|j: int| 0 <= j < width implies u[j] == product(
        plus,
        times,
        is_zero,
        zero,
        up,
        x,
    )[j] by {
        linear::a_fused_output_is_its_parts(parts, none, zero, narrow, both, 1, j);
        assert(up.in_dim == gate.in_dim) by {
            assert(linear::share_input(parts));
        }
        assert forall|p: int| 0 <= p < gate.in_dim implies data[#[trigger] (p * both.out_dim) + (
        width + j)] == up.weight->Dense_0@[p * up.out_dim + j] by {
            assert(linear::dense_parts(parts, none)[1] == up.weight->Dense_0@);
        }
        lemma_same_column(
            plus,
            times,
            is_zero,
            zero,
            x,
            data,
            both.out_dim as int,
            width + j,
            up.weight->Dense_0@,
            width,
            j,
            gate.in_dim as nat,
        );
    }
    assert(g =~= product(plus, times, is_zero, zero, gate, x));
    assert(u =~= product(plus, times, is_zero, zero, up, x));
}

/// A gate and up stacked in their blocks give what the two give apart, where an
/// output is a function of its own blocks.
pub proof fn a_stack_of_blocks_is_its_parts<T>(
    ops: Ops<T>,
    output: spec_fn(Seq<u8>, Seq<T>, Option<Seq<T>>) -> T,
    gate: Linear<T>,
    up: Linear<T>,
    both: Linear<T>,
    zero: T,
    narrow: bool,
    f: FfnShape,
    weight: usize,
    x: Seq<T>,
    copy: Option<Seq<T>>,
)
    requires
        gate.wf(),
        up.wf(),
        linear::uniform(seq![&gate, &up]),
        gate.out_dim == up.out_dim,
        linear::fuses(seq![&gate, &up], Seq::empty(), zero, narrow, Ok(both)),
        f.gate_up == GateUpShape::Fused(program::shape_of(both)),
        f.down.in_dim == gate.out_dim,
        forall|o: int|
            0 <= o < both.out_dim ==> #[trigger] ops.project(
                program::form_of(both),
                weight,
                x,
                copy,
            )[o] == output(both.weight->Quant_0.row(o), x, copy),
    ensures
        fits_together(f),
        gate_and_up(ops, f, weight, x, copy) == (
            Seq::new(
                gate.out_dim as nat,
                |o: int| output(gate.weight->Quant_0.row(o), x, copy),
            ),
            Seq::new(up.out_dim as nat, |o: int| output(up.weight->Quant_0.row(o), x, copy)),
        ),
{
    let parts = seq![&gate, &up];
    let none = Seq::<Vec<T>>::empty();
    lemma_two_stacked(gate, up, zero, narrow, both);
    assert(parts[0] == &gate && parts[1] == &up);
    let (g, u) = gate_and_up(ops, f, weight, x, copy);
    let width = gate.out_dim as int;
    let out = ops.project(program::form_of(both), weight, x, copy);
    assert forall|o: int| 0 <= o < width implies g[o] == output(gate.weight->Quant_0.row(o), x, copy)
        && u[o] == output(up.weight->Quant_0.row(o), x, copy) by {
        linear::a_fused_output_is_its_parts(parts, none, zero, narrow, both, 0, o);
        linear::a_fused_output_is_its_parts(parts, none, zero, narrow, both, 1, o);
        assert(out[o] == output(both.weight->Quant_0.row(o), x, copy));
        assert(out[width + o] == output(
            both.weight->Quant_0.row(width + o),
            x,
            copy,
        ));
    }
    assert(g =~= Seq::new(gate.out_dim as nat, |o: int| output(gate.weight->Quant_0.row(o), x, copy)));
    assert(u =~= Seq::new(up.out_dim as nat, |o: int| output(up.weight->Quant_0.row(o), x, copy)));
}

/// The router's scores for a row.
pub open spec fn scores<T>(
    ops: Ops<T>,
    m: MoeShape,
    x: Seq<T>,
    copy: Option<Seq<T>>,
) -> Seq<T> {
    let out = ops.project(m.router.form, 0, x, copy);
    Seq::new(m.router.out_dim as nat, |i: int| out[i])
}

/// The shared expert's output for a row, from zero.
pub open spec fn shared_row<T>(
    ops: Ops<T>,
    m: MoeShape,
    x: Seq<T>,
    copy: Option<Seq<T>>,
) -> Seq<T> {
    let out = fed(ops, m.shared, 1, x, copy);
    Seq::new(m.shared.down.out_dim as nat, |i: int| (ops.plus)(ops.zero, out[i]))
}

/// What the routed feed-forward adds to a row: the experts its scores choose,
/// combined with the gated shared expert.
pub open spec fn routed_row<T>(
    ops: Ops<T>,
    m: MoeShape,
    x: Seq<T>,
    copy: Option<Seq<T>>,
) -> Seq<T> {
    (ops.experts)(x, copy, scores(ops, m, x, copy), shared_row(ops, m, x, copy), (ops.gate)(x))
}

/// The router, the shared expert and the experts read rows of one width and write
/// rows of that width.
pub open spec fn routes_together(m: MoeShape) -> bool {
    &&& fits_together(m.shared)
    &&& reads_width(m.shared) == m.router.in_dim
    &&& m.shared.down.out_dim == m.router.in_dim
    &&& m.router.out_dim == m.n_expert
}

/// The routed feed-forward adds to each row of its target what its experts give
/// for that row of its input, lists the experts chosen where asked, and touches
/// nothing else that was there.
pub proof fn a_routed_feed_forward_computes<T>(
    ops: Ops<T>,
    m: Memory<T>,
    p: Prog,
    f: MoeShape,
    x: Shared,
    rows: usize,
    dest: Reg,
    routes: Option<Buf>,
)
    requires
        ops.wf(),
        program::sized(f.router, rows),
        f.shared.sized(rows),
        routes_together(f),
        p.bufs + 32 <= usize::MAX,
        p.acts + 32 <= usize::MAX,
        below(x.x, p.bufs),
        below(dest, p.bufs),
        x.act matches Some(ActReg::Made(t)) ==> t < p.acts,
        routes matches Some(list) ==> dest != Reg::Given(list),
    ensures
        ({
            let a = run(ops, m, p.calls);
            let b = run(ops, m, moe::routing(p, f, x, rows, dest, routes).calls);
            let width = f.router.in_dim;
            &&& forall|reg: Reg|
                below(reg, p.bufs) && reg != dest && (routes matches Some(list) ==> reg
                    != Reg::Given(list)) ==> #[trigger] b.bufs[reg] == a.bufs[reg]
            &&& b.bufs[dest] == added(
                ops,
                a.bufs[dest],
                rows,
                width,
                |r: int|
                    routed_row(
                        ops,
                        f,
                        row(a.bufs[x.x], r, width as int),
                        a.copy(x.act, r, width as int),
                    ),
            )
            &&& routes matches Some(list) ==> b.bufs[Reg::Given(list)] == contract::written(
                a.bufs[Reg::Given(list)],
                rows * f.n_used,
                |q: int|
                    (ops.chosen)(
                        scores(
                            ops,
                            f,
                            row(a.bufs[x.x], q / f.n_used as int, width as int),
                            a.copy(x.act, q / f.n_used as int, width as int),
                        ),
                        f.n_used as nat,
                    )[q % f.n_used as int],
            )
        }),
{
    let a = run(ops, m, p.calls);
    let width = f.router.in_dim;
    let w = width as int;
    let n = f.n_expert as int;
    let logits = p.buf();
    let scored = moe::routed(p, f, x, rows);
    let t = run(ops, m, scored.calls);
    assert(scored.bufs == p.bufs + 1 && scored.acts == p.acts);
    assert(same_but(a, t, p, logits) && t.bufs[logits].len() == rows * n) by {
        broadcast use lemma_run_push;

    }
    assert forall|r: int| 0 <= r < rows implies #[trigger] row(t.bufs[logits], r, n) == scores(
        ops,
        f,
        row(a.bufs[x.x], r, w),
        a.copy(x.act, r, w),
    ) by {
        broadcast use lemma_run_push;

        let want = scores(ops, f, row(a.bufs[x.x], r, w), a.copy(x.act, r, w));
        let copies = if program::is_quantized(f.router) || program::is_raw(f.router) {
            x.act
        } else {
            None
        };
        let value = |q: int|
            ops.project(f.router.form, 0, row(a.bufs[x.x], q / n, w), a.copy(copies, q / n, w))[q
                % n];
        assert forall|i: int| 0 <= i < n implies value(r * n + i) == #[trigger] want[i] by {
            lemma_at(r, i, n);
        }
        let start = (ops.fresh)((rows * n) as nat);
        lemma_written_row(start, rows as int, n, value, want, r);
        assert(t.bufs[logits] =~= contract::written(start, rows * n, value));
    }
    let shared = scored.buf();
    let zeroed = scored.zeroing(rows * width);
    let z = run(ops, m, zeroed.calls);
    assert(z == t.hold(shared, Seq::new((rows * width) as nat, |q: int| ops.zero))) by {
        broadcast use lemma_run_push;

    }
    let done = ffn::feeding(zeroed, f.shared, 1, x, rows, shared);
    a_feed_forward_computes(ops, m, zeroed, f.shared, 1, x, rows, shared);
    let u = run(ops, m, done.calls);
    assert(u.bufs[logits] == t.bufs[logits]);
    assert(u.bufs[x.x] == a.bufs[x.x]);
    assert(u.bufs[dest] == a.bufs[dest]);
    assert forall|r: int| 0 <= r < rows implies #[trigger] row(u.bufs[shared], r, w) == shared_row(
        ops,
        f,
        row(a.bufs[x.x], r, w),
        a.copy(x.act, r, w),
    ) by {
        let want = shared_row(ops, f, row(a.bufs[x.x], r, w), a.copy(x.act, r, w));
        let value = |q: int|
            (ops.plus)(
                z.bufs[shared][q],
                fed(ops, f.shared, 1, row(z.bufs[x.x], q / w, w), z.copy(x.act, q / w, w))[q % w],
            );
        assert(0 <= r * w && r * w + w <= rows * w) by (nonlinear_arith)
            requires
                0 <= r,
                r + 1 <= rows,
                0 <= w,
        ;
        assert forall|i: int| 0 <= i < w implies value(r * w + i) == #[trigger] want[i] by {
            lemma_at(r, i, w);
        }
        lemma_written_row(z.bufs[shared], rows as int, w, value, want, r);
        assert(u.bufs[shared] =~= contract::written(z.bufs[shared], rows * w, value));
    }
    moe::lemma_feeding_numbers(zeroed, f.shared, 1, x, rows, shared);
    let gate = done.buf();
    assert(done.bufs >= zeroed.bufs) by {
        lemma_feeding_counts(zeroed, f.shared, 1, x, rows, shared);
    }
    let gated = done.taking(rows as int).then_call(
        Call::Gate { x: x.x, rows, width, out: gate },
    );
    let v = run(ops, m, gated.calls);
    assert(v.bufs[logits] == u.bufs[logits] && v.bufs[shared] == u.bufs[shared] && v.bufs[x.x]
        == u.bufs[x.x] && v.bufs[dest] == u.bufs[dest] && v.acts == u.acts && same_but(
        u,
        v,
        done,
        gate,
    )) by {
        broadcast use lemma_run_push;

    }
    assert forall|r: int| 0 <= r < rows implies #[trigger] v.bufs[gate][r] == (ops.gate)(
        row(a.bufs[x.x], r, w),
    ) by {
        broadcast use lemma_run_push;

    }
    let call = Call::Experts {
        x: x.x,
        act: x.act,
        rows,
        d_model: width,
        d_ff: f.d_ff,
        logits,
        n_expert: f.n_expert,
        n_used: f.n_used,
        shared,
        gate,
        dest,
        routes,
    };
    let mixed = gated.then_call(call);
    lemma_run_push(ops, m, gated.calls, call);
    let e = run(ops, m, mixed.calls);
    let want = added(
        ops,
        a.bufs[dest],
        rows,
        width,
        |r: int| routed_row(ops, f, row(a.bufs[x.x], r, w), a.copy(x.act, r, w)),
    );
    assert forall|q: int| 0 <= q < a.bufs[dest].len() implies #[trigger] e.bufs[dest][q]
        == want[q] by {
        if q < rows * width {
            lemma_place(q, rows as int, w);
            let r = q / w;
            assert(row(t.bufs[logits], r, n) == scores(
                ops,
                f,
                row(a.bufs[x.x], r, w),
                a.copy(x.act, r, w),
            ));
            assert(row(u.bufs[shared], r, w) == shared_row(
                ops,
                f,
                row(a.bufs[x.x], r, w),
                a.copy(x.act, r, w),
            ));
            assert(v.bufs[gate][r] == (ops.gate)(row(a.bufs[x.x], r, w)));
            assert(v.copy(x.act, r, w) == a.copy(x.act, r, w));
        }
    }
    assert(e.bufs[dest] =~= want);
    if let Some(list) = routes {
        let given = Reg::Given(list);
        let k = f.n_used as int;
        let chosen = contract::written(
            a.bufs[given],
            rows * f.n_used,
            |q: int|
                (ops.chosen)(
                    scores(ops, f, row(a.bufs[x.x], q / k, w), a.copy(x.act, q / k, w)),
                    f.n_used as nat,
                )[q % k],
        );
        assert(v.bufs[given] == a.bufs[given]);
        assert forall|q: int| 0 <= q < a.bufs[given].len() implies #[trigger] e.bufs[given][q]
            == chosen[q] by {
            if q < rows * f.n_used {
                lemma_place(q, rows as int, k);
                assert(row(t.bufs[logits], q / k, n) == scores(
                    ops,
                    f,
                    row(a.bufs[x.x], q / k, w),
                    a.copy(x.act, q / k, w),
                ));
            }
        }
        assert(e.bufs[given] =~= chosen);
    }
    let b = run(ops, m, moe::routing(p, f, x, rows, dest, routes).calls);
    assert(b.bufs == e.bufs.remove(logits).remove(shared).remove(gate)) by {
        broadcast use lemma_run_push;

    }
}

/// A feed-forward only makes more buffers.
proof fn lemma_feeding_counts(
    p: Prog,
    f: FfnShape,
    weight: usize,
    x: Shared,
    rows: usize,
    dest: Reg,
)
    ensures
        ffn::feeding(p, f, weight, x, rows, dest).bufs >= p.bufs,
{
}

/// What a shared normalization leaves for the weights that read it: every row normalized,
/// as it is or through the weights' transform, and the quantized copy of that. The
/// normalized row itself is left too.
pub proof fn a_shared_normalization_computes<T>(
    ops: Ops<T>,
    m: Memory<T>,
    p: Prog,
    s: Shape,
    weight: usize,
    x: Reg,
    rows: usize,
    plain: Reg,
    r: int,
)
    requires
        ops.wf(),
        forall|y: Seq<T>| (#[trigger] (ops.norm)(y)).len() == y.len(),
        forall|n: nat| (#[trigger] (ops.fresh)(n)).len() == n,
        s.rotation matches Some(t) ==> t.width == s.in_dim,
        p.bufs < usize::MAX,
        p.acts < usize::MAX,
        rows * s.in_dim <= usize::MAX,
        below(plain, p.bufs),
        below(x, p.bufs),
        run(ops, m, p.calls).bufs[x].len() >= rows * s.in_dim,
        run(ops, m, p.calls).bufs[plain].len() == rows * s.in_dim,
        0 <= r < rows,
    ensures
        ({
            let (q, shared) = program::sharing_norm(p, s, weight, x, rows, plain);
            let (before, after) = (run(ops, m, p.calls), run(ops, m, q.calls));
            let w = s.in_dim as int;
            let normal = (ops.norm)(row(before.bufs[x], r, w));
            let ready = match s.rotation {
                None => normal,
                Some(t) => (ops.rotate)(weight, t.perm, normal),
            };
            &&& shared.rotation == s.rotation
            &&& row(after.bufs[plain], r, w) == normal
            &&& row(after.bufs[shared.x], r, w) == ready
            &&& shared.act matches Some(a) ==> row(after.acts[a], r, w) == (ops.quantize)(ready)
            &&& shared.act is None ==> !program::is_quantized(s) && !program::is_raw(s)
        }),
{
    broadcast use lemma_run_push;

    let w = s.in_dim as int;
    let before = run(ops, m, p.calls);
    assert(0 <= r * w && r * w + w <= rows * w) by (nonlinear_arith)
        requires
            0 <= r < rows,
            0 <= w,
    ;
    let normal = (ops.norm)(row(before.bufs[x], r, w));
    match s.rotation {
        None => {
            let n = normed(ops, before, x, rows, s.in_dim, plain);
            lemma_normed_row(ops, before, x, rows, s.in_dim, plain, r);
            lemma_by_rows(n.bufs[plain], rows as nat, w as nat, ops.quantize, r);
        },
        Some(t) => {
            let out = p.buf();
            if t.perm is None {
                let taken = run(ops, m, p.taking(rows * s.in_dim).calls);
                assert(taken.bufs[x] == before.bufs[x] && taken.bufs[plain] == before.bufs[plain]);
                let n = normed(ops, taken, x, rows, s.in_dim, plain);
                lemma_normed_row(ops, taken, x, rows, s.in_dim, plain, r);
                lemma_turned_row(ops, n, weight, None, plain, out, rows, s.in_dim, r);
                let turned = turned_into(ops, n, weight, None, plain, out, rows, s.in_dim);
                lemma_by_rows(turned.bufs[out], rows as nat, w as nat, ops.quantize, r);
            } else {
                let call = Call::Norm { x, rows, width: s.in_dim, out: plain };
                let n = normed(ops, before, x, rows, s.in_dim, plain);
                lemma_normed_row(ops, before, x, rows, s.in_dim, plain, r);
                let taken = run(ops, m, p.then_call(call).taking(rows * t.width).calls);
                assert(taken.bufs[plain] == n.bufs[plain]);
                lemma_turned_row(ops, taken, weight, t.perm, plain, out, rows, s.in_dim, r);
                let turned = turned_into(ops, taken, weight, t.perm, plain, out, rows, s.in_dim);
                lemma_by_rows(turned.bufs[out], rows as nat, w as nat, ops.quantize, r);
            }
        },
    }
}

/// Rows put through a weight's transform into a buffer.
pub open spec fn turned_into<T>(
    ops: Ops<T>,
    m: Memory<T>,
    weight: usize,
    perm: Option<HeadPerm>,
    x: Reg,
    out: Reg,
    rows: usize,
    width: usize,
) -> Memory<T> {
    m.write(
        out,
        rows * width,
        |q: int|
            (ops.rotate)(weight, perm, row(m.bufs[x], q / width as int, width as int))[q
                % width as int],
    )
}

proof fn lemma_normed_row<T>(
    ops: Ops<T>,
    m: Memory<T>,
    x: Reg,
    rows: usize,
    width: usize,
    out: Reg,
    r: int,
)
    requires
        forall|y: Seq<T>| (#[trigger] (ops.norm)(y)).len() == y.len(),
        0 <= r < rows,
        rows * width <= m.bufs[x].len(),
        rows * width <= m.bufs[out].len(),
    ensures
        row(normed(ops, m, x, rows, width, out).bufs[out], r, width as int) == (ops.norm)(
            row(m.bufs[x], r, width as int),
        ),
        normed(ops, m, x, rows, width, out).bufs[out].len() == m.bufs[out].len(),
{
    let w = width as int;
    contract::lemma_row(r, rows as int, w);
    let value = |q: int| (ops.norm)(row(m.bufs[x], q / w, w))[q % w];
    let want = (ops.norm)(row(m.bufs[x], r, w));
    assert forall|i: int| 0 <= i < w implies value(r * w + i) == #[trigger] want[i] by {
        div_mod::lemma_fundamental_div_mod_converse(r * w + i, w, r, i);
    }
    lemma_written_row(m.bufs[out], rows as int, w, value, want, r);
}

proof fn lemma_turned_row<T>(
    ops: Ops<T>,
    m: Memory<T>,
    weight: usize,
    perm: Option<HeadPerm>,
    x: Reg,
    out: Reg,
    rows: usize,
    width: usize,
    r: int,
)
    requires
        ops.wf(),
        0 <= r < rows,
        rows * width <= m.bufs[x].len(),
        rows * width <= m.bufs[out].len(),
    ensures
        row(
            turned_into(ops, m, weight, perm, x, out, rows, width).bufs[out],
            r,
            width as int,
        ) == (ops.rotate)(weight, perm, row(m.bufs[x], r, width as int)),
        turned_into(ops, m, weight, perm, x, out, rows, width).bufs[out].len()
            == m.bufs[out].len(),
{
    let w = width as int;
    contract::lemma_row(r, rows as int, w);
    let value = |q: int| (ops.rotate)(weight, perm, row(m.bufs[x], q / w, w))[q % w];
    let want = (ops.rotate)(weight, perm, row(m.bufs[x], r, w));
    assert forall|i: int| 0 <= i < w implies value(r * w + i) == #[trigger] want[i] by {
        div_mod::lemma_fundamental_div_mod_converse(r * w + i, w, r, i);
    }
    lemma_written_row(m.bufs[out], rows as int, w, value, want, r);
}

} // verus!
