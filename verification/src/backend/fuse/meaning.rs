//! What a chain computes: each stage's work over whole rows, and what the chains a
//! decode step builds leave in the caller's buffers.

use vstd::prelude::*;

use super::chains;
use super::emit::{self, Draft, Name, Step, Tune};
use super::{Bind, Shape, Stage, Val};
use crate::backend::{Buf, FusedMix, FusedProject, ProjRun, ProjWeight, QBuf, RawBuf};
use crate::layers::ffn::{FfnShape, GateUpShape};
use crate::layers::meaning::{self, Ops};
use crate::layers::program::Form;

verus! {

/// The operations a kernel's stages come to, over whole rows.
#[verifier::reject_recursive_types(T)]
pub ghost struct Work<T> {
    /// A row normalized with a gain and an epsilon, by its bit pattern.
    pub norm: spec_fn(Seq<T>, Seq<T>, u32) -> Seq<T>,
    /// A row's quantized copy.
    pub quantize: spec_fn(Seq<T>) -> Seq<T>,
    /// A row of a weight against a quantized row.
    pub dot: spec_fn(Seq<T>, Seq<T>) -> T,
    pub silu: spec_fn(T) -> T,
    pub times: spec_fn(T, T) -> T,
    pub plus: spec_fn(T, T) -> T,
    /// The rows of each weight there is.
    pub weights: spec_fn(QBuf) -> Seq<Seq<T>>,
    pub raws: spec_fn(RawBuf) -> Seq<Seq<T>>,
    /// A channel's taps over the positions of a stream, activated: the stream, the
    /// taps, the elements of a position, how many taps there are, and the channel.
    pub convolve: spec_fn(Seq<T>, Seq<T>, int, int, int) -> T,
    /// What divides a row by its length, from its scale and the row. The scale is
    /// none for a key.
    pub length: spec_fn(Option<u32>, Seq<T>) -> T,
    /// A scale as a number.
    pub scale: spec_fn(Option<u32>) -> T,
    /// A decay, from the head's rate, its projection and the head's bias.
    pub decay: spec_fn(T, T, T) -> T,
    pub sigmoid: spec_fn(T) -> T,
}

/// What the caller's buffers hold, and what the chain's own values do.
pub ghost struct Store<T> {
    pub bufs: Map<Buf, Seq<T>>,
    pub own: Map<int, Seq<T>>,
}

impl<T> Store<T> {
    /// A value's row.
    pub open spec fn read(self, binds: Seq<Bind>, v: Val) -> Seq<T> {
        match binds[v.0 as int] {
            Bind::Given(buf) => self.bufs[buf],
            _ => self.own[v.0 as int],
        }
    }

    /// The store with a value holding another row.
    pub open spec fn write(self, binds: Seq<Bind>, v: Val, row: Seq<T>) -> Store<T> {
        match binds[v.0 as int] {
            Bind::Given(buf) => Store { bufs: self.bufs.insert(buf, row), ..self },
            _ => Store { own: self.own.insert(v.0 as int, row), ..self },
        }
    }
}

impl<T> Work<T> {
    /// The rows of a weight.
    pub open spec fn rows(self, binds: Seq<Bind>, w: Val) -> Seq<Seq<T>> {
        match binds[w.0 as int] {
            Bind::Weight(q) => (self.weights)(q),
            Bind::Raw(r) => (self.raws)(r),
            _ => Seq::empty(),
        }
    }

    /// `n` outputs of a weight from one of its rows on.
    pub open spec fn outputs(self, rows: Seq<Seq<T>>, from: int, n: int, a: Seq<T>) -> Seq<T> {
        Seq::new(n as nat, |i: int| (self.dot)(rows[from + i], a))
    }

    /// What a convolution makes of one head of one plane.
    pub open spec fn head_row(
        self,
        history: Seq<T>,
        taps: Seq<T>,
        channels: int,
        kernel: int,
        column: int,
        dim: int,
    ) -> Seq<T> {
        Seq::new(
            dim as nat,
            |d: int| (self.convolve)(history, taps, channels, kernel, column + d),
        )
    }
}

/// A row with some of its elements replaced.
pub open spec fn over<T>(row: Seq<T>, at: int, part: Seq<T>) -> Seq<T> {
    Seq::new(
        row.len(),
        |p: int|
            if at <= p < at + part.len() {
                part[p - at]
            } else {
                row[p]
            },
    )
}

/// What a stage leaves.
pub open spec fn after_stage<T>(
    o: Work<T>,
    binds: Seq<Bind>,
    s: Store<T>,
    stage: Stage,
) -> Store<T> {
    match stage {
        Stage::NormQ { x, gain, out, width, eps_bits } => s.write(
            binds,
            out,
            (o.quantize)((o.norm)(s.read(binds, x), s.read(binds, gain), eps_bits)),
        ),
        Stage::ProjQ { a, w, out, units, row_off } => s.write(
            binds,
            out,
            o.outputs(o.rows(binds, w), row_off as int, units * 32, s.read(binds, a)),
        ),
        Stage::ProjRaw { a, w, out, units, row_off } => s.write(
            binds,
            out,
            o.outputs(o.rows(binds, w), row_off as int, units * 64, s.read(binds, a)),
        ),
        Stage::ProjF { a, w, out, out_off, units, row_off } => s.write(
            binds,
            out,
            over(
                s.read(binds, out),
                out_off as int,
                o.outputs(o.rows(binds, w), row_off as int, units * 32, s.read(binds, a)),
            ),
        ),
        // Whole units, or the one that finishes a run.
        Stage::ProjRawF { a, w, out, out_off, units, width, row_off } => s.write(
            binds,
            out,
            over(
                s.read(binds, out),
                out_off as int,
                o.outputs(o.rows(binds, w), row_off as int, units * width, s.read(binds, a)),
            ),
        ),
        Stage::Swiglu { g, u, out } => {
            let (gate, up) = (s.read(binds, g), s.read(binds, u));
            s.write(
                binds,
                out,
                Seq::new(gate.len(), |i: int| (o.times)((o.silu)(gate[i]), up[i])),
            )
        },
        Stage::QuantQ { h, out, units, blocks } => s.write(
            binds,
            out,
            (o.quantize)(s.read(binds, h)),
        ),
        Stage::ProjAdd { a, w, y, width } => s.write(
            binds,
            y,
            added(o, s.read(binds, y), width as int / 8 * 8, o.rows(binds, w), s.read(binds, a)),
        ),
        Stage::ProjAddRaw { a, w, y, width } => s.write(
            binds,
            y,
            added(o, s.read(binds, y), width as int / 64 * 64, o.rows(binds, w), s.read(binds, a)),
        ),
        Stage::Conv {
            history,
            taps,
            out,
            planes,
            heads,
            head_dim,
            kernel,
            channels,
            plane_base,
            plane_stride,
            head_stride,
            normalize,
            scale_bits,
        } => {
            let (x, w) = (s.read(binds, history), s.read(binds, taps));
            let part = Seq::new(
                (planes * heads * head_dim) as nat,
                |p: int|
                    {
                        let (unit, d) = (p / head_dim as int, p % head_dim as int);
                        let (plane, h) = (unit / heads as int, unit % heads as int);
                        let column = plane_base + plane * plane_stride + h * head_stride;
                        let row = o.head_row(
                            x,
                            w,
                            channels as int,
                            kernel as int,
                            column,
                            head_dim as int,
                        );
                        let scale = if plane == 0 {
                            Some(scale_bits)
                        } else {
                            None
                        };
                        if plane == 2 {
                            row[d]
                        } else if normalize {
                            (o.times)(row[d], (o.length)(scale, row))
                        } else {
                            (o.times)(row[d], (o.scale)(scale))
                        }
                    },
            );
            s.write(binds, out, over(s.read(binds, out), 0, part))
        },
        Stage::Gates { raw, decay_at, beta_at, rate, bias, out, heads, units, span } => {
            let r = s.read(binds, raw);
            let (rates, biases) = (s.read(binds, rate), s.read(binds, bias));
            let part = Seq::new(
                (2 * heads) as nat,
                |i: int|
                    if i < heads {
                        (o.decay)(rates[i], r[decay_at + i], biases[i])
                    } else {
                        (o.sigmoid)(r[beta_at + (i - heads)])
                    },
            );
            s.write(binds, out, over(s.read(binds, out), 3 * span, part))
        },
    }
}

/// A row with a weight's outputs added to its first `n` elements.
pub open spec fn added<T>(o: Work<T>, y: Seq<T>, n: int, rows: Seq<Seq<T>>, a: Seq<T>) -> Seq<T> {
    Seq::new(
        y.len(),
        |i: int|
            if i < n {
                (o.plus)(y[i], (o.dot)(rows[i], a))
            } else {
                y[i]
            },
    )
}

/// What stages leave, one after the other.
pub open spec fn after_stages<T>(
    o: Work<T>,
    binds: Seq<Bind>,
    s: Store<T>,
    stages: Seq<Stage>,
) -> Store<T>
    decreases stages.len(),
{
    if stages.len() == 0 {
        s
    } else {
        after_stage(o, binds, after_stages(o, binds, s, stages.drop_last()), stages.last())
    }
}

/// One more stage.
proof fn lemma_next<T>(o: Work<T>, binds: Seq<Bind>, s: Store<T>, stages: Seq<Stage>, n: int)
    requires
        0 <= n < stages.len(),
    ensures
        after_stages(o, binds, s, stages.take(n + 1)) == after_stage(
            o,
            binds,
            after_stages(o, binds, s, stages.take(n)),
            stages[n],
        ),
{
    assert(stages.take(n + 1).drop_last() =~= stages.take(n));
    assert(stages.take(n + 1).last() == stages[n]);
}

/// A fused MLP leaves in the residual what it held and, added to it,
/// `down . quantize(silu(gate . n) * (up . n))`, where `n` is the residual normalized
/// and quantized, gate is the first `d_ff` rows of the stacked weight and up the `d_ff`
/// after them. No other buffer changes.
pub proof fn a_fused_mlp_computes<T>(
    o: Work<T>,
    s: Store<T>,
    x: Buf,
    gain: Buf,
    gate_up: QBuf,
    down: QBuf,
    d_model: usize,
    d_ff: usize,
    eps_bits: u32,
)
    requires
        d_ff % 32 == 0,
        s.bufs[x].len() == d_model,
    ensures
        ({
            let after = after_stages(
                o,
                chains::mlp_binds(x, gain, gate_up, down),
                s,
                chains::mlp_stages(d_model, d_ff, eps_bits),
            );
            let n = (o.quantize)((o.norm)(s.bufs[x], s.bufs[gain], eps_bits));
            let gate = |i: int| (o.dot)((o.weights)(gate_up)[i], n);
            let up = |i: int| (o.dot)((o.weights)(gate_up)[d_ff + i], n);
            let hidden = Seq::new(d_ff as nat, |i: int| (o.times)((o.silu)(gate(i)), up(i)));
            let h = (o.quantize)(hidden);
            &&& after.bufs[x].len() == d_model
            &&& forall|i: int|
                0 <= i < d_model as int / 8 * 8 ==> #[trigger] after.bufs[x][i] == (o.plus)(
                    s.bufs[x][i],
                    (o.dot)((o.weights)(down)[i], h),
                )
            &&& forall|b: Buf| b != x ==> #[trigger] after.bufs[b] == s.bufs[b]
        }),
{
    let binds = chains::mlp_binds(x, gain, gate_up, down);
    let stages = chains::mlp_stages(d_model, d_ff, eps_bits);
    let n = (o.quantize)((o.norm)(s.bufs[x], s.bufs[gain], eps_bits));
    let hidden = Seq::new(
        d_ff as nat,
        |i: int|
            (o.times)(
                (o.silu)((o.dot)((o.weights)(gate_up)[i], n)),
                (o.dot)((o.weights)(gate_up)[d_ff + i], n),
            ),
    );
    assert(stages.take(0) =~= Seq::empty());
    lemma_next(o, binds, s, stages, 0);
    let s1 = after_stages(o, binds, s, stages.take(1));
    assert(s1.own[2] == n);
    lemma_next(o, binds, s, stages, 1);
    lemma_next(o, binds, s, stages, 2);
    lemma_next(o, binds, s, stages, 3);
    let s3 = after_stages(o, binds, s, stages.take(3));
    let s4 = after_stages(o, binds, s, stages.take(4));
    assert(s3.own[4] == o.outputs((o.weights)(gate_up), 0, d_ff / 32 * 32, n));
    assert(s3.own[5] == o.outputs((o.weights)(gate_up), d_ff as int, d_ff / 32 * 32, n));
    assert(d_ff / 32 * 32 == d_ff);
    assert(s4.own[6] =~= hidden);
    lemma_next(o, binds, s, stages, 4);
    let s5 = after_stages(o, binds, s, stages.take(5));
    assert(s5.own[7] == (o.quantize)(hidden));
    assert(s5.bufs == s.bufs);
    lemma_next(o, binds, s, stages, 5);
    assert(stages.take(6) =~= stages);
    let gate = |i: int| (o.dot)((o.weights)(gate_up)[i], n);
    let up = |i: int| (o.dot)((o.weights)(gate_up)[d_ff + i], n);
    assert(hidden =~= Seq::new(d_ff as nat, |i: int| (o.times)((o.silu)(gate(i)), up(i))));
}

/// A fused MLP leaves in the residual what the feed-forward of separate calls adds to it,
/// of the normalized row and its quantized copy: `fed` of the layers, where their weights
/// in planes are those the chain is handed.
pub proof fn a_fused_mlp_is_the_feed_forward<T>(
    o: Work<T>,
    s: Store<T>,
    ops: Ops<T>,
    f: FfnShape,
    weight: usize,
    x: Buf,
    gain: Buf,
    gate_up: QBuf,
    down: QBuf,
    d_model: usize,
    d_ff: usize,
    eps_bits: u32,
    i: int,
)
    requires
        d_ff % 32 == 0,
        d_model % 8 == 0,
        s.bufs[x].len() == d_model,
        0 <= i < d_model,
        f.gate_up matches GateUpShape::Fused(both) && both.form == Form::Planes,
        f.down.form == Form::Planes,
        f.down.rotation is None,
        f.down.in_dim == d_ff,
        weight + 2 <= usize::MAX,
        ops.quantize == o.quantize,
        forall|g: T, u: T| #[trigger] (ops.swiglu)(g, u) == (o.times)((o.silu)(g), u),
        forall|a: Seq<T>|
            (#[trigger] (ops.planes)(weight, a)) == o.outputs(
                (o.weights)(gate_up),
                0,
                2 * d_ff,
                a,
            ),
        forall|a: Seq<T>|
            (#[trigger] (ops.planes)((weight + 2) as usize, a)) == o.outputs(
                (o.weights)(down),
                0,
                d_model as int,
                a,
            ),
    ensures
        ({
            let n = (o.norm)(s.bufs[x], s.bufs[gain], eps_bits);
            after_stages(
                o,
                chains::mlp_binds(x, gain, gate_up, down),
                s,
                chains::mlp_stages(d_model, d_ff, eps_bits),
            ).bufs[x][i] == (o.plus)(
                s.bufs[x][i],
                meaning::fed(ops, f, weight, n, Some((o.quantize)(n)))[i],
            )
        }),
{
    a_fused_mlp_computes(o, s, x, gain, gate_up, down, d_model, d_ff, eps_bits);
    let n = (o.norm)(s.bufs[x], s.bufs[gain], eps_bits);
    let c = (o.quantize)(n);
    let gate = |i: int| (o.dot)((o.weights)(gate_up)[i], c);
    let up = |i: int| (o.dot)((o.weights)(gate_up)[d_ff + i], c);
    let want = Seq::new(d_ff as nat, |i: int| (o.times)((o.silu)(gate(i)), up(i)));
    let (g, u) = meaning::gate_and_up(ops, f, weight, n, Some(c));
    assert forall|j: int| 0 <= j < d_ff implies #[trigger] want[j] == meaning::hidden(
        ops,
        f.down.in_dim,
        g,
        u,
    )[j] by {
        assert((ops.planes)(weight, c)[j] == gate(j));
        assert((ops.planes)(weight, c)[d_ff + j] == up(j));
    }
    assert(meaning::hidden(ops, f.down.in_dim, g, u) =~= want);
    assert(i < d_model as int / 8 * 8);
}

/// The same over raw weights, gate and up apart.
pub proof fn a_fused_raw_mlp_computes<T>(
    o: Work<T>,
    s: Store<T>,
    x: Buf,
    gain: Buf,
    gate: RawBuf,
    up: RawBuf,
    down: RawBuf,
    d_model: usize,
    d_ff: usize,
    eps_bits: u32,
)
    requires
        d_ff % 64 == 0,
        s.bufs[x].len() == d_model,
    ensures
        ({
            let after = after_stages(
                o,
                chains::mlp_raw_binds(x, gain, gate, up, down),
                s,
                chains::mlp_raw_stages(d_model, d_ff, eps_bits),
            );
            let n = (o.quantize)((o.norm)(s.bufs[x], s.bufs[gain], eps_bits));
            let hidden = Seq::new(
                d_ff as nat,
                |i: int|
                    (o.times)(
                        (o.silu)((o.dot)((o.raws)(gate)[i], n)),
                        (o.dot)((o.raws)(up)[i], n),
                    ),
            );
            let h = (o.quantize)(hidden);
            &&& after.bufs[x].len() == d_model
            &&& forall|i: int|
                0 <= i < d_model as int / 64 * 64 ==> #[trigger] after.bufs[x][i] == (o.plus)(
                    s.bufs[x][i],
                    (o.dot)((o.raws)(down)[i], h),
                )
            &&& forall|b: Buf| b != x ==> #[trigger] after.bufs[b] == s.bufs[b]
        }),
{
    let binds = chains::mlp_raw_binds(x, gain, gate, up, down);
    let stages = chains::mlp_raw_stages(d_model, d_ff, eps_bits);
    let n = (o.quantize)((o.norm)(s.bufs[x], s.bufs[gain], eps_bits));
    let hidden = Seq::new(
        d_ff as nat,
        |i: int|
            (o.times)((o.silu)((o.dot)((o.raws)(gate)[i], n)), (o.dot)((o.raws)(up)[i], n)),
    );
    assert(stages.take(0) =~= Seq::empty());
    lemma_next(o, binds, s, stages, 0);
    let s1 = after_stages(o, binds, s, stages.take(1));
    assert(s1.own[2] == n);
    lemma_next(o, binds, s, stages, 1);
    lemma_next(o, binds, s, stages, 2);
    lemma_next(o, binds, s, stages, 3);
    let s3 = after_stages(o, binds, s, stages.take(3));
    let s4 = after_stages(o, binds, s, stages.take(4));
    assert(s3.own[5] == o.outputs((o.raws)(gate), 0, d_ff / 64 * 64, n));
    assert(s3.own[6] == o.outputs((o.raws)(up), 0, d_ff / 64 * 64, n));
    assert(d_ff / 64 * 64 == d_ff);
    assert(s4.own[7] =~= hidden);
    lemma_next(o, binds, s, stages, 4);
    let s5 = after_stages(o, binds, s, stages.take(5));
    assert(s5.own[8] == (o.quantize)(hidden));
    assert(s5.bufs == s.bufs);
    lemma_next(o, binds, s, stages, 5);
    assert(stages.take(6) =~= stages);
}

/// The rows of the weight a run reads.
pub open spec fn rows_for<T>(o: Work<T>, project: FusedProject, run: ProjRun) -> Seq<Seq<T>> {
    match project.weights@[run.weight as int].0 {
        ProjWeight::Q8(w) => (o.weights)(w),
        ProjWeight::Raw(w, _) => (o.raws)(w),
    }
}

/// Whether a run writes an element of a buffer.
pub open spec fn covers(run: ProjRun, buf: Buf, p: int) -> bool {
    run.dst == buf && run.dst_off <= p < run.dst_off + run.width
}

/// Whether none of some runs does.
pub open spec fn clear(runs: Seq<ProjRun>, from: int, to: int, buf: Buf, p: int) -> bool {
    forall|j: int| from <= j < to ==> !covers(#[trigger] runs[j], buf, p)
}

/// The residual as a projection reads it: normalized and quantized.
pub open spec fn entering<T>(o: Work<T>, s: Store<T>, project: FusedProject) -> Seq<T> {
    (o.quantize)((o.norm)(s.bufs[project.x], s.bufs[project.gain], project.eps_bits))
}

/// Whether buffers hold what the first `n` runs of a projection put out: each element
/// the output of the last run that writes it, and the rest as it was.
pub open spec fn runs_done<T>(
    o: Work<T>,
    s: Store<T>,
    project: FusedProject,
    n: int,
    bufs: Map<Buf, Seq<T>>,
) -> bool {
    let a = entering(o, s, project);
    &&& forall|b: Buf| (#[trigger] bufs[b]).len() == s.bufs[b].len()
    &&& forall|i: int, b: Buf, p: int|
        0 <= i < n && 0 <= p < s.bufs[b].len() && #[trigger] covers(project.runs@[i], b, p)
            && clear(project.runs@, i + 1, n, b, p) ==> #[trigger] bufs[b][p] == (o.dot)(
            rows_for(o, project, project.runs@[i])[project.runs@[i].row_off + (p
                - project.runs@[i].dst_off)],
            a,
        )
    &&& forall|b: Buf, p: int|
        0 <= p < s.bufs[b].len() && clear(project.runs@, 0, n, b, p) ==> #[trigger] bufs[b][p]
            == s.bufs[b][p]
}

proof fn lemma_after_two<T>(
    o: Work<T>,
    binds: Seq<Bind>,
    s: Store<T>,
    first: Seq<Stage>,
    stage: Stage,
)
    ensures
        after_stages(o, binds, s, first + seq![stage]) == after_stage(
            o,
            binds,
            after_stages(o, binds, s, first),
            stage,
        ),
{
    assert((first + seq![stage]).drop_last() =~= first);
}

/// A run's stages put its outputs over its window, and touch nothing else.
proof fn lemma_run<T>(
    o: Work<T>,
    s: Store<T>,
    project: FusedProject,
    first: Seq<Stage>,
    n: int,
)
    requires
        chains::project_wf(project),
        0 <= n < project.runs@.len(),
        chains::run_fits(project, project.runs@[n]),
    ensures
        ({
            let binds = chains::project_binds(project);
            let act = (2 + chains::project_extents(project).len()) as int;
            let before = after_stages(o, binds, s, first);
            let run = project.runs@[n];
            let after = after_stages(o, binds, s, first + chains::run_stages(project, run));
            &&& after.own == before.own
            &&& after.bufs == before.bufs.insert(
                run.dst,
                over(
                    before.bufs[run.dst],
                    run.dst_off as int,
                    o.outputs(
                        rows_for(o, project, run),
                        run.row_off as int,
                        run.width as int,
                        before.own[act],
                    ),
                ),
            ) || run.width == 0 && after.bufs == before.bufs
        }),
{
    chains::lemma_project_extents(project);
    let extents = chains::project_extents(project);
    let binds = chains::project_binds(project);
    let act = 2 + extents.len() as int;
    let before = after_stages(o, binds, s, first);
    let run = project.runs@[n];
    let stages = chains::run_stages(project, run);
    chains::lemma_extent(extents, run.dst);
    let at = chains::extent_of(extents, run.dst)->0;
    assert(binds[2 + at] == Bind::Given(run.dst));
    assert(binds[act] == Bind::Internal);
    assert(binds[3 + extents.len() + run.weight] == chains::weight_bind(
        project.weights@[run.weight as int],
    ));
    let a = before.own[act];
    let rows = rows_for(o, project, run);
    match project.weights@[run.weight as int].0 {
        ProjWeight::Q8(_) => {
            assert(first + stages =~= first + seq![stages[0]]);
            lemma_after_two(o, binds, s, first, stages[0]);
            assert(run.width / 32 * 32 == run.width);
        },
        ProjWeight::Raw(_, _) => {
            let (units, rest) = (run.width as int / 64, run.width as int % 64);
            let row = before.bufs[run.dst];
            if units > 0 && rest > 0 {
                let one = first + seq![stages[0]];
                assert(first + stages =~= one + seq![stages[1]]);
                lemma_after_two(o, binds, s, first, stages[0]);
                lemma_after_two(o, binds, s, one, stages[1]);
                let half = over(row, run.dst_off as int, o.outputs(rows, run.row_off as int, units * 64, a));
                let whole = over(
                    half,
                    run.dst_off + units * 64,
                    o.outputs(rows, run.row_off + units * 64, 1 * rest, a),
                );
                let want = over(
                    row,
                    run.dst_off as int,
                    o.outputs(rows, run.row_off as int, run.width as int, a),
                );
                assert(whole =~= want);
                let after = after_stages(o, binds, s, first + stages);
                assert(after.bufs =~= before.bufs.insert(run.dst, want));
            } else if units > 0 {
                assert(first + stages =~= first + seq![stages[0]]);
                lemma_after_two(o, binds, s, first, stages[0]);
                assert(units * 64 == run.width);
            } else if rest > 0 {
                assert(first + stages =~= first + seq![stages[0]]);
                lemma_after_two(o, binds, s, first, stages[0]);
                assert(1 * rest == run.width);
            } else {
                assert(first + stages =~= first);
            }
        },
    }
}

proof fn lemma_runs<T>(o: Work<T>, s: Store<T>, project: FusedProject, n: nat)
    requires
        chains::project_wf(project),
        chains::project_fits(project),
        n <= project.runs@.len(),
    ensures
        ({
            let after = after_stages(
                o,
                chains::project_binds(project),
                s,
                chains::runs_stages(project, n),
            );
            &&& after.own[(2 + chains::project_extents(project).len()) as int] == entering(
                o,
                s,
                project,
            )
            &&& runs_done(o, s, project, n as int, after.bufs)
        }),
    decreases n,
{
    chains::lemma_project_extents(project);
    let extents = chains::project_extents(project);
    let binds = chains::project_binds(project);
    let act = 2 + extents.len() as int;
    let stages = chains::runs_stages(project, n);
    let after = after_stages(o, binds, s, stages);
    let a = entering(o, s, project);
    if n == 0 {
        assert(binds[0] == Bind::Given(project.x) && binds[1] == Bind::Given(project.gain));
        assert(binds[act] == Bind::Internal);
        assert(stages.drop_last() =~= Seq::empty());
        assert(after_stages(o, binds, s, stages.drop_last()) == s);
        assert(after.bufs == s.bufs);
    } else {
        let m = n - 1;
        let run = project.runs@[m];
        let first = chains::runs_stages(project, m as nat);
        lemma_runs(o, s, project, m as nat);
        lemma_run(o, s, project, first, m);
        let before = after_stages(o, binds, s, first);
        let rows = rows_for(o, project, run);
        assert forall|b: Buf| (#[trigger] after.bufs[b]).len() == s.bufs[b].len() by {
            assert(before.bufs[b].len() == s.bufs[b].len());
        }
        assert forall|b: Buf, p: int| 0 <= p < s.bufs[b].len() implies #[trigger] after.bufs[b][p]
            == (if covers(run, b, p) {
            (o.dot)(rows[run.row_off + (p - run.dst_off)], a)
        } else {
            before.bufs[b][p]
        }) by {
            assert(before.bufs[b].len() == s.bufs[b].len());
        }
        assert forall|i: int, b: Buf, p: int|
            0 <= i < n && 0 <= p < s.bufs[b].len() && #[trigger] covers(project.runs@[i], b, p)
                && clear(project.runs@, i + 1, n as int, b, p) implies #[trigger] after.bufs[b][p]
            == (o.dot)(
            rows_for(o, project, project.runs@[i])[project.runs@[i].row_off + (p
                - project.runs@[i].dst_off)],
            a,
        ) by {
            if i < m {
                assert(!covers(project.runs@[m], b, p));
                assert(clear(project.runs@, i + 1, m, b, p));
                assert(after.bufs[b][p] == before.bufs[b][p]);
            }
        }
        assert forall|b: Buf, p: int|
            0 <= p < s.bufs[b].len() && clear(project.runs@, 0, n as int, b, p) implies
            #[trigger] after.bufs[b][p] == s.bufs[b][p] by {
            assert(!covers(project.runs@[m], b, p));
            assert(clear(project.runs@, 0, m, b, p));
            assert(before.bufs[b][p] == s.bufs[b][p]);
        }
    }
}

/// A fused projection leaves every run of its outputs where the run says: output
/// `row_off + o` of the run's weight, of the residual normalized and quantized, at
/// element `dst_off + o` of its buffer. Nothing else changes.
pub proof fn a_fused_projection_computes<T>(o: Work<T>, s: Store<T>, project: FusedProject)
    requires
        chains::project_wf(project),
        chains::project_fits(project),
        project.mix is None,
    ensures
        runs_done(
            o,
            s,
            project,
            project.runs@.len() as int,
            after_stages(
                o,
                chains::project_binds(project),
                s,
                chains::project_stages(project),
            ).bufs,
        ),
{
    lemma_runs(o, s, project, project.runs@.len());
}

/// A fused mix leaves what its projection leaves and then, in the packed buffer, the
/// planes and the gates a delta rule reads. Head `h` of plane `which` is the
/// convolution of its own channels, which start at the plane's place in a position;
/// the query is scaled by its scale, query and key are divided by their length where
/// the mix says so, and the value is left as it is. The decay and the write strength
/// of head `h` follow the planes.
pub proof fn a_fused_mix_computes<T>(
    o: Work<T>,
    s: Store<T>,
    project: FusedProject,
    m: FusedMix,
    which: int,
    h: int,
    d: int,
)
    requires
        chains::project_wf(project),
        chains::project_fits(project),
        project.mix == Some(m),
        m.packed != m.decay.0,
        m.packed != m.rate,
        m.packed != m.dt_bias,
        s.bufs[m.packed].len() >= m.spec.packed_size(),
        0 <= which < 3,
        0 <= h < m.spec.heads,
        0 <= d < m.spec.head_dim,
    ensures
        ({
            let binds = chains::project_binds(project);
            let runs = after_stages(
                o,
                binds,
                s,
                chains::runs_stages(project, project.runs@.len()),
            ).bufs;
            let after = after_stages(o, binds, s, chains::project_stages(project)).bufs;
            let (heads, dim) = (m.spec.heads as int, m.spec.head_dim as int);
            let row = o.head_row(
                runs[m.history],
                runs[m.taps],
                3 * heads * dim,
                m.spec.kernel as int,
                m.spec.planes@[which] + h * m.spec.head_stride,
                dim,
            );
            let query = Some(m.spec.query_scale_bits);
            let out = after[m.packed][(which * heads + h) * dim + d];
            &&& runs_done(o, s, project, project.runs@.len() as int, runs)
            &&& which == 0 && m.spec.normalize ==> out == (o.times)(row[d], (o.length)(query, row))
            &&& which == 0 && !m.spec.normalize ==> out == (o.times)(row[d], (o.scale)(query))
            &&& which == 1 && m.spec.normalize ==> out == (o.times)(row[d], (o.length)(None, row))
            &&& which == 1 && !m.spec.normalize ==> out == (o.times)(row[d], (o.scale)(None))
            &&& which == 2 ==> out == row[d]
            &&& after[m.packed][3 * (heads * dim) + h] == (o.decay)(
                runs[m.rate][h],
                runs[m.decay.0][m.decay.1 + h],
                runs[m.dt_bias][h],
            )
            &&& after[m.packed][3 * (heads * dim) + heads + h] == (o.sigmoid)(
                runs[m.beta.0][m.beta.1 + h],
            )
            &&& forall|b: Buf| b != m.packed ==> #[trigger] after[b] == runs[b]
        }),
{
    lemma_runs(o, s, project, project.runs@.len());
    chains::lemma_project_extents(project);
    let extents = chains::project_extents(project);
    let binds = chains::project_binds(project);
    let first = chains::runs_stages(project, project.runs@.len());
    let before = after_stages(o, binds, s, first);
    let pair = chains::mix_stages(extents, m);
    let one = first + seq![pair[0]];
    assert(first + pair =~= one + seq![pair[1]]);
    lemma_after_two(o, binds, s, first, pair[0]);
    lemma_after_two(o, binds, s, one, pair[1]);
    let mid = after_stages(o, binds, s, one);
    lemma_bound(project, m);
    let (heads, dim) = (m.spec.heads as int, m.spec.head_dim as int);
    let unit = which * heads + h;
    assert(0 <= unit < 3 * heads && unit / heads == which && unit % heads == h) by {
        crate::backend::host::meaning::lemma_cell(which, h, 3, heads);
    }
    let p = unit * dim + d;
    assert(0 <= p < 3 * heads * dim && p / dim == unit && p % dim == d) by {
        crate::backend::host::meaning::lemma_cell(unit, d, 3 * heads, dim);
    }
    assert(m.spec.span_len() == heads * dim) by (nonlinear_arith)
        requires
            m.spec.span_len() == m.spec.rows * m.spec.heads * m.spec.head_dim,
            m.spec.rows == 1,
            heads == m.spec.heads,
            dim == m.spec.head_dim,
    ;
    assert(m.spec.gates_len() == heads);
    assert(3 * heads * dim == 3 * (heads * dim)) by (nonlinear_arith);
    assert(0 <= heads * dim) by (nonlinear_arith)
        requires
            0 <= heads,
            0 <= dim,
    ;
    assert(m.spec.channels_len() == 3 * heads * dim) by {
        assert(2 * m.spec.kv_heads as nat + m.spec.heads as nat == 3 * heads);
    }
    let planes = m.spec.planes@;
    assert(planes[0] + which * (planes[1] - planes[0]) == planes[which]) by {
        if which == 0 {
            assert(0 * (planes[1] - planes[0]) == 0);
        } else if which == 1 {
            assert(1 * (planes[1] - planes[0]) == planes[1] - planes[0]);
        } else {
            assert(2 * (planes[1] - planes[0]) == (planes[1] - planes[0]) + (planes[2] - planes[1]));
        }
    }
    assert(before.bufs[m.packed].len() == s.bufs[m.packed].len());
    assert((3usize * m.spec.heads) * m.spec.head_dim == 3 * heads * dim);
}

proof fn lemma_bound(project: FusedProject, m: FusedMix)
    requires
        chains::project_wf(project),
        project.mix == Some(m),
    ensures
        ({
            let e = chains::project_extents(project);
            let binds = chains::project_binds(project);
            &&& binds[chains::extent_val(e, m.history).0 as int] == Bind::Given(m.history)
            &&& binds[chains::extent_val(e, m.taps).0 as int] == Bind::Given(m.taps)
            &&& binds[chains::extent_val(e, m.packed).0 as int] == Bind::Given(m.packed)
            &&& binds[chains::extent_val(e, m.decay.0).0 as int] == Bind::Given(m.decay.0)
            &&& binds[chains::extent_val(e, m.rate).0 as int] == Bind::Given(m.rate)
            &&& binds[chains::extent_val(e, m.dt_bias).0 as int] == Bind::Given(m.dt_bias)
        }),
{
    chains::lemma_project_extents(project);
    let e = chains::project_extents(project);
    chains::lemma_extent(e, m.history);
    chains::lemma_extent(e, m.taps);
    chains::lemma_extent(e, m.packed);
    chains::lemma_extent(e, m.decay.0);
    chains::lemma_extent(e, m.rate);
    chains::lemma_extent(e, m.dt_bias);
}

/// Declaring a value writes nothing.
proof fn lemma_declares(d: Draft, shape: Shape, v: Val, folded: bool, view: emit::Form)
    ensures
        d.quant(shape, v, folded).body == d.body,
        d.quant(shape, v, folded).tune == d.tune,
        d.weight(shape, v).body == d.body,
        d.weight(shape, v).tune == d.tune,
        d.given(shape, v, view).body == d.body,
        d.given(shape, v, view).tune == d.tune,
        d.given(shape, v, view).regs == d.regs,
{
}

/// The line of a SwiGLU activates the register of its gate and multiplies by that of its
/// up row, into a register of its own.
pub proof fn a_swiglu_line_reads_both_registers(
    d: Draft,
    shape: Shape,
    s: usize,
    g: Val,
    u: Val,
    out: Val,
    gate: usize,
    up: usize,
)
    requires
        emit::reg_of(d.regs, g) == Some(gate),
        emit::reg_of(d.regs, u) == Some(up),
    ensures
        d.swiglu(shape, s, g, u, out) matches Step::Emitted(e) && e.body == d.body
            + crate::text::filled(
            emit::SWIGLU@,
            seq![
                crate::text::decimal(s as nat),
                crate::text::decimal(shape.len_of(out)),
                crate::text::decimal(gate as nat),
                crate::text::decimal(up as nat),
            ],
        ) && emit::reg_of(e.regs, out) == Some(s),
{
    let e = d.swiglu(shape, s, g, u, out)->Emitted_0;
    assert(e.regs.last() == (out, s));
}

/// The lines of a contraction into a register slice 32 rows of the weight a unit, from
/// the stage's first row on, which is compiled in where it is not zero.
pub proof fn a_contraction_line_slices_from_its_row(
    d: Draft,
    shape: Shape,
    s: usize,
    n: usize,
    a: Val,
    w: Val,
    out: Val,
    row_off: usize,
)
    requires
        d.proj_q(shape, s, n, a, w, out, row_off) is Emitted,
        !emit::has_tune(d.tune, Tune::From(s)),
    ensures
        ({
            let e = d.proj_q(shape, s, n, a, w, out, row_off)->Emitted_0;
            let at = "at"@ + crate::text::decimal(s as nat);
            let head = crate::text::filled(
                "      var v$0: tile<f32>[1, 32] = qdot_t("@,
                seq![crate::text::decimal(s as nat)],
            );
            let start = crate::text::filled(
                "      let $0 = $1u$2 * $3\n"@,
                seq![
                    at,
                    if row_off == 0 {
                        Seq::empty()
                    } else {
                        emit::tune_text(Tune::From(s)) + " + "@
                    },
                    crate::text::decimal(n as nat),
                    crate::text::decimal(32),
                ],
            );
            let (rows, scales) = e.operands(a);
            let (bytes, planes) = e.names(w, emit::Form::Flat);
            &&& e.body == d.body + start + crate::text::filled(
                emit::CALL@,
                seq![head, rows, scales, emit::blanks(head.len()), bytes, at, "32"@, planes],
            )
            &&& row_off != 0 ==> e.tune == d.tune.push((Tune::From(s), row_off))
            &&& emit::reg_of(e.regs, out) == Some(s)
        }),
{
    lemma_declares(d, shape, a, false, emit::Form::Flat);
    let q = d.quant(shape, a, false);
    lemma_declares(q, shape, w, false, emit::Form::Flat);
    let e = d.proj_q(shape, s, n, a, w, out, row_off)->Emitted_0;
    assert(e.regs.last() == (out, s));
}

/// The lines of the gates read the decays and the write strengths where the stage says
/// they start, each head by its own rate and bias, and leave them behind three planes, the
/// decays first.
pub proof fn the_gates_lines_follow_their_stage(
    d: Draft,
    shape: Shape,
    s: usize,
    n: usize,
    raw: Val,
    decay_at: usize,
    beta_at: usize,
    rate: Val,
    bias: Val,
    out: Val,
    heads: usize,
    units: usize,
    span: usize,
)
    requires
        shape.stages[s as int] == (Stage::Gates {
            raw,
            decay_at,
            beta_at,
            rate,
            bias,
            out,
            heads,
            units,
            span,
        }),
    ensures
        ({
            let flat = |v: Val| emit::name_text(Name::Given(v, emit::Form::Flat));
            d.gates(shape, s, n) matches Step::Emitted(e) && e.body == d.body
                + crate::text::filled(
                emit::GATES@,
                seq![
                    crate::text::decimal(s as nat),
                    "u"@ + crate::text::decimal(n as nat),
                    flat(raw),
                    flat(rate),
                    flat(bias),
                    flat(out),
                    crate::text::decimal(decay_at as nat),
                    crate::text::decimal(beta_at as nat),
                    crate::text::decimal((3 * span) as nat),
                    crate::text::decimal((3 * span + heads) as nat),
                ],
            )
        }),
{
    lemma_declares(d, shape, raw, false, emit::Form::Flat);
    let d1 = d.given(shape, raw, emit::Form::Flat);
    lemma_declares(d1, shape, rate, false, emit::Form::Flat);
    let d2 = d1.given(shape, rate, emit::Form::Flat);
    lemma_declares(d2, shape, bias, false, emit::Form::Flat);
    let d3 = d2.given(shape, bias, emit::Form::Flat);
    lemma_declares(d3, shape, out, false, emit::Form::Flat);
}

/// The lines of a contraction a caller reads put 32 outputs a unit where the stage says,
/// of the rows of the weight from the stage's first on.
pub proof fn a_published_run_goes_where_its_stage_says(
    d: Draft,
    shape: Shape,
    s: usize,
    n: usize,
    a: Val,
    w: Val,
    out: Val,
    out_off: usize,
    row_off: usize,
)
    requires
        d.proj_f(shape, s, n, a, w, out, out_off, row_off) is Emitted,
        !emit::has_tune(d.tune, Tune::From(s)),
        !emit::has_tune(d.tune, Tune::To(s)),
    ensures
        ({
            let e = d.proj_f(shape, s, n, a, w, out, out_off, row_off)->Emitted_0;
            let number = crate::text::decimal(s as nat);
            let starts = |name: Seq<char>, tune: Tune, offset: usize|
                crate::text::filled(
                    "      let $0 = $1u$2 * $3\n"@,
                    seq![
                        name,
                        if offset == 0 {
                            Seq::empty()
                        } else {
                            emit::tune_text(tune) + " + "@
                        },
                        crate::text::decimal(n as nat),
                        crate::text::decimal(32),
                    ],
                );
            let head = crate::text::filled(
                "      $0[0 :+ 1, to$1 :+ 32] = qdot_t("@,
                seq![emit::name_text(Name::Given(out, emit::Form::Flat)), number],
            );
            let (rows, scales) = e.operands(a);
            let (bytes, planes) = e.names(w, emit::Form::Flat);
            &&& e.body == d.body + starts("at"@ + number, Tune::From(s), row_off) + starts(
                "to"@ + number,
                Tune::To(s),
                out_off,
            ) + crate::text::filled(
                emit::CALL@,
                seq![
                    head,
                    rows,
                    scales,
                    emit::blanks(head.len()),
                    bytes,
                    "at"@ + number,
                    "32"@,
                    planes,
                ],
            )
            &&& row_off != 0 ==> e.tune.contains((Tune::From(s), row_off))
            &&& out_off != 0 ==> e.tune.contains((Tune::To(s), out_off))
        }),
{
    lemma_declares(d, shape, a, false, emit::Form::Flat);
    let q = d.quant(shape, a, false);
    lemma_declares(q, shape, w, false, emit::Form::Flat);
    let r = q.weight(shape, w);
    lemma_declares(r, shape, out, false, emit::Form::Flat);
    let t = r.given(shape, out, emit::Form::Flat);
    let from = t.offset(Tune::From(s), row_off);
    let to = from.offset(Tune::To(s), out_off);
    if row_off != 0 {
        assert(from.tune.last() == (Tune::From(s), row_off));
        assert(!emit::has_tune(from.tune, Tune::To(s))) by {
            assert forall|i: int| 0 <= i < from.tune.len() implies (#[trigger] from.tune[i]).0
                != Tune::To(s) by {
                if i < d.tune.len() {
                    assert(from.tune[i] == d.tune[i]);
                }
            }
        }
        assert(to.tune[d.tune.len() as int] == (Tune::From(s), row_off));
    }
    if out_off != 0 {
        assert(to.tune.last() == (Tune::To(s), out_off));
    }
}

/// The lines of an accumulating contraction add each tile of outputs to its target, of
/// the rows of the weight at the same place.
pub proof fn an_accumulated_tile_is_added_in_place(
    d: Draft,
    shape: Shape,
    s: usize,
    n: usize,
    a: Val,
    w: Val,
    y: Val,
    width: usize,
)
    requires
        d.proj_add(shape, s, n, a, w, y, width) is Emitted,
    ensures
        ({
            let e = d.proj_add(shape, s, n, a, w, y, width)->Emitted_0;
            let number = crate::text::decimal(s as nat);
            let head = crate::text::filled(
                "      $0[0 :+ 1, t$1 :+ TN] += qdot_t("@,
                seq![emit::name_text(Name::Given(y, emit::Form::Flat)), number],
            );
            let (rows, scales) = e.operands(a);
            let (bytes, planes) = e.names(w, emit::Form::Flat);
            e.body == d.body + crate::text::filled(
                "      let t$0 = u$1 * TN\n"@,
                seq![number, crate::text::decimal(n as nat)],
            ) + crate::text::filled(
                emit::CALL@,
                seq![
                    head,
                    rows,
                    scales,
                    emit::blanks(head.len()),
                    bytes,
                    "t"@ + number,
                    "TN"@,
                    planes,
                ],
            )
        }),
{
    lemma_declares(d, shape, a, false, emit::Form::Flat);
    let q = d.quant(shape, a, false);
    lemma_declares(q, shape, w, false, emit::Form::Flat);
    lemma_declares(q.weight(shape, w), shape, y, false, emit::Form::Flat);
}

} // verus!
