//! The chains a decode step builds: the MLP, over quantized or raw weights, and
//! a mixer's projection.

use vstd::prelude::*;

use super::emit::{self, fused_decode_name};
use super::{Bind, Chain, Kind, RAW_UNIT, Stage, Val};
use crate::backend::{Buf, FusedMix, FusedProject, ProjRun, ProjWeight, Q8_BLOCK, QBuf, RawBuf};
use crate::quant::Quant;

verus! {

/// The values of the MLP chain: the residual, the gain, the normalized row, the
/// stacked gate and up weight, registers of both and of the hidden row, that
/// row and the down weight.
pub open spec fn mlp_vals(d_model: usize, d_ff: usize) -> Seq<Kind> {
    seq![
        Kind::Given { len: d_model },
        Kind::Given { len: d_model },
        Kind::Quant { len: d_model },
        Kind::Weight { rows: (2 * d_ff) as usize, k: d_model },
        Kind::Temp { len: 32 },
        Kind::Temp { len: 32 },
        Kind::Temp { len: 32 },
        Kind::Quant { len: d_ff },
        Kind::Weight { rows: d_model, k: d_ff },
    ]
}

/// What stands behind those values.
pub open spec fn mlp_binds(x: Buf, gain: Buf, gate_up: QBuf, down: QBuf) -> Seq<Bind> {
    seq![
        Bind::Given(x),
        Bind::Given(gain),
        Bind::Internal,
        Bind::Weight(gate_up),
        Bind::Internal,
        Bind::Internal,
        Bind::Internal,
        Bind::Internal,
        Bind::Weight(down),
    ]
}

pub open spec fn mlp_stages(d_model: usize, d_ff: usize, eps_bits: u32) -> Seq<Stage> {
    seq![
        Stage::NormQ { x: Val(0), gain: Val(1), out: Val(2), width: d_model, eps_bits },
        Stage::ProjQ { a: Val(2), w: Val(3), out: Val(4), units: d_ff / 32, row_off: 0 },
        Stage::ProjQ { a: Val(2), w: Val(3), out: Val(5), units: d_ff / 32, row_off: d_ff },
        Stage::Swiglu { g: Val(4), u: Val(5), out: Val(6) },
        Stage::QuantQ { h: Val(6), out: Val(7), units: d_ff / 32, blocks: 1 },
        Stage::ProjAdd { a: Val(7), w: Val(8), y: Val(0), width: d_model },
    ]
}

/// The decode MLP as a chain: the normalization, both halves of the stacked
/// projection, the SwiGLU between them, and the down projection accumulating
/// back into the residual.
///
/// `x` is both the first stage's input and the last stage's target, and the
/// barrier is what makes it safe: every block reads the residual in its own
/// normalization before it arrives, and the down projection adds into it only
/// after.
pub fn mlp_chain(
    x: Buf,
    gain: Buf,
    gate_up: QBuf,
    down: QBuf,
    d_model: usize,
    d_ff: usize,
    eps_bits: u32,
) -> (chain: Chain)
    requires
        2 * d_ff <= usize::MAX,
    ensures
        chain.wf(),
        chain.vals() == mlp_vals(d_model, d_ff),
        chain.stages() == mlp_stages(d_model, d_ff, eps_bits),
        chain.binds() == mlp_binds(x, gain, gate_up, down),
{
    let mut chain = Chain::default();
    let xv = chain.given(x, d_model);
    let gv = chain.given(gain, d_model);
    let act = chain.quant(d_model);
    chain.push(Stage::norm_q(xv, gv, act, d_model, eps_bits));

    let wgu = chain.weight(gate_up, 2 * d_ff, d_model);
    let units: usize = d_ff / Q8_BLOCK;
    let gate = chain.temp(Q8_BLOCK);
    let up = chain.temp(Q8_BLOCK);
    chain.push(Stage::ProjQ { a: act, w: wgu, out: gate, units, row_off: 0 });
    chain.push(Stage::ProjQ { a: act, w: wgu, out: up, units, row_off: d_ff });
    let hidden = chain.temp(Q8_BLOCK);
    chain.push(Stage::Swiglu { g: gate, u: up, out: hidden });
    let hq = chain.quant(d_ff);
    chain.push(Stage::QuantQ { h: hidden, out: hq, units, blocks: 1 });

    let wdn = chain.weight(down, d_model, d_ff);
    chain.push(Stage::ProjAdd { a: hq, w: wdn, y: xv, width: d_model });
    assert(chain.binds() =~= mlp_binds(x, gain, gate_up, down));
    chain
}

/// The values of the MLP chain over raw weights.
pub open spec fn mlp_raw_vals(gate: Quant, up: Quant, down: Quant, d_model: usize, d_ff: usize) -> Seq<
    Kind,
> {
    seq![
        Kind::Given { len: d_model },
        Kind::Given { len: d_model },
        Kind::Quant { len: d_model },
        Kind::Raw { rows: d_ff, k: d_model, quant: gate },
        Kind::Raw { rows: d_ff, k: d_model, quant: up },
        Kind::Temp { len: 64 },
        Kind::Temp { len: 64 },
        Kind::Temp { len: 64 },
        Kind::Quant { len: d_ff },
        Kind::Raw { rows: d_model, k: d_ff, quant: down },
    ]
}

/// What stands behind those values.
pub open spec fn mlp_raw_binds(x: Buf, gain: Buf, gate: RawBuf, up: RawBuf, down: RawBuf) -> Seq<
    Bind,
> {
    seq![
        Bind::Given(x),
        Bind::Given(gain),
        Bind::Internal,
        Bind::Raw(gate),
        Bind::Raw(up),
        Bind::Internal,
        Bind::Internal,
        Bind::Internal,
        Bind::Internal,
        Bind::Raw(down),
    ]
}

pub open spec fn mlp_raw_stages(d_model: usize, d_ff: usize, eps_bits: u32) -> Seq<Stage> {
    seq![
        Stage::NormQ { x: Val(0), gain: Val(1), out: Val(2), width: d_model, eps_bits },
        Stage::ProjRaw { a: Val(2), w: Val(3), out: Val(5), units: d_ff / 64, row_off: 0 },
        Stage::ProjRaw { a: Val(2), w: Val(4), out: Val(6), units: d_ff / 64, row_off: 0 },
        Stage::Swiglu { g: Val(5), u: Val(6), out: Val(7) },
        Stage::QuantQ { h: Val(7), out: Val(8), units: d_ff / 64, blocks: 2 },
        Stage::ProjAddRaw { a: Val(8), w: Val(9), y: Val(0), width: d_model },
    ]
}

/// [`mlp_chain`] over raw-format weights, gate and up separate. `None` for a
/// format with no fused decode, or a hidden row that is not a whole number of
/// raw units.
pub fn mlp_chain_raw(
    x: Buf,
    gain: Buf,
    gate: (RawBuf, Quant),
    up: (RawBuf, Quant),
    down: (RawBuf, Quant),
    d_model: usize,
    d_ff: usize,
    eps_bits: u32,
) -> (chain: Option<Chain>)
    ensures
        chain is Some <==> emit::fused_decode(gate.1) is Some && emit::fused_decode(up.1) is Some
            && emit::fused_decode(down.1) is Some && d_ff % 64 == 0,
        chain is Some ==> {
            &&& chain->0.wf()
            &&& chain->0.vals() == mlp_raw_vals(gate.1, up.1, down.1, d_model, d_ff)
            &&& chain->0.stages() == mlp_raw_stages(d_model, d_ff, eps_bits)
            &&& chain->0.binds() == mlp_raw_binds(x, gain, gate.0, up.0, down.0)
        },
{
    if fused_decode_name(gate.1).is_none() || fused_decode_name(up.1).is_none()
        || fused_decode_name(down.1).is_none() || d_ff % RAW_UNIT != 0 {
        return None;
    }
    let mut chain = Chain::default();
    let xv = chain.given(x, d_model);
    let gv = chain.given(gain, d_model);
    let act = chain.quant(d_model);
    chain.push(Stage::norm_q(xv, gv, act, d_model, eps_bits));

    let wg = chain.raw_weight(gate.0, d_ff, d_model, gate.1);
    let wu = chain.raw_weight(up.0, d_ff, d_model, up.1);
    let units: usize = d_ff / RAW_UNIT;
    let g = chain.temp(RAW_UNIT);
    let u = chain.temp(RAW_UNIT);
    chain.push(Stage::ProjRaw { a: act, w: wg, out: g, units, row_off: 0 });
    chain.push(Stage::ProjRaw { a: act, w: wu, out: u, units, row_off: 0 });
    let hidden = chain.temp(RAW_UNIT);
    chain.push(Stage::Swiglu { g, u, out: hidden });
    let hq = chain.quant(d_ff);
    chain.push(Stage::QuantQ { h: hidden, out: hq, units, blocks: 2 });

    let wdn = chain.raw_weight(down.0, d_model, d_ff, down.1);
    chain.push(Stage::ProjAddRaw { a: hq, w: wdn, y: xv, width: d_model });
    assert(chain.binds() =~= mlp_raw_binds(x, gain, gate.0, up.0, down.0));
    Some(chain)
}

/// Where in a list of buffers one is.
pub open spec fn extent_of(extents: Seq<(Buf, usize)>, buf: Buf) -> Option<int>
    decreases extents.len(),
{
    if extents.len() == 0 {
        None
    } else if extents.last().0 == buf {
        Some(extents.len() - 1)
    } else {
        extent_of(extents.drop_last(), buf)
    }
}

/// A buffer wanted as far as `len`: one entry a buffer, at the widest extent
/// asked for.
pub open spec fn wanted(extents: Seq<(Buf, usize)>, buf: Buf, len: usize) -> Seq<(Buf, usize)> {
    match extent_of(extents, buf) {
        Some(i) => extents.update(
            i,
            (
                buf,
                if extents[i].1 >= len {
                    extents[i].1
                } else {
                    len
                },
            ),
        ),
        None => extents.push((buf, len)),
    }
}

/// The buffers the first `n` runs write.
pub open spec fn run_extents(runs: Seq<ProjRun>, n: nat) -> Seq<(Buf, usize)>
    decreases n,
{
    if n == 0 {
        Seq::empty()
    } else {
        let run = runs[n - 1];
        wanted(run_extents(runs, (n - 1) as nat), run.dst, (run.dst_off + run.width) as usize)
    }
}

/// The buffers a convolution and its gates touch, on top of the runs'.
pub open spec fn mix_extents(extents: Seq<(Buf, usize)>, m: FusedMix) -> Seq<(Buf, usize)> {
    let e = wanted(extents, m.history, m.spec.history_size() as usize);
    let e = wanted(e, m.taps, (m.spec.kernel as nat * m.spec.channels_len()) as usize);
    let e = wanted(e, m.packed, m.spec.packed_size() as usize);
    let e = wanted(e, m.decay.0, (m.decay.1 + m.spec.gates_len()) as usize);
    let e = wanted(e, m.beta.0, (m.beta.1 + m.spec.gates_len()) as usize);
    let e = wanted(e, m.rate, m.spec.heads);
    wanted(e, m.dt_bias, m.spec.heads)
}

/// Every buffer the chain writes or reads behind its normalization, in the
/// order it is first wanted.
pub open spec fn project_extents(project: FusedProject) -> Seq<(Buf, usize)> {
    let e = run_extents(project.runs@, project.runs@.len());
    match project.mix {
        Some(m) => mix_extents(e, m),
        None => e,
    }
}

/// The value a buffer became: they follow the residual and the gain.
pub open spec fn extent_val(extents: Seq<(Buf, usize)>, buf: Buf) -> Val {
    Val((2 + extent_of(extents, buf)->0) as usize)
}

/// Rows a raw upload holds, padded to whole raw units.
pub open spec fn padded_rows(rows: usize) -> int {
    (rows + 63) / 64 * 64
}

pub open spec fn weight_kind(weight: (ProjWeight, usize), d_model: usize) -> Kind {
    match weight.0 {
        ProjWeight::Q8(_) => Kind::Weight { rows: weight.1, k: d_model },
        ProjWeight::Raw(_, quant) => Kind::Raw {
            rows: padded_rows(weight.1) as usize,
            k: d_model,
            quant,
        },
    }
}

pub open spec fn weight_bind(weight: (ProjWeight, usize)) -> Bind {
    match weight.0 {
        ProjWeight::Q8(w) => Bind::Weight(w),
        ProjWeight::Raw(w, _) => Bind::Raw(w),
    }
}

/// A run the pass has stages for: whole Q8_0 output blocks from a block's
/// start, or a raw format with a fused decode from a raw unit's start.
pub open spec fn run_fits(project: FusedProject, run: ProjRun) -> bool {
    match project.weights@[run.weight as int].0 {
        ProjWeight::Q8(_) => run.width % 32 == 0 && run.row_off % 32 == 0,
        ProjWeight::Raw(_, quant) => emit::fused_decode(quant) is Some && run.row_off % 64 == 0,
    }
}

/// The stages of one run. A raw run that whole units do not cover finishes with
/// a unit of its remainder.
pub open spec fn run_stages(project: FusedProject, run: ProjRun) -> Seq<Stage> {
    let extents = project_extents(project);
    let act = Val((2 + extents.len()) as usize);
    let w = Val((3 + extents.len() + run.weight) as usize);
    let out = extent_val(extents, run.dst);
    match project.weights@[run.weight as int].0 {
        ProjWeight::Q8(_) => seq![
            Stage::ProjF {
                a: act,
                w,
                out,
                out_off: run.dst_off,
                units: run.width / 32,
                row_off: run.row_off,
            },
        ],
        ProjWeight::Raw(_, _) => {
            let (units, rest) = (run.width / 64, run.width % 64);
            let whole = Stage::ProjRawF {
                a: act,
                w,
                out,
                out_off: run.dst_off,
                units,
                width: 64,
                row_off: run.row_off,
            };
            let tail = Stage::ProjRawF {
                a: act,
                w,
                out,
                out_off: (run.dst_off + units * 64) as usize,
                units: 1,
                width: rest,
                row_off: (run.row_off + units * 64) as usize,
            };
            (if units > 0 {
                seq![whole]
            } else {
                Seq::empty()
            }) + (if rest > 0 {
                seq![tail]
            } else {
                Seq::empty()
            })
        },
    }
}

/// The stages of the first `n` runs, behind the normalization.
pub open spec fn runs_stages(project: FusedProject, n: nat) -> Seq<Stage>
    decreases n,
{
    if n == 0 {
        let extents = project_extents(project);
        seq![
            Stage::NormQ {
                x: Val(0),
                gain: Val(1),
                out: Val((2 + extents.len()) as usize),
                width: project.d_model,
                eps_bits: project.eps_bits,
            },
        ]
    } else {
        runs_stages(project, (n - 1) as nat) + run_stages(project, project.runs@[n - 1])
    }
}

/// The convolution and the gates.
pub open spec fn mix_stages(extents: Seq<(Buf, usize)>, m: FusedMix) -> Seq<Stage> {
    seq![
        Stage::Conv {
            history: extent_val(extents, m.history),
            taps: extent_val(extents, m.taps),
            out: extent_val(extents, m.packed),
            planes: 3,
            heads: m.spec.heads,
            head_dim: m.spec.head_dim,
            kernel: m.spec.kernel,
            channels: m.spec.channels_len() as usize,
            plane_base: m.spec.planes@[0],
            plane_stride: (m.spec.planes@[1] - m.spec.planes@[0]) as usize,
            head_stride: m.spec.head_stride,
            normalize: m.spec.normalize,
            scale_bits: m.spec.query_scale_bits,
        },
        Stage::Gates {
            raw: extent_val(extents, m.decay.0),
            decay_at: m.decay.1,
            beta_at: m.beta.1,
            rate: extent_val(extents, m.rate),
            bias: extent_val(extents, m.dt_bias),
            out: extent_val(extents, m.packed),
            heads: m.spec.heads,
            units: (3 * m.spec.heads) as usize,
            span: m.spec.span_len() as usize,
        },
    ]
}

/// A convolution the pass has a stage for: one position, evenly spaced planes,
/// both gates in one projection, and as many query and key heads as value heads.
pub open spec fn mix_fits(m: FusedMix) -> bool {
    &&& m.decay.0 == m.beta.0
    &&& m.spec.rows == 1
    &&& m.spec.kv_heads == m.spec.heads
    &&& m.spec.planes@[2] - m.spec.planes@[1] == m.spec.planes@[1] - m.spec.planes@[0]
}

/// Every run names a weight, and every extent can be counted.
pub open spec fn project_wf(project: FusedProject) -> bool {
    &&& forall|i: int|
        0 <= i < project.runs@.len() ==> {
            let run = #[trigger] project.runs@[i];
            &&& run.weight < project.weights@.len()
            &&& run.dst_off + run.width <= usize::MAX
            &&& run.row_off + run.width <= usize::MAX
        }
    &&& forall|i: int|
        0 <= i < project.weights@.len() ==> padded_rows((#[trigger] project.weights@[i]).1)
            <= usize::MAX
    &&& 10 + project.runs@.len() + project.weights@.len() <= usize::MAX
    &&& project.mix matches Some(m) ==> {
        &&& m.spec.fits()
        &&& m.decay.1 + m.spec.gates_len() <= usize::MAX
        &&& m.beta.1 + m.spec.gates_len() <= usize::MAX
        &&& 3 * m.spec.heads <= usize::MAX
        &&& m.spec.planes@[0] <= m.spec.planes@[1] <= m.spec.planes@[2]
    }
}

/// The pass has stages for all of a projection.
pub open spec fn project_fits(project: FusedProject) -> bool {
    &&& forall|i: int|
        0 <= i < project.runs@.len() ==> run_fits(project, #[trigger] project.runs@[i])
    &&& project.mix matches Some(m) ==> mix_fits(m)
}

/// The values of the projection's chain: the residual, the gain, every buffer
/// the runs and the mix touch, the normalized row and the weights.
pub open spec fn project_vals(project: FusedProject) -> Seq<Kind> {
    let extents = project_extents(project);
    let given = extents.map_values(|e: (Buf, usize)| Kind::Given { len: e.1 });
    let weights = project.weights@.map_values(
        |w: (ProjWeight, usize)| weight_kind(w, project.d_model),
    );
    seq![Kind::Given { len: project.d_model }, Kind::Given { len: project.d_model }] + given + seq![
        Kind::Quant { len: project.d_model },
    ] + weights
}

pub open spec fn project_binds(project: FusedProject) -> Seq<Bind> {
    let extents = project_extents(project);
    let given = extents.map_values(|e: (Buf, usize)| Bind::Given(e.0));
    let weights = project.weights@.map_values(|w: (ProjWeight, usize)| weight_bind(w));
    seq![Bind::Given(project.x), Bind::Given(project.gain)] + given + seq![Bind::Internal] + weights
}

pub open spec fn project_stages(project: FusedProject) -> Seq<Stage> {
    let runs = runs_stages(project, project.runs@.len());
    match project.mix {
        Some(m) => runs + mix_stages(project_extents(project), m),
        None => runs,
    }
}

fn find_extent(extents: &Vec<(Buf, usize)>, buf: Buf) -> (at: Option<usize>)
    ensures
        match at {
            Some(i) => extent_of(extents@, buf) == Some(i as int) && i < extents@.len()
                && extents@[i as int].0 == buf,
            None => extent_of(extents@, buf) is None,
        },
{
    let mut at: usize = extents.len();
    assert(extents@.take(at as int) =~= extents@);
    while at > 0
        invariant
            at <= extents@.len(),
            extent_of(extents@, buf) == extent_of(extents@.take(at as int), buf),
        decreases at,
    {
        assert(extents@.take(at as int).drop_last() =~= extents@.take(at - 1));
        if extents[at - 1].0 == buf {
            return Some(at - 1);
        }
        at = at - 1;
    }
    None
}

pub proof fn lemma_extent(extents: Seq<(Buf, usize)>, buf: Buf)
    ensures
        extent_of(extents, buf) matches Some(i) ==> 0 <= i < extents.len() && extents[i].0 == buf,
        extent_of(extents, buf) is None ==> forall|i: int|
            0 <= i < extents.len() ==> (#[trigger] extents[i]).0 != buf,
    decreases extents.len(),
{
    if extents.len() > 0 && extents.last().0 != buf {
        lemma_extent(extents.drop_last(), buf);
        assert forall|i: int|
            extent_of(extents, buf) is None && 0 <= i < extents.len() implies (
        #[trigger] extents[i]).0 != buf by {
            if i < extents.len() - 1 {
                assert(extents.drop_last()[i] == extents[i]);
            }
        }
    }
}

/// Wanting a buffer keeps every other, and adds at most one.
proof fn lemma_wanted(extents: Seq<(Buf, usize)>, buf: Buf, len: usize, other: Buf)
    ensures
        extent_of(wanted(extents, buf, len), buf) is Some,
        extent_of(extents, other) is Some ==> extent_of(wanted(extents, buf, len), other) is Some,
        extents.len() <= wanted(extents, buf, len).len() <= extents.len() + 1,
{
    let after = wanted(extents, buf, len);
    lemma_extent(extents, buf);
    lemma_extent(extents, other);
    lemma_extent(after, buf);
    lemma_extent(after, other);
    match extent_of(extents, buf) {
        Some(i) => {
            assert(after[i].0 == buf);
            if extent_of(extents, other) is Some {
                let j = extent_of(extents, other)->0;
                assert(after[j].0 == other);
            }
        },
        None => {
            assert(after[extents.len() as int].0 == buf);
            if extent_of(extents, other) is Some {
                let j = extent_of(extents, other)->0;
                assert(after[j].0 == other);
            }
        },
    }
}

fn want(extents: &mut Vec<(Buf, usize)>, buf: Buf, len: usize)
    ensures
        final(extents)@ == wanted(old(extents)@, buf, len),
{
    match find_extent(extents, buf) {
        Some(i) => {
            let widest: usize = if extents[i].1 >= len {
                extents[i].1
            } else {
                len
            };
            extents.set(i, (buf, widest));
        },
        None => extents.push((buf, len)),
    }
}

proof fn lemma_run_extents(runs: Seq<ProjRun>, n: nat)
    requires
        n <= runs.len(),
    ensures
        run_extents(runs, n).len() <= n,
        forall|i: int|
            0 <= i < n ==> extent_of(run_extents(runs, n), (#[trigger] runs[i]).dst) is Some,
    decreases n,
{
    if n > 0 {
        lemma_run_extents(runs, (n - 1) as nat);
        let before = run_extents(runs, (n - 1) as nat);
        let run = runs[n - 1];
        let len = (run.dst_off + run.width) as usize;
        assert forall|i: int| 0 <= i < n implies extent_of(
            run_extents(runs, n),
            (#[trigger] runs[i]).dst,
        ) is Some by {
            lemma_wanted(before, run.dst, len, runs[i].dst);
        }
        lemma_wanted(before, run.dst, len, run.dst);
    }
}

proof fn lemma_mix_extents(extents: Seq<(Buf, usize)>, m: FusedMix)
    ensures
        mix_extents(extents, m).len() <= extents.len() + 7,
        forall|buf: Buf|
            extent_of(extents, buf) is Some ==> #[trigger] extent_of(
                mix_extents(extents, m),
                buf,
            ) is Some,
        extent_of(mix_extents(extents, m), m.history) is Some,
        extent_of(mix_extents(extents, m), m.taps) is Some,
        extent_of(mix_extents(extents, m), m.packed) is Some,
        extent_of(mix_extents(extents, m), m.decay.0) is Some,
        extent_of(mix_extents(extents, m), m.rate) is Some,
        extent_of(mix_extents(extents, m), m.dt_bias) is Some,
{
    let e1 = wanted(extents, m.history, m.spec.history_size() as usize);
    let taps = (m.spec.kernel as nat * m.spec.channels_len()) as usize;
    let e2 = wanted(e1, m.taps, taps);
    let e3 = wanted(e2, m.packed, m.spec.packed_size() as usize);
    let e4 = wanted(e3, m.decay.0, (m.decay.1 + m.spec.gates_len()) as usize);
    let e5 = wanted(e4, m.beta.0, (m.beta.1 + m.spec.gates_len()) as usize);
    let e6 = wanted(e5, m.rate, m.spec.heads);
    assert forall|buf: Buf|
        (extent_of(extents, buf) is Some || buf == m.history || buf == m.taps || buf == m.packed
            || buf == m.decay.0 || buf == m.rate || buf == m.dt_bias) implies #[trigger] extent_of(
        mix_extents(extents, m),
        buf,
    ) is Some by {
        lemma_wanted(extents, m.history, m.spec.history_size() as usize, buf);
        lemma_wanted(e1, m.taps, taps, buf);
        lemma_wanted(e2, m.packed, m.spec.packed_size() as usize, buf);
        lemma_wanted(e3, m.decay.0, (m.decay.1 + m.spec.gates_len()) as usize, buf);
        lemma_wanted(e4, m.beta.0, (m.beta.1 + m.spec.gates_len()) as usize, buf);
        lemma_wanted(e5, m.rate, m.spec.heads, buf);
        lemma_wanted(e6, m.dt_bias, m.spec.heads, buf);
    }
    lemma_wanted(extents, m.history, m.spec.history_size() as usize, m.history);
    lemma_wanted(e1, m.taps, taps, m.taps);
    lemma_wanted(e2, m.packed, m.spec.packed_size() as usize, m.packed);
    lemma_wanted(e3, m.decay.0, (m.decay.1 + m.spec.gates_len()) as usize, m.decay.0);
    lemma_wanted(e4, m.beta.0, (m.beta.1 + m.spec.gates_len()) as usize, m.beta.0);
    lemma_wanted(e5, m.rate, m.spec.heads, m.rate);
    lemma_wanted(e6, m.dt_bias, m.spec.heads, m.dt_bias);
}

/// Every buffer of a projection has a value, and they can be counted.
pub proof fn lemma_project_extents(project: FusedProject)
    ensures
        project_extents(project).len() <= project.runs@.len() + 7,
        forall|i: int|
            0 <= i < project.runs@.len() ==> extent_of(
                project_extents(project),
                (#[trigger] project.runs@[i]).dst,
            ) is Some,
        project.mix matches Some(m) ==> {
            let e = project_extents(project);
            &&& extent_of(e, m.history) is Some
            &&& extent_of(e, m.taps) is Some
            &&& extent_of(e, m.packed) is Some
            &&& extent_of(e, m.decay.0) is Some
            &&& extent_of(e, m.rate) is Some
            &&& extent_of(e, m.dt_bias) is Some
        },
{
    let e = run_extents(project.runs@, project.runs@.len());
    lemma_run_extents(project.runs@, project.runs@.len());
    if let Some(m) = project.mix {
        lemma_mix_extents(e, m);
    }
}

/// The buffers of a projection, one entry each at its widest extent.
fn extents_for(project: &FusedProject) -> (extents: Vec<(Buf, usize)>)
    requires
        project_wf(*project),
    ensures
        extents@ == project_extents(*project),
{
    let mut extents: Vec<(Buf, usize)> = Vec::new();
    let mut i: usize = 0;
    while i < project.runs.len()
        invariant
            i <= project.runs@.len(),
            project_wf(*project),
            extents@ == run_extents(project.runs@, i as nat),
        decreases project.runs@.len() - i,
    {
        let run = project.runs[i];
        want(&mut extents, run.dst, run.dst_off + run.width);
        i = i + 1;
    }
    if let Some(m) = project.mix {
        assert(m.spec.kernel as nat * m.spec.channels_len() <= usize::MAX);
        want(&mut extents, m.history, m.spec.history_len());
        want(&mut extents, m.taps, m.spec.kernel * m.spec.channels());
        want(&mut extents, m.packed, m.spec.packed_len());
        want(&mut extents, m.decay.0, m.decay.1 + m.spec.gates());
        want(&mut extents, m.beta.0, m.beta.1 + m.spec.gates());
        want(&mut extents, m.rate, m.spec.heads);
        want(&mut extents, m.dt_bias, m.spec.heads);
    }
    extents
}

fn val_of(extents: &Vec<(Buf, usize)>, buf: Buf) -> (val: Val)
    requires
        extent_of(extents@, buf) is Some,
        extents@.len() + 2 <= usize::MAX,
    ensures
        val == extent_val(extents@, buf),
{
    let at = find_extent(extents, buf).unwrap();
    Val(2 + at)
}

/// Records one of a projection's weights.
fn record_weight(chain: &mut Chain, weight: (ProjWeight, usize), d_model: usize)
    requires
        old(chain).wf(),
        padded_rows(weight.1) <= usize::MAX,
    ensures
        final(chain).wf(),
        final(chain).stages() == old(chain).stages(),
        final(chain).vals() == old(chain).vals().push(weight_kind(weight, d_model)),
        final(chain).binds() == old(chain).binds().push(weight_bind(weight)),
{
    let rows: usize = weight.1;
    match weight.0 {
        ProjWeight::Q8(w) => {
            chain.weight(w, rows, d_model);
        },
        ProjWeight::Raw(w, quant) => {
            let padded: usize = if rows % RAW_UNIT == 0 {
                rows
            } else {
                (rows / RAW_UNIT + 1) * RAW_UNIT
            };
            chain.raw_weight(w, padded, d_model, quant);
        },
    }
}

/// Records a projection's weights behind what a chain already holds.
fn record_weights(chain: &mut Chain, project: &FusedProject)
    requires
        old(chain).wf(),
        project_wf(*project),
    ensures
        final(chain).wf(),
        final(chain).stages() == old(chain).stages(),
        final(chain).vals() == old(chain).vals() + project.weights@.map_values(
            |w: (ProjWeight, usize)| weight_kind(w, project.d_model),
        ),
        final(chain).binds() == old(chain).binds() + project.weights@.map_values(
            |w: (ProjWeight, usize)| weight_bind(w),
        ),
{
    let ghost kinds = project.weights@.map_values(
        |w: (ProjWeight, usize)| weight_kind(w, project.d_model),
    );
    let ghost binds = project.weights@.map_values(|w: (ProjWeight, usize)| weight_bind(w));
    let ghost before = *chain;
    let mut i: usize = 0;
    while i < project.weights.len()
        invariant
            i <= project.weights@.len(),
            forall|j: int|
                0 <= j < project.weights@.len() ==> padded_rows(
                    (#[trigger] project.weights@[j]).1,
                ) <= usize::MAX,
            chain.wf(),
            kinds == project.weights@.map_values(
                |w: (ProjWeight, usize)| weight_kind(w, project.d_model),
            ),
            binds == project.weights@.map_values(|w: (ProjWeight, usize)| weight_bind(w)),
            chain.stages() == before.stages(),
            chain.vals() == before.vals() + kinds.take(i as int),
            chain.binds() == before.binds() + binds.take(i as int),
        decreases project.weights@.len() - i,
    {
        record_weight(chain, project.weights[i], project.d_model);
        assert(kinds.take(i + 1) =~= kinds.take(i as int).push(kinds[i as int]));
        assert(binds.take(i + 1) =~= binds.take(i as int).push(binds[i as int]));
        assert(chain.vals() =~= before.vals() + kinds.take(i + 1));
        assert(chain.binds() =~= before.binds() + binds.take(i + 1));
        i = i + 1;
    }
    assert(kinds.take(kinds.len() as int) =~= kinds);
    assert(binds.take(binds.len() as int) =~= binds);
}

/// One run's stages, or `false` where the pass has none.
fn push_run(chain: &mut Chain, project: &FusedProject, run: ProjRun, extents: &Vec<(Buf, usize)>) -> (fits:
    bool)
    requires
        project_wf(*project),
        extents@ == project_extents(*project),
        extent_of(extents@, run.dst) is Some,
        run.weight < project.weights@.len(),
        run.dst_off + run.width <= usize::MAX,
        run.row_off + run.width <= usize::MAX,
        extents@.len() + project.weights@.len() + 3 <= usize::MAX,
    ensures
        fits == run_fits(*project, run),
        final(chain).vals() == old(chain).vals(),
        final(chain).binds() == old(chain).binds(),
        fits ==> final(chain).stages() == old(chain).stages() + run_stages(*project, run),
{
    let act = Val(2 + extents.len());
    let w = Val(3 + extents.len() + run.weight);
    let ghost before = chain.stages();
    match project.weights[run.weight].0 {
        ProjWeight::Q8(_) => {
            if run.width % Q8_BLOCK != 0 || run.row_off % Q8_BLOCK != 0 {
                return false;
            }
            let out = val_of(extents, run.dst);
            chain.push(
                Stage::ProjF {
                    a: act,
                    w,
                    out,
                    out_off: run.dst_off,
                    units: run.width / Q8_BLOCK,
                    row_off: run.row_off,
                },
            );
            assert(chain.stages() =~= before + run_stages(*project, run));
        },
        ProjWeight::Raw(_, quant) => {
            if fused_decode_name(quant).is_none() || run.row_off % RAW_UNIT != 0 {
                return false;
            }
            let out = val_of(extents, run.dst);
            let units: usize = run.width / RAW_UNIT;
            let rest: usize = run.width % RAW_UNIT;
            if units > 0 {
                chain.push(
                    Stage::ProjRawF {
                        a: act,
                        w,
                        out,
                        out_off: run.dst_off,
                        units,
                        width: RAW_UNIT,
                        row_off: run.row_off,
                    },
                );
            }
            if rest > 0 {
                chain.push(
                    Stage::ProjRawF {
                        a: act,
                        w,
                        out,
                        out_off: run.dst_off + units * RAW_UNIT,
                        units: 1,
                        width: rest,
                        row_off: run.row_off + units * RAW_UNIT,
                    },
                );
            }
            assert(chain.stages() =~= before + run_stages(*project, run));
        },
    }
    true
}

/// A mixer's input normalization and the projection reading it as a chain, with
/// each run of the projection's outputs written where its consumer wants it,
/// and optionally the delta net's convolution and gates behind them.
///
/// The projection alone costs no barrier: the normalization is redundant, so
/// its quantized row crosses into the projection for free, and the runs are
/// independent nests writing disjoint windows of the caller's buffers. The
/// convolution costs exactly one, and the gates ride in its nest.
///
/// `None` means a shape the pass has no stage for, so the caller keeps its own
/// launches.
pub fn project_chain(project: &FusedProject) -> (chain: Option<Chain>)
    requires
        project_wf(*project),
    ensures
        chain is Some <==> project_fits(*project),
        chain is Some ==> {
            &&& chain->0.wf()
            &&& chain->0.vals() == project_vals(*project)
            &&& chain->0.stages() == project_stages(*project)
            &&& chain->0.binds() == project_binds(*project)
        },
{
    if let Some(m) = project.mix {
        // Two projections feeding the gates would need a value each; the stage
        // carries one on purpose.
        if m.decay.0 != m.beta.0 || m.spec.rows != 1 {
            return None;
        }
        // One stride walks the heads of every plane, so query and key heads
        // that repeat have no stage.
        if m.spec.kv_heads != m.spec.heads {
            return None;
        }
        // The plane rides the unit index as a stride, so unevenly spaced planes
        // have no stage.
        if m.spec.planes[2] - m.spec.planes[1] != m.spec.planes[1] - m.spec.planes[0] {
            return None;
        }
    }
    // One value per buffer, at the widest extent any stage touches. Two values
    // naming one buffer would hide a dependency: the convolution reads the
    // stream position the projection wrote, and the pass sees that only if both
    // stages name the same value.
    let extents = extents_for(project);
    proof {
        lemma_project_extents(*project);
    }
    let mut chain = Chain::default();
    let xv = chain.given(project.x, project.d_model);
    let gv = chain.given(project.gain, project.d_model);
    let ghost kinds = extents@.map_values(|e: (Buf, usize)| Kind::Given { len: e.1 });
    let ghost binds = extents@.map_values(|e: (Buf, usize)| Bind::Given(e.0));
    let ghost first_kinds = seq![
        Kind::Given { len: project.d_model },
        Kind::Given { len: project.d_model },
    ];
    let ghost first_binds = seq![Bind::Given(project.x), Bind::Given(project.gain)];
    assert(chain.vals() =~= first_kinds + kinds.take(0));
    assert(chain.binds() =~= first_binds + binds.take(0));
    let mut i: usize = 0;
    while i < extents.len()
        invariant
            i <= extents@.len(),
            chain.wf(),
            chain.stages() == Seq::<Stage>::empty(),
            kinds == extents@.map_values(|e: (Buf, usize)| Kind::Given { len: e.1 }),
            binds == extents@.map_values(|e: (Buf, usize)| Bind::Given(e.0)),
            chain.vals() == first_kinds + kinds.take(i as int),
            chain.binds() == first_binds + binds.take(i as int),
        decreases extents@.len() - i,
    {
        let (buf, len) = extents[i];
        chain.given(buf, len);
        assert(kinds.take(i + 1) =~= kinds.take(i as int).push(kinds[i as int]));
        assert(binds.take(i + 1) =~= binds.take(i as int).push(binds[i as int]));
        assert(chain.vals() =~= first_kinds + kinds.take(i + 1));
        assert(chain.binds() =~= first_binds + binds.take(i + 1));
        i = i + 1;
    }
    assert(kinds.take(kinds.len() as int) =~= kinds);
    assert(binds.take(binds.len() as int) =~= binds);
    let act = chain.quant(project.d_model);
    chain.push(Stage::norm_q(xv, gv, act, project.d_model, project.eps_bits));
    assert(chain.stages() =~= runs_stages(*project, 0));
    record_weights(&mut chain, project);
    assert(chain.vals() =~= project_vals(*project));
    assert(chain.binds() =~= project_binds(*project));

    let mut r: usize = 0;
    while r < project.runs.len()
        invariant
            r <= project.runs@.len(),
            project_wf(*project),
            chain.wf(),
            extents@ == project_extents(*project),
            extents@.len() <= project.runs@.len() + 7,
            forall|j: int|
                0 <= j < project.runs@.len() ==> extent_of(
                    extents@,
                    (#[trigger] project.runs@[j]).dst,
                ) is Some,
            forall|j: int| 0 <= j < r ==> run_fits(*project, #[trigger] project.runs@[j]),
            chain.vals() == project_vals(*project),
            chain.binds() == project_binds(*project),
            chain.stages() == runs_stages(*project, r as nat),
        decreases project.runs@.len() - r,
    {
        let run = project.runs[r];
        if !push_run(&mut chain, project, run, &extents) {
            assert(!run_fits(*project, project.runs@[r as int]));
            return None;
        }
        r = r + 1;
    }
    if let Some(m) = project.mix {
        let ghost before = chain.stages();
        let history = val_of(&extents, m.history);
        let taps = val_of(&extents, m.taps);
        let packed = val_of(&extents, m.packed);
        let raw = val_of(&extents, m.decay.0);
        let rate = val_of(&extents, m.rate);
        let bias = val_of(&extents, m.dt_bias);
        chain.push(
            Stage::Conv {
                history,
                taps,
                out: packed,
                planes: 3,
                heads: m.spec.heads,
                head_dim: m.spec.head_dim,
                kernel: m.spec.kernel,
                channels: m.spec.channels(),
                plane_base: m.spec.planes[0],
                plane_stride: m.spec.planes[1] - m.spec.planes[0],
                head_stride: m.spec.head_stride,
                normalize: m.spec.normalize,
                scale_bits: m.spec.query_scale_bits,
            },
        );
        chain.push(
            Stage::Gates {
                raw,
                decay_at: m.decay.1,
                beta_at: m.beta.1,
                rate,
                bias,
                out: packed,
                heads: m.spec.heads,
                units: 3 * m.spec.heads,
                span: m.spec.span(),
            },
        );
        assert(chain.stages() =~= before + mix_stages(extents@, m));
    }
    Some(chain)
}

/// How far a buffer is wanted, by a list of them.
pub open spec fn reaches(extents: Seq<(Buf, usize)>, buf: Buf) -> int {
    match extent_of(extents, buf) {
        Some(i) => extents[i].1 as int,
        None => 0,
    }
}

/// Wanting a buffer as far as a length makes it reach that far, and no other less far.
proof fn lemma_reaches(extents: Seq<(Buf, usize)>, buf: Buf, len: usize, other: Buf)
    ensures
        reaches(wanted(extents, buf, len), buf) >= len,
        reaches(wanted(extents, buf, len), other) >= reaches(extents, other),
{
    let after = wanted(extents, buf, len);
    lemma_extent(extents, buf);
    lemma_extent(extents, other);
    match extent_of(extents, buf) {
        Some(i) => {
            lemma_same_places(extents, after, buf);
            lemma_same_places(extents, after, other);
        },
        None => {
            assert(after.last().0 == buf);
            assert(after.drop_last() =~= extents);
        },
    }
}

/// Lists that name the same buffers in the same places find a buffer in the same place.
proof fn lemma_same_places(a: Seq<(Buf, usize)>, b: Seq<(Buf, usize)>, buf: Buf)
    requires
        a.len() == b.len(),
        forall|i: int| 0 <= i < a.len() ==> (#[trigger] a[i]).0 == b[i].0,
    ensures
        extent_of(a, buf) == extent_of(b, buf),
    decreases a.len(),
{
    if a.len() > 0 {
        assert(a[a.len() - 1].0 == b[b.len() - 1].0);
        assert forall|i: int| 0 <= i < a.drop_last().len() implies (#[trigger] a.drop_last()[i]).0
            == b.drop_last()[i].0 by {
            assert(a[i].0 == b[i].0);
        }
        lemma_same_places(a.drop_last(), b.drop_last(), buf);
    }
}

proof fn lemma_runs_reach(runs: Seq<ProjRun>, n: nat, i: int)
    requires
        0 <= i < n <= runs.len(),
        runs[i].dst_off + runs[i].width <= usize::MAX,
    ensures
        reaches(run_extents(runs, n), runs[i].dst) >= runs[i].dst_off + runs[i].width,
    decreases n,
{
    let run = runs[n - 1];
    let before = run_extents(runs, (n - 1) as nat);
    lemma_reaches(before, run.dst, (run.dst_off + run.width) as usize, runs[i].dst);
    if i < n - 1 {
        lemma_runs_reach(runs, (n - 1) as nat, i);
    }
}

proof fn lemma_mix_reaches(extents: Seq<(Buf, usize)>, m: FusedMix, other: Buf)
    ensures
        reaches(mix_extents(extents, m), other) >= reaches(extents, other),
        reaches(mix_extents(extents, m), m.packed) >= m.spec.packed_size() as usize,
        reaches(mix_extents(extents, m), m.history) >= m.spec.history_size() as usize,
        reaches(mix_extents(extents, m), m.taps) >= (m.spec.kernel as nat
            * m.spec.channels_len()) as usize,
        reaches(mix_extents(extents, m), m.decay.0) >= (m.decay.1 + m.spec.gates_len()) as usize,
        reaches(mix_extents(extents, m), m.beta.0) >= (m.beta.1 + m.spec.gates_len()) as usize,
        reaches(mix_extents(extents, m), m.rate) >= m.spec.heads,
        reaches(mix_extents(extents, m), m.dt_bias) >= m.spec.heads,
{
    let l1 = m.spec.history_size() as usize;
    let l2 = (m.spec.kernel as nat * m.spec.channels_len()) as usize;
    let l3 = m.spec.packed_size() as usize;
    let l4 = (m.decay.1 + m.spec.gates_len()) as usize;
    let l5 = (m.beta.1 + m.spec.gates_len()) as usize;
    let e1 = wanted(extents, m.history, l1);
    let e2 = wanted(e1, m.taps, l2);
    let e3 = wanted(e2, m.packed, l3);
    let e4 = wanted(e3, m.decay.0, l4);
    let e5 = wanted(e4, m.beta.0, l5);
    let e6 = wanted(e5, m.rate, m.spec.heads);
    lemma_grown(extents, m.history, l1, m, other);
    lemma_grown(e1, m.taps, l2, m, other);
    lemma_grown(e2, m.packed, l3, m, other);
    lemma_grown(e3, m.decay.0, l4, m, other);
    lemma_grown(e4, m.beta.0, l5, m, other);
    lemma_grown(e5, m.rate, m.spec.heads, m, other);
    lemma_grown(e6, m.dt_bias, m.spec.heads, m, other);
}

/// Wanting one buffer keeps how far a mix's own and another reach.
proof fn lemma_grown(extents: Seq<(Buf, usize)>, buf: Buf, len: usize, m: FusedMix, other: Buf)
    ensures
        reaches(wanted(extents, buf, len), buf) >= len,
        reaches(wanted(extents, buf, len), other) >= reaches(extents, other),
        reaches(wanted(extents, buf, len), m.history) >= reaches(extents, m.history),
        reaches(wanted(extents, buf, len), m.taps) >= reaches(extents, m.taps),
        reaches(wanted(extents, buf, len), m.packed) >= reaches(extents, m.packed),
        reaches(wanted(extents, buf, len), m.decay.0) >= reaches(extents, m.decay.0),
        reaches(wanted(extents, buf, len), m.beta.0) >= reaches(extents, m.beta.0),
        reaches(wanted(extents, buf, len), m.rate) >= reaches(extents, m.rate),
{
    lemma_reaches(extents, buf, len, other);
    lemma_reaches(extents, buf, len, m.history);
    lemma_reaches(extents, buf, len, m.taps);
    lemma_reaches(extents, buf, len, m.packed);
    lemma_reaches(extents, buf, len, m.decay.0);
    lemma_reaches(extents, buf, len, m.beta.0);
    lemma_reaches(extents, buf, len, m.rate);
}

/// A projection's chain declares every buffer as far as any of its stages goes: to the end
/// of each run's window, and to the end of all that the convolution and the gates touch.
pub proof fn a_chains_buffers_reach_every_stage(project: FusedProject, i: int)
    requires
        project_wf(project),
        0 <= i < project.runs@.len(),
    ensures
        ({
            let e = project_extents(project);
            let run = project.runs@[i];
            &&& reaches(e, run.dst) >= run.dst_off + run.width
            &&& project.mix matches Some(m) ==> {
                &&& reaches(e, m.history) >= m.spec.history_size()
                &&& reaches(e, m.taps) >= m.spec.kernel as nat * m.spec.channels_len()
                &&& reaches(e, m.packed) >= m.spec.packed_size()
                &&& reaches(e, m.decay.0) >= m.decay.1 + m.spec.gates_len()
                &&& reaches(e, m.beta.0) >= m.beta.1 + m.spec.gates_len()
                &&& reaches(e, m.rate) >= m.spec.heads
                &&& reaches(e, m.dt_bias) >= m.spec.heads
            }
        }),
{
    let run = project.runs@[i];
    let e = run_extents(project.runs@, project.runs@.len());
    lemma_runs_reach(project.runs@, project.runs@.len(), i);
    if let Some(m) = project.mix {
        lemma_mix_reaches(e, m, run.dst);
    }
}

} // verus!
