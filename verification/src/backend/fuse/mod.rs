//! Lowering a chain of decode stages into one persistent kernel.
//!
//! This file is the vocabulary: what a stage is, what it reads and writes,
//! and how a chain keys into a compiled plan. `nests` decides where barriers
//! go, `emit` turns the chain into kernel source, `chains` builds the chains
//! a model uses, `meaning` says what a chain computes, and `laws` states what
//! every plan keeps.

pub mod chains;
pub mod emit;
pub mod laws;
pub mod meaning;
pub mod nests;

use vstd::prelude::*;

use crate::backend::{Buf, QBuf, RawBuf};
use crate::quant::Quant;
use crate::text::Args;

verus! {

/// Rows of the folded activation a redundant normalization sweeps at a time.
pub const NORM_ROWS: usize = 16;

/// Outputs one block takes of a contraction accumulating into its target.
pub const OUT_TILE: usize = 8;

/// Outputs one block takes of a raw-format contraction. Two Q8_0 blocks, so a
/// quantization of a unit's run writes two rows.
pub const RAW_UNIT: usize = 64;

/// A tensor a stage reads or writes, as an index into a [`Chain`]'s value
/// table.
#[derive(Clone, Copy, PartialEq, Eq, Structural, Hash, Debug)]
pub struct Val(pub usize);

/// What a value is, as far as the pass is concerned.
///
/// Deliberately free of buffer handles: this is half the module cache's key,
/// and two layers with different weights want the same compiled kernel.
#[derive(Clone, Copy, PartialEq, Eq, Structural, Hash, Debug)]
pub enum Kind {
    /// A caller's row of `len` elements, read or written in place.
    Given { len: usize },
    /// A Q8_0 weight of `rows` by `k`.
    Weight { rows: usize, k: usize },
    /// A raw-format weight of `rows` by `k`, its block bytes and scale plane
    /// decoded by its format's own intrinsic.
    Raw { rows: usize, k: usize, quant: Quant },
    /// A Q8_0 activation the pass gives storage to, `len` elements.
    Quant { len: usize },
    /// A value that only ever lives in registers, `len` elements wide.
    /// Crossing a nest with one is what the pass declines on.
    Temp { len: usize },
}

/// The storage behind a value. The cache key leaves this out; the backend
/// resolves it at launch.
#[derive(Clone, Copy, PartialEq, Eq, Structural, Debug)]
pub enum Bind {
    Given(Buf),
    Weight(QBuf),
    Raw(RawBuf),
    /// Storage the pass allocates, or none at all.
    Internal,
}

/// One recorded op of a decode step.
///
/// Each variant is a stage of the pass's IR, not a kernel: whether it becomes
/// a loop nest of its own or a few registers inside another's is what
/// [`ChainKey::plan`] decides.
#[derive(Clone, Copy, PartialEq, Eq, Structural, Hash, Debug)]
pub enum Stage {
    /// `out = quantize(x * rsqrt(mean(x * x) + eps) * gain)` over the whole
    /// row. The epsilon is its bit pattern.
    NormQ { x: Val, gain: Val, out: Val, width: usize, eps_bits: u32 },
    /// `out = w[row_off + unit * 32 ..] . a`, contracting the whole of `a`.
    /// One Q8_0 run of outputs per unit, `units` of them.
    ProjQ { a: Val, w: Val, out: Val, units: usize, row_off: usize },
    /// `out[out_off + unit * 32 ..] = w[row_off + unit * 32 ..] . a`,
    /// publishing the outputs where the caller asked for them.
    ProjF { a: Val, w: Val, out: Val, out_off: usize, units: usize, row_off: usize },
    /// `out = w[row_off + unit * 64 ..] . a` for a raw-format weight: one
    /// [`RAW_UNIT`] run of outputs per unit.
    ProjRaw { a: Val, w: Val, out: Val, units: usize, row_off: usize },
    /// `out[out_off + unit * 64 ..] = w[row_off + unit * 64 ..] . a` for a
    /// raw-format weight, `width` outputs a unit: [`RAW_UNIT`], or the
    /// remainder of a run for the one unit that finishes it.
    ProjRawF {
        a: Val,
        w: Val,
        out: Val,
        out_off: usize,
        units: usize,
        width: usize,
        row_off: usize,
    },
    /// `out = (g * sigmoid(g)) * u` on a unit's run.
    Swiglu { g: Val, u: Val, out: Val },
    /// `out = quantize(h)`, `blocks` scales per unit: one where a unit is a
    /// Q8_0 block, two where it is a raw format's run of [`RAW_UNIT`].
    QuantQ { h: Val, out: Val, units: usize, blocks: usize },
    /// `y += w[unit * 64 ..] . a` for a raw-format weight.
    ProjAddRaw { a: Val, w: Val, y: Val, width: usize },
    /// `y += w[unit * 8 ..] . a`, contracting the whole of `a`.
    ProjAdd { a: Val, w: Val, y: Val, width: usize },
    /// The delta net's causal depthwise convolution over one position, one
    /// (plane, head) pair per unit, writing the packed planes a delta rule
    /// reads.
    ///
    /// A unit is a head's row rather than a run of channels because the L2
    /// normalization couples the whole of it, which is also why this cannot
    /// share the projection's partition and so why it costs a barrier.
    Conv {
        history: Val,
        taps: Val,
        out: Val,
        /// Planes, which is three: the query, the key and the value.
        planes: usize,
        heads: usize,
        head_dim: usize,
        kernel: usize,
        /// Elements in one position of the convolution's stream.
        channels: usize,
        /// Element offset of head zero of the first plane within one position,
        /// and the distance to the next plane.
        plane_base: usize,
        plane_stride: usize,
        /// Distance between consecutive heads within a plane.
        head_stride: usize,
        /// L2-normalize the query and key planes, the value never.
        normalize: bool,
        /// The query's scale.
        scale_bits: u32,
    },
    /// `decay = exp(rate * softplus(a + bias))` and `beta = sigmoid(b)`, one
    /// head per unit, appended to the same buffer the planes went in.
    ///
    /// This rides the convolution's nest rather than taking one of its own,
    /// which is what makes it free. Hence `units`, which is wider than the
    /// work.
    Gates {
        /// The raw decay and write-strength projections, and where in the
        /// value each starts.
        raw: Val,
        decay_at: usize,
        beta_at: usize,
        rate: Val,
        bias: Val,
        out: Val,
        heads: usize,
        /// Units of the nest this shares, of which it covers the first `heads`.
        units: usize,
        /// Elements in one packed plane; the gates follow three of them.
        span: usize,
    },
}

/// How a stage's work divides across the grid.
#[derive(Clone, Copy, PartialEq, Eq, Structural, Debug)]
pub enum Part {
    /// Every block does all of it. Carries the row's width in elements.
    Whole(usize),
    /// One unit per block, this many in all, walked with a grid stride.
    Units(usize),
    /// Elementwise, so whatever partition the nest already has.
    Inherit,
}

/// How much of a value a stage reads.
#[derive(Clone, Copy, PartialEq, Eq, Structural, Debug)]
pub enum Read {
    /// Only the reader's own unit, so nothing crosses a block.
    Local,
    /// All of it, which is what costs a barrier when the writer split the
    /// value across the grid.
    All,
}

/// A chain the pass cannot make sense of, which is a mistake of whoever
/// recorded it.
#[derive(Clone, Copy, PartialEq, Eq, Structural, Debug)]
pub enum ChainError {
    /// The first stage is elementwise, so it has no nest to join.
    StartsElementwise,
    /// An elementwise stage follows a whole-row one.
    SharesWholeRow,
    /// A value is used as a weight but was not recorded as one.
    NotWeight(Val),
    /// A value is used as a raw weight but was not recorded as one.
    NotRaw(Val),
    /// A raw weight's format has no fused decode.
    NoFusedDecode(Quant),
    /// A register is read before its nest writes it.
    ReadBeforeWrite(Val),
    /// A value has no caller buffer behind it.
    NotGiven(Val),
    /// A value has no quantized weight behind it.
    NoWeight(Val),
    /// A value has no raw weight behind it.
    NoRaw(Val),
}

/// The words of a chain error.
pub open spec fn error_text(error: ChainError) -> Seq<char> {
    match error {
        ChainError::StartsElementwise => "a chain cannot start with an elementwise stage"@,
        ChainError::SharesWholeRow => "a whole-row nest holds exactly one stage"@,
        ChainError::NotWeight(val) => crate::text::filled(
            "value $0 is used as a weight but was not recorded as one"@,
            seq![crate::text::decimal(val.0 as nat)],
        ),
        ChainError::NotRaw(val) => crate::text::filled(
            "value $0 is used as a raw weight but was not recorded as one"@,
            seq![crate::text::decimal(val.0 as nat)],
        ),
        ChainError::NoFusedDecode(quant) => crate::text::filled(
            "no fused decode for $0"@,
            seq![crate::quant::name_of(quant)],
        ),
        ChainError::ReadBeforeWrite(val) => crate::text::filled(
            "value $0 is read before its nest writes it"@,
            seq![crate::text::decimal(val.0 as nat)],
        ),
        ChainError::NotGiven(val) => crate::text::filled(
            "value $0 is not a caller buffer"@,
            seq![crate::text::decimal(val.0 as nat)],
        ),
        ChainError::NoWeight(val) => crate::text::filled(
            "value $0 is not a quantized weight"@,
            seq![crate::text::decimal(val.0 as nat)],
        ),
        ChainError::NoRaw(val) => crate::text::filled(
            "value $0 is not a raw weight"@,
            seq![crate::text::decimal(val.0 as nat)],
        ),
    }
}

impl ChainError {
    /// The error in words.
    pub fn message(&self) -> (s: String)
        ensures
            s@ == error_text(*self),
    {
        match *self {
            ChainError::StartsElementwise =>
                "a chain cannot start with an elementwise stage".to_owned(),
            ChainError::SharesWholeRow => "a whole-row nest holds exactly one stage".to_owned(),
            ChainError::NotWeight(val) => Args::new().num(val.0).fill(
                "value $0 is used as a weight but was not recorded as one",
            ),
            ChainError::NotRaw(val) => Args::new().num(val.0).fill(
                "value $0 is used as a raw weight but was not recorded as one",
            ),
            ChainError::NoFusedDecode(quant) => Args::new().text(quant.name().as_str()).fill(
                "no fused decode for $0",
            ),
            ChainError::ReadBeforeWrite(val) => Args::new().num(val.0).fill(
                "value $0 is read before its nest writes it",
            ),
            ChainError::NotGiven(val) => Args::new().num(val.0).fill(
                "value $0 is not a caller buffer",
            ),
            ChainError::NoWeight(val) => Args::new().num(val.0).fill(
                "value $0 is not a quantized weight",
            ),
            ChainError::NoRaw(val) => Args::new().num(val.0).fill("value $0 is not a raw weight"),
        }
    }
}

/// How a stage's work divides across the grid.
pub open spec fn part_of(stage: Stage) -> Part {
    match stage {
        Stage::NormQ { width, .. } => Part::Whole(width),
        Stage::ProjQ { units, .. } => Part::Units(units),
        Stage::ProjF { units, .. } => Part::Units(units),
        Stage::ProjRaw { units, .. } => Part::Units(units),
        Stage::ProjRawF { units, .. } => Part::Units(units),
        Stage::QuantQ { units, .. } => Part::Units(units),
        Stage::Swiglu { .. } => Part::Inherit,
        Stage::ProjAdd { width, .. } => Part::Units(width / 8),
        Stage::ProjAddRaw { width, .. } => Part::Units(width / 64),
        Stage::Conv { planes, heads, .. } => Part::Units((planes * heads) as usize),
        Stage::Gates { units, .. } => Part::Units(units),
    }
}

/// The values a stage reads, and how much of each.
pub open spec fn reads_of(stage: Stage) -> Seq<(Val, Read)> {
    match stage {
        Stage::NormQ { x, gain, .. } => seq![(x, Read::All), (gain, Read::All)],
        Stage::ProjQ { a, w, .. } => seq![(a, Read::All), (w, Read::All)],
        Stage::ProjF { a, w, .. } => seq![(a, Read::All), (w, Read::All)],
        Stage::ProjRaw { a, w, .. } => seq![(a, Read::All), (w, Read::All)],
        Stage::ProjRawF { a, w, .. } => seq![(a, Read::All), (w, Read::All)],
        Stage::Swiglu { g, u, .. } => seq![(g, Read::Local), (u, Read::Local)],
        Stage::QuantQ { h, .. } => seq![(h, Read::Local)],
        // `y` is read only where it is written, so the accumulation crosses
        // nothing of its own.
        Stage::ProjAdd { a, w, y, .. } => seq![(a, Read::All), (w, Read::All), (y, Read::Local)],
        Stage::ProjAddRaw { a, w, y, .. } => seq![
            (a, Read::All),
            (w, Read::All),
            (y, Read::Local),
        ],
        // A head's row spans four of the projection's units, so the stream is
        // read across blocks however the convolution is partitioned.
        Stage::Conv { history, taps, .. } => seq![(history, Read::All), (taps, Read::All)],
        Stage::Gates { raw, rate, bias, .. } => seq![
            (raw, Read::All),
            (rate, Read::All),
            (bias, Read::All),
        ],
    }
}

/// The value a stage writes.
pub open spec fn writes_of(stage: Stage) -> Val {
    match stage {
        Stage::NormQ { out, .. } => out,
        Stage::ProjQ { out, .. } => out,
        Stage::ProjF { out, .. } => out,
        Stage::ProjRaw { out, .. } => out,
        Stage::ProjRawF { out, .. } => out,
        Stage::Swiglu { out, .. } => out,
        Stage::QuantQ { out, .. } => out,
        Stage::Conv { out, .. } => out,
        Stage::Gates { out, .. } => out,
        Stage::ProjAdd { y, .. } => y,
        Stage::ProjAddRaw { y, .. } => y,
    }
}

/// A stage whose unit count and offsets a machine can count.
pub open spec fn stage_fits(stage: Stage) -> bool {
    match stage {
        Stage::Conv { planes, heads, channels, .. } => planes * heads <= usize::MAX && 0 < channels
            <= i64::MAX,
        Stage::Gates { heads, span, .. } => 3 * span + heads <= usize::MAX,
        Stage::QuantQ { blocks, .. } => blocks * 32 <= usize::MAX,
        _ => true,
    }
}

/// A value whose extents a kernel's signature can carry.
pub open spec fn kind_fits(kind: Kind) -> bool {
    match kind {
        Kind::Given { len } => len <= i64::MAX,
        Kind::Quant { len } => len <= i64::MAX,
        Kind::Temp { len } => len <= i64::MAX,
        Kind::Weight { rows, k } => rows <= i64::MAX && k <= i64::MAX && rows * k <= usize::MAX,
        Kind::Raw { rows, k, quant } => {
            &&& rows <= i64::MAX
            &&& k <= i64::MAX
            &&& rows * k <= usize::MAX
            &&& (k / 256) * crate::quant::device_block_of(quant).1 <= i64::MAX
            &&& (k / 256) * crate::quant::device_block_of(quant).1 <= usize::MAX
        },
    }
}

impl Stage {
    /// A normalization, its epsilon given as a bit pattern.
    pub fn norm_q(x: Val, gain: Val, out: Val, width: usize, eps_bits: u32) -> (stage: Stage)
        ensures
            stage == (Stage::NormQ { x, gain, out, width, eps_bits }),
    {
        Stage::NormQ { x, gain, out, width, eps_bits }
    }

    pub fn part(&self) -> (part: Part)
        requires
            stage_fits(*self),
        ensures
            part == part_of(*self),
    {
        match *self {
            Stage::NormQ { width, .. } => Part::Whole(width),
            Stage::ProjQ { units, .. }
            | Stage::ProjF { units, .. }
            | Stage::ProjRaw { units, .. }
            | Stage::ProjRawF { units, .. }
            | Stage::QuantQ { units, .. } => Part::Units(units),
            Stage::Swiglu { .. } => Part::Inherit,
            Stage::ProjAdd { width, .. } => Part::Units(width / OUT_TILE),
            Stage::ProjAddRaw { width, .. } => Part::Units(width / RAW_UNIT),
            Stage::Conv { planes, heads, .. } => Part::Units(planes * heads),
            Stage::Gates { units, .. } => Part::Units(units),
        }
    }

    pub fn reads(&self) -> (reads: Vec<(Val, Read)>)
        ensures
            reads@ == reads_of(*self),
    {
        match *self {
            Stage::NormQ { x, gain, .. } => vec![(x, Read::All), (gain, Read::All)],
            Stage::ProjQ { a, w, .. }
            | Stage::ProjF { a, w, .. }
            | Stage::ProjRaw { a, w, .. }
            | Stage::ProjRawF { a, w, .. } => vec![(a, Read::All), (w, Read::All)],
            Stage::Swiglu { g, u, .. } => vec![(g, Read::Local), (u, Read::Local)],
            Stage::QuantQ { h, .. } => vec![(h, Read::Local)],
            Stage::ProjAdd { a, w, y, .. } | Stage::ProjAddRaw { a, w, y, .. } => {
                vec![(a, Read::All), (w, Read::All), (y, Read::Local)]
            },
            Stage::Conv { history, taps, .. } => vec![(history, Read::All), (taps, Read::All)],
            Stage::Gates { raw, rate, bias, .. } => {
                vec![(raw, Read::All), (rate, Read::All), (bias, Read::All)]
            },
        }
    }

    pub fn writes(&self) -> (val: Val)
        ensures
            val == writes_of(*self),
    {
        match *self {
            Stage::NormQ { out, .. }
            | Stage::ProjQ { out, .. }
            | Stage::ProjF { out, .. }
            | Stage::ProjRaw { out, .. }
            | Stage::ProjRawF { out, .. }
            | Stage::Swiglu { out, .. }
            | Stage::QuantQ { out, .. }
            | Stage::Conv { out, .. }
            | Stage::Gates { out, .. } => out,
            Stage::ProjAdd { y, .. } | Stage::ProjAddRaw { y, .. } => y,
        }
    }
}

/// Everything about a chain that decides the emitted source.
#[verifier::ext_equal]
pub struct Shape {
    pub vals: Seq<Kind>,
    pub stages: Seq<Stage>,
    /// Blocks the kernel is compiled for.
    pub blocks: u32,
}

impl Shape {
    /// Every value a stage names was recorded, every extent can be counted,
    /// and there is a block to run on.
    pub open spec fn wf(self) -> bool {
        &&& self.blocks > 0
        &&& forall|i: int| 0 <= i < self.vals.len() ==> kind_fits(#[trigger] self.vals[i])
        &&& forall|s: int| 0 <= s < self.stages.len() ==> self.stage_wf(#[trigger] self.stages[s])
    }

    pub open spec fn stage_wf(self, stage: Stage) -> bool {
        &&& stage_fits(stage)
        &&& self.has(writes_of(stage))
        &&& forall|i: int|
            0 <= i < reads_of(stage).len() ==> self.has((#[trigger] reads_of(stage)[i]).0)
    }

    pub open spec fn has(self, val: Val) -> bool {
        val.0 < self.vals.len()
    }

    pub open spec fn kind(self, val: Val) -> Kind {
        self.vals[val.0 as int]
    }

    /// Elements of a value.
    pub open spec fn len_of(self, val: Val) -> nat {
        match self.kind(val) {
            Kind::Given { len } => len as nat,
            Kind::Quant { len } => len as nat,
            Kind::Temp { len } => len as nat,
            Kind::Weight { rows, k } => rows as nat * k as nat,
            Kind::Raw { rows, k, .. } => rows as nat * k as nat,
        }
    }
}

/// Everything about a chain that decides the emitted source, and so the module
/// cache's key. Buffer handles are excluded on purpose, which is what lets one
/// compiled kernel serve every layer of a model.
#[derive(Clone, PartialEq, Eq, Hash, Debug)]
pub struct ChainKey {
    pub vals: Vec<Kind>,
    pub stages: Vec<Stage>,
    /// Blocks the kernel is compiled for. A grid barrier makes this part of
    /// what the kernel means, since a block that is not resident never arrives.
    pub blocks: u32,
}

impl View for ChainKey {
    type V = Shape;

    open spec fn view(&self) -> Shape {
        Shape { vals: self.vals@, stages: self.stages@, blocks: self.blocks }
    }
}

impl ChainKey {
    /// Stages the chain records, which is what one fused launch replaces.
    pub fn stages(&self) -> (n: usize)
        ensures
            n == self@.stages.len(),
    {
        self.stages.len()
    }

    /// Elements of a value.
    pub fn len_of(&self, val: Val) -> (n: usize)
        requires
            self@.wf(),
            self@.has(val),
        ensures
            n == self@.len_of(val),
    {
        let kind = self.vals[val.0];
        assert(kind_fits(kind));
        match kind {
            Kind::Given { len } => len,
            Kind::Quant { len } => len,
            Kind::Temp { len } => len,
            Kind::Weight { rows, k } => rows * k,
            Kind::Raw { rows, k, .. } => rows * k,
        }
    }
}

/// The stages of a decode step as a frontend records them, with the storage
/// behind each value kept to one side.
pub struct Chain {
    vals: Vec<Kind>,
    stages: Vec<Stage>,
    binds: Vec<Bind>,
}

impl Chain {
    /// The values recorded so far.
    pub closed spec fn vals(&self) -> Seq<Kind> {
        self.vals@
    }

    /// The stages recorded so far.
    pub closed spec fn stages(&self) -> Seq<Stage> {
        self.stages@
    }

    /// The storage behind each value.
    pub closed spec fn binds(&self) -> Seq<Bind> {
        self.binds@
    }

    /// Every value has storage behind it.
    pub open spec fn wf(&self) -> bool {
        self.vals().len() == self.binds().len()
    }

    /// What the chain is at a grid of this many blocks.
    pub open spec fn shape(&self, blocks: u32) -> Shape {
        Shape { vals: self.vals(), stages: self.stages(), blocks }
    }

    /// The chain with one more value.
    pub open spec fn recorded(before: &Chain, after: &Chain, kind: Kind, bind: Bind, val: Val) -> bool {
        &&& after.wf()
        &&& val.0 == before.vals().len()
        &&& after.vals() == before.vals().push(kind)
        &&& after.binds() == before.binds().push(bind)
        &&& after.stages() == before.stages()
    }

    fn record(&mut self, kind: Kind, bind: Bind) -> (val: Val)
        requires
            old(self).wf(),
        ensures
            Chain::recorded(old(self), final(self), kind, bind, val),
    {
        self.vals.push(kind);
        self.binds.push(bind);
        Val(self.binds.len() - 1)
    }

    /// A caller buffer of `len` elements, which the chain may read, write or
    /// both.
    pub fn given(&mut self, buf: Buf, len: usize) -> (val: Val)
        requires
            old(self).wf(),
        ensures
            Chain::recorded(old(self), final(self), Kind::Given { len }, Bind::Given(buf), val),
    {
        self.record(Kind::Given { len }, Bind::Given(buf))
    }

    pub fn weight(&mut self, w: QBuf, rows: usize, k: usize) -> (val: Val)
        requires
            old(self).wf(),
        ensures
            Chain::recorded(old(self), final(self), Kind::Weight { rows, k }, Bind::Weight(w), val),
    {
        self.record(Kind::Weight { rows, k }, Bind::Weight(w))
    }

    /// A raw-format weight, decoded inside the kernel by its own intrinsic.
    pub fn raw_weight(&mut self, w: RawBuf, rows: usize, k: usize, quant: Quant) -> (val: Val)
        requires
            old(self).wf(),
        ensures
            Chain::recorded(
                old(self),
                final(self),
                Kind::Raw { rows, k, quant },
                Bind::Raw(w),
                val,
            ),
    {
        self.record(Kind::Raw { rows, k, quant }, Bind::Raw(w))
    }

    /// A quantized activation passed between stages, which the pass gives
    /// storage to.
    pub fn quant(&mut self, len: usize) -> (val: Val)
        requires
            old(self).wf(),
        ensures
            Chain::recorded(old(self), final(self), Kind::Quant { len }, Bind::Internal, val),
    {
        self.record(Kind::Quant { len }, Bind::Internal)
    }

    /// A value that has to stay in registers, so it must not outlive its nest.
    pub fn temp(&mut self, len: usize) -> (val: Val)
        requires
            old(self).wf(),
        ensures
            Chain::recorded(old(self), final(self), Kind::Temp { len }, Bind::Internal, val),
    {
        self.record(Kind::Temp { len }, Bind::Internal)
    }

    /// One more stage.
    pub fn push(&mut self, stage: Stage)
        ensures
            final(self).stages() == old(self).stages().push(stage),
            final(self).vals() == old(self).vals(),
            final(self).binds() == old(self).binds(),
    {
        self.stages.push(stage);
    }

    /// The caller buffer behind a value.
    pub fn buf(&self, val: Val) -> (r: Result<Buf, ChainError>)
        requires
            val.0 < self.binds().len(),
        ensures
            r == (match self.binds()[val.0 as int] {
                Bind::Given(buf) => Ok(buf),
                _ => Err(ChainError::NotGiven(val)),
            }),
    {
        match self.binds[val.0] {
            Bind::Given(buf) => Ok(buf),
            _ => Err(ChainError::NotGiven(val)),
        }
    }

    /// The quantized weight behind a value.
    pub fn weight_of(&self, val: Val) -> (r: Result<QBuf, ChainError>)
        requires
            val.0 < self.binds().len(),
        ensures
            r == (match self.binds()[val.0 as int] {
                Bind::Weight(w) => Ok(w),
                _ => Err(ChainError::NoWeight(val)),
            }),
    {
        match self.binds[val.0] {
            Bind::Weight(w) => Ok(w),
            _ => Err(ChainError::NoWeight(val)),
        }
    }

    /// The raw weight behind a value.
    pub fn raw_of(&self, val: Val) -> (r: Result<RawBuf, ChainError>)
        requires
            val.0 < self.binds().len(),
        ensures
            r == (match self.binds()[val.0 as int] {
                Bind::Raw(w) => Ok(w),
                _ => Err(ChainError::NoRaw(val)),
            }),
    {
        match self.binds[val.0] {
            Bind::Raw(w) => Ok(w),
            _ => Err(ChainError::NoRaw(val)),
        }
    }

    /// The chain's shape at this grid, for looking a compiled plan up. The
    /// bindings stay behind, which is what lets one compiled kernel serve every
    /// layer.
    pub fn key(&self, blocks: u32) -> (key: ChainKey)
        ensures
            key@ == self.shape(blocks),
    {
        let mut vals: Vec<Kind> = Vec::new();
        let mut i: usize = 0;
        while i < self.vals.len()
            invariant
                i <= self.vals.len(),
                vals@ == self.vals@.take(i as int),
            decreases self.vals.len() - i,
        {
            vals.push(self.vals[i]);
            i = i + 1;
        }
        let mut stages: Vec<Stage> = Vec::new();
        let mut s: usize = 0;
        while s < self.stages.len()
            invariant
                s <= self.stages.len(),
                stages@ == self.stages@.take(s as int),
            decreases self.stages.len() - s,
        {
            stages.push(self.stages[s]);
            s = s + 1;
        }
        assert(vals@ =~= self.vals@);
        assert(stages@ =~= self.stages@);
        ChainKey { vals, stages, blocks }
    }
}

impl Default for Chain {
    /// A chain with nothing recorded.
    fn default() -> (chain: Chain)
        ensures
            chain.wf(),
            chain.vals() == Seq::<Kind>::empty(),
            chain.stages() == Seq::<Stage>::empty(),
            chain.binds() == Seq::<Bind>::empty(),
    {
        Chain { vals: Vec::new(), stages: Vec::new(), binds: Vec::new() }
    }
}

/// Where a slot's bytes come from. The pass names the operand, the backend
/// resolves it.
#[derive(Clone, Copy, PartialEq, Eq, Structural, Debug)]
pub enum Bound {
    /// A caller buffer.
    Given(Val),
    /// A weight's signed bytes, then its per-row scales.
    WeightQs(Val),
    WeightScales(Val),
    /// A raw weight's block bytes, then its scale plane.
    RawBytes(Val),
    RawD(Val),
    /// Scratch, by index into [`Plan::scratch`].
    ScratchQs(usize),
    ScratchScales(usize),
    /// The arrival counter and release generation.
    Barrier,
}

/// One tensor parameter of the emitted kernel, in declaration order.
#[derive(Clone, Copy, Debug)]
pub struct Slot {
    pub bound: Bound,
    pub dims: [i64; 2],
}

/// Storage a published value wants, in elements.
#[derive(Clone, Copy, PartialEq, Eq, Structural, Debug)]
pub struct Scratch {
    pub bytes: usize,
    pub scales: usize,
}

/// What the pass produces: source to compile, operands to bind, scratch to
/// allocate, and the grid all three were decided for.
#[derive(Debug)]
pub struct Plan {
    pub source: String,
    pub slots: Vec<Slot>,
    pub scratch: Vec<Scratch>,
    pub blocks: u32,
    /// Grid barriers the chain turned out to need.
    pub barriers: usize,
    /// Values the chain keeps in shared memory rather than publishing.
    pub held: usize,
}

} // verus!
