//! What a forward pass asks of the machine it runs on: handles to storage the
//! machine owns, and the shapes of the operations over them.
//!
//! A single-precision parameter is held as its bit pattern throughout.

pub mod compose;
pub mod device;
pub mod fuse;
pub mod host;
pub mod moe;
pub mod named;

use vstd::prelude::*;

use crate::quant::Quant;

verus! {

/// A handle to backend-owned storage, so the bytes can live on a device.
#[derive(Clone, Copy, Debug, PartialEq, Eq, Structural)]
pub struct Buf(pub usize);

/// A handle to storage holding half-precision elements, its length still
/// counted in elements. Only the key and value caches use it.
#[derive(Clone, Copy, Debug, PartialEq, Eq, Structural)]
pub struct HBuf(pub usize);

/// A weight left quantized, held in the planes its kernels index.
#[derive(Clone, Copy, Debug, PartialEq, Eq, Structural)]
pub struct QBuf(pub usize);

/// A weight held in its file's raw block bytes plus the header planes pulled
/// out of them, for a kernel that decodes the rest itself.
#[derive(Clone, Copy, Debug, PartialEq, Eq, Structural)]
pub struct RawBuf(pub usize);

/// An activation quantized once for the several projections that read it.
/// Valid only inside the pass that produced it, and only while its source
/// buffer is unchanged.
#[derive(Clone, Copy, Debug, PartialEq, Eq, Structural)]
pub struct QAct(pub usize);

/// A handle to a block's expert set as a backend holds it.
#[derive(Clone, Copy, Debug, PartialEq, Eq, Structural)]
pub struct ExpertsBuf(pub usize);

/// Elements sharing one activation scale: activations quantize to Q8_0
/// whatever format the weight is held in.
pub const Q8_BLOCK: usize = 32;

/// Guards the delta rule's L2 normalization, so an all-zero row stays zero:
/// the bit pattern of the number nearest to a trillionth.
pub const L2_EPS_BITS: u32 = 0x2b8c_bccc;

/// One side of a strided copy.
#[derive(Clone, Copy, Debug, PartialEq, Eq, Structural)]
pub struct Plane {
    pub buf: Buf,
    pub offset: usize,
    pub pitch: usize,
}

/// [`Plane`] over half-precision storage.
#[derive(Clone, Copy, Debug, PartialEq, Eq, Structural)]
pub struct HPlane {
    pub buf: HBuf,
    pub offset: usize,
    pub pitch: usize,
}

#[derive(Clone, Copy, Debug, PartialEq, Eq, Structural)]
pub struct Rope {
    pub heads: usize,
    pub head_dim: usize,
    /// Leading elements of each head that rotate. The rest pass through.
    pub rope_dim: usize,
    /// Absolute position of the first row.
    pub start_pos: usize,
}

#[derive(Clone, Copy, Debug)]
pub struct Attn {
    pub rows: usize,
    /// Positions already in the caches, so row `t` attends to `start_pos + t`.
    pub start_pos: usize,
    pub n_head: usize,
    pub n_kv: usize,
    pub head_dim: usize,
}

impl Attn {
    /// Positions in the caches once this call's rows are appended.
    pub fn total(&self) -> (n: usize)
        requires
            self.start_pos + self.rows <= usize::MAX,
        ensures
            n == self.start_pos + self.rows,
    {
        self.start_pos + self.rows
    }

    /// Query heads sharing one key/value head.
    pub fn group(&self) -> (n: usize)
        requires
            self.n_kv > 0,
        ensures
            n == self.n_head / self.n_kv,
    {
        self.n_head / self.n_kv
    }

    /// Width of one cached position: every key head side by side.
    pub fn kv_width(&self) -> (n: usize)
        requires
            self.n_kv * self.head_dim <= usize::MAX,
        ensures
            n == self.n_kv * self.head_dim,
    {
        self.n_kv * self.head_dim
    }
}

/// A whole decode MLP, for a backend that can run it as one kernel.
///
/// `x` is the residual row and destination both, since the down projection
/// adds into it. The normalization is part of the request rather than a step
/// already taken, so a fused kernel recomputes it per block instead of
/// paying a barrier to share it.
#[derive(Clone, Copy, Debug)]
pub struct FusedMlp {
    pub x: Buf,
    pub d_model: usize,
    pub d_ff: usize,
    /// Gain of the normalization ahead of the projections.
    pub gain: Buf,
    pub eps_bits: u32,
    /// Gate and up stacked, `[2 * d_ff, d_model]`.
    pub gate_up: QBuf,
    /// `[d_model, d_ff]`.
    pub down: QBuf,
}

/// [`FusedMlp`] over raw-format weights, which a raw file holds as two
/// separate gate and up tensors. Each carries its format, since a file mixes
/// them.
#[derive(Clone, Copy, Debug)]
pub struct FusedMlpRaw {
    pub x: Buf,
    pub d_model: usize,
    pub d_ff: usize,
    pub gain: Buf,
    pub eps_bits: u32,
    pub gate: (RawBuf, Quant),
    pub up: (RawBuf, Quant),
    pub down: (RawBuf, Quant),
}

/// Attention's output epilogue for a backend that can run it as one kernel:
/// quantize the mixed heads, then the output projection accumulating into the
/// residual. There is no normalization ahead of it: `x` is already what the
/// attention kernel produced.
#[derive(Clone, Copy, Debug)]
pub struct FusedAttnOut {
    /// The mixed heads, one row, `width` wide.
    pub x: Buf,
    pub width: usize,
    /// `[d_model, width]`.
    pub w: QBuf,
    pub d_model: usize,
    /// The residual row, accumulated into.
    pub dest: Buf,
}

/// The storage of one weight of a fused projection.
#[derive(Clone, Copy, Debug, PartialEq, Eq, Structural)]
pub enum ProjWeight {
    Q8(QBuf),
    Raw(RawBuf, Quant),
}

/// One contiguous run of a projection's outputs, and where the caller wants
/// it. Naming the destination per run lets the projection write there instead
/// of being copied out afterwards.
#[derive(Clone, Copy, Debug)]
pub struct ProjRun {
    /// Which of the projection's weights this run is a window of.
    pub weight: usize,
    /// First output of the weight this run covers.
    pub row_off: usize,
    pub width: usize,
    pub dst: Buf,
    pub dst_off: usize,
}

/// A normalization and the projection reading it, for a backend that can run
/// them as one kernel. `x` is the residual row, normalized per block rather
/// than published, for the reason [`FusedMlp`] gives.
#[derive(Clone, Copy, Debug)]
pub struct FusedProject<'a> {
    pub x: Buf,
    pub d_model: usize,
    /// Gain of the normalization ahead of the projection.
    pub gain: Buf,
    pub eps_bits: u32,
    /// The weights, each `[rows, d_model]` with its row count, the runs being
    /// windows of their outputs.
    pub weights: &'a [(ProjWeight, usize)],
    pub runs: &'a [ProjRun],
    /// The delta net's convolution and gates, for a chain continuing past the
    /// projection into them.
    pub mix: Option<FusedMix>,
}

/// Which halves of a [`FusedProject`] a backend ran, so the caller knows what
/// it still has to launch itself.
#[derive(Clone, Copy, Debug, PartialEq, Eq, Structural)]
pub struct Fused {
    /// The normalization, the projection and its runs.
    pub project: bool,
    /// The convolution and the gates behind them.
    pub mix: bool,
}

impl Default for Fused {
    /// Neither half.
    fn default() -> (fused: Fused)
        ensures
            !fused.project,
            !fused.mix,
    {
        Fused { project: false, mix: false }
    }
}

/// The delta net's convolution and per-head gates as the tail of a fused
/// projection: the launched ones with the same operands, run in the kernel that
/// produced their input. Only the
/// convolution costs a barrier; the gates read a window it already
/// published, riding along for free.
#[derive(Clone, Copy, Debug)]
pub struct FusedMix {
    pub spec: DeltaMix,
    /// `[pad + rows, channels]`, whose last position the projection writes.
    pub history: Buf,
    /// `[kernel, channels]`.
    pub taps: Buf,
    /// The raw decay and write-strength projections, each a buffer and where
    /// in it the projection starts.
    pub decay: (Buf, usize),
    pub beta: (Buf, usize),
    pub rate: Buf,
    pub dt_bias: Buf,
    /// The five operands the delta rule reads.
    pub packed: Buf,
}

/// One delta-net mixing step, and the layout its fused projection uses.
#[derive(Clone, Copy, Debug)]
pub struct DeltaMix {
    pub rows: usize,
    /// Value heads: the packed layout's head count, what the delta rule, the
    /// gates and the readout norm all run at.
    pub heads: usize,
    pub head_dim: usize,
    /// Query/key heads. Equal to `heads` outside a grouped-query delta net;
    /// otherwise fewer, each repeated `heads / kv_heads` times to match.
    pub kv_heads: usize,
    /// Taps in the causal depthwise convolution.
    pub kernel: usize,
    /// Element offsets of head zero's query, key and value within one position.
    pub planes: [usize; 3],
    /// Distance between consecutive heads within a plane.
    pub head_stride: usize,
    /// L2-normalize the query and key, what the delta rule is defined on.
    pub normalize: bool,
    /// Applied to the query after normalization.
    pub query_scale_bits: u32,
}

impl DeltaMix {
    /// Elements in one packed query, key or value plane.
    pub open spec fn span_len(&self) -> nat {
        self.rows as nat * self.heads as nat * self.head_dim as nat
    }

    /// Elements in one packed decay or beta vector.
    pub open spec fn gates_len(&self) -> nat {
        self.rows as nat * self.heads as nat
    }

    /// Width of one position: query and key at `kv_heads`, value at `heads`.
    pub open spec fn channels_len(&self) -> nat {
        (2 * self.kv_heads as nat + self.heads as nat) * self.head_dim as nat
    }

    /// Elements a packed operand buffer needs: three planes, two gate vectors.
    pub open spec fn packed_size(&self) -> nat {
        3 * self.span_len() + 2 * self.gates_len()
    }

    /// Elements the padded convolution input needs.
    pub open spec fn history_size(&self) -> nat {
        ((self.kernel - 1 + self.rows) * self.channels_len()) as nat
    }

    /// Every size of the step is one a machine can count, and the convolution
    /// has a tap.
    pub open spec fn fits(&self) -> bool {
        &&& self.kernel >= 1
        &&& self.packed_size() <= usize::MAX
        &&& self.kernel as nat * self.channels_len() <= usize::MAX
        &&& self.history_size() <= usize::MAX
        &&& 2 * self.kv_heads as nat + self.heads as nat <= usize::MAX
        &&& self.channels_len() <= usize::MAX
        &&& self.kernel as nat + self.rows as nat <= usize::MAX
    }

    pub fn span(&self) -> (n: usize)
        requires
            self.gates_len() <= usize::MAX,
            self.span_len() <= usize::MAX,
        ensures
            n == self.span_len(),
    {
        self.rows * self.heads * self.head_dim
    }

    pub fn gates(&self) -> (n: usize)
        requires
            self.gates_len() <= usize::MAX,
        ensures
            n == self.gates_len(),
    {
        self.rows * self.heads
    }

    pub fn channels(&self) -> (n: usize)
        requires
            2 * self.kv_heads as nat + self.heads as nat <= usize::MAX,
            self.channels_len() <= usize::MAX,
        ensures
            n == self.channels_len(),
    {
        (2 * self.kv_heads + self.heads) * self.head_dim
    }

    /// Positions the convolution carries from one call to the next.
    pub fn pad(&self) -> (n: usize)
        requires
            self.kernel >= 1,
        ensures
            n == self.kernel - 1,
    {
        self.kernel - 1
    }

    pub fn packed_len(&self) -> (n: usize)
        requires
            self.packed_size() <= usize::MAX,
        ensures
            n == self.packed_size(),
    {
        3 * self.span() + 2 * self.gates()
    }

    pub fn history_len(&self) -> (n: usize)
        requires
            self.fits(),
        ensures
            n == self.history_size(),
    {
        (self.pad() + self.rows) * self.channels()
    }
}

/// Elements one Walsh-Hadamard transform of an activation takes.
pub const HADAMARD_BLOCK: usize = 1024;

/// Heads a folded projection reads regrouped: from the tiled `[head_dim,
/// groups, repeat]` order to `[head_dim, repeat, groups]`.
#[derive(Clone, Copy, PartialEq, Eq, Structural, Debug, Hash)]
pub struct HeadPerm {
    pub head_dim: usize,
    pub groups: usize,
    pub repeat: usize,
}

} // verus!
