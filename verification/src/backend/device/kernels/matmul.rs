//! Dense projections: the matvec, its split, and the row-major contractions.

use vstd::prelude::*;

use crate::text::{self, Args};

verus! {

broadcast use crate::text::lemma_filled_args;

/// Output tile along `n` of the single-row projection.
pub const MV_TN: usize = 128;

/// Depth of one step of it.
pub const TILE_K: usize = 16;

/// The weight a tiled matmul declares, and the same in half precision.
pub const WEIGHT: &'static str = "B: tensor<f32>[K, N]";

pub const HALF_WEIGHT: &'static str = "B: tensor<f16>[K, N]";

/// The tiled matmul reading an f16 weight, for the strip a decode writes.
pub fn matmul_f16w_src(template: &str) -> (s: String)
    ensures
        s@ == text::replaced(template@, WEIGHT@, HALF_WEIGHT@),
{
    proof {
        reveal_strlit("B: tensor<f32>[K, N]");
    }
    text::replace_text(template, WEIGHT, HALF_WEIGHT)
}

/// The tensor-core matmul reading one: free there, since it stages to f16
/// anyway.
pub fn matmul_tc_f16w_src(template: &str) -> (s: String)
    ensures
        s@ == text::replaced(template@, WEIGHT@, HALF_WEIGHT@),
{
    matmul_f16w_src(template)
}

/// The single-row projection, whole and split. A caller wanting another row offsets
/// the operands instead.
pub const MATVEC_SRC: &'static str = "\
@launch(256)
@autotune(TILE_N in [128], TILE_K in [16])
{ALIGNED}
kernel matvec(A: tensor<f32>[M, K], B: tensor<f32>[K, N], C: tensor<f32>[M, N]) {
  let pn = program_id(0)
  var acc: tile<f32>[1, TILE_N] = 0.0
  for kt in range(0, K, TILE_K) {
    var a = A[0 :+ 1, kt :+ TILE_K]
    var b = B[kt :+ TILE_K, pn * TILE_N :+ TILE_N]
    acc += dot(a, b)
  }
  C[0 :+ 1, pn * TILE_N :+ TILE_N] = acc
}

@launch(256)
@autotune(TILE_N in [128], TILE_K in [16])
{ALIGNED}
kernel matvec_split(A: tensor<f32>[M, K], B: tensor<f32>[K, N], P: tensor<f32>[S, N]) {
  let pn = program_id(0)
  let ps = program_id(1)
  let slice = K / S
  let from = ps * slice
  var acc: tile<f32>[1, TILE_N] = 0.0
  for kt in range(from, from + slice, TILE_K) {
    var a = A[0 :+ 1, kt :+ TILE_K]
    var b = B[kt :+ TILE_K, pn * TILE_N :+ TILE_N]
    acc += dot(a, b)
  }
  P[ps :+ 1, pn * TILE_N :+ TILE_N] = acc
}
";

/// Programs a narrow projection splits `k` to reach.
pub const MV_SPLIT_TARGET: usize = 96;

/// The shortest slice it cuts.
pub const MV_SPLIT_MIN_SLICE: usize = 64;

/// The most slices up to a bound that cut `k` into whole steps.
pub open spec fn steps_down(splits: nat, k: nat) -> nat
    decreases splits,
{
    if splits <= 1 || k % (splits * 16) == 0 {
        splits
    } else {
        steps_down((splits - 1) as nat, k)
    }
}

/// Slices of a dense single-row projection: one where the grid already fills
/// the card.
pub open spec fn mv_splits_of(n: nat, k: nat) -> nat {
    let grid = (n + 127) / 128;
    let most = if 96nat / grid < k / 64 {
        96nat / grid
    } else {
        k / 64
    };
    let splits = steps_down(most, k);
    if splits == 0 {
        1
    } else {
        splits
    }
}

pub fn mv_splits(n: usize, k: usize) -> (splits: usize)
    requires
        n > 0,
    ensures
        splits == mv_splits_of(n as nat, k as nat),
        1 <= splits <= 96,
{
    let grid: usize = (n - 1) / MV_TN + 1;
    assert(grid == (n + 127) / 128);
    let mut splits: usize = if MV_SPLIT_TARGET / grid < k / MV_SPLIT_MIN_SLICE {
        MV_SPLIT_TARGET / grid
    } else {
        k / MV_SPLIT_MIN_SLICE
    };
    let ghost most = splits as nat;
    assert(96int / grid as int <= 96) by (nonlinear_arith)
        requires
            grid >= 1,
    ;
    while splits > 1 && k % (splits * TILE_K) != 0
        invariant
            splits <= 96,
            steps_down(splits as nat, k as nat) == steps_down(most, k as nat),
        decreases splits,
    {
        splits = splits - 1;
    }
    if splits == 0 {
        1
    } else {
        splits
    }
}

/// Split, every slice is whole steps.
pub proof fn a_dense_split_is_whole_steps(n: nat, k: nat)
    requires
        n > 0,
        mv_splits_of(n, k) > 1,
    ensures
        k % (mv_splits_of(n, k) * 16) == 0,
{
    let grid = (n + 127) / 128;
    let most = if 96nat / grid < k / 64 {
        96nat / grid
    } else {
        k / 64
    };
    lemma_steps(most, k);
}

proof fn lemma_steps(splits: nat, k: nat)
    ensures
        steps_down(splits, k) > 1 ==> k % (steps_down(splits, k) * 16) == 0,
    decreases splits,
{
    if splits > 1 && k % (splits * 16) != 0 {
        lemma_steps((splits - 1) as nat, k);
    }
}

/// Rows a prompt's program of the row-major contraction takes.
pub const ROWS_TM: usize = 16;

/// Outputs it takes at most.
pub const ROWS_TN: usize = 16;

/// Programs below which the contraction splits `k`.
pub const ROWS_SPLIT_TARGET: usize = 192;

/// The most slices it cuts.
pub const ROWS_MAX_SPLITS: usize = 8;

/// Widest `k` a decode row stages whole.
pub const BLOCKS_MAX_K: usize = 5120;

/// The row-major contractions, and the tile each is generated for.
#[derive(Clone, Copy, PartialEq, Eq, Structural, Debug, Hash)]
pub enum RowsKernel {
    /// A decode row against a weight `k` wide.
    Blocks { k: usize, tn: usize },
    /// A tile of rows and outputs.
    Tiles { tm: usize, tn: usize },
}

pub const MATMUL_ROWS: &'static str = "@launch(256)
@autotune(TM in [$0], TN in [$1], TK in [16])
@aligned(M = TM, N = TN, K = TK)
kernel matmul_rows(A: tensor<f32>[M, K], W: tensor<f32>[N, K], C: tensor<f32>[M, N]) {
  let pm = program_id(0)
  let pn = program_id(1)
  var acc: tile<f32>[TM, TN] = 0.0
  for kt in range(0, K, TK) {
    var a = A[pm * TM :+ TM, kt :+ TK]
    var w = W[pn * TN :+ TN, kt :+ TK]
    acc += dot(a, transpose(w))
  }
  C[pm * TM :+ TM, pn * TN :+ TN] = acc
}
";

/// A contraction against a weight held row-major, as the file has it.
pub fn matmul_rows_src(tm: usize, tn: usize) -> (s: String)
    ensures
        s@ == text::filled(MATMUL_ROWS@, seq![text::decimal(tm as nat), text::decimal(tn as nat)]),
{
    Args::new().num(tm).num(tn).fill(MATMUL_ROWS)
}

pub const MATMUL_ROWS_SPLIT: &'static str = "@launch(256)
@autotune(TM in [$0], TN in [$1], TK in [16])
@aligned(M = TM, N = TN, K = TK)
kernel matmul_rows_split(A: tensor<f32>[M, K], W: tensor<f32>[N, K], P: tensor<f32>[SM, N]) {
  let pm = program_id(0)
  let pn = program_id(1)
  let ps = program_id(2)
  let slice = K / (SM / M)
  let from = ps * slice
  var acc: tile<f32>[TM, TN] = 0.0
  for kt in range(from, from + slice, TK) {
    var a = A[pm * TM :+ TM, kt :+ TK]
    var w = W[pn * TN :+ TN, kt :+ TK]
    acc += dot(a, transpose(w))
  }
  P[ps * M + pm * TM :+ TM, pn * TN :+ TN] = acc
}
";

/// The same over one slice of `k` a program.
pub fn matmul_rows_split_src(tm: usize, tn: usize) -> (s: String)
    ensures
        s@ == text::filled(
            MATMUL_ROWS_SPLIT@,
            seq![text::decimal(tm as nat), text::decimal(tn as nat)],
        ),
{
    Args::new().num(tm).num(tn).fill(MATMUL_ROWS_SPLIT)
}

pub const MATVEC_BLOCKS: &'static str = "@launch(256)
@autotune(TN in [$0], KB in [$1])
@aligned(AB = KB, WB = KB, N = TN)
kernel matvec_blocks(A: tensor<f32>[AB, 32], W: tensor<f32>[WB, 32], C: tensor<f32>[N, D1]) {
  let pn = program_id(0)
  var a = A[0 :+ KB, :]
  var parts: tile<f32>[KB, TN] = 0.0
  for j in range(0, TN) {
    let o = pn * TN + j
    parts[:, j :+ 1] = rowsum(a * W[o * KB :+ KB, :])
  }
  C[pn * TN :+ TN, 0 :+ 1] = rowsum(transpose(parts))
}
";

/// One row against a row-major weight, 32 elements of `k` to a thread.
pub fn matvec_blocks_src(k: usize, tn: usize) -> (s: String)
    ensures
        s@ == ({
            let kb = k / 32;
            text::filled(MATVEC_BLOCKS@, seq![text::decimal(tn as nat), text::decimal(kb as nat)])
        }),
{
    let kb: usize = k / 32;
    Args::new().num(tn).num(kb).fill(MATVEC_BLOCKS)
}

} // verus!
