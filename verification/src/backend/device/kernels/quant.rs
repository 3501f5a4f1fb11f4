//! Q8_0 kernels: the activation quantizer, the integer contractions, the fused
//! dot, and the split along `k` with its reduction.

use vstd::prelude::*;

use crate::backend::Q8_BLOCK;
use crate::backend::device::kernels::{self, halved};
use crate::text::{self, Args};

verus! {

broadcast use crate::text::lemma_filled_args;

/// Output tile along `n` of the single-row projection.
pub const Q8_TN: usize = 32;

/// Output tile of the tensor-core projection.
pub const Q8_MMA_TM: usize = 8;

pub const Q8_MMA_TN: usize = 64;

/// Blocks quantized per CTA.
pub const QUANT_TB: usize = 4;

/// The same for a prompt.
pub const QUANT_TB_WIDE: usize = 16;

/// Quantizes an activation, one scale per block of 32.
pub const QUANTIZE_SRC: &'static str = "\
@launch(256)
@autotune(TB in [8])
kernel quantize(X: tensor<f32>[R, 32], Q: tensor<i8>[R, 32], S: tensor<f32>[R, D]) {
  let p = program_id(0)
  var x = X[p * TB :+ TB, 0 :+ 32]
  var mx: tile<f32>[TB, 1] = rowmax(tmax(x, -x))
  var inv = 127.0 / (mx + 0.00000001)
  var y = x * inv
  Q[p * TB :+ TB, 0 :+ 32] = i8(i32(round(y)))
  S[p * TB :+ TB, 0 :+ 1] = mx / 127.0
}
";

/// The projection of one row, both operands in integers.
pub const Q8_DP4A_SRC: &'static str = "\
@launch(256)
@autotune(TN in [32])
{ALIGNED}
kernel q8_dp4a(A: tensor<i8>[M, K], AS: tensor<f32>[M, KB],
               W: tensor<i8>[N, K], WS: tensor<f32>[KB, N],
               C: tensor<f32>[M, N]) {
  let pn = program_id(0)
  var acc: tile<f32>[1, TN] = 0.0
  for kt in range(0, K, 32) {
    let b = kt / 32
    let a = A[0 :+ 1, kt :+ 32]
    let w = W[pn * TN :+ TN, kt :+ 32]
    let ws = WS[b :+ 1, pn * TN :+ TN]
    let da = AS[0 :+ 1, b :+ 1]
    acc += f32(dot_t(a, w)) * ws * da
  }
  C[0 :+ 1, pn * TN :+ TN] = acc
}
";

/// The batched projection on the integer tensor cores.
pub const Q8_MMA_SRC: &'static str = "\
@launch(256)
@autotune(TM in [8], TN in [64])
{ALIGNED}
kernel q8_mma(A: tensor<i8>[M, K], AS: tensor<f32>[M, KB],
              W: tensor<i8>[N, K], WS: tensor<f32>[KB, N],
              C: tensor<f32>[M, N]) {
  let pm = program_id(0)
  let pn = program_id(1)
  var acc: tile<f32>[TM, TN] = 0.0
  for kt in range(0, K, 32) {
    let b = kt / 32
    let a = A[pm * TM :+ TM, kt :+ 32]
    let w = W[pn * TN :+ TN, kt :+ 32]
    let ws = WS[b :+ 1, pn * TN :+ TN]
    let da = AS[pm * TM :+ TM, b :+ 1]
    acc += f32(dot_t(a, w)) * ws * da
  }
  C[pm * TM :+ TM, pn * TN :+ TN] = acc
}
";

pub const Q8_QMMA: &'static str = "@launch($0)
@autotune(TM in [64], TN in [64])
@aligned(M = TM, N = TN, K = 32)
kernel q8_qmma(A: tensor<i8>[M, K], AS: tensor<f32>[M, KB],
               W: tensor<i8>[N, K], WS: tensor<f32>[KB, N],
               C: tensor<f32>[M, N]) {
  let pm = program_id(0)
  let pn = program_id(1)
  C[pm * TM :+ TM, pn * TN :+ TN] = qmma_t(A[pm * TM :+ TM, :], AS[pm * TM :+ TM, :],
                                           W[pn * TN :+ TN, :], WS[:, pn * TN :+ TN])
}
";

/// The projection a prompt runs, scales folded into one statement.
pub fn q8_qmma_src(block: usize) -> (s: String)
    ensures
        s@ == text::filled(Q8_QMMA@, seq![text::decimal(block as nat)]),
{
    Args::new().num(block).fill(Q8_QMMA)
}

/// Rows of the deep tile.
pub const Q8_QMMA_TM: usize = 128;

/// Rows of the tile that takes what the deep one leaves over.
pub const Q8_QMMA_SHALLOW: usize = 64;

/// Columns of the narrow tile.
pub const Q8_QMMA_TN: usize = 64;

/// Columns of the wide tile.
pub const Q8_QMMA_WIDE_TN: usize = 128;

/// Threads its CTA carries.
pub const Q8_QMMA_CTA: usize = 128;

/// The widest column tile that divides `n`, the narrow one where none does.
pub open spec fn width_of(n: nat) -> nat {
    if n % 128 == 0 {
        128
    } else {
        64
    }
}

pub fn qmma_width(n: usize) -> (width: usize)
    ensures
        width == width_of(n as nat),
{
    if n % Q8_QMMA_WIDE_TN == 0 {
        Q8_QMMA_WIDE_TN
    } else {
        Q8_QMMA_TN
    }
}

/// The projection decoding runs: a warp owns an output and its lanes divide `k`.
pub const Q8_QDOT_SRC: &'static str = "\
@launch(256)
@autotune(TN in [8])
@aligned(N = TN)
kernel q8_qdot(A: tensor<i8>[M, K], AS: tensor<f32>[M, KB],
               W: tensor<i8>[N, K], WS: tensor<f32>[N, KB],
               C: tensor<f32>[M, N]) {
  let pn = program_id(0)
  C[0 :+ 1, pn * TN :+ TN] = qdot_t(A[0 :+ 1, :], AS[0 :+ 1, :],
                                    W[pn * TN :+ TN, :], WS[pn * TN :+ TN, :])
}
";

/// The same, adding into its destination.
pub const Q8_QDOT_ADD_SRC: &'static str = "@launch(256)
@autotune(TN in [8])
@aligned(N = TN)
kernel q8_qdot_add(A: tensor<i8>[M, K], AS: tensor<f32>[M, KB],
                   W: tensor<i8>[N, K], WS: tensor<f32>[N, KB],
                   C: tensor<f32>[M, N]) {
  let pn = program_id(0)
  C[0 :+ 1, pn * TN :+ TN] += qdot_t(A[0 :+ 1, :], AS[0 :+ 1, :],
                                     W[pn * TN :+ TN, :], WS[pn * TN :+ TN, :])
}
";

/// Outputs per CTA, one per warp.
pub const Q8_QDOT_TN: usize = 8;

pub const Q8_QDOT_PERSIST: &'static str = "@launch(256)
@persistent
@autotune(TN in [$0], BLOCKS in [$1], ITERS in [$2])
@aligned(N = TN)
kernel $3(A: tensor<i8>[M, K], AS: tensor<f32>[M, KB],
              W: tensor<i8>[N, K], WS: tensor<f32>[N, KB],
              C: tensor<f32>[M, N]) {
  let pn = program_id(0)
  for i in range(0, ITERS) {
    let t = pn * TN + i * BLOCKS * TN
    if t < N {
      C[0 :+ 1, t :+ TN] $4 qdot_t(A[0 :+ 1, :], AS[0 :+ 1, :],
                                  W[t :+ TN, :], WS[t :+ TN, :])
    }
  }
}
";

/// The same over a resident grid, each block striding through the outputs.
pub fn q8_qdot_persist_src(iters: usize, blocks: u32, accumulate: bool) -> (s: String)
    ensures
        s@ == text::filled(
            Q8_QDOT_PERSIST@,
            seq![
                text::decimal(Q8_QDOT_TN as nat),
                text::decimal(blocks as nat),
                text::decimal(iters as nat),
                if accumulate { "q8_qdot_persist_add"@ } else { "q8_qdot_persist"@ },
                if accumulate { "+="@ } else { "="@ },
            ],
        ),
{
    let (name, assign) = if accumulate {
        ("q8_qdot_persist_add", "+=")
    } else {
        ("q8_qdot_persist", "=")
    };
    Args::new()
        .num(Q8_QDOT_TN).num(blocks as usize).num(iters).text(name).text(assign)
        .fill(Q8_QDOT_PERSIST)
}

/// The projection with its contraction split across the grid, and the sum of the
/// partials.
pub const Q8_SPLIT_SRC: &'static str = "\
@launch(256)
@autotune(TN in [32])
{ALIGNED}
kernel q8_split(A: tensor<i8>[M, K], AS: tensor<f32>[M, KB],
                W: tensor<i8>[N, K], WS: tensor<f32>[KB, N],
                P: tensor<f32>[S, N]) {
  let pn = program_id(0)
  let ps = program_id(1)
  let slice = K / S
  let from = ps * slice
  var acc: tile<f32>[1, TN] = 0.0
  for kt in range(from, from + slice, 32) {
    let b = kt / 32
    let a = A[0 :+ 1, kt :+ 32]
    let w = W[pn * TN :+ TN, kt :+ 32]
    let ws = WS[b :+ 1, pn * TN :+ TN]
    let da = AS[0 :+ 1, b :+ 1]
    acc += f32(dot_t(a, w)) * ws * da
  }
  P[ps :+ 1, pn * TN :+ TN] = acc
}

@launch(256)
@autotune(RT in [128])
kernel q8_reduce(P: tensor<f32>[S, N], C: tensor<f32>[M, N]) {
  let pn = program_id(0)
  var acc: tile<f32>[1, RT] = 0.0
  for s in range(0, S, 1) {
    acc = acc + P[s :+ 1, pn * RT :+ RT]
  }
  C[0 :+ 1, pn * RT :+ RT] = acc
}
";

/// Output tile of the sum.
pub const Q8_REDUCE_TN: usize = 128;

/// Blocks the split aims for.
pub const Q8_SPLIT_TARGET: usize = 256;

/// The most slices it cuts `k` into.
pub const Q8_SPLIT_MAX: usize = 16;

/// Slices to cut a single-row projection's contraction into: as many as fill
/// the grid, halved until a slice is whole blocks.
pub open spec fn splits_of(n: nat, k: nat) -> nat {
    let grid = if (n + 31) / 32 == 0 {
        1
    } else {
        (n + 31) / 32
    };
    let most = if 256nat / grid < 16 {
        256nat / grid
    } else {
        16
    };
    let splits = kernels::halved_to_divide(most, k / 32);
    if splits == 0 {
        1
    } else {
        splits
    }
}

pub fn q8_splits(n: usize, k: usize) -> (splits: usize)
    ensures
        splits == splits_of(n as nat, k as nat),
        1 <= splits <= 16,
        (k / 32) % splits == 0,
{
    let tiles: usize = n / Q8_TN + if n % Q8_TN == 0 {
        0
    } else {
        1
    };
    assert(tiles == (n + 31) / 32);
    let grid: usize = if tiles == 0 {
        1
    } else {
        tiles
    };
    let most: usize = if Q8_SPLIT_TARGET / grid < Q8_SPLIT_MAX {
        Q8_SPLIT_TARGET / grid
    } else {
        Q8_SPLIT_MAX
    };
    let splits = halved(most, k / Q8_BLOCK);
    if splits == 0 {
        1
    } else {
        splits
    }
}

/// Blocks below which the deep tile's grid is starved.
pub const Q8_QMMA_SPLIT_THRESHOLD: usize = 48;

/// Blocks a split aims to reach.
pub const Q8_QMMA_SPLIT_TARGET: usize = 96;

/// The widest a split gets.
pub const Q8_QMMA_SPLIT_MAX: usize = 8;

/// Splits of the deep tile: eight where a starved grid can take them, else
/// none.
pub open spec fn qmma_splits_of(rows: nat, n: nat, k: nat, wide: nat) -> nat {
    let unsplit = (rows / 128) * (n / wide);
    if unsplit == 0 || unsplit >= 48 {
        1
    } else if 96nat / unsplit >= 8 && (k / 32) >= 8 && (k / 32) % 8 == 0 {
        8
    } else {
        1
    }
}

/// Splits for the deep tile at `rows` by `n` by `k`, one meaning none.
pub fn q8_qmma_splits(rows: usize, n: usize, k: usize, wide: usize) -> (splits: usize)
    requires
        wide > 0,
        (rows / 128) * (n / wide) <= usize::MAX,
    ensures
        splits == qmma_splits_of(rows as nat, n as nat, k as nat, wide as nat),
{
    let unsplit: usize = (rows / Q8_QMMA_TM) * (n / wide);
    if unsplit == 0 || unsplit >= Q8_QMMA_SPLIT_THRESHOLD {
        return 1;
    }
    let blocks: usize = k / Q8_BLOCK;
    let mut most: usize = Q8_QMMA_SPLIT_TARGET / unsplit;
    if most > Q8_QMMA_SPLIT_MAX {
        most = Q8_QMMA_SPLIT_MAX;
    }
    if most > blocks {
        most = blocks;
    }
    let splits = halved(most, blocks);
    proof {
        if most == 8 {
            if blocks % 8 != 0 {
                kernels::lemma_halved(4, blocks as nat);
            }
        } else {
            kernels::lemma_halved(most as nat, blocks as nat);
        }
    }
    if splits == Q8_QMMA_SPLIT_MAX {
        splits
    } else {
        1
    }
}

pub const SPLIT_PARAM: &'static str = ", P$0: tensor<f32>[M, N]";

pub const SPLIT_ARM: &'static str = "  if ps == $0 {
    P$0[pm * TM :+ TM, pn * TN :+ TN] = qmma_t(A[pm * TM :+ TM, $1 :+ $2], AS[pm * TM :+ TM, $3 :+ $4],
                                             W[pn * TN :+ TN, $1 :+ $2], WS[$3 :+ $4, pn * TN :+ TN])
  }
";

pub const Q8_QMMA_SPLIT: &'static str = "@launch($0)
@autotune(TM in [64], TN in [64])
@aligned(M = TM, N = TN, K = $1, KB = $2)
kernel q8_qmma_split(A: tensor<i8>[M, K], AS: tensor<f32>[M, KB],
               W: tensor<i8>[N, K], WS: tensor<f32>[KB, N]$3) {
  let pm = program_id(0)
  let pn = program_id(1)
  let ps = program_id(2)
$4}
";

/// An output plane for each split.
pub open spec fn split_params(s: nat) -> Seq<char>
    decreases s,
{
    if s == 0 {
        Seq::empty()
    } else {
        split_params((s - 1) as nat) + text::filled(
            SPLIT_PARAM@,
            seq![text::decimal((s - 1) as nat)],
        )
    }
}

/// The arm of each split: its slice of `k` contracted into its plane.
pub open spec fn split_arms(slice: nat, s: nat) -> Seq<char>
    decreases s,
{
    if s == 0 {
        Seq::empty()
    } else {
        let i = (s - 1) as nat;
        split_arms(slice, i) + text::filled(
            SPLIT_ARM@,
            seq![
                text::decimal(i),
                text::decimal(i * slice),
                text::decimal(slice),
                text::decimal(i * slice / 32),
                text::decimal(slice / 32),
            ],
        )
    }
}

/// The split of the prompt projection: each split has its own output and its
/// own arm, its slice written out.
pub fn q8_qmma_split_src(block: usize, k: usize, s: usize) -> (text: String)
    requires
        s > 0,
    ensures
        text@ == ({
            let slice = k as nat / (s as nat);
            text::filled(
                Q8_QMMA_SPLIT@,
                seq![
                    text::decimal(block as nat),
                    text::decimal(slice),
                    text::decimal(slice / 32),
                    split_params(s as nat),
                    split_arms(slice, s as nat),
                ],
            )
        }),
{
    let slice: usize = k / s;
    let sb: usize = slice / Q8_BLOCK;
    let mut params = String::new();
    let mut body = String::new();
    assert(params@ =~= Seq::empty());
    assert(body@ =~= Seq::empty());
    let mut i: usize = 0;
    while i < s
        invariant
            i <= s,
            0 < s,
            slice == k / s,
            sb == slice / 32,
            params@ == split_params(i as nat),
            body@ == split_arms(slice as nat, i as nat),
        decreases s - i,
    {
        assert(0 <= i * slice <= k) by (nonlinear_arith)
            requires
                0 <= i < s,
                slice == k / s,
                0 <= k,
        ;
        let from: usize = i * slice;
        let fb: usize = from / Q8_BLOCK;
        params.append(Args::new().num(i).fill(SPLIT_PARAM).as_str());
        body.append(Args::new()
            .num(i).num(from).num(slice).num(fb).num(sb).fill(SPLIT_ARM).as_str());
        i = i + 1;
    }
    Args::new()
        .num(block).num(slice).num(sb).text(params.as_str()).text(body.as_str()).fill(Q8_QMMA_SPLIT)
}

pub const REDUCE_PARAM: &'static str = "P$0: tensor<f32>[M, N], ";

pub const REDUCE_TERM: &'static str = "P$0[pm :+ 1, pn * TN :+ TN]";

pub const Q8_QMMA_REDUCE: &'static str = "@launch($0)
@autotune(TN in [64])
@aligned(N = TN)
kernel q8_qmma_reduce($1C: tensor<f32>[M, N]) {
  let pm = program_id(0)
  let pn = program_id(1)
  C[pm :+ 1, pn * TN :+ TN] = $2
}
";

pub open spec fn reduce_params(s: nat) -> Seq<char>
    decreases s,
{
    if s == 0 {
        Seq::empty()
    } else {
        reduce_params((s - 1) as nat) + text::filled(
            REDUCE_PARAM@,
            seq![text::decimal((s - 1) as nat)],
        )
    }
}

/// The planes' sum.
pub open spec fn reduce_sum(s: nat) -> Seq<char>
    decreases s,
{
    if s == 0 {
        Seq::empty()
    } else {
        let term = text::filled(REDUCE_TERM@, seq![text::decimal((s - 1) as nat)]);
        reduce_sum((s - 1) as nat) + (if s > 1 {
            " + "@
        } else {
            Seq::empty()
        }) + term
    }
}

/// Sums the planes of a split into one, a row at a time.
pub fn q8_qmma_reduce_src(block: usize, s: usize) -> (text: String)
    ensures
        text@ == text::filled(
            Q8_QMMA_REDUCE@,
            seq![text::decimal(block as nat), reduce_params(s as nat), reduce_sum(s as nat)],
        ),
{
    let mut params = String::new();
    let mut sum = String::new();
    assert(params@ =~= Seq::empty());
    assert(sum@ =~= Seq::empty());
    let mut i: usize = 0;
    while i < s
        invariant
            i <= s,
            params@ == reduce_params(i as nat),
            sum@ == reduce_sum(i as nat),
        decreases s - i,
    {
        let ghost before = sum@;
        params.append(Args::new().num(i).fill(REDUCE_PARAM).as_str());
        if i > 0 {
            sum.append(" + ");
        }
        let term = Args::new().num(i).fill(REDUCE_TERM);
        sum.append(term.as_str());
        i = i + 1;
        assert(sum@ =~= reduce_sum(i as nat));
    }
    Args::new().num(block).text(params.as_str()).text(sum.as_str()).fill(Q8_QMMA_REDUCE)
}

/// A split is never thinner than a block and takes all of `k`.
pub proof fn a_split_is_whole_blocks(n: nat, k: nat)
    requires
        k % 32 == 0,
    ensures
        splits_of(n, k) >= 1,
        k % splits_of(n, k) == 0,
        (k / splits_of(n, k)) % 32 == 0,
{
    let grid = if (n + 31) / 32 == 0 {
        1
    } else {
        (n + 31) / 32
    };
    let most = if 256nat / grid < 16 {
        256nat / grid
    } else {
        16
    };
    kernels::lemma_halved(most, k / 32);
    let s = splits_of(n, k);
    let blocks = k / 32;
    let each = blocks / s;
    vstd::arithmetic::div_mod::lemma_fundamental_div_mod(blocks as int, s as int);
    assert(k == (32 * each) * s) by (nonlinear_arith)
        requires
            k == 32 * blocks,
            blocks == s * each,
    ;
    vstd::arithmetic::div_mod::lemma_div_by_multiple((32 * each) as int, s as int);
    vstd::arithmetic::div_mod::lemma_mod_multiples_basic((32 * each) as int, s as int);
}

} // verus!
