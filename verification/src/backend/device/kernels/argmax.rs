//! The argmax of a row of logits on the device: one pass of partials, one that
//! folds them.

use vstd::prelude::*;

use crate::backend::device::kernels::{self, halved};
use crate::text::{self, Args};

verus! {

broadcast use crate::text::lemma_filled_args;

/// Columns a program folds at a step.
pub const ARGMAX_CHUNK: usize = 512;

/// Blocks the first pass launches, whatever the row.
pub const ARGMAX_SPLITS: usize = 128;

/// The widest power of two, at most the chunk, that divides `n`, and one for an
/// empty row.
pub open spec fn chunk_of(n: nat) -> nat {
    if n == 0 {
        1
    } else {
        kernels::halved_to_divide(512, n)
    }
}

/// A chunk that did not divide the row would need a masked tail, and the mask
/// is not the identity of a maximum.
pub fn argmax_chunk_width(n: usize) -> (w: usize)
    ensures
        w == chunk_of(n as nat),
        1 <= w <= 512,
        n % w == 0,
{
    if n == 0 {
        return 1;
    }
    proof {
        kernels::lemma_halved(512, n as nat);
    }
    halved(ARGMAX_CHUNK, n)
}

pub const ARGMAX_REDUCE: &'static str = "@launch(256)
@autotune(W in [$0])
kernel argmax_reduce(A: tensor<f32>[M, N], IO: tensor<f32>[M, W], P: tensor<f32>[2, S]) {
  let pid = program_id(0)
  var v: tile<f32>[1, W] = -300000000.0
  var i: tile<f32>[1, W] = -1.0
  let io = IO[0 :+ 1, :]
  for kt in range(pid * W, N, S * W) {
    let chunk = A[0 :+ 1, kt :+ W]
    var cand: tile<f32>[1, W] = io + f32(kt)
    i = argsel(chunk, v, cand, i)
    v = tmax(chunk, v)
  }
  let vm = rowmax(v)
  var none: tile<f32>[1, W] = -1.0
  P[0 :+ 1, pid :+ 1] = vm
  P[1 :+ 1, pid :+ 1] = rowmax(argsel(v, vm, i, none))
}
";

/// A row's argmax in chunks, one partial pair left per block.
pub fn argmax_reduce_src(w: usize) -> (s: String)
    ensures
        s@ == text::filled(ARGMAX_REDUCE@, seq![text::decimal(w as nat)]),
{
    Args::new().num(w).fill(ARGMAX_REDUCE)
}

pub const ARGMAX_FINISH: &'static str = "@launch(256)
@autotune(S in [$0])
kernel argmax_finish(P: tensor<f32>[2, S], OUT: tensor<f32>[1, 2]) {
  let v = P[0 :+ 1, 0 :+ S]
  let vm = rowmax(v)
  var none: tile<f32>[1, S] = -1.0
  OUT[0 :+ 1, 0 :+ 1] = vm
  OUT[0 :+ 1, 1 :+ 1] = rowmax(argsel(v, vm, P[1 :+ 1, 0 :+ S], none))
}
";

/// The partials folded to the winner: the largest value, and the last index of it.
pub fn argmax_finish_src() -> (s: String)
    ensures
        s@ == text::filled(ARGMAX_FINISH@, seq![text::decimal(ARGMAX_SPLITS as nat)]),
{
    Args::new().num(ARGMAX_SPLITS).fill(ARGMAX_FINISH)
}

/// A whole number of chunks is the row.
pub proof fn chunks_tile_the_row(n: nat)
    ensures
        chunk_of(n) >= 1,
        n % chunk_of(n) == 0,
{
    if n > 0 {
        kernels::lemma_halved(512, n);
    }
}

/// No wider chunk would do: twice it is past the limit or divides nothing.
pub proof fn the_chunk_is_the_widest(n: nat)
    requires
        n > 0,
    ensures
        chunk_of(n) == 512 || n % (2 * chunk_of(n)) != 0,
{
    lemma_widest(512, n);
}

proof fn lemma_widest(w: nat, n: nat)
    requires
        n > 0,
        w == 512 || w == 256 || w == 128 || w == 64 || w == 32 || w == 16 || w == 8 || w == 4 || w
            == 2 || w == 1,
    ensures
        kernels::halved_to_divide(w, n) == w || n % (2 * kernels::halved_to_divide(w, n)) != 0,
    decreases w,
{
    if w > 1 && n % w != 0 {
        lemma_widest(w / 2, n);
    }
}

} // verus!
