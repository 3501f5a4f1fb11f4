//! The mixture-of-experts kernels: the router's top choices, the matvec over a
//! cache of experts, and the weighted sum.

use vstd::prelude::*;

use crate::hadamard;
use crate::backend::device::kernels::{self, resident_blocks};
use crate::text::{self, Args};

verus! {

broadcast use crate::text::lemma_filled_args;

/// Experts a token goes through.
pub const MOE_USED: usize = 8;

/// Columns of the slot matvec's tile.
pub const MOE_QDOT_TN: usize = 64;

/// Columns one CTA of the sum adds.
pub const MOE_COMBINE_TN: usize = 256;

pub const TREE_STEP: &'static str = "    i[0 :+ 1, 0 :+ $0] = argsel(v[0 :+ 1, $0 :+ $0], v[0 :+ 1, 0 :+ $0], \
             i[0 :+ 1, $0 :+ $0], i[0 :+ 1, 0 :+ $0])\n    \
             v[0 :+ 1, 0 :+ $0] = tmax(v[0 :+ 1, $0 :+ $0], v[0 :+ 1, 0 :+ $0])\n";

/// A reduction by halves: the upper half folded into the lower, down to one.
pub open spec fn tree(half: nat) -> Seq<char>
    decreases half,
{
    if half == 0 {
        Seq::empty()
    } else {
        text::filled(TREE_STEP@, seq![text::decimal(half)]) + tree(half / 2)
    }
}

fn halving_tree(width: usize) -> (s: String)
    ensures
        s@ == tree(width as nat / 2),
{
    let mut s = String::new();
    let mut half: usize = width / 2;
    let ghost whole = tree(half as nat);
    assert(s@ + tree(half as nat) =~= whole);
    while half >= 1
        invariant
            s@ + tree(half as nat) == whole,
        decreases half,
    {
        let step = Args::new().num(half).fill(TREE_STEP);
        let ghost before = s@;
        s.append(step.as_str());
        assert(s@ + tree(half as nat / 2) =~= before + tree(half as nat));
        half = half / 2;
    }
    assert(s@ + tree(0) =~= s@);
    s
}

pub const MOE_TOPK: &'static str = "@launch(256)
@autotune(NE in [$0], U in [$1])
@aligned(E = NE)
kernel moe_topk(L: tensor<f32>[R, E], IO: tensor<f32>[1, E], TOPK: tensor<i32>[R, U], W: tensor<f32>[R, U]) {
  let r = program_id(0)
  var p: tile<f32>[1, NE] = L[r :+ 1, 0 :+ NE]
  let m = rowmax(p)
  var ex: tile<f32>[1, NE] = exp(p - m)
  let total = rowsum(ex)
  p = ex / total
  var picked: tile<f32>[1, 1] = 0.0
  var neg: tile<f32>[1, NE] = -1.0
  for j in range(0, U, 1) {
    var v: tile<f32>[1, NE] = p
    var i: tile<f32>[1, NE] = IO[0 :+ 1, 0 :+ NE]
$2    W[r :+ 1, j :+ 1] = v[0 :+ 1, 0 :+ 1]
    TOPK[r :+ 1, j :+ 1] = i32(i[0 :+ 1, 0 :+ 1])
    picked = picked + v[0 :+ 1, 0 :+ 1]
    p = argsel(p, v[0 :+ 1, 0 :+ 1], neg, p)
  }
  var w: tile<f32>[1, U] = W[r :+ 1, 0 :+ U]
  W[r :+ 1, 0 :+ U] = w / picked
}
";

/// The softmax over a row's router logits and its largest probabilities in order,
/// renormalized.
pub fn moe_topk_src(n_expert: usize) -> (s: String)
    requires
        hadamard::is_power(n_expert as nat),
    ensures
        s@ == text::filled(
            MOE_TOPK@,
            seq![
                text::decimal(n_expert as nat),
                text::decimal(MOE_USED as nat),
                tree(n_expert as nat / 2),
            ],
        ),
{
    let tree_text = halving_tree(n_expert);
    Args::new().num(n_expert).num(MOE_USED).text(tree_text.as_str()).fill(MOE_TOPK)
}

pub const MOE_QDOT: &'static str = "@launch($0, $1)
@autotune(TN in [$2], NE in [$3])
@aligned(N = TN, NS = NE)
kernel $4_moe_qdot(AQ: tensor<i8>[U, K], AS: tensor<f32>[U, KB], SLOT: tensor<i32>[1, U],
                      CB: tensor<i8>[NS, RB], CD: tensor<f16>[NS, NB], C: tensor<f32>[U, N]) {
  let pn = program_id(0)
  let j = program_id(1)
  let r = SLOT[0, j] * NE + pn * TN
  C[j :+ 1, pn * TN :+ TN] = $4_qdot_i8_t(AQ[$5 :+ 1, :], AS[$5 :+ 1, :],
                                              CB[r :+ TN, :], CD[r :+ TN, :])
}
";

/// The decode matvec over a slab of experts: a program reads the slot its table
/// names. `act_row` is the activation row it reads.
pub fn moe_qdot_src(
    name: &str,
    ne: usize,
    act_row: &str,
    cta: usize,
    resident: usize,
) -> (s: String)
    requires
        cta > 0,
        resident <= usize::MAX / 1024,
    ensures
        s@ == text::filled(
            MOE_QDOT@,
            seq![
                text::decimal(cta as nat),
                text::decimal(kernels::resident_of(cta, resident)),
                text::decimal(MOE_QDOT_TN as nat),
                text::decimal(ne as nat),
                name@,
                act_row@,
            ],
        ),
{
    let min_blocks = resident_blocks(cta, resident);
    Args::new()
        .num(cta).num(min_blocks).num(MOE_QDOT_TN).num(ne).text(name).text(act_row).fill(MOE_QDOT)
}

pub const MOE_GATEUP: &'static str = "@launch($0, $1)
@autotune(TN in [$2], NE in [$3])
@aligned(N = TN, NS = NE)
kernel $4_moe_gateup(AQ: tensor<i8>[U, K], AS: tensor<f32>[U, KB], SLOT: tensor<i32>[1, U],
                        GB: tensor<i8>[NS, RB], GD: tensor<f16>[NS, NB],
                        UB: tensor<i8>[NS, RB], UD: tensor<f16>[NS, NB], H: tensor<f32>[U, N]) {
  let pn = program_id(0)
  let j = program_id(1)
  let r = SLOT[0, j] * NE + pn * TN
  var g: tile<f32>[1, TN] = $4_qdot_i8_t(AQ[0 :+ 1, :], AS[0 :+ 1, :], GB[r :+ TN, :], GD[r :+ TN, :])
  var u: tile<f32>[1, TN] = $4_qdot_i8_t(AQ[0 :+ 1, :], AS[0 :+ 1, :], UB[r :+ TN, :], UD[r :+ TN, :])
  H[j :+ 1, pn * TN :+ TN] = g / (1.0 + exp(0.0 - g)) * u
}
";

/// Gate, up and the SwiGLU in one launch.
pub fn moe_gateup_src(name: &str, ne: usize, cta: usize, resident: usize) -> (s: String)
    requires
        cta > 0,
        resident <= usize::MAX / 1024,
    ensures
        s@ == text::filled(
            MOE_GATEUP@,
            seq![
                text::decimal(cta as nat),
                text::decimal(kernels::resident_of(cta, resident)),
                text::decimal(MOE_QDOT_TN as nat),
                text::decimal(ne as nat),
                name@,
            ],
        ),
{
    let min_blocks = resident_blocks(cta, resident);
    Args::new().num(cta).num(min_blocks).num(MOE_QDOT_TN).num(ne).text(name).fill(MOE_GATEUP)
}

pub const MOE_COMBINE: &'static str = "@launch(256)
@autotune(TN in [$0], U in [$1])
@aligned(N = TN)
kernel moe_combine(W: tensor<f32>[1, U], C: tensor<f32>[U, N], G: tensor<f32>[1, 1], S: tensor<f32>[1, N],
                   X: tensor<f32>[1, N]) {
  let pn = program_id(0)
  var acc: tile<f32>[1, TN] = X[0 :+ 1, pn * TN :+ TN]
  for j in range(0, U, 1) {
    let w = W[0, j]
    acc = acc + C[j :+ 1, pn * TN :+ TN] * w
  }
  var g: tile<f32>[1, 1] = G[0 :+ 1, 0 :+ 1]
  g = 1.0 / (1.0 + exp(0.0 - g))
  acc = acc + S[0 :+ 1, pn * TN :+ TN] * g
  X[0 :+ 1, pn * TN :+ TN] = acc
}
";

/// The experts' rows weighted by the router, plus the gated shared expert, into the
/// residual.
pub fn moe_combine_src() -> (s: String)
    ensures
        s@ == text::filled(
            MOE_COMBINE@,
            seq![text::decimal(MOE_COMBINE_TN as nat), text::decimal(MOE_USED as nat)],
        ),
{
    Args::new().num(MOE_COMBINE_TN).num(MOE_USED).fill(MOE_COMBINE)
}

} // verus!
