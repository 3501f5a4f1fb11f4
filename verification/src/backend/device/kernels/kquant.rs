//! The K-quant decode matvecs: Q4_K, Q5_K and Q6_K, each one statement without
//! tables.

use vstd::prelude::*;

use crate::backend::device::kernels::resident_blocks;
use crate::backend::device::kernels;
use crate::text::{self, Args};

verus! {

broadcast use crate::text::lemma_filled_args;

/// Output tile: a warp owns eight columns.
pub const Q4K_I8_TN: usize = 64;

/// The tile for an `n` that 64 does not divide.
pub const Q4K_I8_NARROW_TN: usize = 16;

/// Output tile: a warp owns eight columns.
pub const Q5K_I8_TN: usize = 64;

/// The tile for an `n` that 64 does not divide.
pub const Q5K_I8_NARROW_TN: usize = 16;

/// Output tile: a warp owns eight columns.
pub const Q6K_I8_TN: usize = 64;

/// The tile for an `n` that 64 does not divide.
pub const Q6K_I8_NARROW_TN: usize = 16;

pub const KQUANT_QDOT_I8_MATVEC: &'static str = "@launch($0, $1)
@autotune(TN in [$2])
@aligned(N = TN)
kernel $3_qdot_i8_matvec(AQ: tensor<i8>[M, K], AS: tensor<f32>[M, KB],
                          QB: tensor<i8>[N, RB], D: tensor<f16>[N, NB],
                          C: tensor<f32>[M, N]) {
  let pn = program_id(0)
  C[0 :+ 1, pn * TN :+ TN] = $3_qdot_i8_t(AQ[0 :+ 1, :], AS[0 :+ 1, :],
                                           QB[pn * TN :+ TN, :], D[pn * TN :+ TN, :])
}
";

/// A decode matvec, `resident` of four CTAs' registers budgeted.
pub fn kquant_qdot_i8_matvec_src(name: &str, tn: usize, cta: usize, resident: usize) -> (s: String)
    requires
        cta > 0,
        resident <= usize::MAX / 1024,
    ensures
        s@ == text::filled(
            KQUANT_QDOT_I8_MATVEC@,
            seq![
                text::decimal(cta as nat),
                text::decimal(kernels::resident_of(cta, resident)),
                text::decimal(tn as nat),
                name@,
            ],
        ),
{
    Args::new()
        .num(cta).num(resident_blocks(cta, resident)).num(tn).text(name).fill(KQUANT_QDOT_I8_MATVEC)
}

/// The Q4K matvec.
pub fn q4k_qdot_i8_matvec_src(tn: usize, cta: usize) -> (s: String)
    requires
        cta > 0,
    ensures
        s@ == text::filled(
            KQUANT_QDOT_I8_MATVEC@,
            seq![
                text::decimal(cta as nat),
                text::decimal(kernels::resident_of(cta, 4)),
                text::decimal(tn as nat),
                "q4k"@,
            ],
        ),
{
    kquant_qdot_i8_matvec_src("q4k", tn, cta, 4)
}

/// The Q5K matvec.
pub fn q5k_qdot_i8_matvec_src(tn: usize, cta: usize) -> (s: String)
    requires
        cta > 0,
    ensures
        s@ == text::filled(
            KQUANT_QDOT_I8_MATVEC@,
            seq![
                text::decimal(cta as nat),
                text::decimal(kernels::resident_of(cta, 3)),
                text::decimal(tn as nat),
                "q5k"@,
            ],
        ),
{
    kquant_qdot_i8_matvec_src("q5k", tn, cta, 3)
}

/// The Q6K matvec.
pub fn q6k_qdot_i8_matvec_src(tn: usize, cta: usize) -> (s: String)
    requires
        cta > 0,
    ensures
        s@ == text::filled(
            KQUANT_QDOT_I8_MATVEC@,
            seq![
                text::decimal(cta as nat),
                text::decimal(kernels::resident_of(cta, 3)),
                text::decimal(tn as nat),
                "q6k"@,
            ],
        ),
{
    kquant_qdot_i8_matvec_src("q6k", tn, cta, 3)
}

} // verus!
