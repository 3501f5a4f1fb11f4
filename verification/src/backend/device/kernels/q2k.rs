//! Q2_K kernels: sixteen runs at static offsets, each one expression.

use vstd::prelude::*;

use crate::backend::device::kernels::{self, raise, BYTE};
use crate::text::{self, Args};

verus! {

broadcast use crate::text::lemma_filled_args;

/// Output columns a CTA covers.
pub const Q2K_TN: usize = 32;

pub const RUN: usize = 16;

pub const BLOCK_BYTES: usize = 84;

/// A run's byte offset and shift divisor.
pub open spec fn geometry(is: nat) -> (nat, nat) {
    let h = is / 8;
    let rem = is % 8;
    let j = rem / 2;
    let half2 = rem % 2;
    let qs_off = 16 + h * 32 + half2 * 16;
    let shift_div = kernels::raised(4, j);
    (qs_off as nat, shift_div as nat)
}

fn run_geometry(is: usize) -> (g: (usize, usize))
    requires
        is < 16,
    ensures
        g.0 == geometry(is as nat).0,
        g.1 == geometry(is as nat).1,
{
    let h: usize = is / 8;
    let rem: usize = is % 8;
    let j: usize = rem / 2;
    let half2: usize = rem % 2;
    let qs_off: usize = 16 + h * 32 + half2 * 16;
    let shift_div: usize = raise(4, j);
    (qs_off, shift_div)
}

pub const Q2: &'static str = "(((i32(qb[:, $0 :+ $1]) + 256) % 256 / $2) % 4)";

pub const DECODED: &'static str = "    let decoded$0 = f32(d) * f32($1 % 16) * f32($2) - f32(dmin) * f32($1 / 16)\n";

/// The statement that decodes one lane.
pub open spec fn decode_text(is: nat) -> Seq<char> {
    let (qs_off, shift_div) = geometry(is);
    let sc = text::filled(BYTE@, seq![text::decimal(is as nat)]);
    let q2 = text::filled(
        Q2@,
        seq![
            text::decimal(qs_off as nat),
            text::decimal(RUN as nat),
            text::decimal(shift_div as nat),
        ],
    );
    let decoded = text::filled(DECODED@, seq![text::decimal(is as nat), sc, q2]);
    decoded
}

/// A lane's decoding statement, and where its values land in the block.
fn decoded_lane(is: usize) -> (d: (usize, String))
    requires
        is < 16,
    ensures
        d.0 == is * RUN,
        d.1@ == decode_text(is as nat),
{
    let (qs_off, shift_div) = run_geometry(is);
    let sc = Args::new().num(is).fill(BYTE);
    let q2 = Args::new().num(qs_off).num(RUN).num(shift_div).fill(Q2);
    let decoded = Args::new().num(is).text(sc.as_str()).text(q2.as_str()).fill(DECODED);
    (is * RUN, decoded)
}

pub const MATVEC_LINE: &'static str = "$0    let a$1 = A[pm :+ 1, kb * 256 + $2 :+ $3]
    acc = acc + dot_t(a$1, decoded$1)\n";

/// The lines of the first lanes.
pub open spec fn matvec_lines(n: nat) -> Seq<char>
    decreases n,
{
    if n == 0 {
        Seq::empty()
    } else {
        matvec_lines((n - 1) as nat) + text::filled(
            MATVEC_LINE@,
            seq![
                decode_text((n - 1) as nat),
                text::decimal((n - 1) as nat),
                text::decimal(((n - 1) * RUN) as nat),
                text::decimal(RUN as nat),
            ],
        )
    }
}

fn matvec_text() -> (s: String)
    ensures
        s@ == matvec_lines(16),
{
    let mut s = String::new();
    let mut is: usize = 0;
    assert(s@ =~= Seq::empty());
    while is < 16
        invariant
            is <= 16,
            s@ == matvec_lines(is as nat),
        decreases 16 - is,
    {
        let (out_off, decode) = decoded_lane(is);
        let line = Args::new()
            .text(decode.as_str()).num(is).num(out_off).num(RUN).fill(MATVEC_LINE);
        s.append(line.as_str());
        is = is + 1;
    }
    s
}

pub const DEQUANT_LINE: &'static str = "$0    SCRATCH[kb * 256 + $1 :+ $2, pn * TN :+ TN] = transpose(decoded$3)\n";

/// The lines of the first lanes.
pub open spec fn dequant_lines(n: nat) -> Seq<char>
    decreases n,
{
    if n == 0 {
        Seq::empty()
    } else {
        dequant_lines((n - 1) as nat) + text::filled(
            DEQUANT_LINE@,
            seq![
                decode_text((n - 1) as nat),
                text::decimal(((n - 1) * RUN) as nat),
                text::decimal(RUN as nat),
                text::decimal((n - 1) as nat),
            ],
        )
    }
}

fn dequant_text() -> (s: String)
    ensures
        s@ == dequant_lines(16),
{
    let mut s = String::new();
    let mut is: usize = 0;
    assert(s@ =~= Seq::empty());
    while is < 16
        invariant
            is <= 16,
            s@ == dequant_lines(is as nat),
        decreases 16 - is,
    {
        let (out_off, decode) = decoded_lane(is);
        let line = Args::new()
            .text(decode.as_str()).num(out_off).num(RUN).num(is).fill(DEQUANT_LINE);
        s.append(line.as_str());
        is = is + 1;
    }
    s
}

pub const Q2K_MATVEC: &'static str = "@launch(256)
@autotune(TN in [$0])
kernel q2k_matvec(A: tensor<f32>[M, K], QB: tensor<i8>[N, RB],
                  D: tensor<f16>[N, NB], DMIN: tensor<f16>[N, NB],
                  C: tensor<f32>[M, N]) {
  let pn = program_id(0)
  let pm = program_id(1)
  var acc: tile<f32>[1, TN] = 0.0
  for kb in range(0, NB, 1) {
    var qb = QB[pn * TN :+ TN, kb * $1 :+ $1]
    let d = D[pn * TN :+ TN, kb :+ 1]
    let dmin = DMIN[pn * TN :+ TN, kb :+ 1]
$2  }
  C[pm :+ 1, pn * TN :+ TN] = acc
}
";

/// The masked matvec: every lane decoded and contracted.
pub fn q2k_matvec_src(tn: usize) -> (s: String)
    ensures
        s@ == text::filled(
            Q2K_MATVEC@,
            seq![text::decimal(tn as nat), text::decimal(BLOCK_BYTES as nat), matvec_lines(16)],
        ),
{
    Args::new().num(tn).num(BLOCK_BYTES).text(matvec_text().as_str()).fill(Q2K_MATVEC)
}

pub const Q2K_QDOT_MATVEC: &'static str = "@launch(256)
@autotune(TN in [$0])
@aligned(N = TN)
kernel q2k_qdot_matvec(A: tensor<f32>[M, K], QB: tensor<i8>[N, RB],
                       D: tensor<f16>[N, NB], DMIN: tensor<f16>[N, NB],
                       C: tensor<f32>[M, N]) {
  let pn = program_id(0)
  C[0 :+ 1, pn * TN :+ TN] = q2k_qdot_t(A[0 :+ 1, :], QB[pn * TN :+ TN, :],
                                        D[pn * TN :+ TN, :], DMIN[pn * TN :+ TN, :])
}
";

/// The single-row matvec as one statement, for an `n` of whole tiles.
pub fn q2k_qdot_matvec_src(tn: usize) -> (s: String)
    ensures
        s@ == text::filled(Q2K_QDOT_MATVEC@, seq![text::decimal(tn as nat)]),
{
    Args::new().num(tn).fill(Q2K_QDOT_MATVEC)
}

pub const Q2K_DEQUANT: &'static str = "@launch(256)
@autotune(TN in [$0])
kernel q2k_dequant(QB: tensor<i8>[N, RB], D: tensor<f16>[N, NB], DMIN: tensor<f16>[N, NB],
                   SCRATCH: tensor<f32>[K, N]) {
  let pn = program_id(0)
  for kb in range(0, NB, 1) {
    var qb = QB[pn * TN :+ TN, kb * $1 :+ $1]
    let d = D[pn * TN :+ TN, kb :+ 1]
    let dmin = DMIN[pn * TN :+ TN, kb :+ 1]
$2  }
}
";

/// The decode stored rather than contracted.
pub fn q2k_dequant_src(tn: usize) -> (s: String)
    ensures
        s@ == text::filled(
            Q2K_DEQUANT@,
            seq![text::decimal(tn as nat), text::decimal(BLOCK_BYTES as nat), dequant_lines(16)],
        ),
{
    Args::new().num(tn).num(BLOCK_BYTES).text(dequant_text().as_str()).fill(Q2K_DEQUANT)
}

} // verus!
