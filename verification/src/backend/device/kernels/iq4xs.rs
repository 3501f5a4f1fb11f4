//! IQ4_XS kernels: nibbles into a fixed codebook, a whole run of 32 to one lookup.

use vstd::prelude::*;

use crate::backend::device::kernels::{self, raise, BYTE};
use crate::text::{self, Args};

verus! {

broadcast use crate::text::lemma_filled_args;

/// Output columns per CTA.
pub const IQ4XS_TN: usize = 8;

pub const RUN: usize = 32;

pub const BLOCK_BYTES: usize = 136;

/// Nibble values.
pub const IQ4XS_CODEBOOK_LEN: usize = 16;

/// A run's byte offsets and scale-bit divisors.
pub open spec fn geometry(ib: nat) -> (nat, nat, nat, nat) {
    let scale_l_off = 4 + ib / 2;
    let scale_l_div = if ib % 2 == 0 { 1nat } else { 16nat };
    let scale_h_div = kernels::raised(4, ib);
    let qs_off = 8 + 16 * ib;
    (scale_l_off as nat, scale_l_div as nat, scale_h_div as nat, qs_off as nat)
}

fn run_geometry(ib: usize) -> (g: (usize, usize, usize, usize))
    requires
        ib < 8,
    ensures
        g.0 == geometry(ib as nat).0,
        g.1 == geometry(ib as nat).1,
        g.2 == geometry(ib as nat).2,
        g.3 == geometry(ib as nat).3,
{
    let scale_l_off: usize = 4 + ib / 2;
    let scale_l_div: usize = if ib % 2 == 0 { 1 } else { 16 };
    let scale_h_div: usize = raise(4, ib);
    let qs_off: usize = 8 + 16 * ib;
    (scale_l_off, scale_l_div, scale_h_div, qs_off)
}

pub const LOW: &'static str = "(($0 / $1) % 16)";

pub const SCALES_H: &'static str = "($0 + $1 * 256)";

pub const HIGH: &'static str = "(($0 / $1) % 4)";

pub const DL: &'static str = "(f32(d) * f32($0 + $1 * 16 - 32))";

pub const QS16: &'static str = "((i32(qb[:, $0 :+ $1]) + 256) % 256)";

pub const DECODED: &'static str = "    var idx$0: tile<i32>[TN, $1] = 0
    idx$0[:, 0 :+ $2] = $3 % 16
    idx$0[:, $2 :+ $2] = $3 / 16
    let decoded$0 = $4 * f32(gather(codebook, idx$0))\n";

/// The statement that decodes one lane.
pub open spec fn decode_text(ib: nat) -> Seq<char> {
    let (scale_l_off, scale_l_div, scale_h_div, qs_off) = geometry(ib);
    let high_off = 2nat;
    let high_next = 3nat;
    let half = 16nat;
    let scale_l = text::filled(BYTE@, seq![text::decimal(scale_l_off as nat)]);
    let low = text::filled(LOW@, seq![scale_l, text::decimal(scale_l_div as nat)]);
    let h0 = text::filled(BYTE@, seq![text::decimal(high_off as nat)]);
    let h1 = text::filled(BYTE@, seq![text::decimal(high_next as nat)]);
    let scales_h = text::filled(SCALES_H@, seq![h0, h1]);
    let high = text::filled(HIGH@, seq![scales_h, text::decimal(scale_h_div as nat)]);
    let dl = text::filled(DL@, seq![low, high]);
    let qs16 = text::filled(QS16@, seq![text::decimal(qs_off as nat), text::decimal(half as nat)]);
    let decoded = text::filled(
        DECODED@,
        seq![
            text::decimal(ib as nat),
            text::decimal(RUN as nat),
            text::decimal(half as nat),
            qs16,
            dl,
        ],
    );
    decoded
}

/// A lane's decoding statement, and where its values land in the block.
fn decoded_lane(ib: usize) -> (d: (usize, String))
    requires
        ib < 8,
    ensures
        d.0 == ib * RUN,
        d.1@ == decode_text(ib as nat),
{
    let (scale_l_off, scale_l_div, scale_h_div, qs_off) = run_geometry(ib);
    let high_off: usize = 2;
    let high_next: usize = 3;
    let half: usize = 16;
    let scale_l = Args::new().num(scale_l_off).fill(BYTE);
    let low = Args::new().text(scale_l.as_str()).num(scale_l_div).fill(LOW);
    let h0 = Args::new().num(high_off).fill(BYTE);
    let h1 = Args::new().num(high_next).fill(BYTE);
    let scales_h = Args::new().text(h0.as_str()).text(h1.as_str()).fill(SCALES_H);
    let high = Args::new().text(scales_h.as_str()).num(scale_h_div).fill(HIGH);
    let dl = Args::new().text(low.as_str()).text(high.as_str()).fill(DL);
    let qs16 = Args::new().num(qs_off).num(half).fill(QS16);
    let decoded = Args::new()
        .num(ib).num(RUN).num(half).text(qs16.as_str()).text(dl.as_str()).fill(DECODED);
    (ib * RUN, decoded)
}

pub const MATVEC_LINE: &'static str = "$0    let a$1 = A[pm :+ 1, kb * 256 + $2 :+ $3]
    acc = acc + dot_t(a$1, decoded$1)\n";

/// The lines of the first lanes.
pub open spec fn matvec_lines(n: nat) -> Seq<char>
    decreases n,
{
    if n == 0 {
        Seq::empty()
    } else {
        matvec_lines((n - 1) as nat) + text::filled(
            MATVEC_LINE@,
            seq![
                decode_text((n - 1) as nat),
                text::decimal((n - 1) as nat),
                text::decimal(((n - 1) * RUN) as nat),
                text::decimal(RUN as nat),
            ],
        )
    }
}

fn matvec_text() -> (s: String)
    ensures
        s@ == matvec_lines(8),
{
    let mut s = String::new();
    let mut ib: usize = 0;
    assert(s@ =~= Seq::empty());
    while ib < 8
        invariant
            ib <= 8,
            s@ == matvec_lines(ib as nat),
        decreases 8 - ib,
    {
        let (out_off, decode) = decoded_lane(ib);
        let line = Args::new()
            .text(decode.as_str()).num(ib).num(out_off).num(RUN).fill(MATVEC_LINE);
        s.append(line.as_str());
        ib = ib + 1;
    }
    s
}

pub const DEQUANT_LINE: &'static str = "$0    SCRATCH[kb * 256 + $1 :+ $2, pn * TN :+ TN] = transpose(decoded$3)\n";

/// The lines of the first lanes.
pub open spec fn dequant_lines(n: nat) -> Seq<char>
    decreases n,
{
    if n == 0 {
        Seq::empty()
    } else {
        dequant_lines((n - 1) as nat) + text::filled(
            DEQUANT_LINE@,
            seq![
                decode_text((n - 1) as nat),
                text::decimal(((n - 1) * RUN) as nat),
                text::decimal(RUN as nat),
                text::decimal((n - 1) as nat),
            ],
        )
    }
}

fn dequant_text() -> (s: String)
    ensures
        s@ == dequant_lines(8),
{
    let mut s = String::new();
    let mut ib: usize = 0;
    assert(s@ =~= Seq::empty());
    while ib < 8
        invariant
            ib <= 8,
            s@ == dequant_lines(ib as nat),
        decreases 8 - ib,
    {
        let (out_off, decode) = decoded_lane(ib);
        let line = Args::new()
            .text(decode.as_str()).num(out_off).num(RUN).num(ib).fill(DEQUANT_LINE);
        s.append(line.as_str());
        ib = ib + 1;
    }
    s
}

pub const IQ4XS_MATVEC: &'static str = "@launch(256)
@autotune(TN in [$0])
kernel iq4xs_matvec(A: tensor<f32>[M, K], QB: tensor<i8>[N, RB],
                    D: tensor<f16>[N, NB], CODEBOOK: tensor<i32>[1, $1],
                    C: tensor<f32>[M, N]) {
  let pn = program_id(0)
  let pm = program_id(1)
  let codebook = CODEBOOK[0 :+ 1, :]
  var acc: tile<f32>[1, TN] = 0.0
  for kb in range(0, NB, 1) {
    var qb = QB[pn * TN :+ TN, kb * $2 :+ $2]
    let d = D[pn * TN :+ TN, kb :+ 1]
$3  }
  C[pm :+ 1, pn * TN :+ TN] = acc
}
";

/// The masked matvec: every lane decoded and contracted.
pub fn iq4xs_matvec_src(tn: usize) -> (s: String)
    ensures
        s@ == text::filled(
            IQ4XS_MATVEC@,
            seq![
                text::decimal(tn as nat),
                text::decimal(IQ4XS_CODEBOOK_LEN as nat),
                text::decimal(BLOCK_BYTES as nat),
                matvec_lines(8),
            ],
        ),
{
    Args::new()
        .num(tn).num(IQ4XS_CODEBOOK_LEN).num(BLOCK_BYTES).text(matvec_text().as_str())
        .fill(IQ4XS_MATVEC)
}

pub const IQ4XS_QDOT_MATVEC: &'static str = "@launch(256)
@autotune(TN in [$0])
@aligned(N = TN)
kernel iq4xs_qdot_matvec(A: tensor<f32>[M, K], QB: tensor<i8>[N, RB],
                         D: tensor<f16>[N, NB], CODEBOOK: tensor<i32>[1, $1],
                         C: tensor<f32>[M, N]) {
  let pn = program_id(0)
  C[0 :+ 1, pn * TN :+ TN] = iq4xs_qdot_t(A[0 :+ 1, :], QB[pn * TN :+ TN, :],
                                          D[pn * TN :+ TN, :], CODEBOOK[0 :+ 1, :])
}
";

/// The single-row matvec as one statement, for an `n` of whole tiles.
pub fn iq4xs_qdot_matvec_src(tn: usize) -> (s: String)
    ensures
        s@ == text::filled(
            IQ4XS_QDOT_MATVEC@,
            seq![text::decimal(tn as nat), text::decimal(IQ4XS_CODEBOOK_LEN as nat)],
        ),
{
    Args::new().num(tn).num(IQ4XS_CODEBOOK_LEN).fill(IQ4XS_QDOT_MATVEC)
}

pub const IQ4XS_DEQUANT: &'static str = "@launch(256)
@autotune(TN in [$0])
kernel iq4xs_dequant(QB: tensor<i8>[N, RB], D: tensor<f16>[N, NB],
                     CODEBOOK: tensor<i32>[1, $1], SCRATCH: tensor<f32>[K, N]) {
  let pn = program_id(0)
  let codebook = CODEBOOK[0 :+ 1, :]
  for kb in range(0, NB, 1) {
    var qb = QB[pn * TN :+ TN, kb * $2 :+ $2]
    let d = D[pn * TN :+ TN, kb :+ 1]
$3  }
}
";

/// The decode stored rather than contracted.
pub fn iq4xs_dequant_src(tn: usize) -> (s: String)
    ensures
        s@ == text::filled(
            IQ4XS_DEQUANT@,
            seq![
                text::decimal(tn as nat),
                text::decimal(IQ4XS_CODEBOOK_LEN as nat),
                text::decimal(BLOCK_BYTES as nat),
                dequant_lines(8),
            ],
        ),
{
    Args::new()
        .num(tn).num(IQ4XS_CODEBOOK_LEN).num(BLOCK_BYTES).text(dequant_text().as_str())
        .fill(IQ4XS_DEQUANT)
}

} // verus!
