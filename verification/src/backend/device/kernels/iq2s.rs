//! IQ2_S kernels: a grid index of a byte and two more bits, and a sign byte.

use vstd::prelude::*;

use crate::backend::device::kernels::{self, raise, BYTE};
use crate::text::{self, Args};

verus! {

broadcast use crate::text::lemma_filled_args;

/// Output columns per CTA.
pub const IQ2S_TN: usize = 8;

/// Output tile of the integer matvec.
pub const IQ2S_I8_TN: usize = 64;

/// The tile for an `n` that 64 does not divide.
pub const IQ2S_I8_NARROW_TN: usize = 16;

pub const LANES: usize = 32;

pub const LANE: usize = 8;

pub const BLOCK_BYTES: usize = 80;

/// Grid entries, eight lanes apiece.
pub const IQ2S_GRID_LEN: usize = 1024 * 8;

/// Sign bytes, eight factors apiece.
pub const IQ2S_SIGNS_LEN: usize = 256 * 8;

/// A lane's byte offsets: grid index, signs, high bits and scales, and the divisor of its high bits.
pub open spec fn geometry(is: nat) -> (nat, nat, nat, nat, nat) {
    let ib32 = is / 4;
    let l = is % 4;
    let grid_off = 4 * ib32 + l;
    let sign_off = 32 + 4 * ib32 + l;
    let qh_off = 64 + ib32;
    let scale_off = 72 + ib32;
    let qh_div = kernels::raised(4, l);
    (grid_off as nat, sign_off as nat, qh_off as nat, scale_off as nat, qh_div as nat)
}

fn run_geometry(is: usize) -> (g: (usize, usize, usize, usize, usize))
    requires
        is < 32,
    ensures
        g.0 == geometry(is as nat).0,
        g.1 == geometry(is as nat).1,
        g.2 == geometry(is as nat).2,
        g.3 == geometry(is as nat).3,
        g.4 == geometry(is as nat).4,
{
    let ib32: usize = is / 4;
    let l: usize = is % 4;
    let grid_off: usize = 4 * ib32 + l;
    let sign_off: usize = 32 + 4 * ib32 + l;
    let qh_off: usize = 64 + ib32;
    let scale_off: usize = 72 + ib32;
    let qh_div: usize = raise(4, l);
    (grid_off, sign_off, qh_off, scale_off, qh_div)
}

pub const NIBBLE_LOW: &'static str = "($0 % 16)";

pub const NIBBLE_HIGH: &'static str = "($0 / 16)";

pub const DL: &'static str = "(f32(d) * (0.5 + f32($0)) * 0.25)";

pub const GRID_IDX: &'static str = "($0 + (($1 / $2) % 4) * 256)";

pub const MAG_IDX8: &'static str = "($0 * $1 + iota)";

pub const DECODED: &'static str = "    let decoded$0 = $1 * f32(gather(grid, $2)) * f32(gather(signs, $3))\n";

/// The statement that decodes one lane.
pub open spec fn decode_text(is: nat) -> Seq<char> {
    let (grid_off, sign_off, qh_off, scale_off, qh_div) = geometry(is);
    let grid_byte = text::filled(BYTE@, seq![text::decimal(grid_off as nat)]);
    let sign_byte = text::filled(BYTE@, seq![text::decimal(sign_off as nat)]);
    let qh_byte = text::filled(BYTE@, seq![text::decimal(qh_off as nat)]);
    let scale_byte = text::filled(BYTE@, seq![text::decimal(scale_off as nat)]);
    let nibble = if is % 4 < 2 {
        text::filled(NIBBLE_LOW@, seq![scale_byte])
    } else {
        text::filled(NIBBLE_HIGH@, seq![scale_byte])
    };
    let dl = text::filled(DL@, seq![nibble]);
    let grid_idx = text::filled(GRID_IDX@, seq![grid_byte, qh_byte, text::decimal(qh_div as nat)]);
    let mag_idx8 = text::filled(MAG_IDX8@, seq![grid_idx, text::decimal(LANE as nat)]);
    let sign_idx8 = text::filled(MAG_IDX8@, seq![sign_byte, text::decimal(LANE as nat)]);
    let decoded = text::filled(DECODED@, seq![text::decimal(is as nat), dl, mag_idx8, sign_idx8]);
    decoded
}

/// A lane's decoding statement, and where its values land in the block.
fn decoded_lane(is: usize) -> (d: (usize, String))
    requires
        is < 32,
    ensures
        d.0 == is * LANE,
        d.1@ == decode_text(is as nat),
{
    let (grid_off, sign_off, qh_off, scale_off, qh_div) = run_geometry(is);
    let grid_byte = Args::new().num(grid_off).fill(BYTE);
    let sign_byte = Args::new().num(sign_off).fill(BYTE);
    let qh_byte = Args::new().num(qh_off).fill(BYTE);
    let scale_byte = Args::new().num(scale_off).fill(BYTE);
    let nibble = if is % 4 < 2 {
        Args::new().text(scale_byte.as_str()).fill(NIBBLE_LOW)
    } else {
        Args::new().text(scale_byte.as_str()).fill(NIBBLE_HIGH)
    };
    let dl = Args::new().text(nibble.as_str()).fill(DL);
    let grid_idx = Args::new()
        .text(grid_byte.as_str()).text(qh_byte.as_str()).num(qh_div).fill(GRID_IDX);
    let mag_idx8 = Args::new().text(grid_idx.as_str()).num(LANE).fill(MAG_IDX8);
    let sign_idx8 = Args::new().text(sign_byte.as_str()).num(LANE).fill(MAG_IDX8);
    let decoded = Args::new()
        .num(is).text(dl.as_str()).text(mag_idx8.as_str()).text(sign_idx8.as_str()).fill(DECODED);
    (is * LANE, decoded)
}

pub const MATVEC_LINE: &'static str = "$0    acc = acc + dot_t(A[pm :+ 1, kb * 256 + $1 :+ $2], decoded$3)\n";

/// The lines of the first lanes.
pub open spec fn matvec_lines(n: nat) -> Seq<char>
    decreases n,
{
    if n == 0 {
        Seq::empty()
    } else {
        matvec_lines((n - 1) as nat) + text::filled(
            MATVEC_LINE@,
            seq![
                decode_text((n - 1) as nat),
                text::decimal(((n - 1) * LANE) as nat),
                text::decimal(LANE as nat),
                text::decimal((n - 1) as nat),
            ],
        )
    }
}

fn matvec_text() -> (s: String)
    ensures
        s@ == matvec_lines(32),
{
    let mut s = String::new();
    let mut is: usize = 0;
    assert(s@ =~= Seq::empty());
    while is < 32
        invariant
            is <= 32,
            s@ == matvec_lines(is as nat),
        decreases 32 - is,
    {
        let (out_off, decode) = decoded_lane(is);
        let line = Args::new()
            .text(decode.as_str()).num(out_off).num(LANE).num(is).fill(MATVEC_LINE);
        s.append(line.as_str());
        is = is + 1;
    }
    s
}

pub const DEQUANT_LINE: &'static str = "$0    SCRATCH[kb * 256 + $1 :+ $2, pn * TN :+ TN] = transpose(decoded$3)\n";

/// The lines of the first lanes.
pub open spec fn dequant_lines(n: nat) -> Seq<char>
    decreases n,
{
    if n == 0 {
        Seq::empty()
    } else {
        dequant_lines((n - 1) as nat) + text::filled(
            DEQUANT_LINE@,
            seq![
                decode_text((n - 1) as nat),
                text::decimal(((n - 1) * LANE) as nat),
                text::decimal(LANE as nat),
                text::decimal((n - 1) as nat),
            ],
        )
    }
}

fn dequant_text() -> (s: String)
    ensures
        s@ == dequant_lines(32),
{
    let mut s = String::new();
    let mut is: usize = 0;
    assert(s@ =~= Seq::empty());
    while is < 32
        invariant
            is <= 32,
            s@ == dequant_lines(is as nat),
        decreases 32 - is,
    {
        let (out_off, decode) = decoded_lane(is);
        let line = Args::new()
            .text(decode.as_str()).num(out_off).num(LANE).num(is).fill(DEQUANT_LINE);
        s.append(line.as_str());
        is = is + 1;
    }
    s
}

pub const IQ2S_MATVEC: &'static str = "@launch(256)
@autotune(TN in [$0])
kernel iq2s_matvec(A: tensor<f32>[M, K], QB: tensor<i8>[N, RB],
                   D: tensor<f16>[N, NB], GRID: tensor<i32>[1, $1],
                   SIGNS: tensor<i32>[1, $2], IOTA: tensor<i32>[1, $3],
                   C: tensor<f32>[M, N]) {
  let pn = program_id(0)
  let pm = program_id(1)
  let grid = GRID[0 :+ 1, :]
  let signs = SIGNS[0 :+ 1, :]
  let iota = IOTA[0 :+ 1, :]
  var acc: tile<f32>[1, TN] = 0.0
  for kb in range(0, NB, 1) {
    var qb = QB[pn * TN :+ TN, kb * $4 :+ $4]
    let d = D[pn * TN :+ TN, kb :+ 1]
$5  }
  C[pm :+ 1, pn * TN :+ TN] = acc
}
";

/// The masked matvec: every lane decoded and contracted.
pub fn iq2s_matvec_src(tn: usize) -> (s: String)
    ensures
        s@ == text::filled(
            IQ2S_MATVEC@,
            seq![
                text::decimal(tn as nat),
                text::decimal(IQ2S_GRID_LEN as nat),
                text::decimal(IQ2S_SIGNS_LEN as nat),
                text::decimal(LANE as nat),
                text::decimal(BLOCK_BYTES as nat),
                matvec_lines(32),
            ],
        ),
{
    Args::new()
        .num(tn).num(IQ2S_GRID_LEN).num(IQ2S_SIGNS_LEN).num(LANE).num(BLOCK_BYTES)
        .text(matvec_text().as_str()).fill(IQ2S_MATVEC)
}

pub const IQ2S_QDOT_MATVEC: &'static str = "@launch(256)
@autotune(TN in [$0])
@aligned(N = TN)
kernel iq2s_qdot_matvec(A: tensor<f32>[M, K], QB: tensor<i8>[N, RB],
                        D: tensor<f16>[N, NB], GRID: tensor<i8>[1, $1],
                        SIGNS: tensor<i8>[1, $2], C: tensor<f32>[M, N]) {
  let pn = program_id(0)
  C[0 :+ 1, pn * TN :+ TN] = iq2s_qdot_t(A[0 :+ 1, :], QB[pn * TN :+ TN, :],
                                         D[pn * TN :+ TN, :], GRID[0 :+ 1, :], SIGNS[0 :+ 1, :])
}
";

/// The single-row matvec as one statement, for an `n` of whole tiles.
pub fn iq2s_qdot_matvec_src(tn: usize) -> (s: String)
    ensures
        s@ == text::filled(
            IQ2S_QDOT_MATVEC@,
            seq![
                text::decimal(tn as nat),
                text::decimal(IQ2S_GRID_LEN as nat),
                text::decimal(IQ2S_SIGNS_LEN as nat),
            ],
        ),
{
    Args::new().num(tn).num(IQ2S_GRID_LEN).num(IQ2S_SIGNS_LEN).fill(IQ2S_QDOT_MATVEC)
}

pub const IQ2S_DEQUANT: &'static str = "@launch(256)
@autotune(TN in [$0])
kernel iq2s_dequant(QB: tensor<i8>[N, RB], D: tensor<f16>[N, NB],
                    GRID: tensor<i32>[1, $1], SIGNS: tensor<i32>[1, $2],
                    IOTA: tensor<i32>[1, $3], SCRATCH: tensor<f32>[K, N]) {
  let pn = program_id(0)
  let grid = GRID[0 :+ 1, :]
  let signs = SIGNS[0 :+ 1, :]
  let iota = IOTA[0 :+ 1, :]
  for kb in range(0, NB, 1) {
    var qb = QB[pn * TN :+ TN, kb * $4 :+ $4]
    let d = D[pn * TN :+ TN, kb :+ 1]
$5  }
}
";

/// The decode stored rather than contracted.
pub fn iq2s_dequant_src(tn: usize) -> (s: String)
    ensures
        s@ == text::filled(
            IQ2S_DEQUANT@,
            seq![
                text::decimal(tn as nat),
                text::decimal(IQ2S_GRID_LEN as nat),
                text::decimal(IQ2S_SIGNS_LEN as nat),
                text::decimal(LANE as nat),
                text::decimal(BLOCK_BYTES as nat),
                dequant_lines(32),
            ],
        ),
{
    Args::new()
        .num(tn).num(IQ2S_GRID_LEN).num(IQ2S_SIGNS_LEN).num(LANE).num(BLOCK_BYTES)
        .text(dequant_text().as_str()).fill(IQ2S_DEQUANT)
}

pub const IQ2S_QDECODE: &'static str = "@launch(256)
@autotune(TN in [$0])
@aligned(N = TN)
kernel iq2s_qdecode(QB: tensor<i8>[N, RB], D: tensor<f16>[N, NB],
                    GRID: tensor<i8>[1, $1],
                    SIGNS: tensor<i8>[1, $2],
                    SCRATCH: tensor<f32>[K, N]) {
  let pn = program_id(0)
  SCRATCH[:, pn * TN :+ TN] = iq2s_qdecode_t(QB[pn * TN :+ TN, :],
                                             D[pn * TN :+ TN, :],
                                             GRID[0 :+ 1, :],
                                             SIGNS[0 :+ 1, :])
}
";

/// The decode as one statement, for an `n` of whole tiles.
pub fn iq2s_qdecode_src(tn: usize) -> (s: String)
    ensures
        s@ == text::filled(
            IQ2S_QDECODE@,
            seq![
                text::decimal(tn as nat),
                text::decimal(IQ2S_GRID_LEN as nat),
                text::decimal(IQ2S_SIGNS_LEN as nat),
            ],
        ),
{
    Args::new().num(tn).num(IQ2S_GRID_LEN).num(IQ2S_SIGNS_LEN).fill(IQ2S_QDECODE)
}

pub const IQ2S_QDOT_I8_MATVEC: &'static str = "@launch(256, 3)
@autotune(TN in [$0])
@aligned(N = TN)
kernel iq2s_qdot_i8_matvec(AQ: tensor<i8>[M, K], AS: tensor<f32>[M, KB],
                             QB: tensor<i8>[N, RB], D: tensor<f16>[N, NB],
                             GRID: tensor<i8>[1, $1],
                             SIGNS: tensor<i8>[1, $2],
                             C: tensor<f32>[M, N]) {
  let pn = program_id(0)
  C[0 :+ 1, pn * TN :+ TN] = iq2s_qdot_i8_t(AQ[0 :+ 1, :], AS[0 :+ 1, :],
                                              QB[pn * TN :+ TN, :], D[pn * TN :+ TN, :],
                                              GRID[0 :+ 1, :], SIGNS[0 :+ 1, :])
}
";

/// The matvec against an activation already quantized.
pub fn iq2s_qdot_i8_matvec_src(tn: usize) -> (s: String)
    ensures
        s@ == text::filled(
            IQ2S_QDOT_I8_MATVEC@,
            seq![
                text::decimal(tn as nat),
                text::decimal(IQ2S_GRID_LEN as nat),
                text::decimal(IQ2S_SIGNS_LEN as nat),
            ],
        ),
{
    Args::new().num(tn).num(IQ2S_GRID_LEN).num(IQ2S_SIGNS_LEN).fill(IQ2S_QDOT_I8_MATVEC)
}

pub const IQ2S_QMMA: &'static str = "@launch($0)
@autotune(TM in [$1], TN in [$2])
@aligned(M = TM, N = TN, K = 256)
kernel iq2s_qmma(A: tensor<i8>[M, K], AS: tensor<f32>[M, KB],
                  QB: tensor<i8>[N, RB], D: tensor<f16>[N, NB],
                  GRID: tensor<i8>[1, $3],
                  SIGNS: tensor<i8>[1, $4],
                  C: tensor<f32>[M, N]) {
  let pm = program_id(0)
  let pn = program_id(1)
  C[pm * TM :+ TM, pn * TN :+ TN] = iq2s_qmma_staged_t(A[pm * TM :+ TM, :], AS[pm * TM :+ TM, :],
                                                        QB[pn * TN :+ TN, :], D[pn * TN :+ TN, :],
                                                        GRID[0 :+ 1, :], SIGNS[0 :+ 1, :])
}
";

/// The prompt projection, decode and contraction in one kernel.
pub fn iq2s_qmma_src(block: usize, tm: usize, tn: usize) -> (s: String)
    ensures
        s@ == text::filled(
            IQ2S_QMMA@,
            seq![
                text::decimal(block as nat),
                text::decimal(tm as nat),
                text::decimal(tn as nat),
                text::decimal(IQ2S_GRID_LEN as nat),
                text::decimal(IQ2S_SIGNS_LEN as nat),
            ],
        ),
{
    Args::new().num(block).num(tm).num(tn).num(IQ2S_GRID_LEN).num(IQ2S_SIGNS_LEN).fill(IQ2S_QMMA)
}

} // verus!
