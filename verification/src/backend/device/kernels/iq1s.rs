//! IQ1_S kernels: the decode straight from the raw block bytes, a byte read as
//! unsigned before any division, and a grid lookup.

use vstd::prelude::*;

use crate::backend::device::kernels::qgemm::IQ1_GRID4_LEN;
use crate::backend::device::kernels::{self, raise, BYTE};
use crate::text::{self, Args};

verus! {

broadcast use crate::text::lemma_filled_args;

/// Output columns per CTA.
pub const IQ1S_TN: usize = 8;

/// Output tile of the integer matvec.
pub const IQ1S_I8_TN: usize = 64;

/// The tile for an `n` that 64 does not divide.
pub const IQ1S_I8_NARROW_TN: usize = 16;

pub const LANES: usize = 32;

pub const LANE: usize = 8;

pub const BLOCK_BYTES: usize = 48;

/// Grid entries, eight lanes apiece.
pub const IQ1S_GRID_LEN: usize = 2048 * 8;

/// Byte offsets of a lane's grid index and of its group's high bits, and the
/// divisor that reaches them.
pub open spec fn geometry(is: nat) -> (nat, nat, nat, nat) {
    let ib = is / 4;
    let l = is % 4;
    let qs_off = 4 * ib + l;
    let qh_lo_off = 32 + 2 * ib;
    let qh_hi_off = qh_lo_off + 1;
    let shift_div = kernels::raised(8, l);
    (qs_off as nat, qh_lo_off as nat, qh_hi_off as nat, shift_div as nat)
}

fn run_geometry(is: usize) -> (g: (usize, usize, usize, usize))
    requires
        is < 32,
    ensures
        g.0 == geometry(is as nat).0,
        g.1 == geometry(is as nat).1,
        g.2 == geometry(is as nat).2,
        g.3 == geometry(is as nat).3,
{
    let ib: usize = is / 4;
    let l: usize = is % 4;
    let qs_off: usize = 4 * ib + l;
    let qh_lo_off: usize = 32 + 2 * ib;
    let qh_hi_off: usize = qh_lo_off + 1;
    let shift_div: usize = raise(8, l);
    (qs_off, qh_lo_off, qh_hi_off, shift_div)
}

pub const QH: &'static str = "(((i32(qb[:, $0 :+ 1]) + 256) % 256) + ((i32(qb[:, $1 :+ 1]) + 256) % 256) * 256)";

pub const DL: &'static str = "(f32(d) * f32((($0 / 4096) % 8) * 2 + 1))";

pub const DELTA: &'static str = "(0.125 - 0.25 * f32(($0 / 32768) % 2))";

pub const BASE_IDX: &'static str = "($0 + (($1 / $2) % 8) * 256)";

pub const IDX8: &'static str = "($0 * $1 + iota)";

pub const DECODED: &'static str = "    let decoded$0 = $1 * (f32(gather(grid, $2)) + $3)\n";

/// The statement that decodes one lane.
pub open spec fn decode_text(is: nat) -> Seq<char> {
    let (qs_off, qh_lo_off, qh_hi_off, shift_div) = geometry(is);
    let qsb = text::filled(BYTE@, seq![text::decimal(qs_off as nat)]);
    let qh = text::filled(
        QH@,
        seq![text::decimal(qh_lo_off as nat), text::decimal(qh_hi_off as nat)],
    );
    let dl = text::filled(DL@, seq![qh]);
    let delta = text::filled(DELTA@, seq![qh]);
    let base_idx = text::filled(BASE_IDX@, seq![qsb, qh, text::decimal(shift_div as nat)]);
    let idx8 = text::filled(IDX8@, seq![base_idx, text::decimal(LANE as nat)]);
    let decoded = text::filled(DECODED@, seq![text::decimal(is as nat), dl, idx8, delta]);
    decoded
}

/// A lane's decoding statement, and where its values land in the block.
fn decoded_lane(is: usize) -> (d: (usize, String))
    requires
        is < 32,
    ensures
        d.0 == is * LANE,
        d.1@ == decode_text(is as nat),
{
    let (qs_off, qh_lo_off, qh_hi_off, shift_div) = run_geometry(is);
    let qsb = Args::new().num(qs_off).fill(BYTE);
    let qh = Args::new().num(qh_lo_off).num(qh_hi_off).fill(QH);
    let dl = Args::new().text(qh.as_str()).fill(DL);
    let delta = Args::new().text(qh.as_str()).fill(DELTA);
    let base_idx = Args::new().text(qsb.as_str()).text(qh.as_str()).num(shift_div).fill(BASE_IDX);
    let idx8 = Args::new().text(base_idx.as_str()).num(LANE).fill(IDX8);
    let decoded = Args::new()
        .num(is).text(dl.as_str()).text(idx8.as_str()).text(delta.as_str()).fill(DECODED);
    (is * LANE, decoded)
}

pub const MATVEC_LINE: &'static str = "$0    acc = acc + dot_t(A[pm :+ 1, kb * 256 + $1 :+ $2], decoded$3)\n";

/// The lines of the first lanes.
pub open spec fn matvec_lines(n: nat) -> Seq<char>
    decreases n,
{
    if n == 0 {
        Seq::empty()
    } else {
        matvec_lines((n - 1) as nat) + text::filled(
            MATVEC_LINE@,
            seq![
                decode_text((n - 1) as nat),
                text::decimal(((n - 1) * LANE) as nat),
                text::decimal(LANE as nat),
                text::decimal((n - 1) as nat),
            ],
        )
    }
}

fn matvec_text() -> (s: String)
    ensures
        s@ == matvec_lines(32),
{
    let mut s = String::new();
    let mut is: usize = 0;
    assert(s@ =~= Seq::empty());
    while is < 32
        invariant
            is <= 32,
            s@ == matvec_lines(is as nat),
        decreases 32 - is,
    {
        let (out_off, decode) = decoded_lane(is);
        let line = Args::new()
            .text(decode.as_str()).num(out_off).num(LANE).num(is).fill(MATVEC_LINE);
        s.append(line.as_str());
        is = is + 1;
    }
    s
}

pub const DEQUANT_LINE: &'static str = "$0    SCRATCH[kb * 256 + $1 :+ $2, pn * TN :+ TN] = transpose(decoded$3)\n";

/// The lines of the first lanes.
pub open spec fn dequant_lines(n: nat) -> Seq<char>
    decreases n,
{
    if n == 0 {
        Seq::empty()
    } else {
        dequant_lines((n - 1) as nat) + text::filled(
            DEQUANT_LINE@,
            seq![
                decode_text((n - 1) as nat),
                text::decimal(((n - 1) * LANE) as nat),
                text::decimal(LANE as nat),
                text::decimal((n - 1) as nat),
            ],
        )
    }
}

fn dequant_text() -> (s: String)
    ensures
        s@ == dequant_lines(32),
{
    let mut s = String::new();
    let mut is: usize = 0;
    assert(s@ =~= Seq::empty());
    while is < 32
        invariant
            is <= 32,
            s@ == dequant_lines(is as nat),
        decreases 32 - is,
    {
        let (out_off, decode) = decoded_lane(is);
        let line = Args::new()
            .text(decode.as_str()).num(out_off).num(LANE).num(is).fill(DEQUANT_LINE);
        s.append(line.as_str());
        is = is + 1;
    }
    s
}

pub const IQ1S_MATVEC: &'static str = "@launch(256)
@autotune(TN in [$0])
kernel iq1s_matvec(A: tensor<f32>[M, K], QB: tensor<i8>[N, RB],
                   D: tensor<f16>[N, NB], GRID: tensor<i32>[1, $1],
                   IOTA: tensor<i32>[1, $2], C: tensor<f32>[M, N]) {
  let pn = program_id(0)
  let pm = program_id(1)
  let grid = GRID[0 :+ 1, :]
  let iota = IOTA[0 :+ 1, :]
  var acc: tile<f32>[1, TN] = 0.0
  for kb in range(0, NB, 1) {
    var qb = QB[pn * TN :+ TN, kb * $3 :+ $3]
    let d = D[pn * TN :+ TN, kb :+ 1]
$4  }
  C[pm :+ 1, pn * TN :+ TN] = acc
}
";

/// The masked matvec: every lane decoded and contracted.
pub fn iq1s_matvec_src(tn: usize) -> (s: String)
    ensures
        s@ == text::filled(
            IQ1S_MATVEC@,
            seq![
                text::decimal(tn as nat),
                text::decimal(IQ1S_GRID_LEN as nat),
                text::decimal(LANE as nat),
                text::decimal(BLOCK_BYTES as nat),
                matvec_lines(32),
            ],
        ),
{
    Args::new()
        .num(tn).num(IQ1S_GRID_LEN).num(LANE).num(BLOCK_BYTES).text(matvec_text().as_str())
        .fill(IQ1S_MATVEC)
}

pub const IQ1S_QDOT_MATVEC: &'static str = "@launch(256)
@autotune(TN in [$0])
@aligned(N = TN)
kernel iq1s_qdot_matvec(A: tensor<f32>[M, K], QB: tensor<i8>[N, RB],
                        D: tensor<f16>[N, NB], GRID: tensor<i8>[1, $1],
                        C: tensor<f32>[M, N]) {
  let pn = program_id(0)
  C[0 :+ 1, pn * TN :+ TN] = iq1s_qdot_t(A[0 :+ 1, :], QB[pn * TN :+ TN, :],
                                         D[pn * TN :+ TN, :], GRID[0 :+ 1, :])
}
";

/// The single-row matvec as one statement, for an `n` of whole tiles.
pub fn iq1s_qdot_matvec_src(tn: usize) -> (s: String)
    ensures
        s@ == text::filled(
            IQ1S_QDOT_MATVEC@,
            seq![text::decimal(tn as nat), text::decimal(IQ1S_GRID_LEN as nat)],
        ),
{
    Args::new().num(tn).num(IQ1S_GRID_LEN).fill(IQ1S_QDOT_MATVEC)
}

pub const IQ1S_DEQUANT: &'static str = "@launch(256)
@autotune(TN in [$0])
kernel iq1s_dequant(QB: tensor<i8>[N, RB], D: tensor<f16>[N, NB],
                    GRID: tensor<i32>[1, $1], IOTA: tensor<i32>[1, $2],
                    SCRATCH: tensor<f32>[K, N]) {
  let pn = program_id(0)
  let grid = GRID[0 :+ 1, :]
  let iota = IOTA[0 :+ 1, :]
  for kb in range(0, NB, 1) {
    var qb = QB[pn * TN :+ TN, kb * $3 :+ $3]
    let d = D[pn * TN :+ TN, kb :+ 1]
$4  }
}
";

/// The decode stored rather than contracted.
pub fn iq1s_dequant_src(tn: usize) -> (s: String)
    ensures
        s@ == text::filled(
            IQ1S_DEQUANT@,
            seq![
                text::decimal(tn as nat),
                text::decimal(IQ1S_GRID_LEN as nat),
                text::decimal(LANE as nat),
                text::decimal(BLOCK_BYTES as nat),
                dequant_lines(32),
            ],
        ),
{
    Args::new()
        .num(tn).num(IQ1S_GRID_LEN).num(LANE).num(BLOCK_BYTES).text(dequant_text().as_str())
        .fill(IQ1S_DEQUANT)
}

pub const IQ1S_QDECODE: &'static str = "@launch(256)
@autotune(TN in [$0])
@aligned(N = TN)
kernel iq1s_qdecode(QB: tensor<i8>[N, RB], D: tensor<f16>[N, NB],
                    GRID: tensor<i8>[1, $1], SCRATCH: tensor<f32>[K, N]) {
  let pn = program_id(0)
  SCRATCH[:, pn * TN :+ TN] = iq1s_qdecode_t(QB[pn * TN :+ TN, :], D[pn * TN :+ TN, :],
                                             GRID[0 :+ 1, :])
}
";

/// The decode as one statement, for an `n` of whole tiles.
pub fn iq1s_qdecode_src(tn: usize) -> (s: String)
    ensures
        s@ == text::filled(
            IQ1S_QDECODE@,
            seq![text::decimal(tn as nat), text::decimal(IQ1S_GRID_LEN as nat)],
        ),
{
    Args::new().num(tn).num(IQ1S_GRID_LEN).fill(IQ1S_QDECODE)
}

pub const IQ1S_QDOT_I8_MATVEC: &'static str = "@launch($0, $1)
@autotune(TN in [$2])
@aligned(N = TN)
kernel iq1s_qdot_i8_matvec(AQ: tensor<i8>[M, K], AS: tensor<f32>[M, KB],
                           QB: tensor<i8>[N, RB], D: tensor<f16>[N, NB],
                           GRID: tensor<i8>[1, $3],
                           C: tensor<f32>[M, N]) {
  let pn = program_id(0)
  C[0 :+ 1, pn * TN :+ TN] = iq1s_qdot_i8_t(AQ[0 :+ 1, :], AS[0 :+ 1, :],
                                            QB[pn * TN :+ TN, :], D[pn * TN :+ TN, :],
                                            GRID[0 :+ 1, :])
}
";

/// The matvec against an activation already quantized, four CTAs of 256 threads
/// resident.
pub fn iq1s_qdot_i8_matvec_src(tn: usize, cta: usize) -> (s: String)
    requires
        cta > 0,
    ensures
        s@ == ({
            let min_blocks = 1024int / (cta as int);
            text::filled(
                IQ1S_QDOT_I8_MATVEC@,
                seq![
                    text::decimal(cta as nat),
                    text::decimal(min_blocks as nat),
                    text::decimal(tn as nat),
                    text::decimal(IQ1_GRID4_LEN as nat),
                ],
            )
        }),
{
    let min_blocks: usize = 1024 / cta;
    Args::new().num(cta).num(min_blocks).num(tn).num(IQ1_GRID4_LEN).fill(IQ1S_QDOT_I8_MATVEC)
}

/// Rows and columns of the fused prompt projection's tile.
pub const IQ1S_QMMA_TM: usize = 128;

pub const IQ1S_QMMA_TN: usize = 64;

/// Threads its CTA carries.
pub const IQ1S_QMMA_CTA: usize = 64;

/// The signed table carries both foldings of every entry.
pub const IQ1S_SIGNED_GRID_LEN: usize = 2 * IQ1S_GRID_LEN;

pub const IQ1S_QMMA: &'static str = "@launch($0)
@autotune(TM in [$1], TN in [$2])
@aligned(M = TM, N = TN, K = 256)
kernel iq1s_qmma(A: tensor<i8>[M, K], AS: tensor<f32>[M, KB],
                 QB: tensor<i8>[N, RB], D: tensor<f16>[N, NB],
                 GRID: tensor<i8>[1, $3],
                 C: tensor<f32>[M, N]) {
  let pm = program_id(0)
  let pn = program_id(1)
  C[pm * TM :+ TM, pn * TN :+ TN] = $4(A[pm * TM :+ TM, :], AS[pm * TM :+ TM, :],
                                                QB[pn * TN :+ TN, :], D[pn * TN :+ TN, :],
                                                GRID[0 :+ 1, :])
}
";

/// The prompt projection, decode and contraction in one kernel. Staged, a column
/// is decoded once for the whole CTA.
pub fn iq1s_qmma_src(block: usize, tm: usize, tn: usize, staged: bool) -> (s: String)
    ensures
        s@ == text::filled(
            IQ1S_QMMA@,
            seq![
                text::decimal(block as nat),
                text::decimal(tm as nat),
                text::decimal(tn as nat),
                text::decimal(IQ1S_SIGNED_GRID_LEN as nat),
                if staged { "iq1s_qmma_staged_t"@ } else { "iq1s_qmma_t"@ },
            ],
        ),
{
    let intrinsic = if staged {
        "iq1s_qmma_staged_t"
    } else {
        "iq1s_qmma_t"
    };
    Args::new().num(block).num(tm).num(tn).num(IQ1S_SIGNED_GRID_LEN).text(intrinsic).fill(IQ1S_QMMA)
}

} // verus!
