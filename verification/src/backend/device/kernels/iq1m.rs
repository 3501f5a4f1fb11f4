//! IQ1_M kernels: IQ1_S's grid lookup, each group of 32 carrying its own pair of
//! three-bit scales.

use vstd::prelude::*;

use crate::backend::device::kernels::iq1s::IQ1S_GRID_LEN;
use crate::backend::device::kernels::{self, raise, BYTE};
use crate::text::{self, Args};

verus! {

broadcast use crate::text::lemma_filled_args;

/// Output columns per CTA.
pub const IQ1M_TN: usize = 8;

/// Output tile of the integer matvec.
pub const IQ1M_I8_TN: usize = 64;

/// The tile for an `n` that 64 does not divide.
pub const IQ1M_I8_NARROW_TN: usize = 16;

pub const LANES: usize = 32;

pub const LANE: usize = 8;

pub const BLOCK_BYTES: usize = 56;

/// A lane's byte offsets and divisors: its grid index, its high and sign bits, and
/// its group's scale. Lanes 0 and 2 of a group read its first byte of high bits,
/// lanes 1 and 3 the second; index bits at bit 0 of it for an even lane and at bit 4
/// for an odd one, the sign bit at eight times that.
pub open spec fn geometry(is: nat) -> (nat, nat, nat, nat, nat, nat, nat) {
    let ib = is / 4;
    let l = is % 4;
    let qs4_off = 4 * ib + l;
    let qh_off = 32 + 2 * ib + l % 2;
    let idx_div = if l % 2 == 0 { 1nat } else { 16nat };
    let bit_div = if l % 2 == 0 { 8nat } else { 128nat };
    let sc_lo_off = 48 + 2 * (ib / 2);
    let sc_hi_off = sc_lo_off + 1;
    let dl_div = kernels::raised(2, (6 * (ib % 2) + if l < 2 { 0nat } else { 3nat }));
    (
        qs4_off as nat,
        qh_off as nat,
        idx_div as nat,
        bit_div as nat,
        sc_lo_off as nat,
        sc_hi_off as nat,
        dl_div as nat,
    )
}

fn run_geometry(is: usize) -> (g: (usize, usize, usize, usize, usize, usize, usize))
    requires
        is < 32,
    ensures
        g.0 == geometry(is as nat).0,
        g.1 == geometry(is as nat).1,
        g.2 == geometry(is as nat).2,
        g.3 == geometry(is as nat).3,
        g.4 == geometry(is as nat).4,
        g.5 == geometry(is as nat).5,
        g.6 == geometry(is as nat).6,
{
    let ib: usize = is / 4;
    let l: usize = is % 4;
    let qs4_off: usize = 4 * ib + l;
    let qh_off: usize = 32 + 2 * ib + l % 2;
    let idx_div: usize = if l % 2 == 0 { 1 } else { 16 };
    let bit_div: usize = if l % 2 == 0 { 8 } else { 128 };
    let sc_lo_off: usize = 48 + 2 * (ib / 2);
    let sc_hi_off: usize = sc_lo_off + 1;
    let dl_div: usize = raise(2, (6 * (ib % 2) + if l < 2 { 0 } else { 3 }));
    (qs4_off, qh_off, idx_div, bit_div, sc_lo_off, sc_hi_off, dl_div)
}

pub const WORD: &'static str = "($0 + $1 * 256)";

pub const DL: &'static str = "(f32(d) * f32((($0 / $1) % 8) * 2 + 1))";

pub const IDX: &'static str = "($0 + (($1 / $2) % 8) * 256)";

pub const DELTA: &'static str = "(0.125 - 0.25 * f32(($0 / $1) % 2))";

pub const IDX8: &'static str = "($0 * $1 + iota)";

pub const DECODED: &'static str = "    let decoded$0 = $1 * (f32(gather(grid, $2)) + $3)\n";

/// The statement that decodes one lane.
pub open spec fn decode_text(is: nat) -> Seq<char> {
    let (qs4_off, qh_off, idx_div, bit_div, sc_lo_off, sc_hi_off, dl_div) = geometry(is);
    let qs4 = text::filled(BYTE@, seq![text::decimal(qs4_off as nat)]);
    let qh = text::filled(BYTE@, seq![text::decimal(qh_off as nat)]);
    let sc_lo = text::filled(BYTE@, seq![text::decimal(sc_lo_off as nat)]);
    let sc_hi = text::filled(BYTE@, seq![text::decimal(sc_hi_off as nat)]);
    let word = text::filled(WORD@, seq![sc_lo, sc_hi]);
    let dl = text::filled(DL@, seq![word, text::decimal(dl_div as nat)]);
    let idx = text::filled(IDX@, seq![qs4, qh, text::decimal(idx_div as nat)]);
    let delta = text::filled(DELTA@, seq![qh, text::decimal(bit_div as nat)]);
    let idx8 = text::filled(IDX8@, seq![idx, text::decimal(LANE as nat)]);
    let decoded = text::filled(DECODED@, seq![text::decimal(is as nat), dl, idx8, delta]);
    decoded
}

/// A lane's decoding statement, and where its values land in the block.
fn decoded_lane(is: usize) -> (d: (usize, String))
    requires
        is < 32,
    ensures
        d.0 == is * LANE,
        d.1@ == decode_text(is as nat),
{
    let (qs4_off, qh_off, idx_div, bit_div, sc_lo_off, sc_hi_off, dl_div) = run_geometry(is);
    let qs4 = Args::new().num(qs4_off).fill(BYTE);
    let qh = Args::new().num(qh_off).fill(BYTE);
    let sc_lo = Args::new().num(sc_lo_off).fill(BYTE);
    let sc_hi = Args::new().num(sc_hi_off).fill(BYTE);
    let word = Args::new().text(sc_lo.as_str()).text(sc_hi.as_str()).fill(WORD);
    let dl = Args::new().text(word.as_str()).num(dl_div).fill(DL);
    let idx = Args::new().text(qs4.as_str()).text(qh.as_str()).num(idx_div).fill(IDX);
    let delta = Args::new().text(qh.as_str()).num(bit_div).fill(DELTA);
    let idx8 = Args::new().text(idx.as_str()).num(LANE).fill(IDX8);
    let decoded = Args::new()
        .num(is).text(dl.as_str()).text(idx8.as_str()).text(delta.as_str()).fill(DECODED);
    (is * LANE, decoded)
}

pub const MATVEC_LINE: &'static str = "$0    acc = acc + dot_t(A[pm :+ 1, kb * 256 + $1 :+ $2], decoded$3)\n";

/// The lines of the first lanes.
pub open spec fn matvec_lines(n: nat) -> Seq<char>
    decreases n,
{
    if n == 0 {
        Seq::empty()
    } else {
        matvec_lines((n - 1) as nat) + text::filled(
            MATVEC_LINE@,
            seq![
                decode_text((n - 1) as nat),
                text::decimal(((n - 1) * LANE) as nat),
                text::decimal(LANE as nat),
                text::decimal((n - 1) as nat),
            ],
        )
    }
}

fn matvec_text() -> (s: String)
    ensures
        s@ == matvec_lines(32),
{
    let mut s = String::new();
    let mut is: usize = 0;
    assert(s@ =~= Seq::empty());
    while is < 32
        invariant
            is <= 32,
            s@ == matvec_lines(is as nat),
        decreases 32 - is,
    {
        let (out_off, decode) = decoded_lane(is);
        let line = Args::new()
            .text(decode.as_str()).num(out_off).num(LANE).num(is).fill(MATVEC_LINE);
        s.append(line.as_str());
        is = is + 1;
    }
    s
}

pub const DEQUANT_LINE: &'static str = "$0    SCRATCH[kb * 256 + $1 :+ $2, pn * TN :+ TN] = transpose(decoded$3)\n";

/// The lines of the first lanes.
pub open spec fn dequant_lines(n: nat) -> Seq<char>
    decreases n,
{
    if n == 0 {
        Seq::empty()
    } else {
        dequant_lines((n - 1) as nat) + text::filled(
            DEQUANT_LINE@,
            seq![
                decode_text((n - 1) as nat),
                text::decimal(((n - 1) * LANE) as nat),
                text::decimal(LANE as nat),
                text::decimal((n - 1) as nat),
            ],
        )
    }
}

fn dequant_text() -> (s: String)
    ensures
        s@ == dequant_lines(32),
{
    let mut s = String::new();
    let mut is: usize = 0;
    assert(s@ =~= Seq::empty());
    while is < 32
        invariant
            is <= 32,
            s@ == dequant_lines(is as nat),
        decreases 32 - is,
    {
        let (out_off, decode) = decoded_lane(is);
        let line = Args::new()
            .text(decode.as_str()).num(out_off).num(LANE).num(is).fill(DEQUANT_LINE);
        s.append(line.as_str());
        is = is + 1;
    }
    s
}

pub const IQ1M_MATVEC: &'static str = "@launch(256)
@autotune(TN in [$0])
kernel iq1m_matvec(A: tensor<f32>[M, K], QB: tensor<i8>[N, RB],
                   D: tensor<f16>[N, NB], GRID: tensor<i32>[1, $1],
                   IOTA: tensor<i32>[1, $2], C: tensor<f32>[M, N]) {
  let pn = program_id(0)
  let pm = program_id(1)
  let grid = GRID[0 :+ 1, :]
  let iota = IOTA[0 :+ 1, :]
  var acc: tile<f32>[1, TN] = 0.0
  for kb in range(0, NB, 1) {
    var qb = QB[pn * TN :+ TN, kb * $3 :+ $3]
    let d = D[pn * TN :+ TN, kb :+ 1]
$4  }
  C[pm :+ 1, pn * TN :+ TN] = acc
}
";

/// The masked matvec: every lane decoded and contracted.
pub fn iq1m_matvec_src(tn: usize) -> (s: String)
    ensures
        s@ == text::filled(
            IQ1M_MATVEC@,
            seq![
                text::decimal(tn as nat),
                text::decimal(IQ1S_GRID_LEN as nat),
                text::decimal(LANE as nat),
                text::decimal(BLOCK_BYTES as nat),
                matvec_lines(32),
            ],
        ),
{
    Args::new()
        .num(tn).num(IQ1S_GRID_LEN).num(LANE).num(BLOCK_BYTES).text(matvec_text().as_str())
        .fill(IQ1M_MATVEC)
}

pub const IQ1M_QDOT_MATVEC: &'static str = "@launch(256)
@autotune(TN in [$0])
@aligned(N = TN)
kernel iq1m_qdot_matvec(A: tensor<f32>[M, K], QB: tensor<i8>[N, RB],
                        D: tensor<f16>[N, NB], GRID: tensor<i8>[1, $1],
                        C: tensor<f32>[M, N]) {
  let pn = program_id(0)
  C[0 :+ 1, pn * TN :+ TN] = iq1m_qdot_t(A[0 :+ 1, :], QB[pn * TN :+ TN, :],
                                         D[pn * TN :+ TN, :], GRID[0 :+ 1, :])
}
";

/// The single-row matvec as one statement, for an `n` of whole tiles.
pub fn iq1m_qdot_matvec_src(tn: usize) -> (s: String)
    ensures
        s@ == text::filled(
            IQ1M_QDOT_MATVEC@,
            seq![text::decimal(tn as nat), text::decimal(IQ1S_GRID_LEN as nat)],
        ),
{
    Args::new().num(tn).num(IQ1S_GRID_LEN).fill(IQ1M_QDOT_MATVEC)
}

pub const IQ1M_DEQUANT: &'static str = "@launch(256)
@autotune(TN in [$0])
kernel iq1m_dequant(QB: tensor<i8>[N, RB], D: tensor<f16>[N, NB],
                    GRID: tensor<i32>[1, $1], IOTA: tensor<i32>[1, $2],
                    SCRATCH: tensor<f32>[K, N]) {
  let pn = program_id(0)
  let grid = GRID[0 :+ 1, :]
  let iota = IOTA[0 :+ 1, :]
  for kb in range(0, NB, 1) {
    var qb = QB[pn * TN :+ TN, kb * $3 :+ $3]
    let d = D[pn * TN :+ TN, kb :+ 1]
$4  }
}
";

/// The decode stored rather than contracted.
pub fn iq1m_dequant_src(tn: usize) -> (s: String)
    ensures
        s@ == text::filled(
            IQ1M_DEQUANT@,
            seq![
                text::decimal(tn as nat),
                text::decimal(IQ1S_GRID_LEN as nat),
                text::decimal(LANE as nat),
                text::decimal(BLOCK_BYTES as nat),
                dequant_lines(32),
            ],
        ),
{
    Args::new()
        .num(tn).num(IQ1S_GRID_LEN).num(LANE).num(BLOCK_BYTES).text(dequant_text().as_str())
        .fill(IQ1M_DEQUANT)
}

pub const IQ1M_QDECODE: &'static str = "@launch(256)
@autotune(TN in [$0])
@aligned(N = TN)
kernel iq1m_qdecode(QB: tensor<i8>[N, RB], D: tensor<f16>[N, NB],
                    GRID: tensor<i8>[1, $1],
                    SCRATCH: tensor<f32>[K, N]) {
  let pn = program_id(0)
  SCRATCH[:, pn * TN :+ TN] = iq1m_qdecode_t(QB[pn * TN :+ TN, :],
                                             D[pn * TN :+ TN, :],
                                             GRID[0 :+ 1, :])
}
";

/// The decode as one statement, for an `n` of whole tiles.
pub fn iq1m_qdecode_src(tn: usize) -> (s: String)
    ensures
        s@ == text::filled(
            IQ1M_QDECODE@,
            seq![text::decimal(tn as nat), text::decimal(IQ1S_GRID_LEN as nat)],
        ),
{
    Args::new().num(tn).num(IQ1S_GRID_LEN).fill(IQ1M_QDECODE)
}

pub const IQ1M_QDOT_I8_MATVEC: &'static str = "@launch(256)
@autotune(TN in [$0])
@aligned(N = TN)
kernel iq1m_qdot_i8_matvec(AQ: tensor<i8>[M, K], AS: tensor<f32>[M, KB],
                           QB: tensor<i8>[N, RB], D: tensor<f16>[N, NB],
                           GRID: tensor<i8>[1, $1],
                           C: tensor<f32>[M, N]) {
  let pn = program_id(0)
  C[0 :+ 1, pn * TN :+ TN] = iq1m_qdot_i8_t(AQ[0 :+ 1, :], AS[0 :+ 1, :],
                                            QB[pn * TN :+ TN, :], D[pn * TN :+ TN, :],
                                            GRID[0 :+ 1, :])
}
";

/// The matvec against an activation already quantized.
pub fn iq1m_qdot_i8_matvec_src(tn: usize) -> (s: String)
    ensures
        s@ == text::filled(
            IQ1M_QDOT_I8_MATVEC@,
            seq![text::decimal(tn as nat), text::decimal(IQ1S_GRID_LEN as nat)],
        ),
{
    Args::new().num(tn).num(IQ1S_GRID_LEN).fill(IQ1M_QDOT_I8_MATVEC)
}

} // verus!
