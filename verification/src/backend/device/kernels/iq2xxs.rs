//! IQ2_XXS kernels: a magnitude grid and a sign table. A lane's seven sign bits can
//! cross a byte, so they are read out of two.

use vstd::prelude::*;

use crate::backend::device::kernels::{self, BYTE};
use crate::text::{self, Args};

verus! {

broadcast use crate::text::lemma_filled_args;

/// Output columns per CTA.
pub const IQ2XXS_TN: usize = 8;

pub const LANES: usize = 32;

pub const LANE: usize = 8;

pub const BLOCK_BYTES: usize = 66;

/// Grid entries, eight lanes apiece.
pub const IQ2XXS_GRID_LEN: usize = 256 * 8;

/// Sign patterns, eight factors apiece.
pub const IQ2XXS_SIGNS_LEN: usize = 128 * 8;

/// A lane's byte offsets: its grid index, its group's scale, and the two bytes
/// its sign index lies in with the divisor that reaches it.
pub open spec fn geometry(is: nat) -> (nat, nat, nat, nat, nat) {
    let ib32 = is / 4;
    let l = is % 4;
    let chunk = 2 + 8 * ib32;
    let aux = chunk + 4;
    let grid_off = chunk + l;
    let scale_off = aux + 3;
    let lo_off = if l <= 1 { aux } else if l == 2 { aux + 1 } else { aux + 2 };
    let hi_off = lo_off + 1;
    let shift_div = if l == 0 { 1nat } else if l == 1 { 128nat } else if l == 2 { 64nat } else { 32nat };
    (grid_off as nat, scale_off as nat, lo_off as nat, hi_off as nat, shift_div as nat)
}

fn run_geometry(is: usize) -> (g: (usize, usize, usize, usize, usize))
    requires
        is < 32,
    ensures
        g.0 == geometry(is as nat).0,
        g.1 == geometry(is as nat).1,
        g.2 == geometry(is as nat).2,
        g.3 == geometry(is as nat).3,
        g.4 == geometry(is as nat).4,
{
    let ib32: usize = is / 4;
    let l: usize = is % 4;
    let chunk: usize = 2 + 8 * ib32;
    let aux: usize = chunk + 4;
    let grid_off: usize = chunk + l;
    let scale_off: usize = aux + 3;
    let lo_off: usize = if l <= 1 { aux } else if l == 2 { aux + 1 } else { aux + 2 };
    let hi_off: usize = lo_off + 1;
    let shift_div: usize = if l == 0 { 1 } else if l == 1 { 128 } else if l == 2 { 64 } else { 32 };
    (grid_off, scale_off, lo_off, hi_off, shift_div)
}

pub const SIGNS_IDX_LOW: &'static str = "($0 % 128)";

pub const SIGNS_IDX_HIGH: &'static str = "((($0 + $1 * 256) / $2) % 128)";

pub const DB: &'static str = "(f32(d) * (0.5 + f32($0 / 16)) * 0.25)";

pub const MAG_IDX8: &'static str = "($0 * $1 + iota)";

pub const DECODED: &'static str = "    let decoded$0 = $1 * f32(gather(grid, $2)) * f32(gather(signs, $3))\n";

/// The statement that decodes one lane.
pub open spec fn decode_text(is: nat) -> Seq<char> {
    let (grid_off, scale_off, lo_off, hi_off, shift_div) = geometry(is);
    let grid_idx = text::filled(BYTE@, seq![text::decimal(grid_off as nat)]);
    let scale = text::filled(BYTE@, seq![text::decimal(scale_off as nat)]);
    let lo = text::filled(BYTE@, seq![text::decimal(lo_off as nat)]);
    let hi = text::filled(BYTE@, seq![text::decimal(hi_off as nat)]);
    let signs_idx = if shift_div == 1 {
        text::filled(SIGNS_IDX_LOW@, seq![lo])
    } else {
        text::filled(SIGNS_IDX_HIGH@, seq![lo, hi, text::decimal(shift_div as nat)])
    };
    let db = text::filled(DB@, seq![scale]);
    let mag_idx8 = text::filled(MAG_IDX8@, seq![grid_idx, text::decimal(LANE as nat)]);
    let sign_idx8 = text::filled(MAG_IDX8@, seq![signs_idx, text::decimal(LANE as nat)]);
    let decoded = text::filled(DECODED@, seq![text::decimal(is as nat), db, mag_idx8, sign_idx8]);
    decoded
}

/// A lane's decoding statement, and where its values land in the block.
fn decoded_lane(is: usize) -> (d: (usize, String))
    requires
        is < 32,
    ensures
        d.0 == is * LANE,
        d.1@ == decode_text(is as nat),
{
    let (grid_off, scale_off, lo_off, hi_off, shift_div) = run_geometry(is);
    let grid_idx = Args::new().num(grid_off).fill(BYTE);
    let scale = Args::new().num(scale_off).fill(BYTE);
    let lo = Args::new().num(lo_off).fill(BYTE);
    let hi = Args::new().num(hi_off).fill(BYTE);
    let signs_idx = if shift_div == 1 {
        Args::new().text(lo.as_str()).fill(SIGNS_IDX_LOW)
    } else {
        Args::new().text(lo.as_str()).text(hi.as_str()).num(shift_div).fill(SIGNS_IDX_HIGH)
    };
    let db = Args::new().text(scale.as_str()).fill(DB);
    let mag_idx8 = Args::new().text(grid_idx.as_str()).num(LANE).fill(MAG_IDX8);
    let sign_idx8 = Args::new().text(signs_idx.as_str()).num(LANE).fill(MAG_IDX8);
    let decoded = Args::new()
        .num(is).text(db.as_str()).text(mag_idx8.as_str()).text(sign_idx8.as_str()).fill(DECODED);
    (is * LANE, decoded)
}

pub const MATVEC_LINE: &'static str = "$0    acc = acc + dot_t(A[pm :+ 1, kb * 256 + $1 :+ $2], decoded$3)\n";

/// The lines of the first lanes.
pub open spec fn matvec_lines(n: nat) -> Seq<char>
    decreases n,
{
    if n == 0 {
        Seq::empty()
    } else {
        matvec_lines((n - 1) as nat) + text::filled(
            MATVEC_LINE@,
            seq![
                decode_text((n - 1) as nat),
                text::decimal(((n - 1) * LANE) as nat),
                text::decimal(LANE as nat),
                text::decimal((n - 1) as nat),
            ],
        )
    }
}

fn matvec_text() -> (s: String)
    ensures
        s@ == matvec_lines(32),
{
    let mut s = String::new();
    let mut is: usize = 0;
    assert(s@ =~= Seq::empty());
    while is < 32
        invariant
            is <= 32,
            s@ == matvec_lines(is as nat),
        decreases 32 - is,
    {
        let (out_off, decode) = decoded_lane(is);
        let line = Args::new()
            .text(decode.as_str()).num(out_off).num(LANE).num(is).fill(MATVEC_LINE);
        s.append(line.as_str());
        is = is + 1;
    }
    s
}

pub const DEQUANT_LINE: &'static str = "$0    SCRATCH[kb * 256 + $1 :+ $2, pn * TN :+ TN] = transpose(decoded$3)\n";

/// The lines of the first lanes.
pub open spec fn dequant_lines(n: nat) -> Seq<char>
    decreases n,
{
    if n == 0 {
        Seq::empty()
    } else {
        dequant_lines((n - 1) as nat) + text::filled(
            DEQUANT_LINE@,
            seq![
                decode_text((n - 1) as nat),
                text::decimal(((n - 1) * LANE) as nat),
                text::decimal(LANE as nat),
                text::decimal((n - 1) as nat),
            ],
        )
    }
}

fn dequant_text() -> (s: String)
    ensures
        s@ == dequant_lines(32),
{
    let mut s = String::new();
    let mut is: usize = 0;
    assert(s@ =~= Seq::empty());
    while is < 32
        invariant
            is <= 32,
            s@ == dequant_lines(is as nat),
        decreases 32 - is,
    {
        let (out_off, decode) = decoded_lane(is);
        let line = Args::new()
            .text(decode.as_str()).num(out_off).num(LANE).num(is).fill(DEQUANT_LINE);
        s.append(line.as_str());
        is = is + 1;
    }
    s
}

pub const IQ2XXS_MATVEC: &'static str = "@launch(256)
@autotune(TN in [$0])
kernel iq2xxs_matvec(A: tensor<f32>[M, K], QB: tensor<i8>[N, RB],
                     D: tensor<f16>[N, NB], GRID: tensor<i32>[1, $1],
                     SIGNS: tensor<i32>[1, $2], IOTA: tensor<i32>[1, $3],
                     C: tensor<f32>[M, N]) {
  let pn = program_id(0)
  let pm = program_id(1)
  let grid = GRID[0 :+ 1, :]
  let signs = SIGNS[0 :+ 1, :]
  let iota = IOTA[0 :+ 1, :]
  var acc: tile<f32>[1, TN] = 0.0
  for kb in range(0, NB, 1) {
    var qb = QB[pn * TN :+ TN, kb * $4 :+ $4]
    let d = D[pn * TN :+ TN, kb :+ 1]
$5  }
  C[pm :+ 1, pn * TN :+ TN] = acc
}
";

/// The masked matvec: every lane decoded and contracted.
pub fn iq2xxs_matvec_src(tn: usize) -> (s: String)
    ensures
        s@ == text::filled(
            IQ2XXS_MATVEC@,
            seq![
                text::decimal(tn as nat),
                text::decimal(IQ2XXS_GRID_LEN as nat),
                text::decimal(IQ2XXS_SIGNS_LEN as nat),
                text::decimal(LANE as nat),
                text::decimal(BLOCK_BYTES as nat),
                matvec_lines(32),
            ],
        ),
{
    Args::new()
        .num(tn).num(IQ2XXS_GRID_LEN).num(IQ2XXS_SIGNS_LEN).num(LANE).num(BLOCK_BYTES)
        .text(matvec_text().as_str()).fill(IQ2XXS_MATVEC)
}

pub const IQ2XXS_QDOT_MATVEC: &'static str = "@launch(256)
@autotune(TN in [$0])
@aligned(N = TN)
kernel iq2xxs_qdot_matvec(A: tensor<f32>[M, K], QB: tensor<i8>[N, RB],
                          D: tensor<f16>[N, NB], GRID: tensor<i8>[1, $1],
                          SIGNS: tensor<i8>[1, $2], C: tensor<f32>[M, N]) {
  let pn = program_id(0)
  C[0 :+ 1, pn * TN :+ TN] = iq2xxs_qdot_t(A[0 :+ 1, :], QB[pn * TN :+ TN, :],
                                           D[pn * TN :+ TN, :], GRID[0 :+ 1, :], SIGNS[0 :+ 1, :])
}
";

/// The single-row matvec as one statement, for an `n` of whole tiles.
pub fn iq2xxs_qdot_matvec_src(tn: usize) -> (s: String)
    ensures
        s@ == text::filled(
            IQ2XXS_QDOT_MATVEC@,
            seq![
                text::decimal(tn as nat),
                text::decimal(IQ2XXS_GRID_LEN as nat),
                text::decimal(IQ2XXS_SIGNS_LEN as nat),
            ],
        ),
{
    Args::new().num(tn).num(IQ2XXS_GRID_LEN).num(IQ2XXS_SIGNS_LEN).fill(IQ2XXS_QDOT_MATVEC)
}

pub const IQ2XXS_DEQUANT: &'static str = "@launch(256)
@autotune(TN in [$0])
kernel iq2xxs_dequant(QB: tensor<i8>[N, RB], D: tensor<f16>[N, NB],
                      GRID: tensor<i32>[1, $1], SIGNS: tensor<i32>[1, $2],
                      IOTA: tensor<i32>[1, $3], SCRATCH: tensor<f32>[K, N]) {
  let pn = program_id(0)
  let grid = GRID[0 :+ 1, :]
  let signs = SIGNS[0 :+ 1, :]
  let iota = IOTA[0 :+ 1, :]
  for kb in range(0, NB, 1) {
    var qb = QB[pn * TN :+ TN, kb * $4 :+ $4]
    let d = D[pn * TN :+ TN, kb :+ 1]
$5  }
}
";

/// The decode stored rather than contracted.
pub fn iq2xxs_dequant_src(tn: usize) -> (s: String)
    ensures
        s@ == text::filled(
            IQ2XXS_DEQUANT@,
            seq![
                text::decimal(tn as nat),
                text::decimal(IQ2XXS_GRID_LEN as nat),
                text::decimal(IQ2XXS_SIGNS_LEN as nat),
                text::decimal(LANE as nat),
                text::decimal(BLOCK_BYTES as nat),
                dequant_lines(32),
            ],
        ),
{
    Args::new()
        .num(tn).num(IQ2XXS_GRID_LEN).num(IQ2XXS_SIGNS_LEN).num(LANE).num(BLOCK_BYTES)
        .text(dequant_text().as_str()).fill(IQ2XXS_DEQUANT)
}

pub const IQ2XXS_QDECODE: &'static str = "@launch(256)
@autotune(TN in [$0])
@aligned(N = TN)
kernel iq2xxs_qdecode(QB: tensor<i8>[N, RB], D: tensor<f16>[N, NB],
                      GRID: tensor<i8>[1, $1],
                      SIGNS: tensor<i8>[1, $2],
                      SCRATCH: tensor<f32>[K, N]) {
  let pn = program_id(0)
  SCRATCH[:, pn * TN :+ TN] = iq2xxs_qdecode_t(QB[pn * TN :+ TN, :], D[pn * TN :+ TN, :],
                                               GRID[0 :+ 1, :], SIGNS[0 :+ 1, :])
}
";

/// The decode as one statement, for an `n` of whole tiles.
pub fn iq2xxs_qdecode_src(tn: usize) -> (s: String)
    ensures
        s@ == text::filled(
            IQ2XXS_QDECODE@,
            seq![
                text::decimal(tn as nat),
                text::decimal(IQ2XXS_GRID_LEN as nat),
                text::decimal(IQ2XXS_SIGNS_LEN as nat),
            ],
        ),
{
    Args::new().num(tn).num(IQ2XXS_GRID_LEN).num(IQ2XXS_SIGNS_LEN).fill(IQ2XXS_QDECODE)
}

} // verus!
