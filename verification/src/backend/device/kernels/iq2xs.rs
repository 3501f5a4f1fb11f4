//! IQ2_XS kernels: a nine-bit grid index and a seven-bit sign index a lane.

use vstd::prelude::*;

use crate::backend::device::kernels::iq2xxs::IQ2XXS_SIGNS_LEN;
use crate::backend::device::kernels::{self, BYTE};
use crate::text::{self, Args};

verus! {

broadcast use crate::text::lemma_filled_args;

/// Output columns per CTA.
pub const IQ2XS_TN: usize = 8;

pub const LANES: usize = 32;

pub const LANE: usize = 8;

pub const BLOCK_BYTES: usize = 74;

/// Grid entries, eight lanes apiece.
pub const IQ2XS_GRID_LEN: usize = 512 * 8;

/// A lane's byte offsets: its two-byte index and its group's scales.
pub open spec fn geometry(is: nat) -> (nat, nat, nat) {
    let ib32 = is / 4;
    let l = is % 4;
    let lo_off = 2 + 2 * (4 * ib32 + l);
    let hi_off = lo_off + 1;
    let scale_off = 66 + ib32;
    (lo_off as nat, hi_off as nat, scale_off as nat)
}

fn run_geometry(is: usize) -> (g: (usize, usize, usize))
    requires
        is < 32,
    ensures
        g.0 == geometry(is as nat).0,
        g.1 == geometry(is as nat).1,
        g.2 == geometry(is as nat).2,
{
    let ib32: usize = is / 4;
    let l: usize = is % 4;
    let lo_off: usize = 2 + 2 * (4 * ib32 + l);
    let hi_off: usize = lo_off + 1;
    let scale_off: usize = 66 + ib32;
    (lo_off, hi_off, scale_off)
}

pub const Q16: &'static str = "($0 + $1 * 256)";

pub const NIBBLE_LOW: &'static str = "($0 % 16)";

pub const NIBBLE_HIGH: &'static str = "($0 / 16)";

pub const DL: &'static str = "(f32(d) * (0.5 + f32($0)) * 0.25)";

pub const MAG_IDX8: &'static str = "(($0 % 512) * $1 + iota)";

pub const SIGN_IDX8: &'static str = "(($0 / 512) * $1 + iota)";

pub const DECODED: &'static str = "    let decoded$0 = $1 * f32(gather(grid, $2)) * f32(gather(signs, $3))\n";

/// The statement that decodes one lane.
pub open spec fn decode_text(is: nat) -> Seq<char> {
    let (lo_off, hi_off, scale_off) = geometry(is);
    let lo = text::filled(BYTE@, seq![text::decimal(lo_off as nat)]);
    let hi = text::filled(BYTE@, seq![text::decimal(hi_off as nat)]);
    let q16 = text::filled(Q16@, seq![lo, hi]);
    let scale_byte = text::filled(BYTE@, seq![text::decimal(scale_off as nat)]);
    let nibble = if is % 4 < 2 {
        text::filled(NIBBLE_LOW@, seq![scale_byte])
    } else {
        text::filled(NIBBLE_HIGH@, seq![scale_byte])
    };
    let dl = text::filled(DL@, seq![nibble]);
    let mag_idx8 = text::filled(MAG_IDX8@, seq![q16, text::decimal(LANE as nat)]);
    let sign_idx8 = text::filled(SIGN_IDX8@, seq![q16, text::decimal(LANE as nat)]);
    let decoded = text::filled(DECODED@, seq![text::decimal(is as nat), dl, mag_idx8, sign_idx8]);
    decoded
}

/// A lane's decoding statement, and where its values land in the block.
fn decoded_lane(is: usize) -> (d: (usize, String))
    requires
        is < 32,
    ensures
        d.0 == is * LANE,
        d.1@ == decode_text(is as nat),
{
    let (lo_off, hi_off, scale_off) = run_geometry(is);
    let lo = Args::new().num(lo_off).fill(BYTE);
    let hi = Args::new().num(hi_off).fill(BYTE);
    let q16 = Args::new().text(lo.as_str()).text(hi.as_str()).fill(Q16);
    let scale_byte = Args::new().num(scale_off).fill(BYTE);
    let nibble = if is % 4 < 2 {
        Args::new().text(scale_byte.as_str()).fill(NIBBLE_LOW)
    } else {
        Args::new().text(scale_byte.as_str()).fill(NIBBLE_HIGH)
    };
    let dl = Args::new().text(nibble.as_str()).fill(DL);
    let mag_idx8 = Args::new().text(q16.as_str()).num(LANE).fill(MAG_IDX8);
    let sign_idx8 = Args::new().text(q16.as_str()).num(LANE).fill(SIGN_IDX8);
    let decoded = Args::new()
        .num(is).text(dl.as_str()).text(mag_idx8.as_str()).text(sign_idx8.as_str()).fill(DECODED);
    (is * LANE, decoded)
}

pub const MATVEC_LINE: &'static str = "$0    acc = acc + dot_t(A[pm :+ 1, kb * 256 + $1 :+ $2], decoded$3)\n";

/// The lines of the first lanes.
pub open spec fn matvec_lines(n: nat) -> Seq<char>
    decreases n,
{
    if n == 0 {
        Seq::empty()
    } else {
        matvec_lines((n - 1) as nat) + text::filled(
            MATVEC_LINE@,
            seq![
                decode_text((n - 1) as nat),
                text::decimal(((n - 1) * LANE) as nat),
                text::decimal(LANE as nat),
                text::decimal((n - 1) as nat),
            ],
        )
    }
}

fn matvec_text() -> (s: String)
    ensures
        s@ == matvec_lines(32),
{
    let mut s = String::new();
    let mut is: usize = 0;
    assert(s@ =~= Seq::empty());
    while is < 32
        invariant
            is <= 32,
            s@ == matvec_lines(is as nat),
        decreases 32 - is,
    {
        let (out_off, decode) = decoded_lane(is);
        let line = Args::new()
            .text(decode.as_str()).num(out_off).num(LANE).num(is).fill(MATVEC_LINE);
        s.append(line.as_str());
        is = is + 1;
    }
    s
}

pub const DEQUANT_LINE: &'static str = "$0    SCRATCH[kb * 256 + $1 :+ $2, pn * TN :+ TN] = transpose(decoded$3)\n";

/// The lines of the first lanes.
pub open spec fn dequant_lines(n: nat) -> Seq<char>
    decreases n,
{
    if n == 0 {
        Seq::empty()
    } else {
        dequant_lines((n - 1) as nat) + text::filled(
            DEQUANT_LINE@,
            seq![
                decode_text((n - 1) as nat),
                text::decimal(((n - 1) * LANE) as nat),
                text::decimal(LANE as nat),
                text::decimal((n - 1) as nat),
            ],
        )
    }
}

fn dequant_text() -> (s: String)
    ensures
        s@ == dequant_lines(32),
{
    let mut s = String::new();
    let mut is: usize = 0;
    assert(s@ =~= Seq::empty());
    while is < 32
        invariant
            is <= 32,
            s@ == dequant_lines(is as nat),
        decreases 32 - is,
    {
        let (out_off, decode) = decoded_lane(is);
        let line = Args::new()
            .text(decode.as_str()).num(out_off).num(LANE).num(is).fill(DEQUANT_LINE);
        s.append(line.as_str());
        is = is + 1;
    }
    s
}

pub const IQ2XS_MATVEC: &'static str = "@launch(256)
@autotune(TN in [$0])
kernel iq2xs_matvec(A: tensor<f32>[M, K], QB: tensor<i8>[N, RB],
                    D: tensor<f16>[N, NB], GRID: tensor<i32>[1, $1],
                    SIGNS: tensor<i32>[1, $2], IOTA: tensor<i32>[1, $3],
                    C: tensor<f32>[M, N]) {
  let pn = program_id(0)
  let pm = program_id(1)
  let grid = GRID[0 :+ 1, :]
  let signs = SIGNS[0 :+ 1, :]
  let iota = IOTA[0 :+ 1, :]
  var acc: tile<f32>[1, TN] = 0.0
  for kb in range(0, NB, 1) {
    var qb = QB[pn * TN :+ TN, kb * $4 :+ $4]
    let d = D[pn * TN :+ TN, kb :+ 1]
$5  }
  C[pm :+ 1, pn * TN :+ TN] = acc
}
";

/// The masked matvec: every lane decoded and contracted.
pub fn iq2xs_matvec_src(tn: usize) -> (s: String)
    ensures
        s@ == text::filled(
            IQ2XS_MATVEC@,
            seq![
                text::decimal(tn as nat),
                text::decimal(IQ2XS_GRID_LEN as nat),
                text::decimal(IQ2XXS_SIGNS_LEN as nat),
                text::decimal(LANE as nat),
                text::decimal(BLOCK_BYTES as nat),
                matvec_lines(32),
            ],
        ),
{
    Args::new()
        .num(tn).num(IQ2XS_GRID_LEN).num(IQ2XXS_SIGNS_LEN).num(LANE).num(BLOCK_BYTES)
        .text(matvec_text().as_str()).fill(IQ2XS_MATVEC)
}

pub const IQ2XS_QDOT_MATVEC: &'static str = "@launch(256)
@autotune(TN in [$0])
@aligned(N = TN)
kernel iq2xs_qdot_matvec(A: tensor<f32>[M, K], QB: tensor<i8>[N, RB],
                         D: tensor<f16>[N, NB], GRID: tensor<i8>[1, $1],
                         SIGNS: tensor<i8>[1, $2], C: tensor<f32>[M, N]) {
  let pn = program_id(0)
  C[0 :+ 1, pn * TN :+ TN] = iq2xs_qdot_t(A[0 :+ 1, :], QB[pn * TN :+ TN, :],
                                          D[pn * TN :+ TN, :], GRID[0 :+ 1, :], SIGNS[0 :+ 1, :])
}
";

/// The single-row matvec as one statement, for an `n` of whole tiles.
pub fn iq2xs_qdot_matvec_src(tn: usize) -> (s: String)
    ensures
        s@ == text::filled(
            IQ2XS_QDOT_MATVEC@,
            seq![
                text::decimal(tn as nat),
                text::decimal(IQ2XS_GRID_LEN as nat),
                text::decimal(IQ2XXS_SIGNS_LEN as nat),
            ],
        ),
{
    Args::new().num(tn).num(IQ2XS_GRID_LEN).num(IQ2XXS_SIGNS_LEN).fill(IQ2XS_QDOT_MATVEC)
}

pub const IQ2XS_DEQUANT: &'static str = "@launch(256)
@autotune(TN in [$0])
kernel iq2xs_dequant(QB: tensor<i8>[N, RB], D: tensor<f16>[N, NB],
                     GRID: tensor<i32>[1, $1], SIGNS: tensor<i32>[1, $2],
                     IOTA: tensor<i32>[1, $3], SCRATCH: tensor<f32>[K, N]) {
  let pn = program_id(0)
  let grid = GRID[0 :+ 1, :]
  let signs = SIGNS[0 :+ 1, :]
  let iota = IOTA[0 :+ 1, :]
  for kb in range(0, NB, 1) {
    var qb = QB[pn * TN :+ TN, kb * $4 :+ $4]
    let d = D[pn * TN :+ TN, kb :+ 1]
$5  }
}
";

/// The decode stored rather than contracted.
pub fn iq2xs_dequant_src(tn: usize) -> (s: String)
    ensures
        s@ == text::filled(
            IQ2XS_DEQUANT@,
            seq![
                text::decimal(tn as nat),
                text::decimal(IQ2XS_GRID_LEN as nat),
                text::decimal(IQ2XXS_SIGNS_LEN as nat),
                text::decimal(LANE as nat),
                text::decimal(BLOCK_BYTES as nat),
                dequant_lines(32),
            ],
        ),
{
    Args::new()
        .num(tn).num(IQ2XS_GRID_LEN).num(IQ2XXS_SIGNS_LEN).num(LANE).num(BLOCK_BYTES)
        .text(dequant_text().as_str()).fill(IQ2XS_DEQUANT)
}

pub const IQ2XS_QDECODE: &'static str = "@launch(256)
@autotune(TN in [$0])
@aligned(N = TN)
kernel iq2xs_qdecode(QB: tensor<i8>[N, RB], D: tensor<f16>[N, NB],
                     GRID: tensor<i8>[1, $1],
                     SIGNS: tensor<i8>[1, $2],
                     SCRATCH: tensor<f32>[K, N]) {
  let pn = program_id(0)
  SCRATCH[:, pn * TN :+ TN] = iq2xs_qdecode_t(QB[pn * TN :+ TN, :],
                                              D[pn * TN :+ TN, :],
                                              GRID[0 :+ 1, :],
                                              SIGNS[0 :+ 1, :])
}
";

/// The decode as one statement, for an `n` of whole tiles.
pub fn iq2xs_qdecode_src(tn: usize) -> (s: String)
    ensures
        s@ == text::filled(
            IQ2XS_QDECODE@,
            seq![
                text::decimal(tn as nat),
                text::decimal(IQ2XS_GRID_LEN as nat),
                text::decimal(IQ2XXS_SIGNS_LEN as nat),
            ],
        ),
{
    Args::new().num(tn).num(IQ2XS_GRID_LEN).num(IQ2XXS_SIGNS_LEN).fill(IQ2XS_QDECODE)
}

} // verus!
