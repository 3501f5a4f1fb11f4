//! IQ3_S kernels: two four-wide grid entries a lane, and IQ2_S's sign bytes.

use vstd::prelude::*;

use crate::backend::device::kernels::iq2s::IQ2S_SIGNS_LEN;
use crate::backend::device::kernels::{self, raise, BYTE};
use crate::text::{self, Args};

verus! {

broadcast use crate::text::lemma_filled_args;

/// Output columns per CTA.
pub const IQ3S_TN: usize = 8;

pub const LANES: usize = 32;

pub const HALF: usize = 4;

pub const BLOCK_BYTES: usize = 108;

/// Grid entries, four lanes apiece.
pub const IQ3S_GRID_LEN: usize = 512 * 4;

/// A lane's byte offsets: its first grid entry, high bits, signs and scales,
/// and the divisors of its two high bits.
pub open spec fn geometry(is: nat) -> (nat, nat, nat, nat, nat, nat) {
    let o = is / 8;
    let rem = is % 8;
    let part = rem / 4;
    let l = rem % 4;
    let grid_off = 16 * o + 8 * part + 2 * l;
    let qh_off = 64 + 2 * o + part;
    let signs_off = 72 + 8 * o + 4 * part + l;
    let scale_off = 104 + o;
    let qh_div1 = kernels::raised(2, 2 * l);
    let qh_div2 = kernels::raised(2, 2 * l + 1);
    (
        grid_off as nat,
        qh_off as nat,
        signs_off as nat,
        scale_off as nat,
        qh_div1 as nat,
        qh_div2 as nat,
    )
}

fn run_geometry(is: usize) -> (g: (usize, usize, usize, usize, usize, usize))
    requires
        is < 32,
    ensures
        g.0 == geometry(is as nat).0,
        g.1 == geometry(is as nat).1,
        g.2 == geometry(is as nat).2,
        g.3 == geometry(is as nat).3,
        g.4 == geometry(is as nat).4,
        g.5 == geometry(is as nat).5,
{
    let o: usize = is / 8;
    let rem: usize = is % 8;
    let part: usize = rem / 4;
    let l: usize = rem % 4;
    let grid_off: usize = 16 * o + 8 * part + 2 * l;
    let qh_off: usize = 64 + 2 * o + part;
    let signs_off: usize = 72 + 8 * o + 4 * part + l;
    let scale_off: usize = 104 + o;
    let qh_div1: usize = raise(2, 2 * l);
    let qh_div2: usize = raise(2, 2 * l + 1);
    (grid_off, qh_off, signs_off, scale_off, qh_div1, qh_div2)
}

pub const NIBBLE_LOW: &'static str = "($0 % 16)";

pub const NIBBLE_HIGH: &'static str = "($0 / 16)";

pub const DB: &'static str = "(f32(d) * f32(1 + 2 * $0))";

pub const IOTA4: &'static str = "IOTA[0 :+ 1, 0 :+ $0]";

pub const GRID_IDX: &'static str = "($0 + (($1 / $2) % 2) * 256)";

pub const GRID_IDX8: &'static str = "($0 * $1 + $2)";

pub const SIGN_IDX8: &'static str = "($0 * 8 + $1 + $2)";

pub const DECODED: &'static str = "    let decoded$0_$1 = $2 * f32(gather(grid, $3)) * f32(gather(signs, $4))\n";

/// The statement that decodes one half of a lane.
pub open spec fn decode_text(is: nat, half: nat) -> Seq<char> {
    let (grid_off, qh_off, signs_off, scale_off, qh_div1, qh_div2) = geometry(is);
    let qh_byte = text::filled(BYTE@, seq![text::decimal(qh_off as nat)]);
    let signs_byte = text::filled(BYTE@, seq![text::decimal(signs_off as nat)]);
    let scale_byte = text::filled(BYTE@, seq![text::decimal(scale_off as nat)]);
    let nibble = if is % 8 < 4 {
        text::filled(NIBBLE_LOW@, seq![scale_byte])
    } else {
        text::filled(NIBBLE_HIGH@, seq![scale_byte])
    };
    let db = text::filled(DB@, seq![nibble]);
    let entry_off = grid_off + half;
    let sign_shift = half * 4;
    let bit_div = if half == 0 { qh_div1 } else { qh_div2 };
    let entry = text::filled(BYTE@, seq![text::decimal(entry_off as nat)]);
    let iota4 = text::filled(IOTA4@, seq![text::decimal(HALF as nat)]);
    let grid_idx = text::filled(GRID_IDX@, seq![entry, qh_byte, text::decimal(bit_div as nat)]);
    let grid_idx8 = text::filled(GRID_IDX8@, seq![grid_idx, text::decimal(HALF as nat), iota4]);
    let sign_idx8 = text::filled(
        SIGN_IDX8@,
        seq![signs_byte, text::decimal(sign_shift as nat), iota4],
    );
    let decoded = text::filled(
        DECODED@,
        seq![text::decimal(is as nat), text::decimal(half as nat), db, grid_idx8, sign_idx8],
    );
    decoded
}

/// A lane half's decoding statement, and where its values land in the block.
fn decoded_lane(is: usize, half: usize) -> (d: (usize, String))
    requires
        is < 32,
        half < 2,
    ensures
        d.0 == is * 8 + half * HALF,
        d.1@ == decode_text(is as nat, half as nat),
{
    let (grid_off, qh_off, signs_off, scale_off, qh_div1, qh_div2) = run_geometry(is);
    let qh_byte = Args::new().num(qh_off).fill(BYTE);
    let signs_byte = Args::new().num(signs_off).fill(BYTE);
    let scale_byte = Args::new().num(scale_off).fill(BYTE);
    let nibble = if is % 8 < 4 {
        Args::new().text(scale_byte.as_str()).fill(NIBBLE_LOW)
    } else {
        Args::new().text(scale_byte.as_str()).fill(NIBBLE_HIGH)
    };
    let db = Args::new().text(nibble.as_str()).fill(DB);
    let entry_off: usize = grid_off + half;
    let sign_shift: usize = half * 4;
    let bit_div: usize = if half == 0 { qh_div1 } else { qh_div2 };
    let entry = Args::new().num(entry_off).fill(BYTE);
    let iota4 = Args::new().num(HALF).fill(IOTA4);
    let grid_idx = Args::new()
        .text(entry.as_str()).text(qh_byte.as_str()).num(bit_div).fill(GRID_IDX);
    let grid_idx8 = Args::new()
        .text(grid_idx.as_str()).num(HALF).text(iota4.as_str()).fill(GRID_IDX8);
    let sign_idx8 = Args::new()
        .text(signs_byte.as_str()).num(sign_shift).text(iota4.as_str()).fill(SIGN_IDX8);
    let decoded = Args::new()
        .num(is).num(half).text(db.as_str()).text(grid_idx8.as_str()).text(sign_idx8.as_str())
        .fill(DECODED);
    (is * 8 + half * HALF, decoded)
}

pub const MATVEC_LINE: &'static str = "$0    acc = acc + dot_t(A[pm :+ 1, kb * 256 + $1 :+ $2], decoded$3_$4)\n";

/// One half's line.
pub open spec fn matvec_line(is: nat, half: nat) -> Seq<char> {
    text::filled(
        MATVEC_LINE@,
        seq![
            decode_text(is, half),
            text::decimal((is * 8 + half * HALF) as nat),
            text::decimal(HALF as nat),
            text::decimal(is),
            text::decimal(half),
        ],
    )
}

/// The lines of the first lanes, two halves each.
pub open spec fn matvec_lines(n: nat) -> Seq<char>
    decreases n,
{
    if n == 0 {
        Seq::empty()
    } else {
        matvec_lines((n - 1) as nat) + matvec_line(
            (n - 1) as nat,
            0,
        ) + matvec_line((n - 1) as nat, 1)
    }
}

fn matvec_half(is: usize, half: usize) -> (s: String)
    requires
        is < 32,
        half < 2,
    ensures
        s@ == matvec_line(is as nat, half as nat),
{
    let (out_off, decode) = decoded_lane(is, half);
    Args::new().text(decode.as_str()).num(out_off).num(HALF).num(is).num(half).fill(MATVEC_LINE)
}

fn matvec_text() -> (s: String)
    ensures
        s@ == matvec_lines(32),
{
    let mut s = String::new();
    let mut is: usize = 0;
    assert(s@ =~= Seq::empty());
    while is < 32
        invariant
            is <= 32,
            s@ == matvec_lines(is as nat),
        decreases 32 - is,
    {
        s.append(matvec_half(is, 0).as_str());
        s.append(matvec_half(is, 1).as_str());
        is = is + 1;
    }
    s
}

pub const DEQUANT_LINE: &'static str = "$0    SCRATCH[kb * 256 + $1 :+ $2, pn * TN :+ TN] = transpose(decoded$3_$4)\n";

/// One half's line.
pub open spec fn dequant_line(is: nat, half: nat) -> Seq<char> {
    text::filled(
        DEQUANT_LINE@,
        seq![
            decode_text(is, half),
            text::decimal((is * 8 + half * HALF) as nat),
            text::decimal(HALF as nat),
            text::decimal(is),
            text::decimal(half),
        ],
    )
}

/// The lines of the first lanes, two halves each.
pub open spec fn dequant_lines(n: nat) -> Seq<char>
    decreases n,
{
    if n == 0 {
        Seq::empty()
    } else {
        dequant_lines((n - 1) as nat) + dequant_line(
            (n - 1) as nat,
            0,
        ) + dequant_line((n - 1) as nat, 1)
    }
}

fn dequant_half(is: usize, half: usize) -> (s: String)
    requires
        is < 32,
        half < 2,
    ensures
        s@ == dequant_line(is as nat, half as nat),
{
    let (out_off, decode) = decoded_lane(is, half);
    Args::new().text(decode.as_str()).num(out_off).num(HALF).num(is).num(half).fill(DEQUANT_LINE)
}

fn dequant_text() -> (s: String)
    ensures
        s@ == dequant_lines(32),
{
    let mut s = String::new();
    let mut is: usize = 0;
    assert(s@ =~= Seq::empty());
    while is < 32
        invariant
            is <= 32,
            s@ == dequant_lines(is as nat),
        decreases 32 - is,
    {
        s.append(dequant_half(is, 0).as_str());
        s.append(dequant_half(is, 1).as_str());
        is = is + 1;
    }
    s
}

pub const IQ3S_MATVEC: &'static str = "@launch(256)
@autotune(TN in [$0])
kernel iq3s_matvec(A: tensor<f32>[M, K], QB: tensor<i8>[N, RB],
                   D: tensor<f16>[N, NB], GRID: tensor<i32>[1, $1],
                   SIGNS: tensor<i32>[1, $2], IOTA: tensor<i32>[1, 8],
                   C: tensor<f32>[M, N]) {
  let pn = program_id(0)
  let pm = program_id(1)
  let grid = GRID[0 :+ 1, :]
  let signs = SIGNS[0 :+ 1, :]
  var acc: tile<f32>[1, TN] = 0.0
  for kb in range(0, NB, 1) {
    var qb = QB[pn * TN :+ TN, kb * $3 :+ $3]
    let d = D[pn * TN :+ TN, kb :+ 1]
$4  }
  C[pm :+ 1, pn * TN :+ TN] = acc
}
";

/// The masked matvec: every lane decoded and contracted.
pub fn iq3s_matvec_src(tn: usize) -> (s: String)
    ensures
        s@ == text::filled(
            IQ3S_MATVEC@,
            seq![
                text::decimal(tn as nat),
                text::decimal(IQ3S_GRID_LEN as nat),
                text::decimal(IQ2S_SIGNS_LEN as nat),
                text::decimal(BLOCK_BYTES as nat),
                matvec_lines(32),
            ],
        ),
{
    Args::new()
        .num(tn).num(IQ3S_GRID_LEN).num(IQ2S_SIGNS_LEN).num(BLOCK_BYTES)
        .text(matvec_text().as_str()).fill(IQ3S_MATVEC)
}

pub const IQ3S_QDOT_MATVEC: &'static str = "@launch(256)
@autotune(TN in [$0])
@aligned(N = TN)
kernel iq3s_qdot_matvec(A: tensor<f32>[M, K], QB: tensor<i8>[N, RB],
                        D: tensor<f16>[N, NB], GRID: tensor<i8>[1, $1],
                        SIGNS: tensor<i8>[1, $2], C: tensor<f32>[M, N]) {
  let pn = program_id(0)
  C[0 :+ 1, pn * TN :+ TN] = iq3s_qdot_t(A[0 :+ 1, :], QB[pn * TN :+ TN, :],
                                         D[pn * TN :+ TN, :], GRID[0 :+ 1, :], SIGNS[0 :+ 1, :])
}
";

/// The single-row matvec as one statement, for an `n` of whole tiles.
pub fn iq3s_qdot_matvec_src(tn: usize) -> (s: String)
    ensures
        s@ == text::filled(
            IQ3S_QDOT_MATVEC@,
            seq![
                text::decimal(tn as nat),
                text::decimal(IQ3S_GRID_LEN as nat),
                text::decimal(IQ2S_SIGNS_LEN as nat),
            ],
        ),
{
    Args::new().num(tn).num(IQ3S_GRID_LEN).num(IQ2S_SIGNS_LEN).fill(IQ3S_QDOT_MATVEC)
}

pub const IQ3S_DEQUANT: &'static str = "@launch(256)
@autotune(TN in [$0])
kernel iq3s_dequant(QB: tensor<i8>[N, RB], D: tensor<f16>[N, NB],
                    GRID: tensor<i32>[1, $1], SIGNS: tensor<i32>[1, $2],
                    IOTA: tensor<i32>[1, 8], SCRATCH: tensor<f32>[K, N]) {
  let pn = program_id(0)
  let grid = GRID[0 :+ 1, :]
  let signs = SIGNS[0 :+ 1, :]
  for kb in range(0, NB, 1) {
    var qb = QB[pn * TN :+ TN, kb * $3 :+ $3]
    let d = D[pn * TN :+ TN, kb :+ 1]
$4  }
}
";

/// The decode stored rather than contracted.
pub fn iq3s_dequant_src(tn: usize) -> (s: String)
    ensures
        s@ == text::filled(
            IQ3S_DEQUANT@,
            seq![
                text::decimal(tn as nat),
                text::decimal(IQ3S_GRID_LEN as nat),
                text::decimal(IQ2S_SIGNS_LEN as nat),
                text::decimal(BLOCK_BYTES as nat),
                dequant_lines(32),
            ],
        ),
{
    Args::new()
        .num(tn).num(IQ3S_GRID_LEN).num(IQ2S_SIGNS_LEN).num(BLOCK_BYTES)
        .text(dequant_text().as_str()).fill(IQ3S_DEQUANT)
}

pub const IQ3S_QDECODE: &'static str = "@launch(256)
@autotune(TN in [$0])
@aligned(N = TN)
kernel iq3s_qdecode(QB: tensor<i8>[N, RB], D: tensor<f16>[N, NB],
                    GRID: tensor<i8>[1, $1],
                    SIGNS: tensor<i8>[1, $2],
                    SCRATCH: tensor<f32>[K, N]) {
  let pn = program_id(0)
  SCRATCH[:, pn * TN :+ TN] = iq3s_qdecode_t(QB[pn * TN :+ TN, :],
                                             D[pn * TN :+ TN, :],
                                             GRID[0 :+ 1, :],
                                             SIGNS[0 :+ 1, :])
}
";

/// The decode as one statement, for an `n` of whole tiles.
pub fn iq3s_qdecode_src(tn: usize) -> (s: String)
    ensures
        s@ == text::filled(
            IQ3S_QDECODE@,
            seq![
                text::decimal(tn as nat),
                text::decimal(IQ3S_GRID_LEN as nat),
                text::decimal(IQ2S_SIGNS_LEN as nat),
            ],
        ),
{
    Args::new().num(tn).num(IQ3S_GRID_LEN).num(IQ2S_SIGNS_LEN).fill(IQ3S_QDECODE)
}

} // verus!
