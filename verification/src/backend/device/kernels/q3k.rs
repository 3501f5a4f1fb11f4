//! Q3_K kernels: two bits of a quant from one field and a third from a mask, and a
//! signed six-bit scale a run.

use vstd::prelude::*;

use crate::backend::device::kernels::{self, raise};
use crate::text::{self, Args};

verus! {

broadcast use crate::text::lemma_filled_args;

/// Output columns a CTA covers.
pub const Q3K_TN: usize = 32;

pub const RUN: usize = 16;

pub const BLOCK_BYTES: usize = 110;

/// A run's byte offsets and divisors: its low bits, its mask bit, and the two parts of its scale.
pub open spec fn geometry(is: nat) -> (nat, nat, nat, nat, nat, nat, nat, nat) {
    let h = is / 8;
    let rem = is % 8;
    let j = rem / 2;
    let half2 = rem % 2;
    let qs_off = 32 + h * 32 + half2 * 16;
    let qs_div = kernels::raised(4, j);
    let hm_off = half2 * 16;
    let hm_div = kernels::raised(2, h * 4 + j);
    let group = is / 4;
    let c = is % 4;
    let lo_off = 96 + if group % 2 == 0 { c } else { 4 + c };
    let lo_div = if group < 2 { 1nat } else { 16nat };
    let hi_off = 104 + c;
    let hi_div = kernels::raised(4, group);
    (
        qs_off as nat,
        qs_div as nat,
        hm_off as nat,
        hm_div as nat,
        lo_off as nat,
        lo_div as nat,
        hi_off as nat,
        hi_div as nat,
    )
}

fn run_geometry(is: usize) -> (g: (usize, usize, usize, usize, usize, usize, usize, usize))
    requires
        is < 16,
    ensures
        g.0 == geometry(is as nat).0,
        g.1 == geometry(is as nat).1,
        g.2 == geometry(is as nat).2,
        g.3 == geometry(is as nat).3,
        g.4 == geometry(is as nat).4,
        g.5 == geometry(is as nat).5,
        g.6 == geometry(is as nat).6,
        g.7 == geometry(is as nat).7,
{
    let h: usize = is / 8;
    let rem: usize = is % 8;
    let j: usize = rem / 2;
    let half2: usize = rem % 2;
    let qs_off: usize = 32 + h * 32 + half2 * 16;
    let qs_div: usize = raise(4, j);
    let hm_off: usize = half2 * 16;
    let hm_div: usize = raise(2, h * 4 + j);
    let group: usize = is / 4;
    let c: usize = is % 4;
    let lo_off: usize = 96 + if group % 2 == 0 { c } else { 4 + c };
    let lo_div: usize = if group < 2 { 1 } else { 16 };
    let hi_off: usize = 104 + c;
    let hi_div: usize = raise(4, group);
    (qs_off, qs_div, hm_off, hm_div, lo_off, lo_div, hi_off, hi_div)
}

pub const LO: &'static str = "(((i32(qb[:, $0 :+ 1]) + 256) % 256) / $1 % 16)";

pub const HI: &'static str = "(((i32(qb[:, $0 :+ 1]) + 256) % 256) / $1 % 4)";

pub const LOW2: &'static str = "(((i32(qb[:, $0 :+ $1]) + 256) % 256) / $2 % 4)";

pub const BIT: &'static str = "(((i32(qb[:, $0 :+ $1]) + 256) % 256) / $2 % 2)";

pub const DECODED: &'static str = "    let scale$0 = f32($1 + $2 * 16) - 32.0
    let decoded$0 = f32(d) * scale$0 * (f32($3) - 4.0 + f32($4) * 4.0)\n";

/// The statement that decodes one lane.
pub open spec fn decode_text(is: nat) -> Seq<char> {
    let (qs_off, qs_div, hm_off, hm_div, lo_off, lo_div, hi_off, hi_div) = geometry(is);
    let lo = text::filled(LO@, seq![text::decimal(lo_off as nat), text::decimal(lo_div as nat)]);
    let hi = text::filled(HI@, seq![text::decimal(hi_off as nat), text::decimal(hi_div as nat)]);
    let low2 = text::filled(
        LOW2@,
        seq![text::decimal(qs_off as nat), text::decimal(RUN as nat), text::decimal(qs_div as nat)],
    );
    let bit = text::filled(
        BIT@,
        seq![text::decimal(hm_off as nat), text::decimal(RUN as nat), text::decimal(hm_div as nat)],
    );
    let decoded = text::filled(DECODED@, seq![text::decimal(is as nat), lo, hi, low2, bit]);
    decoded
}

/// A lane's decoding statement, and where its values land in the block.
fn decoded_lane(is: usize) -> (d: (usize, String))
    requires
        is < 16,
    ensures
        d.0 == is * RUN,
        d.1@ == decode_text(is as nat),
{
    let (qs_off, qs_div, hm_off, hm_div, lo_off, lo_div, hi_off, hi_div) = run_geometry(is);
    let lo = Args::new().num(lo_off).num(lo_div).fill(LO);
    let hi = Args::new().num(hi_off).num(hi_div).fill(HI);
    let low2 = Args::new().num(qs_off).num(RUN).num(qs_div).fill(LOW2);
    let bit = Args::new().num(hm_off).num(RUN).num(hm_div).fill(BIT);
    let decoded = Args::new()
        .num(is).text(lo.as_str()).text(hi.as_str()).text(low2.as_str()).text(bit.as_str())
        .fill(DECODED);
    (is * RUN, decoded)
}

pub const MATVEC_LINE: &'static str = "$0    let a$1 = A[pm :+ 1, kb * 256 + $2 :+ $3]
    acc = acc + dot_t(a$1, decoded$1)\n";

/// The lines of the first lanes.
pub open spec fn matvec_lines(n: nat) -> Seq<char>
    decreases n,
{
    if n == 0 {
        Seq::empty()
    } else {
        matvec_lines((n - 1) as nat) + text::filled(
            MATVEC_LINE@,
            seq![
                decode_text((n - 1) as nat),
                text::decimal((n - 1) as nat),
                text::decimal(((n - 1) * RUN) as nat),
                text::decimal(RUN as nat),
            ],
        )
    }
}

fn matvec_text() -> (s: String)
    ensures
        s@ == matvec_lines(16),
{
    let mut s = String::new();
    let mut is: usize = 0;
    assert(s@ =~= Seq::empty());
    while is < 16
        invariant
            is <= 16,
            s@ == matvec_lines(is as nat),
        decreases 16 - is,
    {
        let (out_off, decode) = decoded_lane(is);
        let line = Args::new()
            .text(decode.as_str()).num(is).num(out_off).num(RUN).fill(MATVEC_LINE);
        s.append(line.as_str());
        is = is + 1;
    }
    s
}

pub const Q3K_MATVEC: &'static str = "@launch(256)
@autotune(TN in [$0])
kernel q3k_matvec(A: tensor<f32>[M, K], QB: tensor<i8>[N, RB],
                  D: tensor<f16>[N, NB], C: tensor<f32>[M, N]) {
  let pn = program_id(0)
  let pm = program_id(1)
  var acc: tile<f32>[1, TN] = 0.0
  for kb in range(0, NB, 1) {
    var qb = QB[pn * TN :+ TN, kb * $1 :+ $1]
    let d = D[pn * TN :+ TN, kb :+ 1]
$2  }
  C[pm :+ 1, pn * TN :+ TN] = acc
}
";

/// The masked matvec: every lane decoded and contracted.
pub fn q3k_matvec_src(tn: usize) -> (s: String)
    ensures
        s@ == text::filled(
            Q3K_MATVEC@,
            seq![text::decimal(tn as nat), text::decimal(BLOCK_BYTES as nat), matvec_lines(16)],
        ),
{
    Args::new().num(tn).num(BLOCK_BYTES).text(matvec_text().as_str()).fill(Q3K_MATVEC)
}

pub const Q3K_QDOT_MATVEC: &'static str = "@launch(256)
@autotune(TN in [$0])
@aligned(N = TN)
kernel q3k_qdot_matvec(A: tensor<f32>[M, K], QB: tensor<i8>[N, RB],
                       D: tensor<f16>[N, NB], C: tensor<f32>[M, N]) {
  let pn = program_id(0)
  C[0 :+ 1, pn * TN :+ TN] = q3k_qdot_t(A[0 :+ 1, :], QB[pn * TN :+ TN, :], D[pn * TN :+ TN, :])
}
";

/// The single-row matvec as one statement, for an `n` of whole tiles.
pub fn q3k_qdot_matvec_src(tn: usize) -> (s: String)
    ensures
        s@ == text::filled(Q3K_QDOT_MATVEC@, seq![text::decimal(tn as nat)]),
{
    Args::new().num(tn).fill(Q3K_QDOT_MATVEC)
}

} // verus!
