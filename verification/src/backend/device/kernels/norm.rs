//! The RMS norm and its quantizing and gated forms.

use vstd::prelude::*;

use crate::backend::device::kernels::elem::ELEM_TILE;
use crate::single::{self, fixed_text};
use crate::text::{self, Args};

verus! {

broadcast use crate::text::lemma_filled_args;

/// Values per row of the reshaped tile, and of a quantized block.
pub const RMS_LANE: usize = 32;

pub const WARP_THREADS: usize = 32;

pub const CTA_THREADS: usize = 256;

/// Blocks of a SwiGLU one CTA takes.
pub const SWIGLU_Q_BLOCKS: usize = ELEM_TILE / RMS_LANE;

/// What a normalization leaves behind besides the normalized row.
#[derive(Clone, Copy, PartialEq, Eq, Structural, Debug, Hash)]
pub enum NormForm {
    Plain,
    Quantized,
    GatedQuantized,
}

pub open spec fn form_name(form: NormForm) -> Seq<char> {
    match form {
        NormForm::Plain => "rms_norm"@,
        NormForm::Quantized => "rms_norm_q"@,
        NormForm::GatedQuantized => "rms_norm_gated"@,
    }
}

impl NormForm {
    pub fn gated(self) -> (yes: bool)
        ensures
            yes == (self == NormForm::GatedQuantized),
    {
        self == NormForm::GatedQuantized
    }

    pub fn quantized(self) -> (yes: bool)
        ensures
            yes == (self != NormForm::Plain),
    {
        self != NormForm::Plain
    }

    pub fn kernel(self) -> (name: &'static str)
        ensures
            name@ == form_name(self),
    {
        match self {
            NormForm::Plain => "rms_norm",
            NormForm::Quantized => "rms_norm_q",
            NormForm::GatedQuantized => "rms_norm_gated",
        }
    }
}

/// Threads a normalization's CTA carries: one per value, between a warp and the
/// usual width.
pub open spec fn cta_of(blocks: nat) -> nat {
    if blocks * 32 < 32 {
        32
    } else if blocks * 32 > 256 {
        256
    } else {
        blocks * 32
    }
}

pub fn norm_cta(blocks: usize) -> (cta: usize)
    ensures
        cta == cta_of(blocks as nat),
{
    if blocks < 1 {
        WARP_THREADS
    } else if blocks > 8 {
        CTA_THREADS
    } else {
        blocks * RMS_LANE
    }
}

/// A CTA the one-statement norm can run at: whole warps, four elements of the
/// row to a thread at a time.
pub open spec fn divides(width: nat, warps: nat) -> bool {
    1 <= warps <= 8 && width % (warps * 128) == 0
}

/// The largest such CTA.
pub open spec fn q_cta_of(width: nat) -> Option<nat> {
    if exists|w: nat| divides(width, w) {
        Some(
            32 * choose|w: nat|
                divides(width, w) && forall|v: nat| w < v ==> !#[trigger] divides(width, v),
        )
    } else {
        None
    }
}

pub open spec fn is_largest(width: nat, warps: nat) -> bool {
    divides(width, warps) && forall|v: nat| warps < v ==> !#[trigger] divides(width, v)
}

proof fn lemma_largest(width: nat, warps: nat)
    requires
        is_largest(width, warps),
    ensures
        q_cta_of(width) == Some(32 * warps),
{
    let w = choose|w: nat|
        divides(width, w) && forall|v: nat| w < v ==> !#[trigger] divides(width, v);
    assert(divides(width, warps) && forall|v: nat| warps < v ==> !#[trigger] divides(width, v));
    if w < warps {
        assert(!divides(width, warps));
    } else if warps < w {
        assert(!divides(width, w));
    }
}

pub fn norm_q_cta(width: usize) -> (cta: Option<usize>)
    ensures
        match cta {
            Some(c) => q_cta_of(width as nat) == Some(c as nat),
            None => q_cta_of(width as nat) is None,
        },
{
    let mut warps: usize = 8;
    while warps > 0
        invariant
            warps <= 8,
            forall|v: nat| warps < v ==> !#[trigger] divides(width as nat, v),
        decreases warps,
    {
        if width % (warps * 128) == 0 {
            proof {
                assert(divides(width as nat, warps as nat));
                assert(is_largest(width as nat, warps as nat));
                lemma_largest(width as nat, warps as nat);
            }
            return Some(warps * WARP_THREADS);
        }
        assert(!divides(width as nat, warps as nat));
        warps = warps - 1;
    }
    proof {
        assert forall|w: nat| !divides(width as nat, w) by {
            if w > 0 {
                assert(!divides(width as nat, w));
            }
        }
    }
    None
}

pub const RMS_NORM_Q: &'static str = "@launch($0)
@autotune(NB in [$1])
@aligned(RB = NB, MB = NB, D1 = 1)
kernel rms_norm_q(X: tensor<f32>[RB, $2], G: tensor<f32>[MB, $2],
              O: tensor<f32>[RB, $2], Q: tensor<i8>[RB, $2], S: tensor<f32>[RB, D1]) {
  let r = program_id(0)
  rms_norm_q_t(X[r * NB :+ NB, 0 :+ $2], G[0 :+ NB, 0 :+ $2], $3,
               O[r * NB :+ NB, 0 :+ $2], Q[r * NB :+ NB, 0 :+ $2], S[r * NB :+ NB, 0 :+ 1])
}
";

pub const GATE_PARAM: &'static str = ", Z: tensor<f32>[RB, $0]";

pub const GATE_BODY: &'static str = "  var z = Z[r * NB :+ NB, 0 :+ $0]
               var y: tile<f32>[NB, $0] = n * (z / (1.0 + exp(-z)))
";

pub const PLAIN_BODY: &'static str = "  var y: tile<f32>[NB, $0] = n
";

pub const OUT_BODY: &'static str = "  O[r * NB :+ NB, 0 :+ $0] = y
";

pub const QUANT_PARAM: &'static str = ", Q: tensor<i8>[RB, $0], S: tensor<f32>[RB, D1]";

pub const QUANT_BODY: &'static str = "  var mx: tile<f32>[NB, 1] = rowmax(tmax(y, -y))
               var q = y * (127.0 / (mx + 0.00000001))
               Q[r * NB :+ NB, 0 :+ $0] = i8(i32(round(q)))
               S[r * NB :+ NB, 0 :+ 1] = mx / 127.0
";

pub const RMS_NORM: &'static str = "@launch($0)
@autotune(NB in [$1])
@dynshared
kernel $2(X: tensor<f32>[RB, $3], G: tensor<f32>[MB, $3],
              O: tensor<f32>[RB, $3]$4) {
  let r = program_id(0)
  var x = X[r * NB :+ NB, 0 :+ $3]
  var sq: tile<f32>[NB, 1] = rowsum(x * x)
  var tot: tile<f32>[1, 1] = rowsum(transpose(sq))
  var inv: tile<f32>[1, 1] = 1.0 / sqrt(tot / $5.0 + $6)
  var g = G[0 :+ NB, 0 :+ $3]
  var n: tile<f32>[NB, $3] = x * inv * g
$7}
";

/// The parameters a form adds.
pub open spec fn norm_params(form: NormForm) -> Seq<char> {
    (if form == NormForm::GatedQuantized {
        text::filled(GATE_PARAM@, seq![text::decimal(32)])
    } else {
        Seq::empty()
    }) + (if form != NormForm::Plain {
        text::filled(QUANT_PARAM@, seq![text::decimal(32)])
    } else {
        Seq::empty()
    })
}

/// The statements after the normalization: gating, the store, the quantized
/// copy.
pub open spec fn norm_body(form: NormForm) -> Seq<char> {
    (if form == NormForm::GatedQuantized {
        text::filled(GATE_BODY@, seq![text::decimal(32)])
    } else {
        text::filled(PLAIN_BODY@, seq![text::decimal(32)])
    }) + text::filled(OUT_BODY@, seq![text::decimal(32)]) + (if form != NormForm::Plain {
        text::filled(QUANT_BODY@, seq![text::decimal(32)])
    } else {
        Seq::empty()
    })
}

/// The source of a normalization: the quantized, ungated one as one statement
/// where a thread can own four elements of every row's stretch.
pub open spec fn norm_text(width: nat, eps_bits: u32, form: NormForm) -> Seq<char> {
    let blocks = width / 32;
    if form == NormForm::Quantized && q_cta_of(width) is Some {
        text::filled(
            RMS_NORM_Q@,
            seq![
                text::decimal(q_cta_of(width)->Some_0),
                text::decimal(blocks),
                text::decimal(32),
                single::fixed(eps_bits, 12),
            ],
        )
    } else {
        text::filled(
            RMS_NORM@,
            seq![
                text::decimal(cta_of(blocks)),
                text::decimal(blocks),
                form_name(form),
                text::decimal(32),
                norm_params(form),
                text::decimal(width),
                single::fixed(eps_bits, 12),
                norm_body(form),
            ],
        )
    }
}

/// The norm of rows `width` wide, one CTA a row.
pub fn rms_norm_src(width: usize, eps_bits: u32, form: NormForm) -> (s: String)
    ensures
        s@ == norm_text(width as nat, eps_bits, form),
{
    let blocks: usize = width / RMS_LANE;
    let eps = fixed_text(eps_bits, 12);
    if form.quantized() && !form.gated() {
        if let Some(cta) = norm_q_cta(width) {
            return Args::new()
                .num(cta).num(blocks).num(RMS_LANE).text(eps.as_str()).fill(RMS_NORM_Q);
        }
    }
    let mut params = String::new();
    let mut body = String::new();
    if form.gated() {
        params.append(Args::new().num(RMS_LANE).fill(GATE_PARAM).as_str());
        body.append(Args::new().num(RMS_LANE).fill(GATE_BODY).as_str());
    } else {
        body.append(Args::new().num(RMS_LANE).fill(PLAIN_BODY).as_str());
    }
    body.append(Args::new().num(RMS_LANE).fill(OUT_BODY).as_str());
    if form.quantized() {
        params.append(Args::new().num(RMS_LANE).fill(QUANT_PARAM).as_str());
        body.append(Args::new().num(RMS_LANE).fill(QUANT_BODY).as_str());
    }
    assert(params@ =~= norm_params(form));
    assert(body@ =~= norm_body(form));
    Args::new().num(norm_cta(blocks)).num(blocks).text(form.kernel()).num(RMS_LANE).text(
        params.as_str(),
    ).num(width).text(eps.as_str()).text(body.as_str()).fill(RMS_NORM)
}

pub const SWIGLU_Q: &'static str = "@launch(256)
@autotune(NB in [$0])
kernel swiglu_q(G: tensor<f32>[RB, $1], U: tensor<f32>[RB, $1],
                O: tensor<f32>[RB, $1], Q: tensor<i8>[RB, $1],
                S: tensor<f32>[RB, D1]) {
  let p = program_id(0)
  var g = G[p * NB :+ NB, 0 :+ $1]
  var u = U[p * NB :+ NB, 0 :+ $1]
  var y: tile<f32>[NB, $1] = (g / (1.0 + exp(-g))) * u
  O[p * NB :+ NB, 0 :+ $1] = y
  var mx: tile<f32>[NB, 1] = rowmax(tmax(y, -y))
  var q = y * (127.0 / (mx + 0.00000001))
  Q[p * NB :+ NB, 0 :+ $1] = i8(i32(round(q)))
  S[p * NB :+ NB, 0 :+ 1] = mx / 127.0
}
";

/// The SwiGLU with a quantized copy for the projection after it.
pub fn swiglu_q_src(blocks: usize) -> (s: String)
    ensures
        s@ == text::filled(
            SWIGLU_Q@,
            seq![text::decimal(blocks as nat), text::decimal(RMS_LANE as nat)],
        ),
{
    Args::new().num(blocks).num(RMS_LANE).fill(SWIGLU_Q)
}

} // verus!
