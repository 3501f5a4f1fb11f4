//! The activation side of a folded weight. The matrix of 1024 is the Kronecker
//! square of the one of 32, so a block is a square tile transformed from both sides.

use vstd::prelude::*;

use crate::backend::{HeadPerm, HADAMARD_BLOCK};
use crate::single::{self, fixed_text, inverse_root_bits};
use crate::text::{self, Args};

verus! {

broadcast use crate::text::lemma_filled_args;

/// The side of the tile a block is viewed as.
pub const HADAMARD_SIDE: usize = 32;

/// Widest row the normalizing form takes.
pub const HADAMARD_NORM_MAX_WIDTH: usize = 5120;

/// Ones that two numbers have in the same place.
pub open spec fn shared_ones(a: nat, b: nat) -> nat
    decreases a,
{
    if a == 0 {
        0
    } else {
        (a % 2) * (b % 2) + shared_ones(a / 2, b / 2)
    }
}

/// The bits of an entry of the normalized transform: the reciprocal root of its
/// side, negated where row and column share an odd number of ones.
pub open spec fn entry(r: nat, c: nat) -> u32 {
    let scale = single::inverse_root(32) as u32;
    if shared_ones(r, c) % 2 == 1 {
        negated(scale)
    } else {
        scale
    }
}

/// The bits of a number's negation.
pub open spec fn negated(bits: u32) -> u32 {
    if bits < 0x8000_0000 {
        (bits + 0x8000_0000) as u32
    } else {
        (bits - 0x8000_0000) as u32
    }
}

fn negate(bits: u32) -> (n: u32)
    ensures
        n == negated(bits),
{
    if bits < 0x8000_0000 {
        bits + 0x8000_0000
    } else {
        bits - 0x8000_0000
    }
}

fn common_ones(a: usize, b: usize) -> (count: usize)
    requires
        a < 32,
    ensures
        count == shared_ones(a as nat, b as nat),
        count <= a,
    decreases a,
{
    if a == 0 {
        0
    } else {
        let below = common_ones(a / 2, b / 2);
        let both: usize = if a % 2 == 1 && b % 2 == 1 {
            1
        } else {
            0
        };
        assert((a % 2) * (b % 2) == both) by (nonlinear_arith)
            requires
                both == (if a % 2 == 1 && b % 2 == 1 {
                    1int
                } else {
                    0
                }),
        ;
        both + below
    }
}

/// The normalized transform of the tile's side, row-major, by the bits of its
/// entries.
pub fn hadamard_matrix() -> (h: Vec<u32>)
    ensures
        h@ == Seq::new(1024, |i: int| entry((i / 32) as nat, (i % 32) as nat)),
{
    let scale = inverse_root_bits(HADAMARD_SIDE);
    let mut h: Vec<u32> = Vec::new();
    let mut i: usize = 0;
    while i < 1024
        invariant
            i <= 1024,
            scale == single::inverse_root(32),
            h@ == Seq::new(i as nat, |j: int| entry((j / 32) as nat, (j % 32) as nat)),
        decreases 1024 - i,
    {
        let odd = common_ones(i / HADAMARD_SIDE, i % HADAMARD_SIDE) % 2 == 1;
        h.push(
            if odd {
                negate(scale)
            } else {
                scale
            },
        );
        i = i + 1;
        assert(h@ =~= Seq::new(i as nat, |j: int| entry((j / 32) as nat, (j % 32) as nat)));
    }
    h
}

/// What the kernel does around the transform.
#[derive(Clone, Copy, PartialEq, Eq, Structural, Debug, Hash)]
pub enum HadamardForm {
    Plain,
    /// With the quantized copy of its output.
    Quantized,
    /// Quantized, and normalized first with the epsilon of these bits, the plain
    /// normalized row written out as well.
    Normed(u32),
}

pub open spec fn form_name(form: HadamardForm) -> Seq<char> {
    match form {
        HadamardForm::Plain => "hadamard"@,
        HadamardForm::Quantized => "hadamard_q"@,
        HadamardForm::Normed(_) => "rms_norm_hadamard_q"@,
    }
}

impl HadamardForm {
    pub fn kernel(self) -> (name: &'static str)
        ensures
            name@ == form_name(self),
    {
        match self {
            HadamardForm::Plain => "hadamard",
            HadamardForm::Quantized => "hadamard_q",
            HadamardForm::Normed(_) => "rms_norm_hadamard_q",
        }
    }
}

pub const LOAD_NORMED: &'static str = "  let row = p / $0
  var xr = X[row * $1 :+ $1, :]
  var sq: tile<f32>[$1, 1] = rowsum(xr * xr)
  var tot: tile<f32>[1, 1] = rowsum(transpose(sq))
  var inv: tile<f32>[1, 1] = 1.0 / sqrt(tot / $2.0 + $3)
  var g = G[b * $4 :+ $4, :]
  var x: tile<f32>[$4, $4] = X[p * $4 :+ $4, :] * inv * g
  N[p * $4 :+ $4, :] = x
";

pub const LOAD_PLAIN: &'static str = "  var x = X[p * $0 :+ $0, :]
";

pub const LOAD_REGROUPED: &'static str = "  let row = p / $0
  var x: tile<f32>[$1, $1] = 0.0
  for i in range(0, $2) {
    let c = b * $2 + i
    let src = row * $3 + ((c % $4) * $5 + c / $4) * $6
    x[i * $6 :+ $6, :] = X[src :+ $6, :]
  }
";

/// The normalized row goes out in its own order; only the block transformed is
/// regrouped.
pub const LOAD_NORMED_REGROUPED: &'static str = "  let row = p / $0
  var xr = X[row * $1 :+ $1, :]
  var sq: tile<f32>[$1, 1] = rowsum(xr * xr)
  var tot: tile<f32>[1, 1] = rowsum(transpose(sq))
  var inv: tile<f32>[1, 1] = 1.0 / sqrt(tot / $2.0 + $3)
  var g = G[b * $4 :+ $4, :]
  var n: tile<f32>[$4, $4] = X[p * $4 :+ $4, :] * inv * g
  N[p * $4 :+ $4, :] = n
  var x: tile<f32>[$4, $4] = 0.0
  for i in range(0, $5) {
    let c = b * $5 + i
    let src = ((c % $6) * $7 + c / $6) * $8
    x[i * $8 :+ $8, :] = X[row * $1 + src :+ $8, :] * inv * G[src :+ $8, :]
  }
";

pub const NORM_PARAMS: &'static str = ",
                G: tensor<f32>[SR, $0], N: tensor<f32>[R, $0]";

pub const QUANT_PARAMS: &'static str = ",
                Q: tensor<i8>[R, $0], D: tensor<f32>[R, D1]";

pub const QUANT_STORE: &'static str = "  var mx: tile<f32>[$0, 1] = rowmax(tmax(y, -y))
  var inq = 127.0 / (mx + 0.00000001)
  var yq = y * inq
  Q[p * $0 :+ $0, :] = i8(i32(round(yq)))
  D[p * $0 :+ $0, 0 :+ 1] = mx / 127.0
";

pub const HADAMARD: &'static str = "@launch(256)
@aligned(R = $0, SR = $0, D1 = 1)
kernel $1(X: tensor<f32>[R, $0], S: tensor<f32>[SR, $0],
                H: tensor<f32>[$0, $0], Y: tensor<f32>[R, $0]$2) {
  let p = program_id(0)
  let b = p % $3
$4  var s = S[b * $0 :+ $0, :]
  var h = H[:, :]
  var t = dot(x * s, h)
  var y = dot(h, t)
  Y[p * $0 :+ $0, :] = y
$5}
";

/// How a program gathers its block.
pub open spec fn load_text(width: nat, perm: Option<HeadPerm>, form: HadamardForm) -> Seq<char> {
    let side = text::decimal(32);
    let blocks = text::decimal(width / 1024);
    let row_rows = text::decimal(width / 32);
    match perm {
        Some(perm) => {
            let heads = text::decimal(1024nat / (perm.head_dim as nat));
            let repeat = text::decimal(perm.repeat as nat);
            let groups = text::decimal(perm.groups as nat);
            let span = text::decimal(perm.head_dim as nat / 32);
            match form {
                HadamardForm::Normed(bits) => text::filled(
                    LOAD_NORMED_REGROUPED@,
                    seq![
                        blocks,
                        row_rows,
                        text::decimal(width),
                        single::fixed(bits, 12),
                        side,
                        heads,
                        repeat,
                        groups,
                        span,
                    ],
                ),
                _ => text::filled(
                    LOAD_REGROUPED@,
                    seq![blocks, side, heads, row_rows, repeat, groups, span],
                ),
            }
        },
        None => match form {
            HadamardForm::Normed(bits) => text::filled(
                LOAD_NORMED@,
                seq![blocks, row_rows, text::decimal(width), single::fixed(bits, 12), side],
            ),
            _ => text::filled(LOAD_PLAIN@, seq![side]),
        },
    }
}

pub open spec fn params_text(form: HadamardForm) -> Seq<char> {
    (if form is Normed {
        text::filled(NORM_PARAMS@, seq![text::decimal(32)])
    } else {
        Seq::empty()
    }) + (if form is Plain {
        Seq::empty()
    } else {
        text::filled(QUANT_PARAMS@, seq![text::decimal(32)])
    })
}

pub open spec fn store_text(form: HadamardForm) -> Seq<char> {
    if form is Plain {
        Seq::empty()
    } else {
        text::filled(QUANT_STORE@, seq![text::decimal(32)])
    }
}

/// The kernel for rows `width` wide, regrouped where asked.
pub fn hadamard_src(width: usize, perm: Option<HeadPerm>, form: HadamardForm) -> (s: String)
    requires
        perm matches Some(p) ==> p.head_dim > 0,
    ensures
        s@ == text::filled(
            HADAMARD@,
            seq![
                text::decimal(32),
                form_name(form),
                params_text(form),
                text::decimal(width as nat / 1024),
                load_text(width as nat, perm, form),
                store_text(form),
            ],
        ),
{
    let side: usize = HADAMARD_SIDE;
    let blocks: usize = width / HADAMARD_BLOCK;
    let row_rows: usize = width / side;
    let load = match perm {
        Some(perm) => {
            let span: usize = perm.head_dim / side;
            let heads: usize = HADAMARD_BLOCK / perm.head_dim;
            match form {
                HadamardForm::Normed(bits) => {
                    let eps = fixed_text(bits, 12);
                    Args::new().num(blocks).num(row_rows).num(width).text(eps.as_str()).num(
                        side,
                    ).num(heads).num(perm.repeat).num(perm.groups).num(span).fill(
                        LOAD_NORMED_REGROUPED,
                    )
                },
                _ => Args::new().num(blocks).num(side).num(heads).num(row_rows).num(
                    perm.repeat,
                ).num(perm.groups).num(span).fill(LOAD_REGROUPED),
            }
        },
        None => match form {
            HadamardForm::Normed(bits) => {
                let eps = fixed_text(bits, 12);
                Args::new().num(blocks).num(row_rows).num(width).text(eps.as_str()).num(side).fill(
                    LOAD_NORMED,
                )
            },
            _ => Args::new().num(side).fill(LOAD_PLAIN),
        },
    };
    let mut params = String::new();
    let mut store = String::new();
    if let HadamardForm::Normed(_) = form {
        params.append(Args::new().num(side).fill(NORM_PARAMS).as_str());
    }
    let plain = match form {
        HadamardForm::Plain => true,
        _ => false,
    };
    if !plain {
        params.append(Args::new().num(side).fill(QUANT_PARAMS).as_str());
        store.append(Args::new().num(side).fill(QUANT_STORE).as_str());
    }
    assert(params@ =~= params_text(form));
    assert(store@ =~= store_text(form));
    Args::new().num(side).text(form.kernel()).text(params.as_str()).num(blocks).text(
        load.as_str(),
    ).text(store.as_str()).fill(HADAMARD)
}

} // verus!
