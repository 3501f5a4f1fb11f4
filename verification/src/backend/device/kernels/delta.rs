//! Delta rule kernels: the chunked form's two passes, the causal convolution and
//! the gates.

use vstd::prelude::*;

use crate::backend::device::kernels::{self, halved};
use crate::single::{self, fixed_text};
use crate::text::{self, Args};

verus! {

broadcast use crate::text::lemma_filled_args;

/// The gated delta rule a position at a time, the state in shared memory.
pub const DELTA_SRC: &'static str = "\
@launch(256)
@autotune(H in [{H}], D in [{D}], TN in [{TN}])
@aligned(R = H, D = TN, SD = D)
kernel delta_rule(Q:   tensor<f32>[R, D],
                  K:   tensor<f32>[R, D],
                  V:   tensor<f32>[R, D],
                  DEC: tensor<f32>[R, 1],
                  BET: tensor<f32>[R, 1],
                  S:   tensor<f32>[SD, D],
                  O:   tensor<f32>[R, D]) {
  let h = program_id(0)
  let jn = program_id(1)
  var st: tile<f32>[D, TN] = S[h * D :+ D, jn * TN :+ TN]

  for t in range(0, R, H) {
    let r = t + h
    var k = K[r :+ 1, 0 :+ D]
    var q = Q[r :+ 1, 0 :+ D]
    var v = V[r :+ 1, jn * TN :+ TN]
    var dec = DEC[r :+ 1, 0 :+ 1]
    var bet = BET[r :+ 1, 0 :+ 1]

    st = st * dec
    var e: tile<f32>[1, TN] = dot(k, st)
    e = (v - e) * bet
    var kt: tile<f32>[D, 1] = transpose(k)
    st = st + kt * e
    O[r :+ 1, jn * TN :+ TN] = dot(q, st)
  }

  S[h * D :+ D, jn * TN :+ TN] = st
}
";

pub const WY_FIRST: &'static str = "  var p0: tile<f32>[C, C] = dot(nn, nn)\n";

pub const WY_ADD: &'static str = "  t = t + dot(t, $0)\n";

pub const WY_DECLARE: &'static str = "  var p1: tile<f32>[C, C] = dot($0, $0)\n";

pub const WY_SQUARE: &'static str = "  $1 = dot($0, $0)\n";

pub const DELTA_WY: &'static str = "@launch(256)
@autotune(H in [$0], D in [$1], C in [$2])
@aligned(N = C, QW = D, WW = C)
kernel delta_wy(Q:   tensor<f32>[N, QW],
                K:   tensor<f32>[N, QW],
                DEC: tensor<f32>[N, GW],
                BET: tensor<f32>[N, GW],
                E:   tensor<f32>[EC, ED],
                W:   tensor<f32>[N, WW]) {
  let h = program_id(0)
  let ci = program_id(1)
  let qc = h * D
  let wc = h * 4 * C
  let c = ci * C
  var eye: tile<f32>[C, C] = E[0 :+ C, 0 :+ C]

  var k = K[c :+ C, qc :+ D]
  var dec = DEC[c :+ C, h :+ 1]
  var bet = BET[c :+ C, h :+ 1]

  var g: tile<f32>[C, 1] = log(dec + 0.000000000000000000000000000001)
  var b: tile<f32>[C, 1] = cumsum(g)
  var eb = exp(b)
  var dl: tile<f32>[C, C] = tril(exp(b - transpose(b)))

  var nn: tile<f32>[C, C] = dot_t(k, k) * (dl - eye) * bet
  var t: tile<f32>[C, C] = eye - nn
$3
  var tb: tile<f32>[C, C] = t * transpose(bet)
  W[c :+ C, wc :+ C] = tb
  W[c :+ C, wc + C :+ C] = tb * transpose(eb)
  W[c :+ C, wc + 2 * C :+ C] = dot_t(Q[c :+ C, qc :+ D], k) * dl

  var total: tile<f32>[1, 1] = rowsum(transpose(g))
  var ef: tile<f32>[C, 1] = exp(total - b)
  W[c :+ C, wc + 3 * C :+ 1] = eb
  W[c :+ C, wc + 3 * C + 1 :+ 1] = ef
  W[c :+ C, wc + 3 * C + 2 :+ 1] = ef * eb
}
";

/// Bits below a number's lowest set one.
pub open spec fn trailing(n: nat) -> nat
    decreases n,
{
    if n == 0 || n % 2 == 1 {
        0
    } else {
        1 + trailing(n / 2)
    }
}

/// Rounds of squaring the inversion takes: one fewer than the zero bits at the
/// chunk's low end, at least one.
pub open spec fn rounds_of(chunk: nat) -> nat {
    let bits = if chunk == 0 {
        usize::BITS as nat
    } else {
        trailing(chunk)
    };
    if bits < 2 {
        1
    } else {
        (bits - 1) as nat
    }
}

pub open spec fn this_power(round: nat) -> Seq<char> {
    if round % 2 == 0 {
        "p0"@
    } else {
        "p1"@
    }
}

/// One round: the factor multiplied in, and the next power where one follows.
/// The powers alternate between two names, since a product written over its
/// own operand would read what it overwrote.
pub open spec fn round_text(round: nat, rounds: nat) -> Seq<char> {
    text::filled(WY_ADD@, seq![this_power(round)]) + (if round + 1 < rounds {
        if round == 0 {
            text::filled(WY_DECLARE@, seq![this_power(round)])
        } else {
            text::filled(WY_SQUARE@, seq![this_power(round), this_power(round + 1)])
        }
    } else {
        Seq::empty()
    })
}

pub open spec fn inversion(n: nat, rounds: nat) -> Seq<char>
    decreases n,
{
    if n == 0 {
        WY_FIRST@
    } else {
        inversion((n - 1) as nat, rounds) + round_text((n - 1) as nat, rounds)
    }
}

fn trailing_zeros(n: usize) -> (bits: usize)
    requires
        n > 0,
    ensures
        bits == trailing(n as nat),
{
    let mut rest: usize = n;
    let mut bits: usize = 0;
    while rest % 2 == 0
        invariant
            0 < rest,
            bits + rest <= n,
            bits + trailing(rest as nat) == trailing(n as nat),
        decreases rest,
    {
        rest = rest / 2;
        bits = bits + 1;
    }
    bits
}

/// The first pass of the chunked rule: the matrices that depend only on the
/// keys, shared across every column of the state.
pub fn delta_wy_src(heads: usize, head_dim: usize, chunk: usize) -> (s: String)
    ensures
        s@ == ({
            let rounds = rounds_of(chunk as nat);
            text::filled(
                DELTA_WY@,
                seq![
                    text::decimal(heads as nat),
                    text::decimal(head_dim as nat),
                    text::decimal(chunk as nat),
                    inversion(rounds, rounds),
                ],
            )
        }),
{
    let bits: usize = if chunk == 0 {
        usize::BITS as usize
    } else {
        trailing_zeros(chunk)
    };
    let rounds: usize = if bits < 2 {
        1
    } else {
        bits - 1
    };
    let mut invert = WY_FIRST.to_owned();
    let mut round: usize = 0;
    while round < rounds
        invariant
            round <= rounds,
            invert@ == inversion(round as nat, rounds as nat),
        decreases rounds - round,
    {
        let (this, next) = if round % 2 == 0 {
            ("p0", "p1")
        } else {
            ("p1", "p0")
        };
        let ghost before = invert@;
        invert.append(Args::new().text(this).fill(WY_ADD).as_str());
        if round + 1 < rounds {
            if round == 0 {
                invert.append(Args::new().text(this).fill(WY_DECLARE).as_str());
            } else {
                invert.append(Args::new().text(this).text(next).fill(WY_SQUARE).as_str());
            }
        }
        assert(invert@ =~= before + round_text(round as nat, rounds as nat));
        round = round + 1;
    }
    Args::new().num(heads).num(head_dim).num(chunk).text(invert.as_str()).fill(DELTA_WY)
}

pub const DELTA_SCAN: &'static str = "@launch(256)
@autotune(H in [$0], D in [$1], TN in [$2], C in [$3])
@aligned(N = C, QW = D, VW = TN, OW = TN, WW = C, SD = D)
@dynshared
kernel delta_scan(Q:   tensor<f32>[N, QW],
                  K:   tensor<f32>[N, QW],
                  V:   tensor<f32>[N, VW],
                  W:   tensor<f32>[N, WW],
                  S:   tensor<f32>[SD, D],
                  O:   tensor<f32>[N, OW]) {
  let h = program_id(0)
  let jn = program_id(1)
  let qc = h * D
  let vc = h * D + jn * TN
  let wc = h * 4 * C
  var st: tile<f32>[D, TN] = S[h * D :+ D, jn * TN :+ TN]

  for c in range(0, N, C) {
    var k = K[c :+ C, qc :+ D]
    var kst: tile<f32>[C, TN] = dot(k, st)
    var kt: tile<f32>[D, C] = transpose(k)
    var uk: tile<f32>[C, TN] = dot(W[c :+ C, wc + C :+ C], kst)
    var u: tile<f32>[C, TN] = dot(W[c :+ C, wc :+ C], V[c :+ C, vc :+ TN])
    u = u - uk
    var qs: tile<f32>[C, TN] = dot(Q[c :+ C, qc :+ D], st)
    var mu: tile<f32>[C, TN] = dot(W[c :+ C, wc + 2 * C :+ C], u)
    qs = qs * W[c :+ C, wc + 3 * C :+ 1]
    O[c :+ C, vc :+ TN] = qs + mu

    st = st * W[c :+ 1, wc + 3 * C + 2 :+ 1]
    st += dot(kt, u * W[c :+ C, wc + 3 * C + 1 :+ 1])
  }

  S[h * D :+ D, jn * TN :+ TN] = st
}
";

/// The second pass: the scan of the state over the chunks.
pub fn delta_scan_src(heads: usize, head_dim: usize, tile: usize, chunk: usize) -> (s: String)
    ensures
        s@ == text::filled(
            DELTA_SCAN@,
            seq![
                text::decimal(heads as nat),
                text::decimal(head_dim as nat),
                text::decimal(tile as nat),
                text::decimal(chunk as nat),
            ],
        ),
{
    Args::new().num(heads).num(head_dim).num(tile).num(chunk).fill(DELTA_SCAN)
}

/// Positions one chunk covers.
pub const DELTA_CHUNK: usize = 16;

pub const DELTA_CHUNK_TN: usize = 64;

/// Columns of the state one program owns.
pub const DELTA_TN: usize = 16;

pub const NORMALIZED: &'static str = "    g = $0 / sqrt(rowsum(s * s) + 0.000000000001)
";

pub const SCALED: &'static str = "    g = $0
";

pub const KEY_CASE: &'static str = "  if p == 1 {
$0  }
";

pub const DELTA_CONV: &'static str = "@launch(256)
@autotune(H in [$0], D in [$1], KS in [$2], ST in [$3], PS in [$4], R in [$5], TB in [$6])
@aligned(C = D, HD = D)
kernel delta_conv(X: tensor<f32>[PR, C], W: tensor<f32>[KS, C], O: tensor<f32>[R3, HD]) {
  let t = program_id(0)
  let h = program_id(1)
  let p = program_id(2)
  var hs: i32 = h % $7
  if p == 2 {
    hs = h
  }
  let cb = p * PS + hs * ST
  var acc: tile<f32>[TB, D] = 0.0
  for k in range(0, KS, 1) {
    var x = X[t * TB + k :+ TB, cb :+ D]
    var w = W[k :+ 1, cb :+ D]
    acc = acc + x * w
  }
  var s = acc / (1.0 + exp(-acc))
  var g: tile<f32>[TB, 1] = 1.0
  if p == 0 {
$8  }
$9  O[p * R + t * TB :+ TB, h * D :+ D] = s * g
}
";

/// The bits of one.
pub const ONE_BITS: u32 = 0x3f80_0000;

/// What the query plane is scaled by.
pub open spec fn query_scale(normalize: bool, scale_bits: u32) -> Seq<char> {
    text::filled(
        if normalize {
            NORMALIZED@
        } else {
            SCALED@
        },
        seq![single::fixed(scale_bits, 9)],
    )
}

/// The key plane's own case, where it is normalized.
pub open spec fn key_case(normalize: bool) -> Seq<char> {
    if normalize {
        text::filled(KEY_CASE@, seq![text::filled(NORMALIZED@, seq![single::fixed(ONE_BITS, 9)])])
    } else {
        Seq::empty()
    }
}

/// The shape the convolution's kernel is generated for.
#[derive(Clone, Copy, PartialEq, Eq, Structural, Debug, Hash)]
pub struct ConvShape {
    pub heads: usize,
    pub kv_heads: usize,
    pub head_dim: usize,
    pub kernel: usize,
    pub stride: usize,
    pub plane_stride: usize,
    pub rows: usize,
    pub batch: usize,
    pub normalize: bool,
    pub query_scale_bits: u32,
}

/// The causal depthwise convolution with the activation, the split into
/// per-head planes and their normalization. Query and key planes of a grouped
/// net read the physical head a packed one stands for.
pub fn delta_conv_src(shape: ConvShape) -> (s: String)
    ensures
        s@ == text::filled(
            DELTA_CONV@,
            seq![
                text::decimal(shape.heads as nat),
                text::decimal(shape.head_dim as nat),
                text::decimal(shape.kernel as nat),
                text::decimal(shape.stride as nat),
                text::decimal(shape.plane_stride as nat),
                text::decimal(shape.rows as nat),
                text::decimal(shape.batch as nat),
                text::decimal(shape.kv_heads as nat),
                query_scale(shape.normalize, shape.query_scale_bits),
                key_case(shape.normalize),
            ],
        ),
{
    let scale = fixed_text(shape.query_scale_bits, 9);
    let query = Args::new().text(scale.as_str()).fill(
        if shape.normalize {
            NORMALIZED
        } else {
            SCALED
        },
    );
    let key = if shape.normalize {
        let one = fixed_text(ONE_BITS, 9);
        let normalized = Args::new().text(one.as_str()).fill(NORMALIZED);
        Args::new().text(normalized.as_str()).fill(KEY_CASE)
    } else {
        String::new()
    };
    assert(key@ =~= key_case(shape.normalize));
    Args::new().num(shape.heads).num(shape.head_dim).num(shape.kernel).num(shape.stride).num(
        shape.plane_stride,
    ).num(shape.rows).num(shape.batch).num(shape.kv_heads).text(query.as_str()).text(
        key.as_str(),
    ).fill(DELTA_CONV)
}

/// Positions one program of the convolution carries.
pub const DELTA_CONV_ROWS: usize = 8;

/// The positions a call batches: the largest power of two up to the cap that
/// divides the call.
pub fn delta_conv_batch(rows: usize) -> (batch: usize)
    ensures
        batch == kernels::halved_to_divide(8, rows as nat),
        1 <= batch <= 8,
        rows % batch == 0,
{
    proof {
        kernels::lemma_halved(8, rows as nat);
    }
    halved(DELTA_CONV_ROWS, rows)
}

pub const DELTA_GATES: &'static str = "@launch(256)
@autotune(H in [$0], TR in [$1])
kernel delta_gates(A: tensor<f32>[R, H], B: tensor<f32>[R, H],
                   RATE: tensor<f32>[M, H], BIAS: tensor<f32>[M, H],
                   DEC: tensor<f32>[R, H], BET: tensor<f32>[R, H]) {
  let p = program_id(0)
  var a = A[p * TR :+ TR, 0 :+ H]
  var bias = BIAS[0 :+ 1, 0 :+ H]
  var rate = RATE[0 :+ 1, 0 :+ H]
  var x = a + bias
  var zero: tile<f32>[TR, H] = 0.0
  var mag = tmax(x, -x)
  var sp = tmax(x, zero) + log(1.0 + exp(-mag))
  DEC[p * TR :+ TR, 0 :+ H] = exp(rate * sp)
  var b = B[p * TR :+ TR, 0 :+ H]
  BET[p * TR :+ TR, 0 :+ H] = 1.0 / (1.0 + exp(-b))
}
";

/// The per-head gates. The softplus is written so that it does not overflow.
pub fn delta_gates_src(heads: usize, tile_rows: usize) -> (s: String)
    ensures
        s@ == text::filled(
            DELTA_GATES@,
            seq![text::decimal(heads as nat), text::decimal(tile_rows as nat)],
        ),
{
    Args::new().num(heads).num(tile_rows).fill(DELTA_GATES)
}

} // verus!
