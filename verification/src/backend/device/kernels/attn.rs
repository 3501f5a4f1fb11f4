//! Attention kernels: the prompt's matmuls, the blocked and the split forms, and
//! the rotary embedding.

use vstd::prelude::*;

use crate::backend::Attn;
use crate::single::{self, fixed_text, inverse_root_bits};
use crate::text::{self, Args};

verus! {

broadcast use crate::text::lemma_filled_args;

/// Elements of one tile of keys.
pub const ATTN_TILE_ELEMS: usize = 4096;

/// Rows of it at most.
pub const ATTN_TILE_ROWS: usize = 16;

/// Query heads one program of the decode covers at most.
pub const ATTN_QGROUP: usize = 2;

/// Elements of one tile of the blocked form.
pub const ATTN_BLOCK_ELEMS: usize = 1024;

/// Query rows and keys of one tile of scores.
pub const ATTN_GEMM_TILE: usize = 64;

pub const ATTN_GEMM_STEP: usize = 32;

/// The same for the softmax and the mix.
pub const ATTN_SOFT_TILE: usize = 32;

pub const ATTN_MIX_STEP: usize = 16;

/// Rows one program of the key transpose carries.
pub const ATTN_KT_ROWS: usize = 8;

/// Pieces the key axis is cut into while decoding.
pub const ATTN_SPLITS: usize = 8;

/// Warps a piece is divided across.
pub const ATTN_WARP_SPLITS: usize = 8;

pub const WARP_THREADS: usize = 32;

/// A number held between two bounds.
pub open spec fn clamped(n: nat, low: nat, high: nat) -> nat {
    if n < low {
        low
    } else if n > high {
        high
    } else {
        n
    }
}

/// Rows of the cache one pass of the scan covers.
pub fn attention_tile(head_dim: usize) -> (rows: usize)
    requires
        head_dim > 0,
    ensures
        rows == clamped(4096nat / (head_dim as nat), 1, 16),
{
    let rows: usize = ATTN_TILE_ELEMS / head_dim;
    if rows < 1 {
        1
    } else if rows > ATTN_TILE_ROWS {
        ATTN_TILE_ROWS
    } else {
        rows
    }
}

/// Query heads one program of the decode carries. They read one key head
/// between them, so a program may not straddle two groups.
pub fn attention_qgroup(group: usize) -> (qgroup: usize)
    ensures
        qgroup == (if group % 2 == 0 {
            2usize
        } else {
            1
        }),
        group % qgroup == 0,
{
    if group % ATTN_QGROUP == 0 {
        ATTN_QGROUP
    } else {
        1
    }
}

/// Queries one program of the blocked form covers.
pub fn attention_block_tile(head_dim: usize) -> (rows: usize)
    requires
        head_dim > 0,
    ensures
        rows == clamped(1024nat / (head_dim as nat), 1, 16),
{
    let rows: usize = ATTN_BLOCK_ELEMS / head_dim;
    if rows < 1 {
        1
    } else if rows > 16 {
        16
    } else {
        rows
    }
}

/// Whether a call tiles evenly enough for the matmul form.
pub open spec fn gemm_fits(call: Attn) -> bool {
    &&& call.rows >= 64
    &&& call.rows % 64 == 0
    &&& call.start_pos % 64 == 0
    &&& call.head_dim % 64 == 0
    &&& (call.start_pos + call.rows) % 8 == 0
}

pub fn attn_gemm_fits(call: Attn) -> (yes: bool)
    requires
        call.start_pos + call.rows <= usize::MAX,
    ensures
        yes == gemm_fits(call),
{
    call.rows >= ATTN_GEMM_TILE && call.rows % ATTN_GEMM_TILE == 0 && call.start_pos
        % ATTN_GEMM_TILE == 0 && call.head_dim % ATTN_GEMM_TILE == 0 && call.total()
        % ATTN_KT_ROWS == 0
}

/// The reciprocal root of the head dimension, as a kernel writes it.
pub open spec fn scale_text(head_dim: usize) -> Seq<char> {
    single::fixed(single::inverse_root(head_dim as nat) as u32, 9)
}

pub const ATTN_GEMM: &'static str = "@launch(256)
@autotune(TM in [$0], TN in [$0], TK in [$1], TB in [$2], HD in [$3])
@aligned(NK = TN, KW = HD, DK = TB)
kernel attn_kt(K: tensor<f16>[NK, KW], T: tensor<f32>[DK, NK]) {
  let p = program_id(0)
  var t = K[p * TB :+ TB, 0 :+ HD]
  T[0 :+ HD, p * TB :+ TB] = f32(transpose(t))
}

@launch(256)
@autotune(TM in [$0], TN in [$0], TK in [$1], HD in [$3])
@aligned(R = TM, NK = TN, DQ = TK, DK = TK)
kernel attn_scores(Q: tensor<f32>[R, DQ], KT: tensor<f32>[DK, NK], S: tensor<f32>[R, NK]) {
  let pm = program_id(0)
  let pn = program_id(1)
  if pn * TN < NK - R + pm * TM + TM {
    var acc: tile<f32>[TM, TN] = 0.0
    for kt in range(0, DQ, TK) {
      var a = Q[pm * TM :+ TM, kt :+ TK]
      var b = KT[kt :+ TK, pn * TN :+ TN]
      acc += dot(a, b)
    }
    S[pm * TM :+ TM, pn * TN :+ TN] = acc * $4
  }
}

@launch(256)
@autotune(TM in [$5], TN in [$5])
@aligned(R = TM, NK = TN)
kernel attn_softmax(S: tensor<f32>[R, NK], L: tensor<f32>[R, 1]) {
  let p = program_id(0)
  let diag = NK - R + p * TM
  var m: tile<f32>[TM, 1] = -300000000.0
  for j in range(0, diag, TN) {
    m = tmax(m, rowmax(S[p * TM :+ TM, j :+ TN]))
  }
  var d = S[p * TM :+ TM, diag :+ TN]
  m = tmax(m, rowmax(d))

  var l: tile<f32>[TM, 1] = 0.0
  for j in range(0, diag, TN) {
    var e = exp(S[p * TM :+ TM, j :+ TN] - m)
    l = l + rowsum(e)
    S[p * TM :+ TM, j :+ TN] = e
  }
  var de = tril(exp(d - m))
  l = l + rowsum(de)
  S[p * TM :+ TM, diag :+ TN] = de
  L[p * TM :+ TM, 0 :+ 1] = l
}

@launch(256)
@autotune(TM in [$5], TN in [$0], TK in [$6])
@aligned(R = TM, DV = TN, NK = TK)
kernel attn_mix(P: tensor<f32>[R, NK], V: tensor<f32>[NK, DV], L: tensor<f32>[R, 1],
                O: tensor<f32>[R, DV]) {
  let pm = program_id(0)
  let pn = program_id(1)
  var acc: tile<f32>[TM, TN] = 0.0
  for kt in range(0, NK - R + pm * TM + TM, TK) {
    var a = P[pm * TM :+ TM, kt :+ TK]
    var b = V[kt :+ TK, pn * TN :+ TN]
    acc += dot(a, b)
  }
  O[pm * TM :+ TM, pn * TN :+ TN] = acc / L[pm * TM :+ TM, 0 :+ 1]
}
";

/// Causal attention for a prompt as two matmuls with the scores in between. All
/// its kernels skip the blocks past the diagonal.
pub fn attn_gemm_src(head_dim: usize, tile: usize) -> (s: String)
    ensures
        s@ == text::filled(
            ATTN_GEMM@,
            seq![
                text::decimal(tile as nat),
                text::decimal(ATTN_GEMM_STEP as nat),
                text::decimal(ATTN_KT_ROWS as nat),
                text::decimal(head_dim as nat),
                scale_text(head_dim),
                text::decimal(ATTN_SOFT_TILE as nat),
                text::decimal(ATTN_MIX_STEP as nat),
            ],
        ),
{
    let scale = fixed_text(inverse_root_bits(head_dim), 9);
    Args::new()
        .num(tile).num(ATTN_GEMM_STEP).num(ATTN_KT_ROWS).num(head_dim).text(scale.as_str())
        .num(ATTN_SOFT_TILE).num(ATTN_MIX_STEP).fill(ATTN_GEMM)
}

pub const ATTENTION_BLOCK: &'static str = "@launch(256)
@autotune(NH in [$0], G in [$1], D in [$2], BR in [$3])
kernel attention_block(Q: tensor<f32>[R, QW], K: tensor<f16>[NK, KW],
                       V: tensor<f16>[NK, KW], O: tensor<f32>[R, QW]) {
  let qt = program_id(0)
  let h = program_id(1)
  let qcol = h * D
  let kcol = h / G * D
  var q = Q[qt * BR :+ BR, qcol :+ D]

  var acc: tile<f32>[BR, D] = 0.0
  var m: tile<f32>[BR, 1] = -300000000.0
  var l: tile<f32>[BR, 1] = 0.0

  let base = NK - R + qt * BR
  for kt in range(0, base, BR) {
    let k = K[kt :+ BR, kcol :+ D]
    let v = V[kt :+ BR, kcol :+ D]
    var s: tile<f32>[BR, BR] = dot_t(q, k)
    s = s * $4
    var mn: tile<f32>[BR, 1] = rowmax(s)
    mn = tmax(m, mn)
    s = exp(s - mn)
    var corr: tile<f32>[BR, 1] = exp(m - mn)
    l = l * corr + rowsum(s)
    acc = acc * corr + dot(s, v)
    m = mn
  }

  let dk = K[base :+ BR, kcol :+ D]
  let dv = V[base :+ BR, kcol :+ D]
  var ds: tile<f32>[BR, BR] = dot_t(q, dk)
  ds = ds * $4
  var dm: tile<f32>[BR, 1] = rowmax(ds)
  dm = tmax(m, dm)
  ds = exp(ds - dm)
  ds = tril(ds)
  var dcorr: tile<f32>[BR, 1] = exp(m - dm)
  l = l * dcorr + rowsum(ds)
  acc = acc * dcorr + dot(ds, dv)

  O[qt * BR :+ BR, qcol :+ D] = acc / l
}
";

/// Causal attention over a block of queries at once: the key tile is the query
/// block's size, which puts the causal mask on one tile.
pub fn attention_block_src(n_head: usize, group: usize, head_dim: usize, tile: usize) -> (s: String)
    ensures
        s@ == text::filled(
            ATTENTION_BLOCK@,
            seq![
                text::decimal(n_head as nat),
                text::decimal(group as nat),
                text::decimal(head_dim as nat),
                text::decimal(tile as nat),
                scale_text(head_dim),
            ],
        ),
{
    let scale = fixed_text(inverse_root_bits(head_dim), 9);
    Args::new()
        .num(n_head).num(group).num(head_dim).num(tile).text(scale.as_str()).fill(ATTENTION_BLOCK)
}

pub const ROPE: &'static str = "@launch(256)
@autotune(H in [$0])
kernel rope(X: tensor<f32>[R, D], T: tensor<f32>[P, RD]) {
  let r = program_id(0)
  let p = r / H
  var a = X[r :+ 1, 0 :+ $1]
  var b = X[r :+ 1, $1 :+ $1]
  var c = T[p :+ 1, 0 :+ $1]
  var s = T[p :+ 1, $1 :+ $1]
  X[r :+ 1, 0 :+ $1] = a * c - b * s
  X[r :+ 1, $1 :+ $1] = a * s + b * c
}
";

/// The rotary embedding in place, both halves read before either is stored.
pub fn rope_src(heads: usize, half: usize) -> (s: String)
    ensures
        s@ == text::filled(ROPE@, seq![text::decimal(heads as nat), text::decimal(half as nat)]),
{
    Args::new().num(heads).num(half).fill(ROPE)
}

pub const COMBINE: &'static str = "$0  var mv$1 = wm[$1 :+ 1, 0 :+ WCT]
$0  var mx$1: tile<f32>[1, 1] = rowmax(mv$1)
$0  var c$1: tile<f32>[1, WCT] = exp(mv$1 - mx$1)
$0  var ll$1: tile<f32>[1, 1] = rowsum(c$1 * wl[$1 :+ 1, 0 :+ WCT])
$0  var ac$1: tile<f32>[1, D] = dot(c$1, wacc[$1 * WCT :+ WCT, 0 :+ D])
$0  P[s * NH + h + $1 :+ 1, 0 :+ D] = ac$1
$0  ML[h + $1 :+ 1, s :+ 1] = mx$1
$0  ML[h + $1 :+ 1, S + s :+ 1] = ll$1
";

/// The merge of the warps' partials, one query row at a time.
pub open spec fn combined(qgroup: nat, indent: Seq<char>) -> Seq<char>
    decreases qgroup,
{
    if qgroup == 0 {
        Seq::empty()
    } else {
        combined((qgroup - 1) as nat, indent) + text::filled(
            COMBINE@,
            seq![indent, text::decimal((qgroup - 1) as nat)],
        )
    }
}

fn attention_combine(qgroup: usize, indent: &str) -> (s: String)
    ensures
        s@ == combined(qgroup as nat, indent@),
{
    let mut s = String::new();
    let mut i: usize = 0;
    assert(s@ =~= Seq::empty());
    while i < qgroup
        invariant
            i <= qgroup,
            s@ == combined(i as nat, indent@),
        decreases qgroup - i,
    {
        s.append(Args::new().text(indent).num(i).fill(COMBINE).as_str());
        i = i + 1;
    }
    s
}

pub const ATTENTION_SPLIT: &'static str = "@launch($0)
@autotune(NH in [$1], G in [$2], QG in [$3], D in [$4], S in [$5],
          WCT in [$6], QW in [$7])
@aligned(KW = D)
kernel attention_split(Q: tensor<f32>[R, D], K: tensor<f16>[NK, KW],
                       V: tensor<f16>[NK, KW],
                       P: tensor<f32>[SH, D], ML: tensor<f32>[NH, MW]) {
  let g = program_id(0)
  let s = program_id(1)
  let h = g * QG
  let col = h / G * D
  var q = Q[h :+ QG, 0 :+ D]

  let per = (NK + S - 1) / S
  var lo = s * per
  if lo > NK {
    lo = NK
  }
  var hi = lo + per
  if hi > NK {
    hi = NK
  }

  var wm: tile<f32>[QG, WCT] = -300000000.0
  var wl: tile<f32>[QG, WCT] = 0.0
  var wacc: tile<f32>[QW, D] = 0.0
  warp_partial(q, K, V, lo, hi, col, wm, wl, wacc, $8)
$9}

@launch(256)
@autotune(NH in [$1], D in [$4], S in [$5])
kernel attention_merge(P: tensor<f32>[S, PW], ML: tensor<f32>[NH, MW],
                       O: tensor<f32>[R, D]) {
  let h = program_id(0)
  var mv = ML[h :+ 1, 0 :+ S]
  var m: tile<f32>[1, 1] = rowmax(mv)
  var c: tile<f32>[1, S] = exp(mv - m)
  var l: tile<f32>[1, 1] = rowsum(c * ML[h :+ 1, S :+ S])
  var acc: tile<f32>[1, D] = dot(c, P[0 :+ S, h * D :+ D])
  O[h :+ 1, 0 :+ D] = acc / l
}
";

/// Attention over the whole cache, the key axis split across the grid and each
/// split again across its warps, and the merge of the splits.
pub fn attention_split_src(
    n_head: usize,
    group: usize,
    head_dim: usize,
    qgroup: usize,
    splits: usize,
    wct: usize,
) -> (s: String)
    requires
        qgroup * wct <= usize::MAX,
        wct * 32 <= usize::MAX,
    ensures
        s@ == text::filled(
            ATTENTION_SPLIT@,
            seq![
                text::decimal((wct * 32) as nat),
                text::decimal(n_head as nat),
                text::decimal(group as nat),
                text::decimal(qgroup as nat),
                text::decimal(head_dim as nat),
                text::decimal(splits as nat),
                text::decimal(wct as nat),
                text::decimal((qgroup * wct) as nat),
                scale_text(head_dim),
                combined(qgroup as nat, ""@),
            ],
        ),
{
    let scale = fixed_text(inverse_root_bits(head_dim), 9);
    let qw: usize = qgroup * wct;
    let combine = attention_combine(qgroup, "");
    let cta: usize = wct * WARP_THREADS;
    Args::new()
        .num(cta).num(n_head).num(group).num(qgroup).num(head_dim).num(splits).num(wct).num(qw)
        .text(scale.as_str()).text(combine.as_str()).fill(ATTENTION_SPLIT)
}

pub const ATTENTION_PERSIST: &'static str = "@launch(256)
@persistent
@dynshared
@autotune(NH in [$0], G in [$1], QG in [$2], D in [$3],
          S in [$4], WCT in [$5], QW in [$6], U1 in [$7], IT1 in [$8],
          IT2 in [$9], BLOCKS in [$a])
@aligned(KW = D)
kernel attention_persist(Q: tensor<f32>[R, D], K: tensor<f16>[NK, KW],
                       V: tensor<f16>[NK, KW],
                       P: tensor<f32>[SH, D], PM: tensor<f32>[S, PW],
                       ML: tensor<f32>[NH, MW], O: tensor<f32>[R, D],
                       BAR: tensor<i32>[2, 1]) {
  let pid = program_id(0)

  for i1 in range(0, IT1) {
    let u = pid + i1 * BLOCKS
    if u < U1 {
      let g = u / S
      let s = u % S
      let h = g * QG
      let col = h / G * D
      var q = Q[h :+ QG, 0 :+ D]

      let per = (NK + S - 1) / S
      var lo = s * per
      if lo > NK {
        lo = NK
      }
      var hi = lo + per
      if hi > NK {
        hi = NK
      }

      var wm: tile<f32>[QG, WCT] = -300000000.0
      var wl: tile<f32>[QG, WCT] = 0.0
      var wacc: tile<f32>[QW, D] = 0.0
      warp_partial(q, K, V, lo, hi, col, wm, wl, wacc, $b)
$c    }
  }

  grid_barrier(BAR)

  for i2 in range(0, IT2) {
    let u2 = pid + i2 * BLOCKS
    if u2 < NH {
      var mv = ML[u2 :+ 1, 0 :+ S]
      var mm: tile<f32>[1, 1] = rowmax(mv)
      var c: tile<f32>[1, S] = exp(mv - mm)
      var ll: tile<f32>[1, 1] = rowsum(c * ML[u2 :+ 1, S :+ S])
      var oacc: tile<f32>[1, D] = dot(c, PM[0 :+ S, u2 * D :+ D])
      O[u2 :+ 1, 0 :+ D] = oacc / ll
    }
  }
}
";

/// The two kernels of the split as one over a resident grid, a grid-wide barrier
/// between them.
pub fn attention_persist_src(
    n_head: usize,
    group: usize,
    head_dim: usize,
    qgroup: usize,
    splits: usize,
    wct: usize,
    blocks: u32,
) -> (s: String)
    requires
        qgroup > 0,
        blocks > 0,
        qgroup * wct <= usize::MAX,
        n_head / qgroup * splits <= u32::MAX,
        n_head <= u32::MAX,
    ensures
        s@ == text::filled(
            ATTENTION_PERSIST@,
            seq![
                text::decimal(n_head as nat),
                text::decimal(group as nat),
                text::decimal(qgroup as nat),
                text::decimal(head_dim as nat),
                text::decimal(splits as nat),
                text::decimal(wct as nat),
                text::decimal((qgroup * wct) as nat),
                text::decimal((n_head / qgroup * splits) as nat),
                text::decimal(turns((n_head / qgroup * splits) as nat, blocks as nat)),
                text::decimal(turns(n_head as nat, blocks as nat)),
                text::decimal(blocks as nat),
                scale_text(head_dim),
                combined(qgroup as nat, "    "@),
            ],
        ),
{
    let scale = fixed_text(inverse_root_bits(head_dim), 9);
    let groups: usize = n_head / qgroup;
    let units1: usize = groups * splits;
    let it1: usize = rounds(units1, blocks as usize);
    let it2: usize = rounds(n_head, blocks as usize);
    let qw: usize = qgroup * wct;
    let combine = attention_combine(qgroup, "    ");
    Args::new()
        .num(n_head).num(group).num(qgroup).num(head_dim).num(splits).num(wct).num(qw).num(units1)
        .num(it1).num(it2).num(blocks as usize).text(scale.as_str()).text(combine.as_str())
        .fill(ATTENTION_PERSIST)
}

/// Turns a grid of blocks takes to go through its units.
pub open spec fn turns(units: nat, blocks: nat) -> nat {
    ((units + blocks - 1) / (blocks as int)) as nat
}

fn rounds(units: usize, blocks: usize) -> (n: usize)
    requires
        blocks > 0,
    ensures
        n == turns(units as nat, blocks as nat),
{
    proof {
        vstd::arithmetic::div_mod::lemma_fundamental_div_mod(units as int, blocks as int);
        let q = units as int / blocks as int;
        let r = units as int % blocks as int;
        let b = blocks as int;
        vstd::arithmetic::div_mod::lemma_div_pos_is_pos(units as int, b);
        assert(q * b == b * q) by (nonlinear_arith);
        if r == 0 {
            assert(units + b - 1 == q * b + (b - 1));
            vstd::arithmetic::div_mod::lemma_fundamental_div_mod_converse(
                units + b - 1,
                b,
                q,
                b - 1,
            );
        } else {
            assert(units + b - 1 == (q + 1) * b + (r - 1)) by (nonlinear_arith)
                requires
                    units == b * q + r,
            ;
            assert(q <= units - 1) by (nonlinear_arith)
                requires
                    units == b * q + r,
                    b >= 1,
                    r >= 1,
                    q >= 0,
            ;
            vstd::arithmetic::div_mod::lemma_fundamental_div_mod_converse(
                units + b - 1,
                b,
                q + 1,
                r - 1,
            );
        }
    }
    if units % blocks == 0 {
        units / blocks
    } else {
        units / blocks + 1
    }
}

pub const ATTENTION: &'static str = "@launch(256)
@autotune(NH in [$0], G in [$1], D in [$2], BC in [$3])
@aligned(KW = D)
kernel attention(Q: tensor<f32>[R, D], K: tensor<f16>[NK, KW],
                 V: tensor<f16>[NK, KW], O: tensor<f32>[R, D]) {
  let t = program_id(0)
  let h = program_id(1)
  let col = h / G * D
  let row = t * NH + h
  var q = Q[row :+ 1, 0 :+ D]

  var acc: tile<f32>[1, D] = 0.0
  var m: tile<f32>[1, 1] = -300000000.0
  var l: tile<f32>[1, 1] = 0.0

  let visible = NK - R / NH + t + 1
  let full = visible / BC * BC
  for kt in range(0, full, BC) {
    var k = K[kt :+ BC, col :+ D]
    var v = V[kt :+ BC, col :+ D]
    var s: tile<f32>[1, BC] = dot_t(q, k)
    s = s * $4
    var mn: tile<f32>[1, 1] = rowmax(s)
    mn = tmax(m, mn)
    s = exp(s - mn)
    var corr: tile<f32>[1, 1] = exp(m - mn)
    l = l * corr + rowsum(s)
    acc = acc * corr + dot(s, v)
    m = mn
  }
  for j in range(full, visible, 1) {
    var k1 = K[j :+ 1, col :+ D]
    var v1 = V[j :+ 1, col :+ D]
    var s1: tile<f32>[1, 1] = dot_t(q, k1)
    s1 = s1 * $4
    var mn: tile<f32>[1, 1] = tmax(m, s1)
    var p: tile<f32>[1, 1] = exp(s1 - mn)
    var corr: tile<f32>[1, 1] = exp(m - mn)
    l = l * corr + p
    acc = acc * corr + p * v1
    m = mn
  }
  O[row :+ 1, 0 :+ D] = acc / l
}
";

/// Attention of one query row a program, the cache in tiles and then what is left
/// of it a key at a time.
pub fn attention_src(n_head: usize, group: usize, head_dim: usize, tile: usize) -> (s: String)
    ensures
        s@ == text::filled(
            ATTENTION@,
            seq![
                text::decimal(n_head as nat),
                text::decimal(group as nat),
                text::decimal(head_dim as nat),
                text::decimal(tile as nat),
                scale_text(head_dim),
            ],
        ),
{
    let scale = fixed_text(inverse_root_bits(head_dim), 9);
    Args::new().num(n_head).num(group).num(head_dim).num(tile).text(scale.as_str()).fill(ATTENTION)
}

} // verus!
