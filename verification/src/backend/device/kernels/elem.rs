//! Pointwise kernels, strided copies and the SwiGLU over planes.

use vstd::prelude::*;

use crate::text::{self, Args};

verus! {

broadcast use crate::text::lemma_filled_args;

/// Elements per block of a pointwise kernel.
pub const ELEM_TILE: usize = 128;

/// Elements a program takes when there are enough of them.
pub const ELEM_TILE_WIDE: usize = 1024;

/// Below this the narrow tile still wins.
pub const WIDE_FLOOR: usize = 192 * ELEM_TILE_WIDE;

/// Bytes of shared memory a kernel may declare statically.
pub const STATIC_SHARED_LIMIT: usize = 48 * 1024;

/// Pointwise kernels over a flat buffer viewed as one row.
pub const POINTWISE_SRC: &'static str = "\
@launch(256)
@autotune(TILE in [1024])
kernel add_into(A: tensor<f32>[M, N], B: tensor<f32>[M, N]) {
  let p = program_id(0)
  var a = A[0 :+ 1, p * TILE :+ TILE]
  var b = B[0 :+ 1, p * TILE :+ TILE]
  A[0 :+ 1, p * TILE :+ TILE] = a + b
}

@launch(256)
@autotune(TILE in [1024])
kernel swiglu(G: tensor<f32>[M, N], U: tensor<f32>[M, N], O: tensor<f32>[M, N]) {
  let p = program_id(0)
  var g = G[0 :+ 1, p * TILE :+ TILE]
  var u = U[0 :+ 1, p * TILE :+ TILE]
  var s = g / (1.0 + exp(-g))
  O[0 :+ 1, p * TILE :+ TILE] = s * u
}

@launch(256)
@autotune(TILE in [1024])
kernel copy(S: tensor<f32>[M, N], D: tensor<f32>[M, N]) {
  let p = program_id(0)
  D[0 :+ 1, p * TILE :+ TILE] = S[0 :+ 1, p * TILE :+ TILE]
}

@launch(256)
@autotune(TILE in [1024])
kernel gate_into(X: tensor<f32>[M, N], G: tensor<f32>[M, N]) {
  let p = program_id(0)
  var x = X[0 :+ 1, p * TILE :+ TILE]
  var g = G[0 :+ 1, p * TILE :+ TILE]
  X[0 :+ 1, p * TILE :+ TILE] = x / (1.0 + exp(-g))
}
";

/// What a strided copy moves between. The caches are half precision and
/// everything else is single, so a copy into or out of one converts.
#[derive(Clone, Copy, PartialEq, Eq, Structural, Debug, Hash)]
pub enum Strided {
    /// Single precision either side.
    Dense,
    /// Narrowing: keys and values landing in a cache.
    Store,
    /// Widening: a cached head gathered.
    Load,
}

pub open spec fn strided_name(kind: Strided) -> Seq<char> {
    match kind {
        Strided::Dense => "copy_2d"@,
        Strided::Store => "store_2d"@,
        Strided::Load => "load_2d"@,
    }
}

pub open spec fn source_type(kind: Strided) -> Seq<char> {
    if kind == Strided::Load {
        "f16"@
    } else {
        "f32"@
    }
}

pub open spec fn dest_type(kind: Strided) -> Seq<char> {
    if kind == Strided::Store {
        "f16"@
    } else {
        "f32"@
    }
}

pub const READ: &'static str = "S[r :+ 1, 0 :+ W]";

pub const CONVERTED: &'static str = "$0($1)";

/// The value a copy stores: what it read, converted where the types differ.
pub open spec fn stored_value(kind: Strided) -> Seq<char> {
    if kind == Strided::Dense {
        READ@
    } else {
        text::filled(CONVERTED@, seq![dest_type(kind), READ@])
    }
}

impl Strided {
    pub fn kernel(self) -> (name: &'static str)
        ensures
            name@ == strided_name(self),
    {
        match self {
            Strided::Dense => "copy_2d",
            Strided::Store => "store_2d",
            Strided::Load => "load_2d",
        }
    }

    /// Source type, destination type, and the conversion between them.
    pub fn types(self) -> (t: (&'static str, &'static str, &'static str))
        ensures
            t.0@ == source_type(self),
            t.1@ == dest_type(self),
            t.2@ == (if self == Strided::Dense {
                ""@
            } else {
                dest_type(self)
            }),
    {
        match self {
            Strided::Dense => ("f32", "f32", ""),
            Strided::Store => ("f32", "f16", "f16"),
            Strided::Load => ("f16", "f32", "f32"),
        }
    }
}

pub const COPY_CLAIM: &'static str = "@aligned(SW = W, DW = W)";

pub const PAIR_CLAIM: &'static str = "@aligned(SW0 = W, DW0 = W, SW1 = W, DW1 = W)";

pub const COPY_2D: &'static str = "@launch(256)
@autotune(W in [$0])
$1
kernel $2(S: tensor<$3>[R, SW], D: tensor<$4>[R, DW]) {
  let r = program_id(0)
  D[r :+ 1, 0 :+ W] = $5
}
";

/// A strided block copy. The promise is that both pitches are whole multiples of
/// the width.
pub fn copy_2d_src(kind: Strided, width: usize, aligned: bool) -> (s: String)
    ensures
        s@ == text::filled(
            COPY_2D@,
            seq![
                text::decimal(width as nat),
                if aligned { COPY_CLAIM@ } else { ""@ },
                strided_name(kind),
                source_type(kind),
                dest_type(kind),
                stored_value(kind),
            ],
        ),
{
    let claim = if aligned {
        COPY_CLAIM
    } else {
        ""
    };
    let (from, to, convert) = kind.types();
    let value = if kind == Strided::Dense {
        READ.to_owned()
    } else {
        Args::new().text(convert).text(READ).fill(CONVERTED)
    };
    Args::new()
        .num(width).text(claim).text(kind.kernel()).text(from).text(to).text(value.as_str())
        .fill(COPY_2D)
}

pub const STORE_2D_PAIR: &'static str = "@launch(256)
@autotune(W in [$0])
$1
kernel store_2d_pair(S0: tensor<f32>[R, SW0], S1: tensor<f32>[R, SW1], D0: tensor<f16>[R, DW0], D1: tensor<f16>[R, DW1]) {
  let r = program_id(0)
  D0[r :+ 1, 0 :+ W] = f16(S0[r :+ 1, 0 :+ W])
  D1[r :+ 1, 0 :+ W] = f16(S1[r :+ 1, 0 :+ W])
}
";

/// Two narrowing copies in one launch: a key and a value at the same row.
pub fn store_2d_pair_src(width: usize, aligned: bool) -> (s: String)
    ensures
        s@ == text::filled(
            STORE_2D_PAIR@,
            seq![text::decimal(width as nat), if aligned { PAIR_CLAIM@ } else { ""@ }],
        ),
{
    let claim = if aligned {
        PAIR_CLAIM
    } else {
        ""
    };
    Args::new().num(width).text(claim).fill(STORE_2D_PAIR)
}

pub const SWIGLU_2D: &'static str = "@launch(256)
@autotune(T in [$0])
@aligned(GW = T, UW = T, OW = T)
kernel swiglu_2d(G: tensor<f32>[R, GW], U: tensor<f32>[R, UW], O: tensor<f32>[R, OW]) {
  let r = program_id(0)
  let c = program_id(1) * T
  var g = G[r :+ 1, c :+ T]
  O[r :+ 1, c :+ T] = (g / (1.0 + exp(-g))) * U[r :+ 1, c :+ T]
}
";

/// A SwiGLU whose operands are planes of a wider buffer, a column tile at a time.
pub fn swiglu_2d_src(tile: usize) -> (s: String)
    ensures
        s@ == text::filled(SWIGLU_2D@, seq![text::decimal(tile as nat)]),
{
    Args::new().num(tile).fill(SWIGLU_2D)
}

/// Columns one program of the strided SwiGLU covers: the widest tile that
/// divides the row and fits three times in shared memory.
pub open spec fn is_swiglu_tile(width: nat, tile: nat) -> bool {
    if width == 0 {
        tile == 0
    } else {
        &&& 1 <= tile <= 4096
        &&& width % tile == 0
        &&& forall|t: nat| tile < t <= 4096 && t <= width ==> #[trigger] (width % t) != 0
    }
}

pub fn swiglu_2d_tile(width: usize) -> (tile: usize)
    ensures
        is_swiglu_tile(width as nat, tile as nat),
{
    let fits: usize = STATIC_SHARED_LIMIT / 12;
    assert(fits == 4096);
    let mut tile: usize = if width < fits {
        width
    } else {
        fits
    };
    if width == 0 {
        return width;
    }
    while width % tile != 0
        invariant
            1 <= tile <= 4096,
            tile <= width,
            forall|t: nat| tile < t <= 4096 && t <= width ==> #[trigger] (width as nat % t) != 0,
        decreases tile,
    {
        tile = tile - 1;
    }
    tile
}

} // verus!
