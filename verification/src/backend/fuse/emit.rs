//! Writing the fused kernel source of a chain.
//!
//! [`Draft`] is the kernel as far as it is written and `Emit` the storage
//! behind one. Every step of the emission is a function from draft to draft,
//! and [`planned`] is the plan those steps arrive at.

use vstd::prelude::*;

use super::nests::{self, Judgement};
use super::{
    Bound, ChainError, ChainKey, Kind, NORM_ROWS, OUT_TILE, Part, Plan, RAW_UNIT, Scratch, Shape,
    Slot, Stage, Val,
};
use crate::backend::Q8_BLOCK;
use crate::quant::{self, Quant};
use crate::single::{self, fixed_text};
use crate::text::{self, Args, decimal_text};

verus! {

broadcast use crate::text::lemma_filled_args;

/// The shape a value is seen under.
///
/// A normalization writes rows of a Q8_0 block and a contraction reads one
/// flat row, and both are the same bytes.
#[derive(Clone, Copy, PartialEq, Eq, Structural, Debug)]
pub enum Form {
    Folded,
    Flat,
    /// `[len / width, width]`, which is what the convolution walks.
    Grid(usize),
}

/// A tensor or tile of the kernel.
#[derive(Clone, Copy, PartialEq, Eq, Structural, Debug)]
pub enum Name {
    Given(Val, Form),
    WeightQs(Val),
    WeightScales(Val),
    RawBytes(Val),
    RawD(Val),
    /// A published activation's bytes, folded or flat, then its scales.
    ScratchQs(Val, bool),
    ScratchScales(Val, bool),
    /// The same for one held in shared memory.
    TileQs(Val, bool),
    TileScales(Val, bool),
    Barrier,
}

/// A compiled-in constant.
#[derive(Clone, Copy, PartialEq, Eq, Structural, Debug)]
pub enum Tune {
    Blocks,
    /// Rows of a normalization, by its stage, and rows of one sweep.
    Rows(usize),
    Sweep,
    /// Turns of a nest's loop and its units, by nest.
    Turns(usize),
    Units(usize),
    /// First weight row and first output of a projection, by stage.
    From(usize),
    To(usize),
    /// Outputs a unit takes of an accumulating contraction.
    OutTile,
    RawTile,
    /// Heads the gates cover, by stage.
    GateHeads(usize),
    /// Taps, head width, heads, plane stride, head stride and first plane of a
    /// convolution, by stage.
    Taps(usize),
    HeadDim(usize),
    Heads(usize),
    PlaneStride(usize),
    HeadStride(usize),
    PlaneBase(usize),
}

/// One tensor parameter: its name, what is bound to it and its extents.
#[derive(Clone, Copy, PartialEq, Eq, Structural, Debug)]
pub struct Param {
    pub name: Name,
    pub bound: Bound,
    pub rows: usize,
    pub cols: usize,
}

/// The two tensors of a quantized value under one shape.
#[derive(Clone, Copy, PartialEq, Eq, Structural, Debug)]
pub struct Pair {
    pub val: Val,
    pub form: Form,
    pub qs: Name,
    pub scales: Name,
}

pub open spec fn name_text(name: Name) -> Seq<char> {
    match name {
        Name::Given(val, Form::Folded) => "X"@ + text::decimal(val.0 as nat) + "F"@,
        Name::Given(val, Form::Flat) => "X"@ + text::decimal(val.0 as nat),
        Name::Given(val, Form::Grid(_)) => "X"@ + text::decimal(val.0 as nat) + "G"@,
        Name::WeightQs(val) => "Wq"@ + text::decimal(val.0 as nat),
        Name::WeightScales(val) => "Ws"@ + text::decimal(val.0 as nat),
        Name::RawBytes(val) => "Rq"@ + text::decimal(val.0 as nat),
        Name::RawD(val) => "Rd"@ + text::decimal(val.0 as nat),
        Name::ScratchQs(val, true) => "Vq"@ + text::decimal(val.0 as nat) + "F"@,
        Name::ScratchQs(val, false) => "Vq"@ + text::decimal(val.0 as nat),
        Name::ScratchScales(val, true) => "Vs"@ + text::decimal(val.0 as nat) + "F"@,
        Name::ScratchScales(val, false) => "Vs"@ + text::decimal(val.0 as nat),
        Name::TileQs(val, true) => "Aq"@ + text::decimal(val.0 as nat),
        Name::TileQs(val, false) => "Aq"@ + text::decimal(val.0 as nat) + "L"@,
        Name::TileScales(val, true) => "As"@ + text::decimal(val.0 as nat),
        Name::TileScales(val, false) => "As"@ + text::decimal(val.0 as nat) + "L"@,
        Name::Barrier => "BAR"@,
    }
}

/// The element type a parameter is declared with.
pub open spec fn type_text(name: Name) -> Seq<char> {
    match name {
        Name::WeightQs(_) => "i8"@,
        Name::RawBytes(_) => "i8"@,
        Name::ScratchQs(_, _) => "i8"@,
        Name::TileQs(_, _) => "i8"@,
        Name::RawD(_) => "f16"@,
        Name::Barrier => "i32"@,
        _ => "f32"@,
    }
}

pub open spec fn tune_text(tune: Tune) -> Seq<char> {
    match tune {
        Tune::Blocks => "BLOCKS"@,
        Tune::Rows(s) => "NB"@ + text::decimal(s as nat),
        Tune::Sweep => "SB"@,
        Tune::Turns(n) => "IT"@ + text::decimal(n as nat),
        Tune::Units(n) => "UN"@ + text::decimal(n as nat),
        Tune::From(s) => "OF"@ + text::decimal(s as nat),
        Tune::To(s) => "DO"@ + text::decimal(s as nat),
        Tune::OutTile => "TN"@,
        Tune::RawTile => "RT"@,
        Tune::GateHeads(s) => "GH"@ + text::decimal(s as nat),
        Tune::Taps(s) => "KS"@ + text::decimal(s as nat),
        Tune::HeadDim(s) => "HD"@ + text::decimal(s as nat),
        Tune::Heads(s) => "NH"@ + text::decimal(s as nat),
        Tune::PlaneStride(s) => "PS"@ + text::decimal(s as nat),
        Tune::HeadStride(s) => "ST"@ + text::decimal(s as nat),
        Tune::PlaneBase(s) => "PB"@ + text::decimal(s as nat),
    }
}

/// `tag` followed by a number.
fn numbered(tag: &str, n: usize) -> (s: String)
    ensures
        s@ == tag@ + text::decimal(n as nat),
{
    let mut s = tag.to_owned();
    s.append(decimal_text(n as u128).as_str());
    s
}

/// `tag`, a number and a suffix.
fn suffixed(tag: &str, n: usize, suffix: &str) -> (s: String)
    ensures
        s@ == tag@ + text::decimal(n as nat) + suffix@,
{
    let mut s = numbered(tag, n);
    s.append(suffix);
    s
}

fn name_string(name: Name) -> (s: String)
    ensures
        s@ == name_text(name),
{
    match name {
        Name::Given(val, Form::Folded) => suffixed("X", val.0, "F"),
        Name::Given(val, Form::Flat) => numbered("X", val.0),
        Name::Given(val, Form::Grid(_)) => suffixed("X", val.0, "G"),
        Name::WeightQs(val) => numbered("Wq", val.0),
        Name::WeightScales(val) => numbered("Ws", val.0),
        Name::RawBytes(val) => numbered("Rq", val.0),
        Name::RawD(val) => numbered("Rd", val.0),
        Name::ScratchQs(val, true) => suffixed("Vq", val.0, "F"),
        Name::ScratchQs(val, false) => numbered("Vq", val.0),
        Name::ScratchScales(val, true) => suffixed("Vs", val.0, "F"),
        Name::ScratchScales(val, false) => numbered("Vs", val.0),
        Name::TileQs(val, true) => numbered("Aq", val.0),
        Name::TileQs(val, false) => suffixed("Aq", val.0, "L"),
        Name::TileScales(val, true) => numbered("As", val.0),
        Name::TileScales(val, false) => suffixed("As", val.0, "L"),
        Name::Barrier => "BAR".to_owned(),
    }
}

fn type_str(name: Name) -> (s: &'static str)
    ensures
        s@ == type_text(name),
{
    match name {
        Name::WeightQs(_) => "i8",
        Name::RawBytes(_) => "i8",
        Name::ScratchQs(_, _) => "i8",
        Name::TileQs(_, _) => "i8",
        Name::RawD(_) => "f16",
        Name::Barrier => "i32",
        _ => "f32",
    }
}

fn tune_string(tune: Tune) -> (s: String)
    ensures
        s@ == tune_text(tune),
{
    match tune {
        Tune::Blocks => "BLOCKS".to_owned(),
        Tune::Rows(s) => numbered("NB", s),
        Tune::Sweep => "SB".to_owned(),
        Tune::Turns(n) => numbered("IT", n),
        Tune::Units(n) => numbered("UN", n),
        Tune::From(s) => numbered("OF", s),
        Tune::To(s) => numbered("DO", s),
        Tune::OutTile => "TN".to_owned(),
        Tune::RawTile => "RT".to_owned(),
        Tune::GateHeads(s) => numbered("GH", s),
        Tune::Taps(s) => numbered("KS", s),
        Tune::HeadDim(s) => numbered("HD", s),
        Tune::Heads(s) => numbered("NH", s),
        Tune::PlaneStride(s) => numbered("PS", s),
        Tune::HeadStride(s) => numbered("ST", s),
        Tune::PlaneBase(s) => numbered("PB", s),
    }
}

/// The intrinsic that decodes a raw format inside a fused kernel.
pub open spec fn fused_decode(quant: Quant) -> Option<Seq<char>> {
    match quant {
        Quant::Q4_K => Some("q4k"@),
        Quant::Q5_K => Some("q5k"@),
        Quant::Q6_K => Some("q6k"@),
        _ => None,
    }
}

/// The intrinsic that decodes a raw format inside a fused kernel.
pub fn fused_decode_name(quant: Quant) -> (name: Option<&'static str>)
    ensures
        name is None <==> fused_decode(quant) is None,
        name is Some ==> fused_decode(quant) == Some(name->0@),
{
    match quant {
        Quant::Q4_K => Some("q4k"),
        Quant::Q5_K => Some("q5k"),
        Quant::Q6_K => Some("q6k"),
        _ => None,
    }
}

/// A run of blanks.
pub open spec fn blanks(n: nat) -> Seq<char> {
    Seq::new(n, |i: int| ' ')
}

fn blank_string(n: usize) -> (s: String)
    ensures
        s@ == blanks(n as nat),
{
    let mut s = String::new();
    let mut i: usize = 0;
    while i < n
        invariant
            i <= n,
            s@ == blanks(i as nat),
        decreases n - i,
    {
        s.push(' ');
        i = i + 1;
        assert(s@ =~= blanks(i as nat));
    }
    s
}

/// The texts of a list, a separator between each and the next.
pub open spec fn joined(texts: Seq<Seq<char>>, sep: Seq<char>) -> Seq<char>
    decreases texts.len(),
{
    if texts.len() == 0 {
        Seq::empty()
    } else if texts.len() == 1 {
        texts[0]
    } else {
        joined(texts.drop_last(), sep) + sep + texts.last()
    }
}

/// Rows of a value's parameter under a view.
pub open spec fn view_rows(len: nat, view: Form) -> int {
    match view {
        Form::Folded => len as int / 32,
        Form::Flat => 1,
        Form::Grid(width) => len as int / width as int,
    }
}

/// Columns of a value's parameter under a view.
pub open spec fn view_cols(len: nat, view: Form) -> int {
    match view {
        Form::Folded => 32,
        Form::Flat => len as int,
        Form::Grid(width) => width as int,
    }
}

pub const SHARED_DECL: &'static str = "  var $0: tile<i8>[$2, 32]
  var $1: tile<f32>[$2, 1]
  let $0L = flat($0)
  let $1L = flat($1)
";

pub const NORM: &'static str = "
  var acc$0: tile<f32>[SB, 1] = 0.0
  for b$0 in range(0, NB$0, SB) {
    let xb$0 = $1[b$0 :+ SB, 0 :+ 32]
    acc$0 = acc$0 + rowsum(xb$0 * xb$0)
  }
  var tot$0: tile<f32>[1, 1] = rowsum(transpose(acc$0))
  var inv$0: tile<f32>[1, 1] = 1.0 / sqrt(tot$0 / $5.0 + $6)
  for b$0 in range(0, NB$0, SB) {
    var y$0: tile<f32>[SB, 32] = $1[b$0 :+ SB, 0 :+ 32] * inv$0 * $2[b$0 :+ SB, 0 :+ 32]
    var mx$0: tile<f32>[SB, 1] = rowmax(tmax(y$0, -y$0))
    var q$0 = y$0 * (127.0 / (mx$0 + 0.00000001))
    $3[b$0 :+ SB, 0 :+ 32] = i8(i32(round(q$0)))
    $4[b$0 :+ SB, 0 :+ 1] = mx$0 / 127.0
  }
";

pub const NEST_OPEN: &'static str = "
  for i$0 in range(0, IT$0) {
    let u$0 = p + i$0 * BLOCKS
    if u$0 < UN$0 {
";

pub const NEST_CLOSE: &'static str = "    }
  }
";

/// A contraction: what it is assigned to, the activation's bytes and scales,
/// and the weight's, both sliced to the same rows.
pub const CALL: &'static str = "$0$1, $2,
$3$4[$5 :+ $6, :], $7[$5 :+ $6, :])
";

pub const SWIGLU: &'static str = "      var v$0: tile<f32>[1, $1] = (v$2 / (1.0 + exp(-v$2))) * v$3
";

pub const QUANT_RUN: &'static str = "      var h$0_$1: tile<f32>[1, 32] = $2[0 :+ 1, $3 :+ 32]
      var m$0_$1: tile<f32>[1, 1] = rowmax(tmax(h$0_$1, -h$0_$1))
      var q$0_$1 = h$0_$1 * (127.0 / (m$0_$1 + 0.00000001))
      $4[$6 * $7 + $1 :+ 1, 0 :+ 32] = i8(i32(round(q$0_$1)))
      $5[$6 * $7 + $1 :+ 1, 0 :+ 1] = m$0_$1 / 127.0
";

pub const QUANT_ONE: &'static str = "      var m$0: tile<f32>[1, 1] = rowmax(tmax($1, -$1))
      var q$0 = $1 * (127.0 / (m$0 + 0.00000001))
      $2[$4 :+ 1, 0 :+ 32] = i8(i32(round(q$0)))
      $3[$4 :+ 1, 0 :+ 1] = m$0 / 127.0
";

pub const GATES: &'static str = "      if $1 < GH$0 {
        var a$0: tile<f32>[1, 1] = $2[0 :+ 1, $6 + $1 :+ 1] + $4[0 :+ 1, $1 :+ 1]
        var z$0: tile<f32>[1, 1] = 0.0
        var sp$0: tile<f32>[1, 1] = tmax(a$0, z$0) + log(1.0 + exp(-tmax(a$0, -a$0)))
        $5[0 :+ 1, $8 + $1 :+ 1] = exp($3[0 :+ 1, $1 :+ 1] * sp$0)
        var b$0: tile<f32>[1, 1] = $2[0 :+ 1, $7 + $1 :+ 1]
        $5[0 :+ 1, $9 + $1 :+ 1] = 1.0 / (1.0 + exp(-b$0))
      }
";

pub const CONV: &'static str = "      let pl$0 = $1 / NH$0
      let hd$0 = $1 % NH$0
      let cb$0 = $2pl$0 * PS$0 + hd$0 * ST$0
      var acc$0: tile<f32>[1, HD$0] = 0.0
      for k$0 in range(0, KS$0) {
        acc$0 = acc$0 + $3[k$0 :+ 1, cb$0 :+ HD$0] * $4[k$0 :+ 1, cb$0 :+ HD$0]
      }
      var y$0: tile<f32>[1, HD$0] = acc$0 / (1.0 + exp(-acc$0))
      var g$0: tile<f32>[1, 1] = 1.0
$6      $5[0 :+ 1, $1 * $7 :+ HD$0] = y$0 * g$0
";

pub const CONV_NORM: &'static str = "sqrt(rowsum(y$0 * y$0) + 0.000000000001)";

pub const CONV_GAIN: &'static str = "      if pl$0 == $1 {
        g$0 = $2
      }
";

pub const KERNEL: &'static str = "@launch($0)
@persistent
@autotune($1)
kernel fused($2) {
$3$4}
";

/// The kernel as far as it is written: its constants and parameters, the tile
/// declarations that precede every loop, the loops, and what each value is
/// already called.
#[verifier::ext_equal]
pub struct Draft {
    pub tune: Seq<(Tune, usize)>,
    pub params: Seq<Param>,
    pub scratch: Seq<Scratch>,
    pub decls: Seq<char>,
    pub body: Seq<char>,
    pub barriers: nat,
    /// Caller buffers already declared, by the shape each is seen under.
    pub views: Seq<(Val, Form)>,
    /// Quantized values already declared, by shape.
    pub pairs: Seq<Pair>,
    /// Scratch already claimed, in order.
    pub stored: Seq<Val>,
    /// Values held in shared memory.
    pub shared: Seq<Val>,
    /// Registers written so far, each with the stage that wrote it.
    pub regs: Seq<(Val, usize)>,
    /// Whether a raw-format contraction is in the kernel.
    pub raw: bool,
}

/// The pair a value has under a shape.
pub open spec fn pair_of(pairs: Seq<Pair>, val: Val, view: Form) -> Option<Pair>
    decreases pairs.len(),
{
    if pairs.len() == 0 {
        None
    } else if pairs.last().val == val && pairs.last().form == view {
        Some(pairs.last())
    } else {
        pair_of(pairs.drop_last(), val, view)
    }
}

/// The stage that last wrote a register.
pub open spec fn reg_of(regs: Seq<(Val, usize)>, val: Val) -> Option<usize>
    decreases regs.len(),
{
    if regs.len() == 0 {
        None
    } else if regs.last().0 == val {
        Some(regs.last().1)
    } else {
        reg_of(regs.drop_last(), val)
    }
}

/// Where in a list a value is.
pub open spec fn place_of(vals: Seq<Val>, val: Val) -> Option<int>
    decreases vals.len(),
{
    if vals.len() == 0 {
        None
    } else if vals.last() == val {
        Some(vals.len() - 1)
    } else {
        place_of(vals.drop_last(), val)
    }
}

pub open spec fn has_tune(tune: Seq<(Tune, usize)>, name: Tune) -> bool {
    exists|i: int| 0 <= i < tune.len() && (#[trigger] tune[i]).0 == name
}

/// What one stage's emission comes to.
pub enum Step {
    Failed(ChainError),
    /// The pass has no fused form for the stage.
    Declined,
    Emitted(Draft),
}

impl Draft {
    /// A kernel with nothing in it but its grid.
    pub open spec fn blank(blocks: u32) -> Draft {
        Draft {
            tune: seq![(Tune::Blocks, blocks as usize)],
            params: Seq::empty(),
            scratch: Seq::empty(),
            decls: "  let p = program_id(0)\n"@,
            body: Seq::empty(),
            barriers: 0,
            views: Seq::empty(),
            pairs: Seq::empty(),
            stored: Seq::empty(),
            shared: Seq::empty(),
            regs: Seq::empty(),
            raw: false,
        }
    }

    /// A constant compiled in, once under its name.
    pub open spec fn tuned(self, name: Tune, value: usize) -> Draft {
        if has_tune(self.tune, name) {
            self
        } else {
            Draft { tune: self.tune.push((name, value)), ..self }
        }
    }

    /// Body text.
    pub open spec fn wrote(self, text: Seq<char>) -> Draft {
        Draft { body: self.body + text, ..self }
    }

    /// A parameter.
    pub open spec fn slot(self, name: Name, bound: Bound, rows: int, cols: int) -> Draft {
        Draft {
            params: self.params.push(Param { name, bound, rows: rows as usize, cols: cols as usize }),
            ..self
        }
    }

    /// A caller buffer declared under a shape.
    pub open spec fn given(self, shape: Shape, val: Val, view: Form) -> Draft {
        if self.views.contains((val, view)) {
            self
        } else {
            let len = shape.len_of(val);
            let named = self.slot(
                Name::Given(val, view),
                Bound::Given(val),
                view_rows(len, view),
                view_cols(len, view),
            );
            Draft { views: self.views.push((val, view)), ..named }
        }
    }

    /// A value's use as a weight makes no sense.
    pub open spec fn weight_fault(self, shape: Shape, val: Val) -> Option<ChainError> {
        if pair_of(self.pairs, val, Form::Flat) is None && !(shape.kind(val) is Weight) {
            Some(ChainError::NotWeight(val))
        } else {
            None
        }
    }

    /// A weight declared: its bytes, then one scale a row and block.
    pub open spec fn weight(self, shape: Shape, val: Val) -> Draft {
        match (pair_of(self.pairs, val, Form::Flat), shape.kind(val)) {
            (None, Kind::Weight { rows, k }) => {
                let d = self.slot(
                    Name::WeightQs(val),
                    Bound::WeightQs(val),
                    rows as int,
                    k as int,
                ).slot(
                    Name::WeightScales(val),
                    Bound::WeightScales(val),
                    rows as int,
                    k as int / 32,
                );
                Draft {
                    pairs: self.pairs.push(
                        Pair {
                            val,
                            form: Form::Flat,
                            qs: Name::WeightQs(val),
                            scales: Name::WeightScales(val),
                        },
                    ),
                    ..d
                }
            },
            _ => self,
        }
    }

    /// A value's use as a raw weight makes no sense.
    pub open spec fn raw_fault(self, shape: Shape, val: Val) -> Option<ChainError> {
        match shape.kind(val) {
            Kind::Raw { quant, .. } => if fused_decode(quant) is None {
                Some(ChainError::NoFusedDecode(quant))
            } else {
                None
            },
            _ => Some(ChainError::NotRaw(val)),
        }
    }

    /// A raw weight declared: its block bytes, then its scale plane.
    pub open spec fn raw_weight(self, shape: Shape, val: Val) -> Draft {
        match (pair_of(self.pairs, val, Form::Flat), shape.kind(val)) {
            (None, Kind::Raw { rows, k, quant }) => {
                let nb = k as int / 256;
                let d = self.slot(
                    Name::RawBytes(val),
                    Bound::RawBytes(val),
                    rows as int,
                    nb * quant::device_block_of(quant).1,
                ).slot(Name::RawD(val), Bound::RawD(val), rows as int, nb);
                Draft {
                    pairs: self.pairs.push(
                        Pair {
                            val,
                            form: Form::Flat,
                            qs: Name::RawBytes(val),
                            scales: Name::RawD(val),
                        },
                    ),
                    raw: true,
                    ..d
                }
            },
            _ => Draft { raw: true, ..self },
        }
    }

    /// A quantized activation's storage claimed, on first sight under either
    /// shape. A value every block wrote its own copy of goes in shared memory;
    /// one that other blocks read is published.
    pub open spec fn quant(self, shape: Shape, val: Val, folded: bool) -> Draft {
        let view = if folded {
            Form::Folded
        } else {
            Form::Flat
        };
        let len = shape.len_of(val);
        if pair_of(self.pairs, val, view) is Some {
            self
        } else if nests::is_redundant(shape.stages, val) {
            let declared = if self.shared.contains(val) {
                self
            } else {
                Draft {
                    shared: self.shared.push(val),
                    decls: self.decls + text::filled(
                        SHARED_DECL@,
                        seq![
                            name_text(Name::TileQs(val, true)),
                            name_text(Name::TileScales(val, true)),
                            text::decimal(len / 32),
                        ],
                    ),
                    ..self
                }
            };
            Draft {
                pairs: self.pairs.push(
                    Pair {
                        val,
                        form: view,
                        qs: Name::TileQs(val, folded),
                        scales: Name::TileScales(val, folded),
                    },
                ),
                ..declared
            }
        } else {
            let claimed = if place_of(self.stored, val) is Some {
                self
            } else {
                Draft {
                    scratch: self.scratch.push(
                        Scratch { bytes: len as usize, scales: (len / 32) as usize },
                    ),
                    stored: self.stored.push(val),
                    ..self
                }
            };
            let at = place_of(claimed.stored, val)->0 as usize;
            let rows = len as int / 32;
            let d = if folded {
                claimed.slot(
                    Name::ScratchQs(val, true),
                    Bound::ScratchQs(at),
                    rows,
                    32,
                ).slot(Name::ScratchScales(val, true), Bound::ScratchScales(at), rows, 1)
            } else {
                claimed.slot(
                    Name::ScratchQs(val, false),
                    Bound::ScratchQs(at),
                    1,
                    len as int,
                ).slot(Name::ScratchScales(val, false), Bound::ScratchScales(at), 1, rows)
            };
            Draft {
                pairs: self.pairs.push(
                    Pair {
                        val,
                        form: view,
                        qs: Name::ScratchQs(val, folded),
                        scales: Name::ScratchScales(val, folded),
                    },
                ),
                ..d
            }
        }
    }

    /// The names of a declared value's two tensors.
    pub open spec fn names(self, val: Val, view: Form) -> (Seq<char>, Seq<char>) {
        let pair = pair_of(self.pairs, val, view)->0;
        (name_text(pair.qs), name_text(pair.scales))
    }

    /// A declared activation as a contraction's two operands: a shared value's
    /// flat view already is a one-row tile, a global one has to be sliced into
    /// one.
    pub open spec fn operands(self, val: Val) -> (Seq<char>, Seq<char>) {
        let (qs, scales) = self.names(val, Form::Flat);
        if self.shared.contains(val) {
            (qs, scales)
        } else {
            (qs + "[0 :+ 1, :]"@, scales + "[0 :+ 1, :]"@)
        }
    }

    /// The constant an offset compiles in to. A zero offset needs none.
    pub open spec fn offset(self, name: Tune, offset: usize) -> Draft {
        if offset == 0 {
            self
        } else {
            self.tuned(name, offset)
        }
    }

    /// A register written by a stage.
    pub open spec fn reg(self, val: Val, s: usize) -> Draft {
        Draft { regs: self.regs.push((val, s)), ..self }
    }

    /// A grid barrier. One counter serves every barrier of the kernel.
    pub open spec fn barrier(self) -> Draft {
        let d = if self.barriers > 0 {
            self
        } else {
            self.slot(Name::Barrier, Bound::Barrier, 2, 1)
        };
        Draft { barriers: self.barriers + 1, ..d }.wrote("\n  grid_barrier(BAR)\n"@)
    }

    /// A redundant sweep: every block normalizes and quantizes the whole row
    /// into its own copy. A width the sweep does not divide has no fused form.
    #[verifier::opaque]
    pub open spec fn norm(self, shape: Shape, s: usize) -> Step {
        match shape.stages[s as int] {
            Stage::NormQ { x, gain, out, width, eps_bits } => if width % 512 != 0 {
                Step::Declined
            } else {
                let d = self.tuned(Tune::Rows(s), width / 32).tuned(Tune::Sweep, 16).given(
                    shape,
                    x,
                    Form::Folded,
                ).given(shape, gain, Form::Folded).quant(shape, out, true);
                let (qs, scales) = d.names(out, Form::Folded);
                Step::Emitted(
                    d.wrote(
                        text::filled(
                            NORM@,
                            seq![
                                text::decimal(s as nat),
                                name_text(Name::Given(x, Form::Folded)),
                                name_text(Name::Given(gain, Form::Folded)),
                                qs,
                                scales,
                                text::decimal(width as nat),
                                single::fixed(eps_bits, 12),
                            ],
                        ),
                    ),
                )
            },
            _ => Step::Declined,
        }
    }

    /// A grid-strided loop opened, one unit of work per block per turn. The
    /// turns are compiled in and the tail guarded.
    pub open spec fn open_nest(self, shape: Shape, n: usize, units: usize) -> Draft {
        let turns = (units + shape.blocks - 1) / shape.blocks as int;
        self.tuned(Tune::Turns(n), turns as usize).tuned(Tune::Units(n), units).wrote(
            text::filled(NEST_OPEN@, seq![text::decimal(n as nat)]),
        )
    }

    /// A contraction against a weight, its result assigned by `head`.
    pub open spec fn call(self, head: Seq<char>, a: Val, w: Val, at: Seq<char>, width: Seq<char>) -> Draft {
        let (aq, asc) = self.operands(a);
        let (wq, wsc) = self.names(w, Form::Flat);
        self.wrote(
            text::filled(CALL@, seq![head, aq, asc, blanks(head.len()), wq, at, width, wsc]),
        )
    }

    /// `      let name = [offset + ]unit * stride`.
    pub open spec fn starts(
        self,
        name: Seq<char>,
        tune: Tune,
        offset: usize,
        n: usize,
        stride: usize,
    ) -> Draft {
        let base = if offset == 0 {
            Seq::empty()
        } else {
            tune_text(tune) + " + "@
        };
        self.wrote(
            text::filled(
                "      let $0 = $1u$2 * $3\n"@,
                seq![name, base, text::decimal(n as nat), text::decimal(stride as nat)],
            ),
        )
    }

    /// A stage that writes a register a unit: `v<s>`.
    pub open spec fn proj_q(
        self,
        shape: Shape,
        s: usize,
        n: usize,
        a: Val,
        w: Val,
        out: Val,
        row_off: usize,
    ) -> Step {
        let d = self.quant(shape, a, false);
        match d.weight_fault(shape, w) {
            Some(e) => Step::Failed(e),
            None => Step::Emitted(
                d.weight(shape, w).offset(Tune::From(s), row_off).reg(out, s).starts(
                    "at"@ + text::decimal(s as nat),
                    Tune::From(s),
                    row_off,
                    n,
                    32,
                ).call(
                    text::filled("      var v$0: tile<f32>[1, 32] = qdot_t("@, seq![text::decimal(s as nat)]),
                    a,
                    w,
                    "at"@ + text::decimal(s as nat),
                    "32"@,
                ),
            ),
        }
    }

    /// A stage that publishes each unit's run where the caller asked for it.
    pub open spec fn proj_f(
        self,
        shape: Shape,
        s: usize,
        n: usize,
        a: Val,
        w: Val,
        out: Val,
        out_off: usize,
        row_off: usize,
    ) -> Step {
        let d = self.quant(shape, a, false);
        match d.weight_fault(shape, w) {
            Some(e) => Step::Failed(e),
            None => Step::Emitted(
                d.weight(shape, w).given(shape, out, Form::Flat).offset(
                    Tune::From(s),
                    row_off,
                ).offset(Tune::To(s), out_off).starts(
                    "at"@ + text::decimal(s as nat),
                    Tune::From(s),
                    row_off,
                    n,
                    32,
                ).starts("to"@ + text::decimal(s as nat), Tune::To(s), out_off, n, 32).call(
                    text::filled(
                        "      $0[0 :+ 1, to$1 :+ 32] = qdot_t("@,
                        seq![name_text(Name::Given(out, Form::Flat)), text::decimal(s as nat)],
                    ),
                    a,
                    w,
                    "at"@ + text::decimal(s as nat),
                    "32"@,
                ),
            ),
        }
    }

    /// [`Draft::proj_q`] over a raw-format weight, a raw unit at a time.
    pub open spec fn proj_raw(
        self,
        shape: Shape,
        s: usize,
        n: usize,
        a: Val,
        w: Val,
        out: Val,
        row_off: usize,
    ) -> Step {
        let d = self.quant(shape, a, false);
        match d.raw_fault(shape, w) {
            Some(e) => Step::Failed(e),
            None => Step::Emitted(
                d.raw_weight(shape, w).offset(Tune::From(s), row_off).reg(out, s).starts(
                    "at"@ + text::decimal(s as nat),
                    Tune::From(s),
                    row_off,
                    n,
                    64,
                ).call(
                    text::filled(
                        "      var v$0: tile<f32>[1, 64] = $1_qdot_i8_t("@,
                        seq![text::decimal(s as nat), decode_text(shape, w)],
                    ),
                    a,
                    w,
                    "at"@ + text::decimal(s as nat),
                    "64"@,
                ),
            ),
        }
    }

    /// [`Draft::proj_f`] over a raw-format weight. A unit narrower than a raw
    /// run decodes a whole one and stores its head.
    pub open spec fn proj_raw_f(
        self,
        shape: Shape,
        s: usize,
        n: usize,
        a: Val,
        w: Val,
        out: Val,
        out_off: usize,
        width: usize,
        row_off: usize,
    ) -> Step {
        let d = self.quant(shape, a, false);
        match d.raw_fault(shape, w) {
            Some(e) => Step::Failed(e),
            None => {
                let dst = name_text(Name::Given(out, Form::Flat));
                let d = d.raw_weight(shape, w).given(shape, out, Form::Flat).offset(
                    Tune::From(s),
                    row_off,
                ).offset(Tune::To(s), out_off).starts(
                    "at"@ + text::decimal(s as nat),
                    Tune::From(s),
                    row_off,
                    n,
                    64,
                ).starts("to"@ + text::decimal(s as nat), Tune::To(s), out_off, n, 64);
                if width == 64 {
                    Step::Emitted(
                        d.call(
                            text::filled(
                                "      $0[0 :+ 1, to$1 :+ 64] = $2_qdot_i8_t("@,
                                seq![dst, text::decimal(s as nat), decode_text(shape, w)],
                            ),
                            a,
                            w,
                            "at"@ + text::decimal(s as nat),
                            "64"@,
                        ),
                    )
                } else {
                    Step::Emitted(
                        d.call(
                            text::filled(
                                "      var v$0: tile<f32>[1, 64] = $1_qdot_i8_t("@,
                                seq![text::decimal(s as nat), decode_text(shape, w)],
                            ),
                            a,
                            w,
                            "at"@ + text::decimal(s as nat),
                            "64"@,
                        ).wrote(
                            text::filled(
                                "      $0[0 :+ 1, to$1 :+ $2] = v$1[0 :+ 1, 0 :+ $2]\n"@,
                                seq![dst, text::decimal(s as nat), text::decimal(width as nat)],
                            ),
                        ),
                    )
                }
            },
        }
    }

    pub open spec fn swiglu(self, shape: Shape, s: usize, g: Val, u: Val, out: Val) -> Step {
        match (reg_of(self.regs, g), reg_of(self.regs, u)) {
            (None, _) => Step::Failed(ChainError::ReadBeforeWrite(g)),
            (_, None) => Step::Failed(ChainError::ReadBeforeWrite(u)),
            (Some(gs), Some(us)) => Step::Emitted(
                self.reg(out, s).wrote(
                    text::filled(
                        SWIGLU@,
                        seq![
                            text::decimal(s as nat),
                            text::decimal(shape.len_of(out)),
                            text::decimal(gs as nat),
                            text::decimal(us as nat),
                        ],
                    ),
                ),
            ),
        }
    }

    /// The first `b` Q8_0 blocks of a unit's run quantized, each on its own
    /// row.
    pub open spec fn quant_runs(
        self,
        s: usize,
        n: usize,
        h: Seq<char>,
        qs: Seq<char>,
        scales: Seq<char>,
        blocks: usize,
        b: nat,
    ) -> Draft
        decreases b,
    {
        if b == 0 {
            self
        } else {
            self.quant_runs(s, n, h, qs, scales, blocks, (b - 1) as nat).wrote(
                text::filled(
                    QUANT_RUN@,
                    seq![
                        text::decimal(s as nat),
                        text::decimal((b - 1) as nat),
                        h,
                        text::decimal(((b - 1) * 32) as nat),
                        qs,
                        scales,
                        "u"@ + text::decimal(n as nat),
                        text::decimal(blocks as nat),
                    ],
                ),
            )
        }
    }

    /// A quantization: of a register where the chain computed one, else of a
    /// window of a caller buffer.
    pub open spec fn quant_q(
        self,
        shape: Shape,
        s: usize,
        n: usize,
        h: Val,
        out: Val,
        blocks: usize,
    ) -> Step {
        if blocks > 1 {
            match reg_of(self.regs, h) {
                None => Step::Failed(ChainError::ReadBeforeWrite(h)),
                Some(hs) => {
                    let d = self.quant(shape, out, true);
                    let (qs, scales) = d.names(out, Form::Folded);
                    Step::Emitted(
                        d.quant_runs(
                            s,
                            n,
                            "v"@ + text::decimal(hs as nat),
                            qs,
                            scales,
                            blocks,
                            blocks as nat,
                        ),
                    )
                },
            }
        } else {
            let (d, h_text) = match reg_of(self.regs, h) {
                Some(hs) => (self, "v"@ + text::decimal(hs as nat)),
                None => (
                    self.given(shape, h, Form::Flat),
                    text::filled(
                        "$0[0 :+ 1, u$1 * 32 :+ 32]"@,
                        seq![name_text(Name::Given(h, Form::Flat)), text::decimal(n as nat)],
                    ),
                ),
            };
            let d = d.quant(shape, out, true);
            let (qs, scales) = d.names(out, Form::Folded);
            Step::Emitted(
                d.wrote(
                    text::filled(
                        QUANT_ONE@,
                        seq![text::decimal(s as nat), h_text, qs, scales, "u"@ + text::decimal(n as nat)],
                    ),
                ),
            )
        }
    }

    /// A contraction accumulating into its target.
    pub open spec fn proj_add(
        self,
        shape: Shape,
        s: usize,
        n: usize,
        a: Val,
        w: Val,
        y: Val,
        width: usize,
    ) -> Step {
        if width % 8 != 0 {
            Step::Declined
        } else {
            let d = self.quant(shape, a, false);
            match d.weight_fault(shape, w) {
                Some(e) => Step::Failed(e),
                None => Step::Emitted(
                    d.weight(shape, w).given(shape, y, Form::Flat).tuned(Tune::OutTile, 8).wrote(
                        text::filled(
                            "      let t$0 = u$1 * TN\n"@,
                            seq![text::decimal(s as nat), text::decimal(n as nat)],
                        ),
                    ).call(
                        text::filled(
                            "      $0[0 :+ 1, t$1 :+ TN] += qdot_t("@,
                            seq![name_text(Name::Given(y, Form::Flat)), text::decimal(s as nat)],
                        ),
                        a,
                        w,
                        "t"@ + text::decimal(s as nat),
                        "TN"@,
                    ),
                ),
            }
        }
    }

    /// [`Draft::proj_add`] over a raw-format weight.
    pub open spec fn proj_add_raw(
        self,
        shape: Shape,
        s: usize,
        n: usize,
        a: Val,
        w: Val,
        y: Val,
        width: usize,
    ) -> Step {
        if width % 64 != 0 {
            Step::Declined
        } else {
            let d = self.quant(shape, a, false);
            match d.raw_fault(shape, w) {
                Some(e) => Step::Failed(e),
                None => Step::Emitted(
                    d.raw_weight(shape, w).given(shape, y, Form::Flat).tuned(
                        Tune::RawTile,
                        64,
                    ).wrote(
                        text::filled(
                            "      let t$0 = u$1 * RT\n"@,
                            seq![text::decimal(s as nat), text::decimal(n as nat)],
                        ),
                    ).call(
                        text::filled(
                            "      $0[0 :+ 1, t$1 :+ RT] += $2_qdot_i8_t("@,
                            seq![
                                name_text(Name::Given(y, Form::Flat)),
                                text::decimal(s as nat),
                                decode_text(shape, w),
                            ],
                        ),
                        a,
                        w,
                        "t"@ + text::decimal(s as nat),
                        "RT"@,
                    ),
                ),
            }
        }
    }

    /// The convolution. Only the query carries the readout scale, and only the
    /// query and key are normalized.
    pub open spec fn conv(self, shape: Shape, s: usize, n: usize) -> Step {
        match shape.stages[s as int] {
            Stage::Conv {
                history,
                taps,
                out,
                heads,
                head_dim,
                kernel,
                channels,
                plane_base,
                plane_stride,
                head_stride,
                normalize,
                scale_bits,
                ..
            } => {
                let d = self.given(shape, history, Form::Grid(channels)).given(
                    shape,
                    taps,
                    Form::Grid(channels),
                ).given(shape, out, Form::Flat).tuned(Tune::Taps(s), kernel).tuned(
                    Tune::HeadDim(s),
                    head_dim,
                ).tuned(Tune::Heads(s), heads).tuned(Tune::PlaneStride(s), plane_stride).tuned(
                    Tune::HeadStride(s),
                    head_stride,
                ).offset(Tune::PlaneBase(s), plane_base);
                let base = if plane_base == 0 {
                    Seq::empty()
                } else {
                    tune_text(Tune::PlaneBase(s)) + " + "@
                };
                Step::Emitted(
                    d.wrote(
                        text::filled(
                            CONV@,
                            seq![
                                text::decimal(s as nat),
                                "u"@ + text::decimal(n as nat),
                                base,
                                name_text(Name::Given(history, Form::Grid(channels))),
                                name_text(Name::Given(taps, Form::Grid(channels))),
                                name_text(Name::Given(out, Form::Flat)),
                                gains_text(s, normalize, scale_bits),
                                text::decimal(head_dim as nat),
                            ],
                        ),
                    ),
                )
            },
            _ => Step::Declined,
        }
    }

    /// The gates, behind the three planes: the decay, then the write strength.
    pub open spec fn gates(self, shape: Shape, s: usize, n: usize) -> Step {
        match shape.stages[s as int] {
            Stage::Gates { raw, decay_at, beta_at, rate, bias, out, heads, span, .. } => {
                let d = self.given(shape, raw, Form::Flat).given(shape, rate, Form::Flat).given(
                    shape,
                    bias,
                    Form::Flat,
                ).given(shape, out, Form::Flat).tuned(Tune::GateHeads(s), heads);
                Step::Emitted(
                    d.wrote(
                        text::filled(
                            GATES@,
                            seq![
                                text::decimal(s as nat),
                                "u"@ + text::decimal(n as nat),
                                name_text(Name::Given(raw, Form::Flat)),
                                name_text(Name::Given(rate, Form::Flat)),
                                name_text(Name::Given(bias, Form::Flat)),
                                name_text(Name::Given(out, Form::Flat)),
                                text::decimal(decay_at as nat),
                                text::decimal(beta_at as nat),
                                text::decimal((3 * span) as nat),
                                text::decimal((3 * span + heads) as nat),
                            ],
                        ),
                    ),
                )
            },
            _ => Step::Declined,
        }
    }

    /// One stage of a grid-strided nest.
    #[verifier::opaque]
    pub open spec fn unit_stage(self, shape: Shape, s: usize, n: usize) -> Step {
        match shape.stages[s as int] {
            Stage::NormQ { .. } => Step::Declined,
            Stage::ProjQ { a, w, out, row_off, .. } => self.proj_q(
                shape,
                s,
                n,
                a,
                w,
                out,
                row_off,
            ),
            Stage::ProjF { a, w, out, out_off, row_off, .. } => self.proj_f(
                shape,
                s,
                n,
                a,
                w,
                out,
                out_off,
                row_off,
            ),
            Stage::ProjRaw { a, w, out, row_off, .. } => self.proj_raw(
                shape,
                s,
                n,
                a,
                w,
                out,
                row_off,
            ),
            Stage::ProjRawF { a, w, out, out_off, width, row_off, .. } => self.proj_raw_f(
                shape,
                s,
                n,
                a,
                w,
                out,
                out_off,
                width,
                row_off,
            ),
            Stage::Swiglu { g, u, out } => self.swiglu(shape, s, g, u, out),
            Stage::QuantQ { h, out, blocks, .. } => self.quant_q(shape, s, n, h, out, blocks),
            Stage::ProjAdd { a, w, y, width } => self.proj_add(shape, s, n, a, w, y, width),
            Stage::ProjAddRaw { a, w, y, width } => self.proj_add_raw(shape, s, n, a, w, y, width),
            Stage::Conv { .. } => self.conv(shape, s, n),
            Stage::Gates { .. } => self.gates(shape, s, n),
        }
    }

    /// What a stage's nest needs ahead of its first stage: the previous nest
    /// closed, a barrier where one is due, and the loop opened.
    #[verifier::opaque]
    pub open spec fn enter(self, shape: Shape, s: usize) -> Draft {
        let n = nests::nest_of(shape.stages, s as int);
        let closed = if s > 0 && nests::nest_part(shape.stages, s - 1) is Units {
            self.wrote(NEST_CLOSE@)
        } else {
            self
        };
        let ordered = if nests::barrier_before(shape.stages, n) {
            closed.barrier()
        } else {
            closed
        };
        match nests::nest_part(shape.stages, s as int) {
            Part::Units(units) => ordered.open_nest(shape, n as usize, units),
            _ => ordered,
        }
    }

    /// One stage of the chain.
    #[verifier::opaque]
    pub open spec fn stage(self, shape: Shape, s: usize) -> Step {
        let d = if nests::opens(shape.stages, s as int) {
            self.enter(shape, s)
        } else {
            self
        };
        if nests::nest_part(shape.stages, s as int) is Whole {
            if s + 1 < shape.stages.len() && super::part_of(shape.stages[s + 1]) == Part::Inherit {
                Step::Failed(ChainError::SharesWholeRow)
            } else {
                d.norm(shape, s)
            }
        } else {
            d.unit_stage(shape, s, nests::nest_of(shape.stages, s as int) as usize)
        }
    }

    /// The constants, as an `@autotune` lists them.
    pub open spec fn tune_list(self) -> Seq<char> {
        joined(
            self.tune.map_values(
                |t: (Tune, usize)|
                    text::filled("$0 in [$1]"@, seq![tune_text(t.0), text::decimal(t.1 as nat)]),
            ),
            ", "@,
        )
    }

    /// The parameters, as the kernel declares them.
    pub open spec fn param_list(self) -> Seq<char> {
        joined(self.params.map_values(|p: Param| param_text(p)), ",\n             "@)
    }

    /// The kernel's source.
    pub open spec fn source(self) -> Seq<char> {
        let launch = if self.raw {
            "256, 2"@
        } else {
            "256"@
        };
        text::filled(KERNEL@, seq![launch, self.tune_list(), self.param_list(), self.decls, self.body])
    }
}

pub open spec fn param_text(p: Param) -> Seq<char> {
    text::filled(
        "$0: tensor<$1>[$2, $3]"@,
        seq![
            name_text(p.name),
            type_text(p.name),
            text::decimal(p.rows as nat),
            text::decimal(p.cols as nat),
        ],
    )
}

/// The intrinsic that decodes a raw value.
pub open spec fn decode_text(shape: Shape, val: Val) -> Seq<char> {
    match shape.kind(val) {
        Kind::Raw { quant, .. } => fused_decode(quant)->0,
        _ => Seq::empty(),
    }
}

/// The convolution's gains by plane: the scaled query, then the key where the
/// two are normalized.
pub open spec fn gains_text(s: usize, normalize: bool, scale_bits: u32) -> Seq<char> {
    let norm = text::filled(CONV_NORM@, seq![text::decimal(s as nat)]);
    if normalize {
        text::filled(
            CONV_GAIN@,
            seq![text::decimal(s as nat), "0"@, single::fixed(scale_bits, 9) + " / "@ + norm],
        ) + text::filled(CONV_GAIN@, seq![text::decimal(s as nat), "1"@, "1.0 / "@ + norm])
    } else {
        text::filled(CONV_GAIN@, seq![text::decimal(s as nat), "0"@, single::fixed(scale_bits, 9)])
    }
}

/// The kernel after the first `s` stages.
pub open spec fn emitted(shape: Shape, s: nat) -> Step
    decreases s,
{
    if s == 0 {
        Step::Emitted(Draft::blank(shape.blocks))
    } else {
        match emitted(shape, (s - 1) as nat) {
            Step::Emitted(d) => d.stage(shape, (s - 1) as usize),
            other => other,
        }
    }
}

/// The kernel of a whole chain, its last nest closed.
pub open spec fn whole_kernel(shape: Shape) -> Step {
    match emitted(shape, shape.stages.len()) {
        Step::Emitted(d) => if shape.stages.len() > 0 && nests::nest_part(
            shape.stages,
            shape.stages.len() - 1,
        ) is Units {
            Step::Emitted(d.wrote(NEST_CLOSE@))
        } else {
            Step::Emitted(d)
        },
        other => other,
    }
}

/// What the pass makes of a chain: an error, no fused form, or a kernel.
pub open spec fn planned(shape: Shape) -> Step {
    if nests::starts_elementwise(shape.stages) {
        Step::Failed(ChainError::StartsElementwise)
    } else if nests::is_stranded(shape) {
        Step::Declined
    } else {
        whole_kernel(shape)
    }
}

/// A plan carries a kernel: its source, its operands in declaration order, and
/// what it needs.
pub open spec fn carries(plan: Plan, d: Draft, blocks: u32) -> bool {
    &&& plan.source@ == d.source()
    &&& plan.slots@.len() == d.params.len()
    &&& forall|i: int|
        0 <= i < plan.slots@.len() ==> {
            &&& (#[trigger] plan.slots@[i]).bound == d.params[i].bound
            &&& plan.slots@[i].dims@ == seq![d.params[i].rows as i64, d.params[i].cols as i64]
        }
    &&& plan.scratch@ == d.scratch
    &&& plan.blocks == blocks
    &&& plan.barriers == d.barriers
    &&& plan.held == d.shared.len()
}

pub proof fn lemma_pair_kept(pairs: Seq<Pair>, pair: Pair, val: Val, form: Form)
    ensures
        pair_of(pairs, val, form) is Some ==> pair_of(pairs.push(pair), val, form) is Some,
        pair.val == val && pair.form == form ==> pair_of(pairs.push(pair), val, form) == Some(pair),
{
    assert(pairs.push(pair).drop_last() =~= pairs);
}

/// The storage behind a [`Draft`].
pub struct Emit {
    tune: Vec<(Tune, usize)>,
    params: Vec<Param>,
    scratch: Vec<Scratch>,
    decls: String,
    body: String,
    barriers: usize,
    views: Vec<(Val, Form)>,
    pairs: Vec<Pair>,
    stored: Vec<Val>,
    shared: Vec<Val>,
    regs: Vec<(Val, usize)>,
    raw: bool,
    /// Values every block writes its own copy of.
    redundant: Vec<Val>,
}

impl View for Emit {
    type V = Draft;

    closed spec fn view(&self) -> Draft {
        Draft {
            tune: self.tune@,
            params: self.params@,
            scratch: self.scratch@,
            decls: self.decls@,
            body: self.body@,
            barriers: self.barriers as nat,
            views: self.views@,
            pairs: self.pairs@,
            stored: self.stored@,
            shared: self.shared@,
            regs: self.regs@,
            raw: self.raw,
        }
    }
}

impl Emit {
    /// The values this was told are redundant are those of the chain.
    closed spec fn knows(&self, stages: Seq<Stage>) -> bool {
        forall|val: Val| #[trigger] self.redundant@.contains(val) <==> nests::is_redundant(stages, val)
    }

    /// One step of the emission.
    closed spec fn moved(&self, to: &Emit, d: Draft) -> bool {
        &&& to@ == d
        &&& to.redundant == self.redundant
    }

    /// What emitting a stage comes to.
    closed spec fn comes_to(&self, to: &Emit, step: Step, r: Result<bool, ChainError>) -> bool {
        match step {
            Step::Failed(e) => r == Err::<bool, ChainError>(e),
            Step::Declined => r == Ok::<bool, ChainError>(false),
            Step::Emitted(d) => r == Ok::<bool, ChainError>(true) && self.moved(to, d),
        }
    }

    /// No pair is forgotten.
    closed spec fn keeps_pairs(&self, to: &Emit) -> bool {
        forall|val: Val, form: Form|
            #![trigger pair_of(to@.pairs, val, form)]
            pair_of(self@.pairs, val, form) is Some ==> pair_of(to@.pairs, val, form) is Some
    }

    fn new(blocks: u32, redundant: Vec<Val>) -> (emit: Emit)
        ensures
            emit@ == Draft::blank(blocks),
            emit.redundant == redundant,
    {
        let mut tune: Vec<(Tune, usize)> = Vec::new();
        tune.push((Tune::Blocks, blocks as usize));
        Emit {
            tune,
            params: Vec::new(),
            scratch: Vec::new(),
            decls: "  let p = program_id(0)\n".to_owned(),
            body: String::new(),
            barriers: 0,
            views: Vec::new(),
            pairs: Vec::new(),
            stored: Vec::new(),
            shared: Vec::new(),
            regs: Vec::new(),
            raw: false,
            redundant,
        }
    }

    fn tune_const(&mut self, name: Tune, value: usize)
        ensures
            old(self).moved(final(self), old(self)@.tuned(name, value)),
    {
        let mut i: usize = 0;
        while i < self.tune.len()
            invariant
                i <= self.tune@.len(),
                *self == *old(self),
                forall|j: int| 0 <= j < i ==> (#[trigger] self.tune@[j]).0 != name,
            decreases self.tune@.len() - i,
        {
            if self.tune[i].0 == name {
                assert(has_tune(self@.tune, name));
                return;
            }
            i = i + 1;
        }
        self.tune.push((name, value));
    }

    fn write(&mut self, text: &str)
        ensures
            old(self).moved(final(self), old(self)@.wrote(text@)),
    {
        self.body.append(text);
    }

    fn slot(&mut self, name: Name, bound: Bound, rows: usize, cols: usize)
        ensures
            old(self).moved(final(self), old(self)@.slot(name, bound, rows as int, cols as int)),
    {
        self.params.push(Param { name, bound, rows, cols });
    }

    fn given(&mut self, key: &ChainKey, val: Val, form: Form)
        requires
            key@.wf(),
            key@.has(val),
            form matches Form::Grid(width) ==> width > 0,
        ensures
            old(self).moved(final(self), old(self)@.given(key@, val, form)),
    {
        let mut i: usize = 0;
        while i < self.views.len()
            invariant
                i <= self.views@.len(),
                *self == *old(self),
                forall|j: int| 0 <= j < i ==> #[trigger] self.views@[j] != (val, form),
            decreases self.views@.len() - i,
        {
            if self.views[i].0 == val && self.views[i].1 == form {
                assert(self.views@[i as int] == (val, form));
                return;
            }
            i = i + 1;
        }
        let len = key.len_of(val);
        let (rows, cols): (usize, usize) = match form {
            Form::Folded => (len / Q8_BLOCK, Q8_BLOCK),
            Form::Flat => (1, len),
            Form::Grid(width) => (len / width, width),
        };
        self.slot(Name::Given(val, form), Bound::Given(val), rows, cols);
        self.views.push((val, form));
    }

    fn pair(&self, val: Val, form: Form) -> (pair: Option<Pair>)
        ensures
            pair == pair_of(self@.pairs, val, form),
    {
        let mut at: usize = self.pairs.len();
        assert(self.pairs@.take(at as int) =~= self.pairs@);
        while at > 0
            invariant
                at <= self.pairs@.len(),
                pair_of(self.pairs@, val, form) == pair_of(self.pairs@.take(at as int), val, form),
            decreases at,
        {
            let pair = self.pairs[at - 1];
            assert(self.pairs@.take(at as int).drop_last() =~= self.pairs@.take(at - 1));
            if pair.val == val && pair.form == form {
                return Some(pair);
            }
            at = at - 1;
        }
        None
    }

    fn weight(&mut self, key: &ChainKey, val: Val) -> (r: Result<(), ChainError>)
        requires
            key@.wf(),
            key@.has(val),
        ensures
            match old(self)@.weight_fault(key@, val) {
                Some(e) => r == Err::<(), ChainError>(e),
                None => {
                    &&& r is Ok
                    &&& old(self).moved(final(self), old(self)@.weight(key@, val))
                    &&& pair_of(final(self)@.pairs, val, Form::Flat) is Some
                    &&& old(self).keeps_pairs(final(self))
                },
            },
    {
        if self.pair(val, Form::Flat).is_some() {
            return Ok(());
        }
        assert(super::kind_fits(key@.vals[val.0 as int]));
        match key.vals[val.0] {
            Kind::Weight { rows, k } => {
                self.slot(Name::WeightQs(val), Bound::WeightQs(val), rows, k);
                self.slot(Name::WeightScales(val), Bound::WeightScales(val), rows, k / Q8_BLOCK);
                let pair = Pair {
                    val,
                    form: Form::Flat,
                    qs: Name::WeightQs(val),
                    scales: Name::WeightScales(val),
                };
                self.pairs.push(pair);
                proof {
                    assert forall|v: Val, f: Form|
                        #![trigger pair_of(self@.pairs, v, f)]
                        (pair_of(old(self)@.pairs, v, f) is Some ==> pair_of(self@.pairs, v, f) is Some)
                            && (v == val && f == Form::Flat ==> pair_of(self@.pairs, v, f) is Some) by {
                        lemma_pair_kept(old(self)@.pairs, pair, v, f);
                    }
                }
                Ok(())
            },
            _ => Err(ChainError::NotWeight(val)),
        }
    }

    fn raw_weight(&mut self, key: &ChainKey, val: Val) -> (r: Result<&'static str, ChainError>)
        requires
            key@.wf(),
            key@.has(val),
        ensures
            match old(self)@.raw_fault(key@, val) {
                Some(e) => r == Err::<&'static str, ChainError>(e),
                None => {
                    &&& r is Ok
                    &&& r->Ok_0@ == decode_text(key@, val)
                    &&& old(self).moved(final(self), old(self)@.raw_weight(key@, val))
                    &&& pair_of(final(self)@.pairs, val, Form::Flat) is Some
                    &&& old(self).keeps_pairs(final(self))
                },
            },
    {
        assert(super::kind_fits(key@.vals[val.0 as int]));
        match key.vals[val.0] {
            Kind::Raw { rows, k, quant } => {
                let fmt = match fused_decode_name(quant) {
                    Some(fmt) => fmt,
                    None => return Err(ChainError::NoFusedDecode(quant)),
                };
                self.raw = true;
                if self.pair(val, Form::Flat).is_some() {
                    return Ok(fmt);
                }
                let nb: usize = k / 256;
                let bytes: usize = nb * quant.device_block_bytes();
                self.slot(Name::RawBytes(val), Bound::RawBytes(val), rows, bytes);
                self.slot(Name::RawD(val), Bound::RawD(val), rows, nb);
                let pair = Pair {
                    val,
                    form: Form::Flat,
                    qs: Name::RawBytes(val),
                    scales: Name::RawD(val),
                };
                self.pairs.push(pair);
                proof {
                    assert forall|v: Val, f: Form|
                        #![trigger pair_of(self@.pairs, v, f)]
                        (pair_of(old(self)@.pairs, v, f) is Some ==> pair_of(self@.pairs, v, f) is Some)
                            && (v == val && f == Form::Flat ==> pair_of(self@.pairs, v, f) is Some) by {
                        lemma_pair_kept(old(self)@.pairs, pair, v, f);
                    }
                }
                Ok(fmt)
            },
            _ => Err(ChainError::NotRaw(val)),
        }
    }

    fn is_shared(&self, val: Val) -> (yes: bool)
        ensures
            yes == self@.shared.contains(val),
    {
        has_val(&self.shared, val)
    }

    /// Where a published value's scratch is, claimed on first sight.
    fn claim(&mut self, val: Val, len: usize) -> (at: usize)
        ensures
            final(self).redundant == old(self).redundant,
            final(self)@ == (if place_of(old(self)@.stored, val) is Some {
                old(self)@
            } else {
                Draft {
                    scratch: old(self)@.scratch.push(Scratch { bytes: len, scales: len / 32 }),
                    stored: old(self)@.stored.push(val),
                    ..old(self)@
                }
            }),
            place_of(final(self)@.stored, val) == Some(at as int),
    {
        let mut at: usize = self.stored.len();
        assert(self.stored@.take(at as int) =~= self.stored@);
        while at > 0
            invariant
                at <= self.stored@.len(),
                *self == *old(self),
                place_of(self.stored@, val) == place_of(self.stored@.take(at as int), val),
            decreases at,
        {
            assert(self.stored@.take(at as int).drop_last() =~= self.stored@.take(at - 1));
            if self.stored[at - 1] == val {
                return at - 1;
            }
            at = at - 1;
        }
        self.scratch.push(Scratch { bytes: len, scales: len / Q8_BLOCK });
        self.stored.push(val);
        self.stored.len() - 1
    }

    fn quant(&mut self, key: &ChainKey, val: Val, folded: bool)
        requires
            key@.wf(),
            key@.has(val),
            old(self).knows(key@.stages),
        ensures
            old(self).moved(final(self), old(self)@.quant(key@, val, folded)),
            pair_of(
                final(self)@.pairs,
                val,
                if folded {
                    Form::Folded
                } else {
                    Form::Flat
                },
            ) is Some,
            old(self).keeps_pairs(final(self)),
    {
        let form = if folded {
            Form::Folded
        } else {
            Form::Flat
        };
        if self.pair(val, form).is_some() {
            return;
        }
        let len = key.len_of(val);
        let rows: usize = len / Q8_BLOCK;
        let pair = if has_val(&self.redundant, val) {
            if !has_val(&self.shared, val) {
                self.shared.push(val);
                let text = Args::new().text(name_string(Name::TileQs(val, true)).as_str()).text(
                    name_string(Name::TileScales(val, true)).as_str(),
                ).num(rows).fill(SHARED_DECL);
                self.decls.append(text.as_str());
            }
            Pair { val, form, qs: Name::TileQs(val, folded), scales: Name::TileScales(val, folded) }
        } else {
            let at = self.claim(val, len);
            if folded {
                self.slot(Name::ScratchQs(val, true), Bound::ScratchQs(at), rows, Q8_BLOCK);
                self.slot(Name::ScratchScales(val, true), Bound::ScratchScales(at), rows, 1);
            } else {
                self.slot(Name::ScratchQs(val, false), Bound::ScratchQs(at), 1, len);
                self.slot(Name::ScratchScales(val, false), Bound::ScratchScales(at), 1, rows);
            }
            Pair {
                val,
                form,
                qs: Name::ScratchQs(val, folded),
                scales: Name::ScratchScales(val, folded),
            }
        };
        self.pairs.push(pair);
        proof {
            assert forall|v: Val, f: Form|
                #![trigger pair_of(self@.pairs, v, f)]
                (pair_of(old(self)@.pairs, v, f) is Some ==> pair_of(self@.pairs, v, f) is Some) && (v
                    == val && f == form ==> pair_of(self@.pairs, v, f) is Some) by {
                lemma_pair_kept(old(self)@.pairs, pair, v, f);
            }
        }
    }

    fn names(&self, val: Val, form: Form) -> (names: (String, String))
        requires
            pair_of(self@.pairs, val, form) is Some,
        ensures
            (names.0@, names.1@) == self@.names(val, form),
    {
        let pair = self.pair(val, form).unwrap();
        (name_string(pair.qs), name_string(pair.scales))
    }

    fn operands(&self, val: Val) -> (names: (String, String))
        requires
            pair_of(self@.pairs, val, Form::Flat) is Some,
        ensures
            (names.0@, names.1@) == self@.operands(val),
    {
        let (mut qs, mut scales) = self.names(val, Form::Flat);
        if !self.is_shared(val) {
            qs.append("[0 :+ 1, :]");
            scales.append("[0 :+ 1, :]");
        }
        (qs, scales)
    }

    fn offset(&mut self, name: Tune, offset: usize)
        ensures
            old(self).moved(final(self), old(self)@.offset(name, offset)),
    {
        if offset != 0 {
            self.tune_const(name, offset);
        }
    }

    fn reg(&mut self, val: Val, s: usize)
        ensures
            old(self).moved(final(self), old(self)@.reg(val, s)),
    {
        self.regs.push((val, s));
    }

    fn reg_at(&self, val: Val) -> (s: Option<usize>)
        ensures
            s == reg_of(self@.regs, val),
    {
        let mut at: usize = self.regs.len();
        assert(self.regs@.take(at as int) =~= self.regs@);
        while at > 0
            invariant
                at <= self.regs@.len(),
                reg_of(self.regs@, val) == reg_of(self.regs@.take(at as int), val),
            decreases at,
        {
            assert(self.regs@.take(at as int).drop_last() =~= self.regs@.take(at - 1));
            if self.regs[at - 1].0 == val {
                return Some(self.regs[at - 1].1);
            }
            at = at - 1;
        }
        None
    }

    fn barrier(&mut self)
        requires
            old(self)@.barriers < usize::MAX,
        ensures
            old(self).moved(final(self), old(self)@.barrier()),
    {
        if self.barriers == 0 {
            self.slot(Name::Barrier, Bound::Barrier, 2, 1);
        }
        self.barriers = self.barriers + 1;
        self.write("\n  grid_barrier(BAR)\n");
    }
}

impl Emit {
    fn norm(&mut self, key: &ChainKey, s: usize) -> (r: Result<bool, ChainError>)
        requires
            key@.wf(),
            s < key@.stages.len(),
            old(self).knows(key@.stages),
        ensures
            old(self).comes_to(final(self), old(self)@.norm(key@, s), r),
    {
        proof {
            reveal(Draft::norm);
            lemma_stage_vals(key@, s as int);
        }
        match key.stages[s] {
            Stage::NormQ { x, gain, out, width, eps_bits } => {
                if width % (Q8_BLOCK * NORM_ROWS) != 0 {
                    return Ok(false);
                }
                self.tune_const(Tune::Rows(s), width / Q8_BLOCK);
                self.tune_const(Tune::Sweep, NORM_ROWS);
                self.given(key, x, Form::Folded);
                self.given(key, gain, Form::Folded);
                self.quant(key, out, true);
                let (qs, scales) = self.names(out, Form::Folded);
                let text = Args::new().num(s).text(
                    name_string(Name::Given(x, Form::Folded)).as_str(),
                ).text(name_string(Name::Given(gain, Form::Folded)).as_str()).text(
                    qs.as_str(),
                ).text(scales.as_str()).num(width).text(fixed_text(eps_bits, 12).as_str()).fill(
                    NORM,
                );
                self.write(text.as_str());
                Ok(true)
            },
            _ => Ok(false),
        }
    }

    fn open_nest(&mut self, key: &ChainKey, n: usize, units: usize)
        requires
            key@.wf(),
        ensures
            old(self).moved(final(self), old(self)@.open_nest(key@, n, units)),
    {
        let turns = ceil_div(units, key.blocks as usize);
        self.tune_const(Tune::Turns(n), turns);
        self.tune_const(Tune::Units(n), units);
        let text = Args::new().num(n).fill(NEST_OPEN);
        self.write(text.as_str());
    }

    fn call(&mut self, head: &str, a: Val, w: Val, at: &str, width: &str)
        requires
            pair_of(old(self)@.pairs, a, Form::Flat) is Some,
            pair_of(old(self)@.pairs, w, Form::Flat) is Some,
        ensures
            old(self).moved(final(self), old(self)@.call(head@, a, w, at@, width@)),
    {
        let (aq, asc) = self.operands(a);
        let (wq, wsc) = self.names(w, Form::Flat);
        let pad = blank_string(head.unicode_len());
        let text = Args::new().text(head).text(aq.as_str()).text(asc.as_str()).text(
            pad.as_str(),
        ).text(wq.as_str()).text(at).text(width).text(wsc.as_str()).fill(CALL);
        self.write(text.as_str());
    }

    fn starts(&mut self, name: &str, tune: Tune, offset: usize, n: usize, stride: usize)
        ensures
            old(self).moved(final(self), old(self)@.starts(name@, tune, offset, n, stride)),
    {
        let mut base = String::new();
        if offset != 0 {
            base = tune_string(tune);
            base.append(" + ");
        }
        let text = Args::new().text(name).text(base.as_str()).num(n).num(stride).fill(
            "      let $0 = $1u$2 * $3\n",
        );
        self.write(text.as_str());
    }

    fn proj_q(
        &mut self,
        key: &ChainKey,
        s: usize,
        n: usize,
        a: Val,
        w: Val,
        out: Val,
        row_off: usize,
    ) -> (r: Result<bool, ChainError>)
        requires
            key@.wf(),
            key@.has(a),
            key@.has(w),
            old(self).knows(key@.stages),
        ensures
            old(self).comes_to(
                final(self),
                old(self)@.proj_q(key@, s, n, a, w, out, row_off),
                r,
            ),
    {
        self.quant(key, a, false);
        if let Err(e) = self.weight(key, w) {
            return Err(e);
        }
        self.offset(Tune::From(s), row_off);
        self.reg(out, s);
        let at = numbered("at", s);
        self.starts(at.as_str(), Tune::From(s), row_off, n, Q8_BLOCK);
        let head = Args::new().num(s).fill("      var v$0: tile<f32>[1, 32] = qdot_t(");
        self.call(head.as_str(), a, w, at.as_str(), "32");
        Ok(true)
    }

    fn proj_f(
        &mut self,
        key: &ChainKey,
        s: usize,
        n: usize,
        a: Val,
        w: Val,
        out: Val,
        out_off: usize,
        row_off: usize,
    ) -> (r: Result<bool, ChainError>)
        requires
            key@.wf(),
            key@.has(a),
            key@.has(w),
            key@.has(out),
            old(self).knows(key@.stages),
        ensures
            old(self).comes_to(
                final(self),
                old(self)@.proj_f(key@, s, n, a, w, out, out_off, row_off),
                r,
            ),
    {
        self.quant(key, a, false);
        if let Err(e) = self.weight(key, w) {
            return Err(e);
        }
        self.given(key, out, Form::Flat);
        self.offset(Tune::From(s), row_off);
        self.offset(Tune::To(s), out_off);
        let at = numbered("at", s);
        self.starts(at.as_str(), Tune::From(s), row_off, n, Q8_BLOCK);
        self.starts(numbered("to", s).as_str(), Tune::To(s), out_off, n, Q8_BLOCK);
        let head = Args::new().text(name_string(Name::Given(out, Form::Flat)).as_str()).num(
            s,
        ).fill("      $0[0 :+ 1, to$1 :+ 32] = qdot_t(");
        self.call(head.as_str(), a, w, at.as_str(), "32");
        Ok(true)
    }

    fn proj_raw(
        &mut self,
        key: &ChainKey,
        s: usize,
        n: usize,
        a: Val,
        w: Val,
        out: Val,
        row_off: usize,
    ) -> (r: Result<bool, ChainError>)
        requires
            key@.wf(),
            key@.has(a),
            key@.has(w),
            old(self).knows(key@.stages),
        ensures
            old(self).comes_to(
                final(self),
                old(self)@.proj_raw(key@, s, n, a, w, out, row_off),
                r,
            ),
    {
        self.quant(key, a, false);
        let fmt = match self.raw_weight(key, w) {
            Ok(fmt) => fmt,
            Err(e) => return Err(e),
        };
        self.offset(Tune::From(s), row_off);
        self.reg(out, s);
        let at = numbered("at", s);
        self.starts(at.as_str(), Tune::From(s), row_off, n, RAW_UNIT);
        let head = Args::new().num(s).text(fmt).fill(
            "      var v$0: tile<f32>[1, 64] = $1_qdot_i8_t(",
        );
        self.call(head.as_str(), a, w, at.as_str(), "64");
        Ok(true)
    }

    fn proj_raw_f(
        &mut self,
        key: &ChainKey,
        s: usize,
        n: usize,
        a: Val,
        w: Val,
        out: Val,
        out_off: usize,
        width: usize,
        row_off: usize,
    ) -> (r: Result<bool, ChainError>)
        requires
            key@.wf(),
            key@.has(a),
            key@.has(w),
            key@.has(out),
            old(self).knows(key@.stages),
        ensures
            old(self).comes_to(
                final(self),
                old(self)@.proj_raw_f(key@, s, n, a, w, out, out_off, width, row_off),
                r,
            ),
    {
        self.quant(key, a, false);
        let fmt = match self.raw_weight(key, w) {
            Ok(fmt) => fmt,
            Err(e) => return Err(e),
        };
        self.given(key, out, Form::Flat);
        self.offset(Tune::From(s), row_off);
        self.offset(Tune::To(s), out_off);
        let at = numbered("at", s);
        self.starts(at.as_str(), Tune::From(s), row_off, n, RAW_UNIT);
        self.starts(numbered("to", s).as_str(), Tune::To(s), out_off, n, RAW_UNIT);
        let dst = name_string(Name::Given(out, Form::Flat));
        if width == RAW_UNIT {
            let head = Args::new().text(dst.as_str()).num(s).text(fmt).fill(
                "      $0[0 :+ 1, to$1 :+ 64] = $2_qdot_i8_t(",
            );
            self.call(head.as_str(), a, w, at.as_str(), "64");
        } else {
            let head = Args::new().num(s).text(fmt).fill(
                "      var v$0: tile<f32>[1, 64] = $1_qdot_i8_t(",
            );
            self.call(head.as_str(), a, w, at.as_str(), "64");
            let text = Args::new().text(dst.as_str()).num(s).num(width).fill(
                "      $0[0 :+ 1, to$1 :+ $2] = v$1[0 :+ 1, 0 :+ $2]\n",
            );
            self.write(text.as_str());
        }
        Ok(true)
    }

    fn swiglu(&mut self, key: &ChainKey, s: usize, g: Val, u: Val, out: Val) -> (r: Result<
        bool,
        ChainError,
    >)
        requires
            key@.wf(),
            key@.has(out),
        ensures
            old(self).comes_to(final(self), old(self)@.swiglu(key@, s, g, u, out), r),
    {
        let gs = match self.reg_at(g) {
            Some(at) => at,
            None => return Err(ChainError::ReadBeforeWrite(g)),
        };
        let us = match self.reg_at(u) {
            Some(at) => at,
            None => return Err(ChainError::ReadBeforeWrite(u)),
        };
        self.reg(out, s);
        let text = Args::new().num(s).num(key.len_of(out)).num(gs).num(us).fill(SWIGLU);
        self.write(text.as_str());
        Ok(true)
    }

    fn quant_runs(
        &mut self,
        s: usize,
        n: usize,
        h: &str,
        qs: &str,
        scales: &str,
        blocks: usize,
    )
        requires
            blocks * 32 <= usize::MAX,
        ensures
            old(self).moved(
                final(self),
                old(self)@.quant_runs(s, n, h@, qs@, scales@, blocks, blocks as nat),
            ),
    {
        let unit = numbered("u", n);
        let mut b: usize = 0;
        while b < blocks
            invariant
                b <= blocks,
                blocks * 32 <= usize::MAX,
                unit@ == "u"@ + text::decimal(n as nat),
                old(self).moved(
                    self,
                    old(self)@.quant_runs(s, n, h@, qs@, scales@, blocks, b as nat),
                ),
            decreases blocks - b,
        {
            let text = Args::new().num(s).num(b).text(h).num(b * Q8_BLOCK).text(qs).text(
                scales,
            ).text(unit.as_str()).num(blocks).fill(QUANT_RUN);
            self.write(text.as_str());
            b = b + 1;
        }
    }

    fn quant_q(&mut self, key: &ChainKey, s: usize, n: usize, h: Val, out: Val, blocks: usize) -> (r:
        Result<bool, ChainError>)
        requires
            key@.wf(),
            key@.has(h),
            key@.has(out),
            blocks * 32 <= usize::MAX,
            old(self).knows(key@.stages),
        ensures
            old(self).comes_to(final(self), old(self)@.quant_q(key@, s, n, h, out, blocks), r),
    {
        let reg = self.reg_at(h);
        if blocks > 1 {
            let hs = match reg {
                Some(at) => at,
                None => return Err(ChainError::ReadBeforeWrite(h)),
            };
            self.quant(key, out, true);
            let (qs, scales) = self.names(out, Form::Folded);
            let h_text = numbered("v", hs);
            self.quant_runs(s, n, h_text.as_str(), qs.as_str(), scales.as_str(), blocks);
            return Ok(true);
        }
        let h_text = match reg {
            Some(at) => numbered("v", at),
            None => {
                self.given(key, h, Form::Flat);
                Args::new().text(name_string(Name::Given(h, Form::Flat)).as_str()).num(n).fill(
                    "$0[0 :+ 1, u$1 * 32 :+ 32]",
                )
            },
        };
        self.quant(key, out, true);
        let (qs, scales) = self.names(out, Form::Folded);
        let text = Args::new().num(s).text(h_text.as_str()).text(qs.as_str()).text(
            scales.as_str(),
        ).text(numbered("u", n).as_str()).fill(QUANT_ONE);
        self.write(text.as_str());
        Ok(true)
    }

    fn proj_add(&mut self, key: &ChainKey, s: usize, n: usize, a: Val, w: Val, y: Val, width: usize) -> (r:
        Result<bool, ChainError>)
        requires
            key@.wf(),
            key@.has(a),
            key@.has(w),
            key@.has(y),
            old(self).knows(key@.stages),
        ensures
            old(self).comes_to(final(self), old(self)@.proj_add(key@, s, n, a, w, y, width), r),
    {
        if width % OUT_TILE != 0 {
            return Ok(false);
        }
        self.quant(key, a, false);
        if let Err(e) = self.weight(key, w) {
            return Err(e);
        }
        self.given(key, y, Form::Flat);
        self.tune_const(Tune::OutTile, OUT_TILE);
        let text = Args::new().num(s).num(n).fill("      let t$0 = u$1 * TN\n");
        self.write(text.as_str());
        let head = Args::new().text(name_string(Name::Given(y, Form::Flat)).as_str()).num(s).fill(
            "      $0[0 :+ 1, t$1 :+ TN] += qdot_t(",
        );
        self.call(head.as_str(), a, w, numbered("t", s).as_str(), "TN");
        Ok(true)
    }

    fn proj_add_raw(
        &mut self,
        key: &ChainKey,
        s: usize,
        n: usize,
        a: Val,
        w: Val,
        y: Val,
        width: usize,
    ) -> (r: Result<bool, ChainError>)
        requires
            key@.wf(),
            key@.has(a),
            key@.has(w),
            key@.has(y),
            old(self).knows(key@.stages),
        ensures
            old(self).comes_to(
                final(self),
                old(self)@.proj_add_raw(key@, s, n, a, w, y, width),
                r,
            ),
    {
        if width % RAW_UNIT != 0 {
            return Ok(false);
        }
        self.quant(key, a, false);
        let fmt = match self.raw_weight(key, w) {
            Ok(fmt) => fmt,
            Err(e) => return Err(e),
        };
        self.given(key, y, Form::Flat);
        self.tune_const(Tune::RawTile, RAW_UNIT);
        let text = Args::new().num(s).num(n).fill("      let t$0 = u$1 * RT\n");
        self.write(text.as_str());
        let head = Args::new().text(name_string(Name::Given(y, Form::Flat)).as_str()).num(s).text(
            fmt,
        ).fill("      $0[0 :+ 1, t$1 :+ RT] += $2_qdot_i8_t(");
        self.call(head.as_str(), a, w, numbered("t", s).as_str(), "RT");
        Ok(true)
    }

    fn conv(&mut self, key: &ChainKey, s: usize, n: usize) -> (r: Result<bool, ChainError>)
        requires
            key@.wf(),
            s < key@.stages.len(),
        ensures
            old(self).comes_to(final(self), old(self)@.conv(key@, s, n), r),
    {
        proof {
            lemma_stage_vals(key@, s as int);
        }
        match key.stages[s] {
            Stage::Conv {
                history,
                taps,
                out,
                heads,
                head_dim,
                kernel,
                channels,
                plane_base,
                plane_stride,
                head_stride,
                normalize,
                scale_bits,
                ..
            } => {
                self.given(key, history, Form::Grid(channels));
                self.given(key, taps, Form::Grid(channels));
                self.given(key, out, Form::Flat);
                self.tune_const(Tune::Taps(s), kernel);
                self.tune_const(Tune::HeadDim(s), head_dim);
                self.tune_const(Tune::Heads(s), heads);
                self.tune_const(Tune::PlaneStride(s), plane_stride);
                self.tune_const(Tune::HeadStride(s), head_stride);
                self.offset(Tune::PlaneBase(s), plane_base);
                let mut base = String::new();
                if plane_base != 0 {
                    base = tune_string(Tune::PlaneBase(s));
                    base.append(" + ");
                }
                let text = Args::new().num(s).text(numbered("u", n).as_str()).text(
                    base.as_str(),
                ).text(name_string(Name::Given(history, Form::Grid(channels))).as_str()).text(
                    name_string(Name::Given(taps, Form::Grid(channels))).as_str(),
                ).text(name_string(Name::Given(out, Form::Flat)).as_str()).text(
                    gains_string(s, normalize, scale_bits).as_str(),
                ).num(head_dim).fill(CONV);
                self.write(text.as_str());
                Ok(true)
            },
            _ => Ok(false),
        }
    }

    fn gates(&mut self, key: &ChainKey, s: usize, n: usize) -> (r: Result<bool, ChainError>)
        requires
            key@.wf(),
            s < key@.stages.len(),
        ensures
            old(self).comes_to(final(self), old(self)@.gates(key@, s, n), r),
    {
        proof {
            lemma_stage_vals(key@, s as int);
        }
        match key.stages[s] {
            Stage::Gates { raw, decay_at, beta_at, rate, bias, out, heads, span, .. } => {
                self.given(key, raw, Form::Flat);
                self.given(key, rate, Form::Flat);
                self.given(key, bias, Form::Flat);
                self.given(key, out, Form::Flat);
                self.tune_const(Tune::GateHeads(s), heads);
                let text = Args::new().num(s).text(numbered("u", n).as_str()).text(
                    name_string(Name::Given(raw, Form::Flat)).as_str(),
                ).text(name_string(Name::Given(rate, Form::Flat)).as_str()).text(
                    name_string(Name::Given(bias, Form::Flat)).as_str(),
                ).text(name_string(Name::Given(out, Form::Flat)).as_str()).num(decay_at).num(
                    beta_at,
                ).num(3 * span).num(3 * span + heads).fill(GATES);
                self.write(text.as_str());
                Ok(true)
            },
            _ => Ok(false),
        }
    }

    fn unit_stage(&mut self, key: &ChainKey, s: usize, n: usize) -> (r: Result<bool, ChainError>)
        requires
            key@.wf(),
            s < key@.stages.len(),
            old(self).knows(key@.stages),
        ensures
            old(self).comes_to(final(self), old(self)@.unit_stage(key@, s, n), r),
    {
        proof {
            reveal(Draft::unit_stage);
            lemma_stage_vals(key@, s as int);
        }
        match key.stages[s] {
            Stage::NormQ { .. } => Ok(false),
            Stage::ProjQ { a, w, out, row_off, .. } => self.proj_q(key, s, n, a, w, out, row_off),
            Stage::ProjF { a, w, out, out_off, row_off, .. } => {
                self.proj_f(key, s, n, a, w, out, out_off, row_off)
            },
            Stage::ProjRaw { a, w, out, row_off, .. } => {
                self.proj_raw(key, s, n, a, w, out, row_off)
            },
            Stage::ProjRawF { a, w, out, out_off, width, row_off, .. } => {
                self.proj_raw_f(key, s, n, a, w, out, out_off, width, row_off)
            },
            Stage::Swiglu { g, u, out } => self.swiglu(key, s, g, u, out),
            Stage::QuantQ { h, out, blocks, .. } => self.quant_q(key, s, n, h, out, blocks),
            Stage::ProjAdd { a, w, y, width } => self.proj_add(key, s, n, a, w, y, width),
            Stage::ProjAddRaw { a, w, y, width } => self.proj_add_raw(key, s, n, a, w, y, width),
            Stage::Conv { .. } => self.conv(key, s, n),
            Stage::Gates { .. } => self.gates(key, s, n),
        }
    }
}

proof fn lemma_runs_keep_barriers(
    d: Draft,
    s: usize,
    n: usize,
    h: Seq<char>,
    qs: Seq<char>,
    scales: Seq<char>,
    blocks: usize,
    b: nat,
)
    ensures
        d.quant_runs(s, n, h, qs, scales, blocks, b).barriers == d.barriers,
    decreases b,
{
    if b > 0 {
        lemma_runs_keep_barriers(d, s, n, h, qs, scales, blocks, (b - 1) as nat);
    }
}

/// A stage's own emission adds no barrier.
pub proof fn lemma_unit_keeps_barriers(d: Draft, shape: Shape, s: usize, n: usize)
    ensures
        d.unit_stage(shape, s, n) matches Step::Emitted(after) ==> after.barriers == d.barriers,
        d.norm(shape, s) matches Step::Emitted(after) ==> after.barriers == d.barriers,
{
    reveal(Draft::unit_stage);
    reveal(Draft::norm);
    if let Stage::QuantQ { h, out, blocks, .. } = shape.stages[s as int] {
        if blocks > 1 && reg_of(d.regs, h) is Some {
            let at = d.quant(shape, out, true);
            let (qs, scales) = at.names(out, Form::Folded);
            lemma_runs_keep_barriers(
                at,
                s,
                n,
                "v"@ + text::decimal(reg_of(d.regs, h)->0 as nat),
                qs,
                scales,
                blocks,
                blocks as nat,
            );
        }
    }
}

/// An emission that stopped stays where it stopped.
pub proof fn lemma_stopped(shape: Shape, s: nat, t: nat)
    requires
        s <= t,
        !(emitted(shape, s) is Emitted),
    ensures
        emitted(shape, t) == emitted(shape, s),
    decreases t,
{
    if s < t {
        lemma_stopped(shape, s, (t - 1) as nat);
    }
}

impl Emit {
    /// Ahead of a nest's first stage: the previous nest closed, a barrier where
    /// one is due, the loop opened.
    fn enter(&mut self, key: &ChainKey, judged: &Judgement, s: usize)
        requires
            key@.wf(),
            judged.judges(key@.stages),
            s < key@.stages.len(),
            old(self)@.barriers <= s,
        ensures
            old(self).moved(final(self), old(self)@.enter(key@, s)),
            final(self)@.barriers <= s + 1,
    {
        proof {
            reveal(Draft::enter);
        }
        let count = key.stages.len();
        let n = judged.nest_of[s];
        if s > 0 {
            if let Part::Units(_) = judged.parts[s - 1] {
                self.write(NEST_CLOSE);
            }
        }
        proof {
            nests::lemma_nest_bound(key@.stages, s as int);
            let stages = key@.stages;
            if judged.barriers@[n as int] {
                let t = choose|t: int|
                    0 <= t < stages.len() && nests::nest_of(stages, t) == n && #[trigger] nests::waits(
                        stages,
                        t,
                    );
                assert(nests::barrier_before(stages, n as nat));
            }
            if nests::barrier_before(stages, n as nat) {
                let t = choose|t: int|
                    0 <= t < stages.len() && nests::nest_of(stages, t) == n && #[trigger] nests::waits(
                        stages,
                        t,
                    );
                assert(judged.barriers@[n as int]);
            }
        }
        if judged.barriers[n] {
            self.barrier();
        }
        if let Part::Units(units) = judged.parts[s] {
            self.open_nest(key, n, units);
        }
    }

    fn stage(&mut self, key: &ChainKey, judged: &Judgement, s: usize) -> (r: Result<
        bool,
        ChainError,
    >)
        requires
            key@.wf(),
            judged.judges(key@.stages),
            s < key@.stages.len(),
            old(self)@.barriers <= s,
            old(self).knows(key@.stages),
        ensures
            old(self).comes_to(final(self), old(self)@.stage(key@, s), r),
            r == Ok::<bool, ChainError>(true) ==> final(self)@.barriers <= s + 1,
    {
        proof {
            reveal(Draft::stage);
            nests::lemma_nest_bound(key@.stages, s as int);
        }
        let count = key.stages.len();
        let n = judged.nest_of[s];
        assert(key@.stage_wf(key@.stages[s as int]));
        let first = s == 0 || judged.nest_of[s] != judged.nest_of[s - 1];
        assert(first == nests::opens(key@.stages, s as int));
        if first {
            self.enter(key, judged, s);
        }
        proof {
            lemma_unit_keeps_barriers(self@, key@, s, n);
        }
        if let Part::Whole(_) = judged.parts[s] {
            if s < count - 1 {
                assert(key@.stage_wf(key@.stages[s + 1]));
                if key.stages[s + 1].part() == Part::Inherit {
                    return Err(ChainError::SharesWholeRow);
                }
            }
            self.norm(key, s)
        } else {
            self.unit_stage(key, s, n)
        }
    }

    fn tune_list(&self) -> (text: String)
        ensures
            text@ == self@.tune_list(),
    {
        let ghost f = |t: (Tune, usize)|
            text::filled("$0 in [$1]"@, seq![tune_text(t.0), text::decimal(t.1 as nat)]);
        let mut text = String::new();
        let mut i: usize = 0;
        while i < self.tune.len()
            invariant
                i <= self.tune@.len(),
                f == (|t: (Tune, usize)|
                    text::filled("$0 in [$1]"@, seq![tune_text(t.0), text::decimal(t.1 as nat)])),
                text@ == joined(self.tune@.take(i as int).map_values(f), ", "@),
            decreases self.tune@.len() - i,
        {
            let (name, value) = self.tune[i];
            let item = Args::new().text(tune_string(name).as_str()).num(value).fill("$0 in [$1]");
            proof {
                let next = self.tune@.take(i + 1).map_values(f);
                assert(next.drop_last() =~= self.tune@.take(i as int).map_values(f));
                assert(next.last() == f(self.tune@[i as int]));
                assert(item@ == f(self.tune@[i as int]));
            }
            if i > 0 {
                text.append(", ");
            }
            let ghost before = text@;
            text.append(item.as_str());
            assert(i == 0 ==> text@ =~= item@);
            i = i + 1;
        }
        assert(self.tune@.take(self.tune@.len() as int) =~= self.tune@);
        text
    }

    fn param_list(&self) -> (text: String)
        ensures
            text@ == self@.param_list(),
    {
        let ghost f = |p: Param| param_text(p);
        let mut text = String::new();
        let mut i: usize = 0;
        while i < self.params.len()
            invariant
                i <= self.params@.len(),
                f == (|p: Param| param_text(p)),
                text@ == joined(self.params@.take(i as int).map_values(f), ",\n             "@),
            decreases self.params@.len() - i,
        {
            let param = self.params[i];
            let item = Args::new().text(name_string(param.name).as_str()).text(
                type_str(param.name),
            ).num(param.rows).num(param.cols).fill("$0: tensor<$1>[$2, $3]");
            proof {
                let next = self.params@.take(i + 1).map_values(f);
                assert(next.drop_last() =~= self.params@.take(i as int).map_values(f));
                assert(next.last() == f(self.params@[i as int]));
                assert(item@ == f(self.params@[i as int]));
            }
            if i > 0 {
                text.append(",\n             ");
            }
            text.append(item.as_str());
            assert(i == 0 ==> text@ =~= item@);
            i = i + 1;
        }
        assert(self.params@.take(self.params@.len() as int) =~= self.params@);
        text
    }

    fn finish(self, blocks: u32) -> (plan: Plan)
        ensures
            carries(plan, self@, blocks),
    {
        let launch = if self.raw {
            "256, 2"
        } else {
            "256"
        };
        let source = Args::new().text(launch).text(self.tune_list().as_str()).text(
            self.param_list().as_str(),
        ).text(self.decls.as_str()).text(self.body.as_str()).fill(KERNEL);
        let mut slots: Vec<Slot> = Vec::new();
        let mut i: usize = 0;
        while i < self.params.len()
            invariant
                i <= self.params@.len(),
                slots@.len() == i,
                forall|j: int|
                    0 <= j < i ==> {
                        &&& (#[trigger] slots@[j]).bound == self.params@[j].bound
                        &&& slots@[j].dims@ == seq![
                            self.params@[j].rows as i64,
                            self.params@[j].cols as i64,
                        ]
                    },
            decreases self.params@.len() - i,
        {
            let param = self.params[i];
            let dims: [i64; 2] = [param.rows as i64, param.cols as i64];
            assert(dims@ =~= seq![param.rows as i64, param.cols as i64]);
            slots.push(Slot { bound: param.bound, dims });
            i = i + 1;
        }
        Plan {
            source,
            held: self.shared.len(),
            slots,
            scratch: self.scratch,
            blocks,
            barriers: self.barriers,
        }
    }
}

impl ChainKey {
    /// Groups the stages into nests, decides where a barrier is genuinely
    /// required, and emits the kernel.
    ///
    /// `Ok(None)` means the pass has no fused form for this chain and the
    /// caller should run the stages as separate launches. An `Err` is a
    /// malformed chain, which is a mistake of whoever recorded it.
    pub fn plan(&self) -> (r: Result<Option<Plan>, ChainError>)
        requires
            self@.wf(),
        ensures
            match planned(self@) {
                Step::Failed(e) => r == Err::<Option<Plan>, ChainError>(e),
                Step::Declined => r is Ok && r->Ok_0 is None,
                Step::Emitted(d) => r is Ok && r->Ok_0 is Some && carries(
                    r->Ok_0->0,
                    d,
                    self@.blocks,
                ),
            },
    {
        if self.stages.len() > 0 {
            assert(self@.stage_wf(self@.stages[0]));
            if self.stages[0].part() == Part::Inherit {
                return Err(ChainError::StartsElementwise);
            }
        }
        let judged = match self.judge() {
            Some(judged) => judged,
            None => return Ok(None),
        };
        let mut redundant: Vec<Val> = Vec::new();
        let mut i: usize = 0;
        while i < judged.redundant.len()
            invariant
                i <= judged.redundant@.len(),
                redundant@ == judged.redundant@.take(i as int),
            decreases judged.redundant@.len() - i,
        {
            redundant.push(judged.redundant[i]);
            i = i + 1;
        }
        assert(redundant@ =~= judged.redundant@);
        let mut emit = Emit::new(self.blocks, redundant);
        proof {
            assert forall|val: Val| #[trigger] emit.redundant@.contains(val) <==> nests::is_redundant(
                self@.stages,
                val,
            ) by {
                assert(judged.redundant@.contains(val) == emit.redundant@.contains(val));
            }
        }
        let mut s: usize = 0;
        while s < self.stages.len()
            invariant
                s <= self@.stages.len(),
                self@.wf(),
                judged.judges(self@.stages),
                emit.knows(self@.stages),
                emit@.barriers <= s,
                emitted(self@, s as nat) == Step::Emitted(emit@),
                planned(self@) == whole_kernel(self@),
            decreases self@.stages.len() - s,
        {
            let done = emit.stage(self, &judged, s);
            assert(emitted(self@, (s + 1) as nat) == (match emitted(self@, s as nat) {
                Step::Emitted(d) => d.stage(self@, s),
                other => other,
            }));
            match done {
                Err(e) => {
                    proof {
                        lemma_stopped(self@, (s + 1) as nat, self@.stages.len());
                    }
                    return Err(e);
                },
                Ok(false) => {
                    proof {
                        lemma_stopped(self@, (s + 1) as nat, self@.stages.len());
                    }
                    return Ok(None);
                },
                Ok(true) => {},
            }
            s = s + 1;
        }
        if self.stages.len() > 0 {
            if let Part::Units(_) = judged.parts[self.stages.len() - 1] {
                emit.write(NEST_CLOSE);
            }
        }
        Ok(Some(emit.finish(self.blocks)))
    }
}

/// Every value a stage names was recorded, and its offsets can be counted.
proof fn lemma_stage_vals(shape: Shape, s: int)
    requires
        shape.wf(),
        0 <= s < shape.stages.len(),
    ensures
        super::stage_fits(shape.stages[s]),
        match shape.stages[s] {
            Stage::NormQ { x, gain, out, .. } => shape.has(x) && shape.has(gain) && shape.has(out),
            Stage::ProjQ { a, w, out, .. } => shape.has(a) && shape.has(w) && shape.has(out),
            Stage::ProjF { a, w, out, .. } => shape.has(a) && shape.has(w) && shape.has(out),
            Stage::ProjRaw { a, w, out, .. } => shape.has(a) && shape.has(w) && shape.has(out),
            Stage::ProjRawF { a, w, out, .. } => shape.has(a) && shape.has(w) && shape.has(out),
            Stage::Swiglu { g, u, out } => shape.has(g) && shape.has(u) && shape.has(out),
            Stage::QuantQ { h, out, .. } => shape.has(h) && shape.has(out),
            Stage::ProjAdd { a, w, y, .. } => shape.has(a) && shape.has(w) && shape.has(y),
            Stage::ProjAddRaw { a, w, y, .. } => shape.has(a) && shape.has(w) && shape.has(y),
            Stage::Conv { history, taps, out, .. } => shape.has(history) && shape.has(taps)
                && shape.has(out),
            Stage::Gates { raw, rate, bias, out, .. } => shape.has(raw) && shape.has(rate)
                && shape.has(bias) && shape.has(out),
        },
{
    let stage = shape.stages[s];
    assert(shape.stage_wf(stage));
    let reads = super::reads_of(stage);
    if reads.len() > 0 {
        assert(shape.has(reads[0].0));
    }
    if reads.len() > 1 {
        assert(shape.has(reads[1].0));
    }
    if reads.len() > 2 {
        assert(shape.has(reads[2].0));
    }
}

fn gains_string(s: usize, normalize: bool, scale_bits: u32) -> (text: String)
    ensures
        text@ == gains_text(s, normalize, scale_bits),
{
    let scale = fixed_text(scale_bits, 9);
    if normalize {
        let norm = Args::new().num(s).fill(CONV_NORM);
        let mut query = scale;
        query.append(" / ");
        query.append(norm.as_str());
        let mut other = "1.0 / ".to_owned();
        other.append(norm.as_str());
        let mut text = Args::new().num(s).text("0").text(query.as_str()).fill(CONV_GAIN);
        let second = Args::new().num(s).text("1").text(other.as_str()).fill(CONV_GAIN);
        text.append(second.as_str());
        text
    } else {
        Args::new().num(s).text("0").text(scale.as_str()).fill(CONV_GAIN)
    }
}

/// `units` shared out `blocks` at a time, the last share perhaps short.
fn ceil_div(units: usize, blocks: usize) -> (turns: usize)
    requires
        blocks > 0,
    ensures
        turns == (units + blocks - 1) / blocks as int,
{
    let whole: usize = units / blocks;
    let rest: usize = units % blocks;
    proof {
        vstd::arithmetic::div_mod::lemma_fundamental_div_mod(units as int, blocks as int);
        let q = if rest == 0 {
            whole as int
        } else {
            whole + 1
        };
        let r = units + blocks - 1 - q * blocks;
        assert(q * blocks == whole * blocks + (if rest == 0 {
            0int
        } else {
            blocks as int
        })) by (nonlinear_arith)
            requires
                rest == 0 ==> q == whole,
                rest != 0 ==> q == whole + 1,
        ;
        assert(whole * blocks == blocks * whole) by (nonlinear_arith);
        vstd::arithmetic::div_mod::lemma_fundamental_div_mod_converse(
            units + blocks - 1,
            blocks as int,
            q,
            r,
        );
    }
    if rest == 0 {
        whole
    } else {
        assert(whole < usize::MAX) by (nonlinear_arith)
            requires
                whole == units / blocks,
                rest == units % blocks,
                rest > 0,
                blocks > 0,
                units <= usize::MAX,
        ;
        whole + 1
    }
}

/// Whether a list holds a value.
fn has_val(vals: &Vec<Val>, val: Val) -> (yes: bool)
    ensures
        yes == vals@.contains(val),
{
    let mut i: usize = 0;
    while i < vals.len()
        invariant
            i <= vals@.len(),
            forall|j: int| 0 <= j < i ==> #[trigger] vals@[j] != val,
        decreases vals@.len() - i,
    {
        if vals[i] == val {
            return true;
        }
        i = i + 1;
    }
    false
}

} // verus!
