//! What a projection asks of the card: kernels launched over operands, and the
//! scratch between them.

use vstd::prelude::*;

use crate::backend::device::kernels::matmul::RowsKernel;
use crate::quant::{self, Quant};

verus! {

/// A lookup table a raw format's kernel reads.
#[derive(Clone, Copy, PartialEq, Eq, Structural, Debug, Hash)]
pub enum Table {
    /// IQ1_S's grid: a word a slot, a byte a slot, a nibble a slot, and with
    /// both signs laid out.
    Iq1sGrid,
    Iq1sGridPacked,
    Iq1Grid4,
    Iq1sSignedGrid,
    Iq2xxsGrid,
    Iq2xxsGridPacked,
    Iq2xxsSigns,
    Iq2xxsSignsPacked,
    Iq2sGrid,
    Iq2sGridPacked,
    Iq2sSigns,
    Iq2sSignsPacked,
    Iq2xsGrid,
    Iq2xsGridPacked,
    Iq3xxsGrid,
    Iq3xxsGridPacked,
    Iq3sGrid,
    Iq3sGridPacked,
    Iq4xsCodebook,
    /// `0` to `7`, the offsets of a lane.
    Iota8,
}

/// What an operand lies in.
#[derive(Clone, Copy, PartialEq, Eq, Structural, Debug, Hash)]
pub enum Place {
    /// The activation, in single precision.
    Input,
    /// Its quantized copy and that copy's scales.
    Act,
    ActScales,
    /// A weight in single precision.
    Dense,
    /// A Q8_0 weight, its scales block by output and output by block.
    Weight,
    Scales,
    RowScales,
    /// A raw weight's block bytes, scale plane and minimum plane.
    Bytes,
    Headers,
    Minima,
    Table(Table),
    /// A normalization's gain.
    Gain,
    /// Partial sums of a split, and the padded output of a ragged one.
    Partials,
    Padded,
    Out,
}

/// Bytes one element of a place takes.
pub open spec fn element_size(place: Place) -> nat {
    match place {
        Place::Act | Place::Weight | Place::Bytes => 1,
        Place::Headers | Place::Minima => 2,
        Place::Table(table) => match table {
            Table::Iq1sGrid
            | Table::Iq2xxsGrid
            | Table::Iq2xxsSigns
            | Table::Iq2sGrid
            | Table::Iq2sSigns
            | Table::Iq2xsGrid
            | Table::Iq3xxsGrid
            | Table::Iq3sGrid
            | Table::Iq4xsCodebook
            | Table::Iota8 => 4,
            _ => 1,
        },
        _ => 4,
    }
}

impl Place {
    pub fn element_bytes(self) -> (bytes: usize)
        ensures
            bytes == element_size(self),
    {
        match self {
            Place::Act | Place::Weight | Place::Bytes => 1,
            Place::Headers | Place::Minima => 2,
            Place::Table(table) => match table {
                Table::Iq1sGrid
                | Table::Iq2xxsGrid
                | Table::Iq2xxsSigns
                | Table::Iq2sGrid
                | Table::Iq2sSigns
                | Table::Iq2xsGrid
                | Table::Iq3xxsGrid
                | Table::Iq3sGrid
                | Table::Iq4xsCodebook
                | Table::Iota8 => 4,
                _ => 1,
            },
            _ => 4,
        }
    }
}

/// A matrix a kernel is handed: where it lies, how many elements in, and its
/// extents.
#[derive(Clone, Copy, PartialEq, Eq, Structural, Debug)]
pub struct Operand {
    pub place: Place,
    pub skip: usize,
    pub rows: usize,
    pub cols: usize,
}

/// A matrix from the start of a place.
pub open spec fn whole(place: Place, rows: int, cols: int) -> Operand {
    Operand { place, skip: 0, rows: rows as usize, cols: cols as usize }
}

/// A matrix some elements into a place.
pub open spec fn part(place: Place, skip: int, rows: int, cols: int) -> Operand {
    Operand { place, skip: skip as usize, rows: rows as usize, cols: cols as usize }
}

pub fn operand(place: Place, skip: usize, rows: usize, cols: usize) -> (o: Operand)
    ensures
        o == (Operand { place, skip, rows, cols }),
{
    Operand { place, skip, rows, cols }
}

/// A kernel, by the source and the tile it is compiled for.
#[derive(Clone, Copy, PartialEq, Eq, Structural, Debug, Hash)]
pub enum Kernel {
    /// Dense: the tensor-core tile, the plain one, and the single row whole and
    /// split. A variant whose extents divide its tile evenly skips its masks.
    MatmulTc,
    Matmul { even: bool },
    Matvec { even: bool },
    MatvecSplit { even: bool },
    /// Row-major.
    Rows { kernel: RowsKernel },
    RowsSplit { kernel: RowsKernel },
    /// Q8_0.
    Q8Qmma,
    Q8QmmaDeep { wide: usize },
    Q8QmmaNarrow { tn: usize },
    Q8QmmaSplit { wide: usize, k: usize, splits: usize },
    Q8QmmaReduce { wide: usize, k: usize, splits: usize },
    Q8Mma { even: bool },
    Q8Dp4a { even: bool },
    Q8Qdot { accumulate: bool },
    Q8QdotPersist { accumulate: bool },
    Q8Split { even: bool },
    Q8Reduce { even: bool },
    /// Raw formats: masked, for whole tiles, against a quantized activation, and
    /// the fused prompt projection.
    RawMatvec { quant: Quant },
    RawQdot { quant: Quant },
    RawI8 { quant: Quant, narrow: bool },
    RawQmma { quant: Quant },
    Quantize { wide: bool },
    Norm { width: usize, eps_bits: u32 },
    NormQ { width: usize, eps_bits: u32 },
}

/// The stem of a raw format's kernels. One with none here goes by its name.
pub open spec fn raw_stem(quant: Quant) -> Seq<char> {
    match quant {
        Quant::Q8_0 => "q8"@,
        Quant::Q2_K => "q2k"@,
        Quant::Q3_K => "q3k"@,
        Quant::Q4_K => "q4k"@,
        Quant::Q5_K => "q5k"@,
        Quant::Q6_K => "q6k"@,
        Quant::IQ1_S => "iq1s"@,
        Quant::IQ1_M => "iq1m"@,
        Quant::IQ2_XXS => "iq2xxs"@,
        Quant::IQ2_XS => "iq2xs"@,
        Quant::IQ2_S => "iq2s"@,
        Quant::IQ3_XXS => "iq3xxs"@,
        Quant::IQ3_S => "iq3s"@,
        Quant::IQ4_XS => "iq4xs"@,
        Quant::PTQ1_0(_) => quant::name_of(quant),
        Quant::Other(..) => quant::name_of(quant),
    }
}

/// The name a kernel has in its source.
pub open spec fn kernel_name(kernel: Kernel) -> Seq<char> {
    match kernel {
        Kernel::MatmulTc => "matmul_tc"@,
        Kernel::Matmul { .. } => "matmul"@,
        Kernel::Matvec { .. } => "matvec"@,
        Kernel::MatvecSplit { .. } => "matvec_split"@,
        Kernel::Rows { kernel: RowsKernel::Blocks { .. } } => "matvec_blocks"@,
        Kernel::Rows { .. } => "matmul_rows"@,
        Kernel::RowsSplit { .. } => "matmul_rows_split"@,
        Kernel::Q8Qmma | Kernel::Q8QmmaDeep { .. } | Kernel::Q8QmmaNarrow { .. } => "q8_qmma"@,
        Kernel::Q8QmmaSplit { .. } => "q8_qmma_split"@,
        Kernel::Q8QmmaReduce { .. } => "q8_qmma_reduce"@,
        Kernel::Q8Mma { .. } => "q8_mma"@,
        Kernel::Q8Dp4a { .. } => "q8_dp4a"@,
        Kernel::Q8Qdot { accumulate } => if accumulate {
            "q8_qdot_add"@
        } else {
            "q8_qdot"@
        },
        Kernel::Q8QdotPersist { accumulate } => if accumulate {
            "q8_qdot_persist_add"@
        } else {
            "q8_qdot_persist"@
        },
        Kernel::Q8Split { .. } => "q8_split"@,
        Kernel::Q8Reduce { .. } => "q8_reduce"@,
        Kernel::RawMatvec { quant } => raw_stem(quant) + "_matvec"@,
        Kernel::RawQdot { quant } => raw_stem(quant) + "_qdot_matvec"@,
        Kernel::RawI8 { quant, .. } => raw_stem(quant) + "_qdot_i8_matvec"@,
        Kernel::RawQmma { quant } => raw_stem(quant) + "_qmma"@,
        Kernel::Quantize { .. } => "quantize"@,
        Kernel::Norm { .. } => "rms_norm"@,
        Kernel::NormQ { .. } => "rms_norm_q"@,
    }
}

fn stem(quant: Quant) -> (s: String)
    ensures
        s@ == raw_stem(quant),
{
    match quant {
        Quant::Q8_0 => "q8".to_owned(),
        Quant::Q2_K => "q2k".to_owned(),
        Quant::Q3_K => "q3k".to_owned(),
        Quant::Q4_K => "q4k".to_owned(),
        Quant::Q5_K => "q5k".to_owned(),
        Quant::Q6_K => "q6k".to_owned(),
        Quant::IQ1_S => "iq1s".to_owned(),
        Quant::IQ1_M => "iq1m".to_owned(),
        Quant::IQ2_XXS => "iq2xxs".to_owned(),
        Quant::IQ2_XS => "iq2xs".to_owned(),
        Quant::IQ2_S => "iq2s".to_owned(),
        Quant::IQ3_XXS => "iq3xxs".to_owned(),
        Quant::IQ3_S => "iq3s".to_owned(),
        Quant::IQ4_XS => "iq4xs".to_owned(),
        Quant::PTQ1_0(_) | Quant::Other(..) => quant.name(),
    }
}

impl Kernel {
    /// The kernel's name.
    pub fn name(self) -> (s: String)
        ensures
            s@ == kernel_name(self),
    {
        match self {
            Kernel::MatmulTc => "matmul_tc".to_owned(),
            Kernel::Matmul { .. } => "matmul".to_owned(),
            Kernel::Matvec { .. } => "matvec".to_owned(),
            Kernel::MatvecSplit { .. } => "matvec_split".to_owned(),
            Kernel::Rows { kernel } => match kernel {
                RowsKernel::Blocks { .. } => "matvec_blocks".to_owned(),
                RowsKernel::Tiles { .. } => "matmul_rows".to_owned(),
            },
            Kernel::RowsSplit { .. } => "matmul_rows_split".to_owned(),
            Kernel::Q8Qmma | Kernel::Q8QmmaDeep { .. } | Kernel::Q8QmmaNarrow {
                ..
            } => "q8_qmma".to_owned(),
            Kernel::Q8QmmaSplit { .. } => "q8_qmma_split".to_owned(),
            Kernel::Q8QmmaReduce { .. } => "q8_qmma_reduce".to_owned(),
            Kernel::Q8Mma { .. } => "q8_mma".to_owned(),
            Kernel::Q8Dp4a { .. } => "q8_dp4a".to_owned(),
            Kernel::Q8Qdot { accumulate } => if accumulate {
                "q8_qdot_add".to_owned()
            } else {
                "q8_qdot".to_owned()
            },
            Kernel::Q8QdotPersist { accumulate } => if accumulate {
                "q8_qdot_persist_add".to_owned()
            } else {
                "q8_qdot_persist".to_owned()
            },
            Kernel::Q8Split { .. } => "q8_split".to_owned(),
            Kernel::Q8Reduce { .. } => "q8_reduce".to_owned(),
            Kernel::RawMatvec { quant } => crate::text::joined(stem(quant).as_str(), "_matvec"),
            Kernel::RawQdot { quant } => crate::text::joined(stem(quant).as_str(), "_qdot_matvec"),
            Kernel::RawI8 { quant, .. } => crate::text::joined(stem(quant).as_str(), "_qdot_i8_matvec"),
            Kernel::RawQmma { quant } => crate::text::joined(stem(quant).as_str(), "_qmma"),
            Kernel::Quantize { .. } => "quantize".to_owned(),
            Kernel::Norm { .. } => "rms_norm".to_owned(),
            Kernel::NormQ { .. } => "rms_norm_q".to_owned(),
        }
    }
}

/// One thing a projection has the card do.
pub enum Step {
    Launch { kernel: Kernel, operands: Vec<Operand>, grid: (usize, usize, usize) },
    /// Quantize rows of the activation, `rows` of `k`, in a slot of its own or
    /// one that only this projection reads.
    Quantize { rows: usize, k: usize, transient: bool },
    /// Scratch for partial sums, and for a padded output row.
    Partials { len: usize },
    Pad { len: usize },
    /// The head of the padded row into the output.
    Unpad { padded: usize, width: usize },
    /// Decode the weight and multiply densely.
    Expand,
    /// Mark this pass as one whose slots the next pass gives back.
    GiveBack,
}

/// A step, as contracts speak of it.
#[verifier::ext_equal]
pub ghost enum Act {
    Launch { kernel: Kernel, operands: Seq<Operand>, grid: (nat, nat, nat) },
    Quantize { rows: nat, k: nat, transient: bool },
    Partials { len: nat },
    Pad { len: nat },
    Unpad { padded: nat, width: nat },
    Expand,
    GiveBack,
}

impl View for Step {
    type V = Act;

    open spec fn view(&self) -> Act {
        match *self {
            Step::Launch { kernel, operands, grid } => Act::Launch {
                kernel,
                operands: operands@,
                grid: (grid.0 as nat, grid.1 as nat, grid.2 as nat),
            },
            Step::Quantize { rows, k, transient } => Act::Quantize {
                rows: rows as nat,
                k: k as nat,
                transient,
            },
            Step::Partials { len } => Act::Partials { len: len as nat },
            Step::Pad { len } => Act::Pad { len: len as nat },
            Step::Unpad { padded, width } => Act::Unpad {
                padded: padded as nat,
                width: width as nat,
            },
            Step::Expand => Act::Expand,
            Step::GiveBack => Act::GiveBack,
        }
    }
}

/// The steps of a projection, in order.
pub struct Steps {
    pub list: Vec<Step>,
}

impl View for Steps {
    type V = Seq<Act>;

    open spec fn view(&self) -> Seq<Act> {
        self.list@.map_values(|s: Step| s@)
    }
}

impl Steps {
    pub fn new() -> (steps: Steps)
        ensures
            steps@ == Seq::<Act>::empty(),
    {
        let steps = Steps { list: Vec::new() };
        assert(steps@ =~= Seq::empty());
        steps
    }

    pub fn push(&mut self, step: Step)
        ensures
            final(self)@ == old(self)@.push(step@),
    {
        let ghost before = self@;
        self.list.push(step);
        assert(self@ =~= before.push(step@));
    }

    pub fn launch(&mut self, kernel: Kernel, operands: Vec<Operand>, x: usize, y: usize, z: usize)
        ensures
            final(self)@ == old(self)@.push(
                Act::Launch { kernel, operands: operands@, grid: (x as nat, y as nat, z as nat) },
            ),
    {
        self.push(Step::Launch { kernel, operands, grid: (x, y, z) });
    }
}

/// A number of tiles that covers a length.
pub open spec fn tiles(len: nat, tile: nat) -> nat {
    if len % tile == 0 {
        len / tile
    } else {
        len / tile + 1
    }
}

/// How many tiles cover a length.
pub fn div_up(len: usize, tile: usize) -> (n: usize)
    requires
        tile > 0,
    ensures
        n == tiles(len as nat, tile as nat),
        n <= len,
{
    proof {
        vstd::arithmetic::div_mod::lemma_fundamental_div_mod(len as int, tile as int);
        let q = len as int / tile as int;
        let r = len as int % tile as int;
        vstd::arithmetic::div_mod::lemma_div_pos_is_pos(len as int, tile as int);
        assert(q <= len && (r > 0 ==> q < len)) by (nonlinear_arith)
            requires
                len == tile * q + r,
                tile >= 1,
                r >= 0,
                q >= 0,
        ;
    }
    if len % tile == 0 {
        len / tile
    } else {
        len / tile + 1
    }
}

} // verus!
