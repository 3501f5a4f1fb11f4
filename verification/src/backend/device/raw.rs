//! A raw-format weight's projection: decoded straight from the file's blocks,
//! with the kernel, its tile and its tables picked by the format.

use vstd::prelude::*;

use crate::backend::device::kernels::iq1m::IQ1M_TN;
use crate::backend::device::kernels::iq1s::{
    IQ1S_GRID_LEN, IQ1S_SIGNED_GRID_LEN, IQ1S_TN,
};
use crate::backend::device::kernels::iq2s::{IQ2S_GRID_LEN, IQ2S_SIGNS_LEN, IQ2S_TN};
use crate::backend::device::kernels::iq2xs::{IQ2XS_GRID_LEN, IQ2XS_TN};
use crate::backend::device::kernels::iq2xxs::{IQ2XXS_GRID_LEN, IQ2XXS_SIGNS_LEN, IQ2XXS_TN};
use crate::backend::device::kernels::iq3s::{IQ3S_GRID_LEN, IQ3S_TN};
use crate::backend::device::kernels::iq3xxs::{IQ3XXS_GRID_LEN, IQ3XXS_TN};
use crate::backend::device::kernels::iq4xs::{IQ4XS_CODEBOOK_LEN, IQ4XS_TN};
use crate::backend::device::kernels::q2k::Q2K_TN;
use crate::backend::device::kernels::q3k::Q3K_TN;
use crate::backend::device::kernels::qgemm::{self, IQ1_GRID4_LEN};
use crate::backend::device::plan::{
    self, div_up, operand, Act, Kernel, Operand, Place, Step, Steps, Table,
};
use crate::backend::Q8_BLOCK;
use crate::quant::{self, Quant};
use crate::text::{self, Args};

verus! {

broadcast use crate::text::lemma_filled_args;

/// The tile of an integer matvec whose wide tile does not divide the outputs.
pub const I8_NARROW_TN: usize = 16;

/// A projection of `m` rows against a raw weight, and what the card was set up
/// to do with one.
#[derive(Clone, Copy, PartialEq, Eq, Structural, Debug)]
pub struct RawCall {
    pub m: usize,
    pub k: usize,
    pub n: usize,
    pub quant: Quant,
    /// Outputs the weight was uploaded with, for a handle that is one.
    pub stored: Option<usize>,
    /// Blocks along one of its rows.
    pub blocks: usize,
    /// Whether it has a plane of minima.
    pub minima: bool,
    /// Whether the caller has the row quantized already.
    pub quantized: bool,
    /// Contract a single row against a quantized activation.
    pub dp4a: bool,
    /// The wide tile of that contraction, and the longest row a K-quant's
    /// holds.
    pub wide_tn: usize,
    pub max_k: usize,
}

/// Why a projection is refused.
#[derive(Clone, Copy, PartialEq, Eq, Structural, Debug)]
pub enum RawError {
    Unknown,
    Width { stored: usize, n: usize },
    /// A row longer than the format's decode holds.
    Long { quant: Quant, k: usize, max_k: usize },
    /// A format no raw kernel decodes.
    Format { quant: Quant },
    /// A format without a fused prompt projection.
    Unfused { quant: Quant },
}

pub const E_UNKNOWN: &'static str = "use of an unknown raw weight handle";

pub const E_WIDTH: &'static str = "raw weight was uploaded with n = $0, used with n = $1";

pub const E_LONG: &'static str = "a $0 decode matvec holds at most k = $1, got $2";

pub const E_FORMAT: &'static str = "no raw kernel launches $0";

pub const E_UNFUSED: &'static str = "project_raw_qmma has no fused kernel for $0";

impl RawError {
    /// What is wrong, in words.
    pub fn message(self) -> (s: String)
        ensures
            s@ == (match self {
                RawError::Unknown => text::filled(E_UNKNOWN@, Seq::empty()),
                RawError::Width { stored, n } => text::filled(
                    E_WIDTH@,
                    seq![text::decimal(stored as nat), text::decimal(n as nat)],
                ),
                RawError::Long { quant, k, max_k } => text::filled(
                    E_LONG@,
                    seq![
                        quant::name_of(quant),
                        text::decimal(max_k as nat),
                        text::decimal(k as nat),
                    ],
                ),
                RawError::Format { quant } => text::filled(E_FORMAT@, seq![quant::name_of(quant)]),
                RawError::Unfused { quant } => text::filled(E_UNFUSED@, seq![quant::name_of(quant)]),
            }),
    {
        match self {
            RawError::Unknown => Args::new().fill(E_UNKNOWN),
            RawError::Width { stored, n } => Args::new().num(stored).num(n).fill(E_WIDTH),
            RawError::Long { quant, k, max_k } => Args::new().text(quant.name().as_str()).num(max_k).num(
                k,
            ).fill(E_LONG),
            RawError::Format { quant } => Args::new().text(quant.name().as_str()).fill(E_FORMAT),
            RawError::Unfused { quant } => Args::new().text(quant.name().as_str()).fill(E_UNFUSED),
        }
    }
}

/// A K-quant, which has no other path: a ragged width runs padded.
pub open spec fn is_kquant(quant: Quant) -> bool {
    quant == Quant::Q4_K || quant == Quant::Q5_K || quant == Quant::Q6_K
}

/// Whether a format has an integer matvec.
pub open spec fn has_i8(quant: Quant) -> bool {
    match quant {
        Quant::IQ1_S
        | Quant::IQ1_M
        | Quant::IQ2_XXS
        | Quant::IQ2_S
        | Quant::IQ2_XS
        | Quant::IQ3_XXS
        | Quant::IQ3_S => true,
        _ => is_kquant(quant),
    }
}

/// Whether a call runs as the integer matvec.
pub open spec fn takes_i8(call: RawCall) -> bool {
    call.dp4a && call.m == 1 && has_i8(call.quant) && (is_kquant(call.quant) || call.n % 16 == 0)
}

/// The wide tile whenever it divides the outputs.
pub open spec fn i8_tile(call: RawCall) -> nat {
    if call.n as nat % (call.wide_tn as nat) == 0 {
        call.wide_tn as nat
    } else {
        16
    }
}

/// The outputs padded to whole tiles.
pub open spec fn padded(n: nat, tile: nat) -> nat {
    plan::tiles(n, tile) * tile
}

pub open spec fn table(table: Table, len: int) -> Operand {
    plan::whole(Place::Table(table), 1, len)
}

/// The mask half of a sign table, which sits one table past the factors.
pub open spec fn mask(table: Table, len: int) -> Operand {
    plan::part(Place::Table(table), len, 1, len)
}

/// The tables an integer matvec takes after the weight.
pub open spec fn i8_tables(quant: Quant) -> Seq<Operand> {
    match quant {
        Quant::IQ1_S | Quant::IQ1_M => seq![table(Table::Iq1Grid4, 8192)],
        Quant::IQ2_XXS => seq![
            table(Table::Iq2xxsGridPacked, 2048),
            mask(Table::Iq2xxsSignsPacked, 1024),
        ],
        Quant::IQ2_S => seq![
            table(Table::Iq2sGridPacked, 8192),
            mask(Table::Iq2sSignsPacked, 2048),
        ],
        Quant::IQ2_XS => seq![
            table(Table::Iq2xsGridPacked, 4096),
            mask(Table::Iq2xxsSignsPacked, 1024),
        ],
        Quant::IQ3_XXS => seq![
            table(Table::Iq3xxsGridPacked, 1024),
            mask(Table::Iq2xxsSignsPacked, 1024),
        ],
        Quant::IQ3_S => seq![
            table(Table::Iq3sGridPacked, 2048),
            mask(Table::Iq2sSignsPacked, 2048),
        ],
        _ => Seq::empty(),
    }
}

/// The integer matvec of one row: the row quantized where the caller has not,
/// padded into scratch where the tile does not divide the outputs.
pub open spec fn i8_acts(call: RawCall) -> Seq<Act> {
    let tile = i8_tile(call);
    let wide = padded(call.n as nat, tile);
    let ragged = wide != call.n;
    let k = call.k as int;
    let row_bytes = call.blocks * quant::device_block_of(call.quant).1;
    let operands = seq![
        plan::whole(Place::Act, 1, k),
        plan::whole(Place::ActScales, 1, k / 32),
        plan::whole(Place::Bytes, wide as int, row_bytes),
        plan::whole(Place::Headers, wide as int, call.blocks as int),
    ] + i8_tables(call.quant) + seq![
        plan::whole(
            if ragged {
                Place::Padded
            } else {
                Place::Out
            },
            1,
            wide as int,
        ),
    ];
    (if call.quantized {
        Seq::empty()
    } else {
        seq![Act::Quantize { rows: 1, k: call.k as nat, transient: false }]
    }) + (if ragged {
        seq![Act::Pad { len: wide }]
    } else {
        Seq::empty()
    }) + seq![
        Act::Launch {
            kernel: Kernel::RawI8 {
                quant: call.quant,
                narrow: call.n as nat % (call.wide_tn as nat) != 0,
            },
            operands,
            grid: (plan::tiles(call.n as nat, tile), 1, 1),
        },
    ] + (if ragged {
        seq![Act::Unpad { padded: wide, width: call.n as nat }]
    } else {
        Seq::empty()
    })
}

/// Output columns of a format's float matvec, for one that has it.
pub open spec fn float_tile(quant: Quant) -> Option<nat> {
    match quant {
        Quant::Q2_K | Quant::Q3_K => Some(32),
        Quant::IQ1_S
        | Quant::IQ1_M
        | Quant::IQ2_XXS
        | Quant::IQ2_XS
        | Quant::IQ2_S
        | Quant::IQ3_XXS
        | Quant::IQ3_S
        | Quant::IQ4_XS => Some(8),
        _ => None,
    }
}

/// Whether a call runs as the format's one-statement matvec, which needs whole
/// tiles.
pub open spec fn takes_qdot(call: RawCall) -> bool {
    call.m == 1 && float_tile(call.quant) is Some && call.n as nat % float_tile(call.quant)->Some_0
        == 0
}

/// The tables a float matvec takes. The one-statement form computes its own
/// offsets; the masked one gathers through a row of them.
pub open spec fn float_tables(quant: Quant, qdot: bool) -> Seq<Operand> {
    let iota = table(Table::Iota8, 8);
    match quant {
        Quant::IQ1_S | Quant::IQ1_M => if qdot {
            seq![table(Table::Iq1sGridPacked, 16384)]
        } else {
            seq![table(Table::Iq1sGrid, 16384), iota]
        },
        Quant::IQ2_XXS => if qdot {
            seq![table(Table::Iq2xxsGridPacked, 2048), table(Table::Iq2xxsSignsPacked, 1024)]
        } else {
            seq![table(Table::Iq2xxsGrid, 2048), table(Table::Iq2xxsSigns, 1024), iota]
        },
        Quant::IQ2_S => if qdot {
            seq![table(Table::Iq2sGridPacked, 8192), table(Table::Iq2sSignsPacked, 2048)]
        } else {
            seq![table(Table::Iq2sGrid, 8192), table(Table::Iq2sSigns, 2048), iota]
        },
        Quant::IQ2_XS => if qdot {
            seq![table(Table::Iq2xsGridPacked, 4096), table(Table::Iq2xxsSignsPacked, 1024)]
        } else {
            seq![table(Table::Iq2xsGrid, 4096), table(Table::Iq2xxsSigns, 1024), iota]
        },
        Quant::IQ3_XXS => if qdot {
            seq![table(Table::Iq3xxsGridPacked, 1024), table(Table::Iq2xxsSignsPacked, 1024)]
        } else {
            seq![table(Table::Iq3xxsGrid, 1024), table(Table::Iq2xxsSigns, 1024), iota]
        },
        Quant::IQ3_S => if qdot {
            seq![table(Table::Iq3sGridPacked, 2048), table(Table::Iq2sSignsPacked, 2048)]
        } else {
            seq![table(Table::Iq3sGrid, 2048), table(Table::Iq2sSigns, 2048), iota]
        },
        Quant::IQ4_XS => seq![table(Table::Iq4xsCodebook, 16)],
        _ => Seq::empty(),
    }
}

pub open spec fn float_acts(call: RawCall) -> Seq<Act> {
    let tile = float_tile(call.quant)->Some_0;
    let qdot = takes_qdot(call);
    let n = call.n as int;
    let blocks = call.blocks as int;
    let row_bytes = blocks * quant::device_block_of(call.quant).1;
    seq![
        Act::Launch {
            kernel: if qdot {
                Kernel::RawQdot { quant: call.quant }
            } else {
                Kernel::RawMatvec { quant: call.quant }
            },
            operands: seq![
                plan::whole(Place::Input, call.m as int, call.k as int),
                plan::whole(Place::Bytes, n, row_bytes),
                plan::whole(Place::Headers, n, blocks),
            ] + (if call.minima {
                seq![plan::whole(Place::Minima, n, blocks)]
            } else {
                Seq::empty()
            }) + float_tables(call.quant, qdot) + seq![
                plan::whole(Place::Out, call.m as int, n),
            ],
            grid: (plan::tiles(call.n as nat, tile), call.m as nat, 1),
        },
    ]
}

/// What a raw projection comes to. A grouped format has no masked body, so what
/// its integer matvec does not take is expanded.
pub open spec fn raw_plan(call: RawCall) -> Result<Seq<Act>, RawError> {
    match call.stored {
        None => Err(RawError::Unknown),
        Some(stored) => if stored != call.n {
            Err(RawError::Width { stored, n: call.n })
        } else if takes_i8(call) {
            if call.k > call.max_k && (call.quant == Quant::Q4_K || call.quant == Quant::Q5_K) {
                Err(RawError::Long { quant: call.quant, k: call.k, max_k: call.max_k })
            } else {
                Ok(i8_acts(call))
            }
        } else if float_tile(call.quant) is Some {
            Ok(float_acts(call))
        } else if quant::is_grouped(call.quant) {
            Ok(seq![Act::Expand])
        } else {
            Err(RawError::Format { quant: call.quant })
        },
    }
}

/// Every extent of a projection is one a machine can count.
pub open spec fn raw_fits(call: RawCall) -> bool {
    &&& call.wide_tn > 0
    &&& call.n + call.wide_tn <= usize::MAX
    &&& call.n + 16 <= usize::MAX
    &&& call.blocks * quant::device_block_of(call.quant).1 <= usize::MAX
}

fn table_of(table: Table, len: usize) -> (o: Operand)
    ensures
        o == plan::whole(Place::Table(table), 1, len as int),
{
    operand(Place::Table(table), 0, 1, len)
}

fn mask_of(table: Table, len: usize) -> (o: Operand)
    ensures
        o == plan::part(Place::Table(table), len as int, 1, len as int),
{
    operand(Place::Table(table), len, 1, len)
}

fn i8_tables_of(quant: Quant) -> (tables: Vec<Operand>)
    ensures
        tables@ == i8_tables(quant),
{
    let mut tables: Vec<Operand> = Vec::new();
    match quant {
        Quant::IQ1_S | Quant::IQ1_M => {
            tables.push(table_of(Table::Iq1Grid4, IQ1_GRID4_LEN));
        },
        Quant::IQ2_XXS => {
            tables.push(table_of(Table::Iq2xxsGridPacked, IQ2XXS_GRID_LEN));
            tables.push(mask_of(Table::Iq2xxsSignsPacked, IQ2XXS_SIGNS_LEN));
        },
        Quant::IQ2_S => {
            tables.push(table_of(Table::Iq2sGridPacked, IQ2S_GRID_LEN));
            tables.push(mask_of(Table::Iq2sSignsPacked, IQ2S_SIGNS_LEN));
        },
        Quant::IQ2_XS => {
            tables.push(table_of(Table::Iq2xsGridPacked, IQ2XS_GRID_LEN));
            tables.push(mask_of(Table::Iq2xxsSignsPacked, IQ2XXS_SIGNS_LEN));
        },
        Quant::IQ3_XXS => {
            tables.push(table_of(Table::Iq3xxsGridPacked, IQ3XXS_GRID_LEN));
            tables.push(mask_of(Table::Iq2xxsSignsPacked, IQ2XXS_SIGNS_LEN));
        },
        Quant::IQ3_S => {
            tables.push(table_of(Table::Iq3sGridPacked, IQ3S_GRID_LEN));
            tables.push(mask_of(Table::Iq2sSignsPacked, IQ2S_SIGNS_LEN));
        },
        _ => {},
    }
    assert(tables@ =~= i8_tables(quant));
    tables
}

fn float_tables_of(quant: Quant, qdot: bool) -> (tables: Vec<Operand>)
    ensures
        tables@ == float_tables(quant, qdot),
{
    let mut tables: Vec<Operand> = Vec::new();
    match quant {
        Quant::IQ1_S | Quant::IQ1_M => {
            tables.push(
                table_of(
                    if qdot {
                        Table::Iq1sGridPacked
                    } else {
                        Table::Iq1sGrid
                    },
                    IQ1S_GRID_LEN,
                ),
            );
        },
        Quant::IQ2_XXS => {
            if qdot {
                tables.push(table_of(Table::Iq2xxsGridPacked, IQ2XXS_GRID_LEN));
                tables.push(table_of(Table::Iq2xxsSignsPacked, IQ2XXS_SIGNS_LEN));
            } else {
                tables.push(table_of(Table::Iq2xxsGrid, IQ2XXS_GRID_LEN));
                tables.push(table_of(Table::Iq2xxsSigns, IQ2XXS_SIGNS_LEN));
            }
        },
        Quant::IQ2_S => {
            if qdot {
                tables.push(table_of(Table::Iq2sGridPacked, IQ2S_GRID_LEN));
                tables.push(table_of(Table::Iq2sSignsPacked, IQ2S_SIGNS_LEN));
            } else {
                tables.push(table_of(Table::Iq2sGrid, IQ2S_GRID_LEN));
                tables.push(table_of(Table::Iq2sSigns, IQ2S_SIGNS_LEN));
            }
        },
        Quant::IQ2_XS => {
            if qdot {
                tables.push(table_of(Table::Iq2xsGridPacked, IQ2XS_GRID_LEN));
                tables.push(table_of(Table::Iq2xxsSignsPacked, IQ2XXS_SIGNS_LEN));
            } else {
                tables.push(table_of(Table::Iq2xsGrid, IQ2XS_GRID_LEN));
                tables.push(table_of(Table::Iq2xxsSigns, IQ2XXS_SIGNS_LEN));
            }
        },
        Quant::IQ3_XXS => {
            if qdot {
                tables.push(table_of(Table::Iq3xxsGridPacked, IQ3XXS_GRID_LEN));
                tables.push(table_of(Table::Iq2xxsSignsPacked, IQ2XXS_SIGNS_LEN));
            } else {
                tables.push(table_of(Table::Iq3xxsGrid, IQ3XXS_GRID_LEN));
                tables.push(table_of(Table::Iq2xxsSigns, IQ2XXS_SIGNS_LEN));
            }
        },
        Quant::IQ3_S => {
            if qdot {
                tables.push(table_of(Table::Iq3sGridPacked, IQ3S_GRID_LEN));
                tables.push(table_of(Table::Iq2sSignsPacked, IQ2S_SIGNS_LEN));
            } else {
                tables.push(table_of(Table::Iq3sGrid, IQ3S_GRID_LEN));
                tables.push(table_of(Table::Iq2sSigns, IQ2S_SIGNS_LEN));
            }
        },
        Quant::IQ4_XS => {
            tables.push(table_of(Table::Iq4xsCodebook, IQ4XS_CODEBOOK_LEN));
            assert(tables@ =~= float_tables(quant, qdot));
            return tables;
        },
        _ => {
            assert(tables@ =~= float_tables(quant, qdot));
            return tables;
        },
    }
    if !qdot {
        tables.push(table_of(Table::Iota8, 8));
    }
    assert(tables@ =~= float_tables(quant, qdot));
    tables
}

fn float_tile_of(quant: Quant) -> (tile: Option<usize>)
    ensures
        match tile {
            Some(t) => float_tile(quant) == Some(t as nat) && t > 0,
            None => float_tile(quant) is None,
        },
{
    match quant {
        Quant::Q2_K => Some(Q2K_TN),
        Quant::Q3_K => Some(Q3K_TN),
        Quant::IQ1_S => Some(IQ1S_TN),
        Quant::IQ1_M => Some(IQ1M_TN),
        Quant::IQ2_XXS => Some(IQ2XXS_TN),
        Quant::IQ2_XS => Some(IQ2XS_TN),
        Quant::IQ2_S => Some(IQ2S_TN),
        Quant::IQ3_XXS => Some(IQ3XXS_TN),
        Quant::IQ3_S => Some(IQ3S_TN),
        Quant::IQ4_XS => Some(IQ4XS_TN),
        _ => None,
    }
}

/// The integer matvec, where a call takes it: its tile.
fn i8_pick(call: RawCall) -> (tile: Option<usize>)
    requires
        raw_fits(call),
    ensures
        match tile {
            Some(t) => takes_i8(call) && t == i8_tile(call),
            None => !takes_i8(call),
        },
{
    if !call.dp4a || call.m != 1 {
        return None;
    }
    let taken = match call.quant {
        Quant::Q4_K | Quant::Q5_K | Quant::Q6_K => true,
        Quant::IQ1_S
        | Quant::IQ1_M
        | Quant::IQ2_XXS
        | Quant::IQ2_S
        | Quant::IQ2_XS
        | Quant::IQ3_XXS
        | Quant::IQ3_S => call.n % I8_NARROW_TN == 0,
        _ => false,
    };
    if !taken {
        None
    } else if call.n % call.wide_tn == 0 {
        Some(call.wide_tn)
    } else {
        Some(I8_NARROW_TN)
    }
}

/// A raw weight's projection.
pub fn project_raw(call: RawCall) -> (result: Result<Steps, RawError>)
    requires
        raw_fits(call),
    ensures
        match result {
            Ok(steps) => raw_plan(call) == Ok::<Seq<Act>, RawError>(steps@),
            Err(e) => raw_plan(call) == Err::<Seq<Act>, RawError>(e),
        },
{
    let (m, k, n) = (call.m, call.k, call.n);
    match call.stored {
        None => {
            return Err(RawError::Unknown);
        },
        Some(stored) => {
            if stored != n {
                return Err(RawError::Width { stored, n });
            }
        },
    }
    let mut steps = Steps::new();
    let width: usize = call.quant.device_block_bytes();
    assert(0 <= call.blocks * width) by (nonlinear_arith);
    let row_bytes: usize = call.blocks * width;
    if let Some(tile) = i8_pick(call) {
        let limited = call.quant == Quant::Q4_K || call.quant == Quant::Q5_K;
        if k > call.max_k && limited {
            return Err(RawError::Long { quant: call.quant, k, max_k: call.max_k });
        }
        let turns = div_up(n, tile);
        proof {
            lemma_padded(n as nat, tile as nat);
        }
        let wide: usize = turns * tile;
        let ragged = wide != n;
        if !call.quantized {
            steps.push(Step::Quantize { rows: 1, k, transient: false });
        }
        if ragged {
            steps.push(Step::Pad { len: wide });
        }
        let mut operands = vec![
            operand(Place::Act, 0, 1, k),
            operand(Place::ActScales, 0, 1, k / Q8_BLOCK),
            operand(Place::Bytes, 0, wide, row_bytes),
            operand(Place::Headers, 0, wide, call.blocks),
        ];
        let ghost front = operands@;
        let mut tables = i8_tables_of(call.quant);
        operands.append(&mut tables);
        operands.push(
            operand(
                if ragged {
                    Place::Padded
                } else {
                    Place::Out
                },
                0,
                1,
                wide,
            ),
        );
        assert(front =~= seq![
            plan::whole(Place::Act, 1, k as int),
            plan::whole(Place::ActScales, 1, k as int / 32),
            plan::whole(Place::Bytes, wide as int, row_bytes as int),
            plan::whole(Place::Headers, wide as int, call.blocks as int),
        ]);
        assert(operands@ =~= front + i8_tables(call.quant) + seq![
            plan::whole(
                if ragged {
                    Place::Padded
                } else {
                    Place::Out
                },
                1,
                wide as int,
            ),
        ]);
        steps.launch(
            Kernel::RawI8 { quant: call.quant, narrow: n % call.wide_tn != 0 },
            operands,
            turns,
            1,
            1,
        );
        if ragged {
            steps.push(Step::Unpad { padded: wide, width: n });
        }
        assert(steps@ =~= i8_acts(call));
        return Ok(steps);
    }
    let tile = match float_tile_of(call.quant) {
        Some(tile) => tile,
        None => {
            if call.quant.grouped_rows() {
                steps.push(Step::Expand);
                assert(steps@ =~= seq![Act::Expand]);
                return Ok(steps);
            }
            return Err(RawError::Format { quant: call.quant });
        },
    };
    let qdot = m == 1 && n % tile == 0;
    let mut operands = vec![
        operand(Place::Input, 0, m, k),
        operand(Place::Bytes, 0, n, row_bytes),
        operand(Place::Headers, 0, n, call.blocks),
    ];
    let ghost front = operands@;
    if call.minima {
        operands.push(operand(Place::Minima, 0, n, call.blocks));
    }
    let mut tables = float_tables_of(call.quant, qdot);
    operands.append(&mut tables);
    operands.push(operand(Place::Out, 0, m, n));
    let kernel = if qdot {
        Kernel::RawQdot { quant: call.quant }
    } else {
        Kernel::RawMatvec { quant: call.quant }
    };
    assert(front =~= seq![
        plan::whole(Place::Input, m as int, k as int),
        plan::whole(Place::Bytes, n as int, row_bytes as int),
        plan::whole(Place::Headers, n as int, call.blocks as int),
    ]);
    assert(operands@ =~= front + (if call.minima {
        seq![plan::whole(Place::Minima, n as int, call.blocks as int)]
    } else {
        Seq::empty()
    }) + float_tables(call.quant, qdot) + seq![plan::whole(Place::Out, m as int, n as int)]);
    steps.launch(kernel, operands, div_up(n, tile), m, 1);
    assert(steps@ =~= float_acts(call));
    Ok(steps)
}

/// Padding takes the outputs to whole tiles and no further.
pub proof fn lemma_padded(n: nat, tile: nat)
    requires
        tile > 0,
    ensures
        n <= padded(n, tile) < n + tile,
        padded(n, tile) % tile == 0,
        n % tile == 0 ==> padded(n, tile) == n,
{
    vstd::arithmetic::div_mod::lemma_fundamental_div_mod(n as int, tile as int);
    let q = n / tile;
    let r = n % tile;
    assert(q * tile == tile * q) by (nonlinear_arith);
    assert((q + 1) * tile == tile * q + tile) by (nonlinear_arith);
    vstd::arithmetic::div_mod::lemma_mod_multiples_basic(plan::tiles(n, tile) as int, tile as int);
}

/// The integer matvec stores whole tiles: what it launches covers its padded
/// row, and its padding is only ever copied out of, never into, the output.
pub proof fn a_ragged_row_runs_padded(call: RawCall)
    requires
        takes_i8(call),
        raw_fits(call),
    ensures
        ({
            let wide = padded(call.n as nat, i8_tile(call));
            &&& call.n <= wide < call.n + i8_tile(call)
            &&& wide % i8_tile(call) == 0
            &&& wide == call.n ==> i8_acts(call).last() is Launch
            &&& wide != call.n ==> i8_acts(call).last() == (Act::Unpad {
                padded: wide,
                width: call.n as nat,
            })
        }),
{
    lemma_padded(call.n as nat, i8_tile(call));
}

/// Every format with a raw kernel here has a projection.
pub proof fn every_raw_format_projects(call: RawCall)
    requires
        call.stored == Some(call.n),
        quant::has_raw_scales(call.quant),
        !(call.quant is PTQ1_0),
        call.k <= call.max_k,
    ensures
        raw_plan(call) is Ok,
{
}

/// The fused prompt projection's tile, and the threads that carry it.
#[derive(Clone, Copy, PartialEq, Eq, Structural, Debug)]
pub struct QmmaTile {
    pub tm: usize,
    pub tn: usize,
    pub cta: usize,
}

/// Whether a format has a fused prompt projection.
pub open spec fn is_fused(quant: Quant) -> bool {
    match quant {
        Quant::IQ1_S | Quant::IQ2_XXS | Quant::IQ2_S | Quant::IQ2_XS => true,
        _ => false,
    }
}

/// Whether a weight at a shape takes the fused projection: its format is one
/// that is turned on, and every slice of the kernel is whole.
pub open spec fn qmma_fits(
    formats: Seq<Quant>,
    quant: Quant,
    tile: QmmaTile,
    m: nat,
    k: nat,
    n: nat,
) -> bool {
    is_fused(quant) && formats.contains(quant) && is_multiple(m, tile.tm as nat) && is_multiple(
        n,
        tile.tn as nat,
    ) && k % 256 == 0
}

/// Whether a length is a whole number of tiles. Only nothing is a whole number
/// of empty ones.
pub open spec fn is_multiple(len: nat, tile: nat) -> bool {
    if tile == 0 {
        len == 0
    } else {
        len % tile == 0
    }
}

fn multiple_of(len: usize, tile: usize) -> (yes: bool)
    ensures
        yes == is_multiple(len as nat, tile as nat),
{
    if tile == 0 {
        len == 0
    } else {
        len % tile == 0
    }
}

/// Whether a weight at this shape takes the fused projection.
pub fn raw_qmma_eligible(
    formats: &[Quant],
    quant: Quant,
    tile: QmmaTile,
    m: usize,
    k: usize,
    n: usize,
) -> (yes: bool)
    ensures
        yes == qmma_fits(formats@, quant, tile, m as nat, k as nat, n as nat),
{
    let fused = match quant {
        Quant::IQ1_S | Quant::IQ2_XXS | Quant::IQ2_S | Quant::IQ2_XS => true,
        _ => false,
    };
    let mut on = false;
    let mut i: usize = 0;
    while i < formats.len()
        invariant
            i <= formats@.len(),
            on == exists|j: int| 0 <= j < i && #[trigger] formats@[j] == quant,
        decreases formats@.len() - i,
    {
        if formats[i] == quant {
            on = true;
        }
        i = i + 1;
    }
    fused && on && multiple_of(m, tile.tm) && multiple_of(n, tile.tn) && k % 256 == 0
}

/// The tables of a fused projection: IQ1_S folds its delta and its sign into
/// one, the others keep magnitudes and signs apart.
pub open spec fn qmma_tables(quant: Quant) -> Seq<Operand> {
    match quant {
        Quant::IQ1_S => seq![table(Table::Iq1sSignedGrid, 32768)],
        Quant::IQ2_S => seq![
            table(Table::Iq2sGridPacked, 8192),
            table(Table::Iq2sSignsPacked, 2048),
        ],
        Quant::IQ2_XS => seq![
            table(Table::Iq2xsGridPacked, 4096),
            table(Table::Iq2xxsSignsPacked, 1024),
        ],
        _ => seq![
            table(Table::Iq2xxsGridPacked, 2048),
            table(Table::Iq2xxsSignsPacked, 1024),
        ],
    }
}

pub open spec fn qmma_acts(call: RawCall, tile: QmmaTile) -> Seq<Act> {
    let m = call.m as int;
    let n = call.n as int;
    let k = call.k as int;
    let blocks = call.blocks as int;
    (if call.quantized {
        Seq::empty()
    } else {
        seq![
            Act::GiveBack,
            Act::Quantize { rows: call.m as nat, k: call.k as nat, transient: true },
        ]
    }) + seq![
        Act::Launch {
            kernel: Kernel::RawQmma { quant: call.quant },
            operands: seq![
                plan::whole(Place::Act, m, k),
                plan::whole(Place::ActScales, m, k / 32),
                plan::whole(Place::Bytes, n, blocks * quant::device_block_of(call.quant).1),
                plan::whole(Place::Headers, n, blocks),
            ] + qmma_tables(call.quant) + seq![plan::whole(Place::Out, m, n)],
            grid: (call.m as nat / (tile.tm as nat), call.n as nat / (tile.tn as nat), 1),
        },
    ]
}

/// What the fused prompt projection comes to. Nothing outlives a copy of the
/// rows quantized here, so it takes a slot of the ring, which no decode step
/// has a use for either.
pub open spec fn qmma_plan(call: RawCall, tile: QmmaTile) -> Result<Seq<Act>, RawError> {
    match call.stored {
        None => Err(RawError::Unknown),
        Some(stored) => if stored != call.n {
            Err(RawError::Width { stored, n: call.n })
        } else if !is_fused(call.quant) {
            Err(RawError::Unfused { quant: call.quant })
        } else {
            Ok(qmma_acts(call, tile))
        },
    }
}

/// The fused prompt projection.
pub fn project_raw_qmma(call: RawCall, tile: QmmaTile) -> (result: Result<Steps, RawError>)
    requires
        raw_fits(call),
        tile.tm > 0,
        tile.tn > 0,
    ensures
        match result {
            Ok(steps) => qmma_plan(call, tile) == Ok::<Seq<Act>, RawError>(steps@),
            Err(e) => qmma_plan(call, tile) == Err::<Seq<Act>, RawError>(e),
        },
{
    let (m, k, n) = (call.m, call.k, call.n);
    match call.stored {
        None => {
            return Err(RawError::Unknown);
        },
        Some(stored) => {
            if stored != n {
                return Err(RawError::Width { stored, n });
            }
        },
    }
    let mut tables: Vec<Operand> = Vec::new();
    match call.quant {
        Quant::IQ1_S => {
            tables.push(table_of(Table::Iq1sSignedGrid, IQ1S_SIGNED_GRID_LEN));
        },
        Quant::IQ2_S => {
            tables.push(table_of(Table::Iq2sGridPacked, IQ2S_GRID_LEN));
            tables.push(table_of(Table::Iq2sSignsPacked, IQ2S_SIGNS_LEN));
        },
        Quant::IQ2_XS => {
            tables.push(table_of(Table::Iq2xsGridPacked, IQ2XS_GRID_LEN));
            tables.push(table_of(Table::Iq2xxsSignsPacked, IQ2XXS_SIGNS_LEN));
        },
        Quant::IQ2_XXS => {
            tables.push(table_of(Table::Iq2xxsGridPacked, IQ2XXS_GRID_LEN));
            tables.push(table_of(Table::Iq2xxsSignsPacked, IQ2XXS_SIGNS_LEN));
        },
        other => {
            return Err(RawError::Unfused { quant: other });
        },
    }
    assert(tables@ =~= qmma_tables(call.quant));
    let width: usize = call.quant.device_block_bytes();
    assert(0 <= call.blocks * width) by (nonlinear_arith);
    let mut steps = Steps::new();
    if !call.quantized {
        steps.push(Step::GiveBack);
        steps.push(Step::Quantize { rows: m, k, transient: true });
    }
    let mut operands = vec![
        operand(Place::Act, 0, m, k),
        operand(Place::ActScales, 0, m, k / Q8_BLOCK),
        operand(Place::Bytes, 0, n, call.blocks * width),
        operand(Place::Headers, 0, n, call.blocks),
    ];
    let ghost front = operands@;
    operands.append(&mut tables);
    operands.push(operand(Place::Out, 0, m, n));
    assert(front =~= seq![
        plan::whole(Place::Act, m as int, k as int),
        plan::whole(Place::ActScales, m as int, k as int / 32),
        plan::whole(Place::Bytes, n as int, call.blocks * width),
        plan::whole(Place::Headers, n as int, call.blocks as int),
    ]);
    assert(operands@ =~= front + qmma_tables(call.quant) + seq![
        plan::whole(Place::Out, m as int, n as int),
    ]);
    steps.launch(Kernel::RawQmma { quant: call.quant }, operands, m / tile.tm, n / tile.tn, 1);
    assert(steps@ =~= qmma_acts(call, tile));
    Ok(steps)
}

/// An eligible call is never refused for its format, and its grid is exactly its
/// rows and outputs.
pub proof fn an_eligible_call_tiles(formats: Seq<Quant>, call: RawCall, tile: QmmaTile)
    requires
        tile.tm > 0,
        tile.tn > 0,
        call.stored == Some(call.n),
        qmma_fits(formats, call.quant, tile, call.m as nat, call.k as nat, call.n as nat),
    ensures
        qmma_plan(call, tile) == Ok::<Seq<Act>, RawError>(qmma_acts(call, tile)),
        call.m as nat / (tile.tm as nat) * (tile.tm as nat) == call.m,
        call.n as nat / (tile.tn as nat) * (tile.tn as nat) == call.n,
{
    vstd::arithmetic::div_mod::lemma_fundamental_div_mod(call.m as int, tile.tm as int);
    vstd::arithmetic::div_mod::lemma_fundamental_div_mod(call.n as int, tile.tn as int);
    let (a, b) = (call.m as int / tile.tm as int, call.n as int / tile.tn as int);
    assert(a * tile.tm == tile.tm * a) by (nonlinear_arith);
    assert(b * tile.tn == tile.tn * b) by (nonlinear_arith);
}

/// A format with a magnitude grid and signs apart from it.
pub open spec fn has_signs(quant: Quant) -> bool {
    match quant {
        Quant::IQ2_XXS | Quant::IQ2_XS | Quant::IQ2_S | Quant::IQ3_XXS | Quant::IQ3_S => true,
        _ => false,
    }
}

/// The form of a table with a byte a slot.
pub open spec fn packed_form(place: Place) -> Place {
    match place {
        Place::Table(Table::Iq1sGrid) => Place::Table(Table::Iq1sGridPacked),
        Place::Table(Table::Iq2xxsGrid) => Place::Table(Table::Iq2xxsGridPacked),
        Place::Table(Table::Iq2xxsSigns) => Place::Table(Table::Iq2xxsSignsPacked),
        Place::Table(Table::Iq2sGrid) => Place::Table(Table::Iq2sGridPacked),
        Place::Table(Table::Iq2sSigns) => Place::Table(Table::Iq2sSignsPacked),
        Place::Table(Table::Iq2xsGrid) => Place::Table(Table::Iq2xsGridPacked),
        Place::Table(Table::Iq3xxsGrid) => Place::Table(Table::Iq3xxsGridPacked),
        Place::Table(Table::Iq3sGrid) => Place::Table(Table::Iq3sGridPacked),
        other => other,
    }
}

/// Every kernel of a format reads the same tables: the masked matvec a word a slot, the
/// others the same a byte a slot, of the lengths its staged projection has too. The
/// integer matvec takes the mask half of the signs, which starts where they end.
pub proof fn a_formats_kernels_read_the_same_tables(quant: Quant)
    requires
        has_signs(quant),
    ensures
        ({
            let (qdot, masked, whole) = (
                float_tables(quant, true),
                float_tables(quant, false),
                i8_tables(quant),
            );
            &&& qdot.len() == 2 && masked.len() == 3 && whole.len() == 2
            &&& packed_form(masked[0].place) == qdot[0].place && masked[0].cols == qdot[0].cols
            &&& packed_form(masked[1].place) == qdot[1].place && masked[1].cols == qdot[1].cols
            &&& masked[2] == table(Table::Iota8, 8)
            &&& whole[0] == qdot[0]
            &&& whole[1].place == qdot[1].place && whole[1].cols == qdot[1].cols
            &&& qdot[1].skip == 0 && whole[1].skip == qdot[1].cols
            &&& is_fused(quant) ==> qmma_tables(quant) == qdot
            &&& qgemm::tables_of(quant) == Some(seq![qdot[0].cols, qdot[1].cols])
        }),
        quant == Quant::IQ2_XXS ==> float_tables(quant, true)[0].place == Place::Table(
            Table::Iq2xxsGridPacked,
        ),
        quant == Quant::IQ2_XS ==> float_tables(quant, true)[0].place == Place::Table(
            Table::Iq2xsGridPacked,
        ),
        quant == Quant::IQ2_S ==> float_tables(quant, true)[0].place == Place::Table(
            Table::Iq2sGridPacked,
        ),
        quant == Quant::IQ3_XXS ==> float_tables(quant, true)[0].place == Place::Table(
            Table::Iq3xxsGridPacked,
        ),
        quant == Quant::IQ3_S ==> float_tables(quant, true)[0].place == Place::Table(
            Table::Iq3sGridPacked,
        ),
{
    let qdot = float_tables(quant, true);
    assert(qgemm::tables_of(quant)->Some_0 =~= seq![qdot[0].cols, qdot[1].cols]);
    if is_fused(quant) {
        assert(qmma_tables(quant) =~= qdot);
    }
}

} // verus!
