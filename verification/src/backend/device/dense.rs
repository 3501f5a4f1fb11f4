//! Dense projections, the activation quantizer and the normalizations.

use vstd::prelude::*;

use crate::backend::device::kernels::elem::WIDE_FLOOR;
use crate::backend::device::kernels::matmul::{
    self, mv_splits, RowsKernel, BLOCKS_MAX_K, MV_TN, ROWS_MAX_SPLITS, ROWS_SPLIT_TARGET, ROWS_TM,
    ROWS_TN,
};
use crate::backend::device::kernels::norm::RMS_LANE;
use crate::backend::device::kernels::quant::{Q8_REDUCE_TN, QUANT_TB, QUANT_TB_WIDE};
use crate::backend::device::plan::{
    self, div_up, operand, Act, Kernel, Operand, Place, Step, Steps,
};
use crate::backend::Q8_BLOCK;
use crate::text::{self, Args};

verus! {

broadcast use crate::text::lemma_filled_args;

/// A dense projection of `m` rows.
#[derive(Clone, Copy, PartialEq, Eq, Structural, Debug)]
pub struct DenseCall {
    pub m: usize,
    pub k: usize,
    pub n: usize,
}

/// The output tiles and depths of the batched kernels.
#[derive(Clone, Copy, PartialEq, Eq, Structural, Debug)]
pub struct DenseTiles {
    pub tc_m: usize,
    pub tc_n: usize,
    pub tc_k: usize,
    pub tile_m: usize,
    pub tile_n: usize,
}

impl DenseTiles {
    pub open spec fn wf(self) -> bool {
        self.tc_m > 0 && self.tc_n > 0 && self.tc_k > 0 && self.tile_m > 0 && self.tile_n > 0
    }
}

/// Every offset and length of a projection is one a machine can count.
pub open spec fn dense_fits(call: DenseCall) -> bool {
    &&& call.m * call.k <= usize::MAX
    &&& 8 * (call.m * call.n) <= usize::MAX
    &&& 96 * call.n <= usize::MAX
    &&& call.n * call.k <= usize::MAX
}

/// Rows the tensor-core tile takes: whole bands, of outputs and depths it
/// divides.
pub open spec fn tc_rows(call: DenseCall, tiles: DenseTiles) -> int {
    if call.n as nat % (tiles.tc_n as nat) == 0 && call.k as nat % (tiles.tc_k as nat) == 0 {
        call.m as int - call.m as int % tiles.tc_m as int
    } else {
        0
    }
}

pub open spec fn dense_band(call: DenseCall, from: int, rows: int) -> Seq<Operand> {
    seq![
        plan::part(Place::Input, from * call.k, rows, call.k as int),
        plan::whole(Place::Dense, call.k as int, call.n as int),
        plan::part(Place::Out, from * call.n, rows, call.n as int),
    ]
}

/// The batched projection: the tensor-core bands, then the rest.
pub open spec fn batched_acts(call: DenseCall, tiles: DenseTiles) -> Seq<Act> {
    let tc = tc_rows(call, tiles);
    let rows = call.m - tc;
    (if tc > 0 {
        seq![
            Act::Launch {
                kernel: Kernel::MatmulTc,
                operands: dense_band(call, 0, tc),
                grid: (
                    (tc / tiles.tc_m as int) as nat,
                    call.n as nat / (tiles.tc_n as nat),
                    1,
                ),
            },
        ]
    } else {
        Seq::empty()
    }) + (if rows > 0 {
        seq![
            Act::Launch {
                kernel: Kernel::Matmul {
                    even: rows % tiles.tile_m as int == 0 && call.n as int % tiles.tile_n as int
                        == 0,
                },
                operands: dense_band(call, tc, rows),
                grid: (
                    plan::tiles(rows as nat, tiles.tile_m as nat),
                    plan::tiles(call.n as nat, tiles.tile_n as nat),
                    1,
                ),
            },
        ]
    } else {
        Seq::empty()
    })
}

/// One row, whole or split along `k` and summed.
pub open spec fn single_acts(call: DenseCall) -> Seq<Act> {
    let k = call.k as int;
    let n = call.n as int;
    let splits = matmul::mv_splits_of(call.n as nat, call.k as nat);
    let a = plan::whole(Place::Input, 1, k);
    let w = plan::whole(Place::Dense, k, n);
    let out = plan::whole(Place::Out, 1, n);
    let grid = plan::tiles(call.n as nat, 128);
    if splits == 1 {
        seq![
            Act::Launch {
                kernel: Kernel::Matvec { even: n % 128 == 0 },
                operands: seq![a, w, out],
                grid: (grid, 1, 1),
            },
        ]
    } else {
        let partials = plan::whole(Place::Partials, splits as int, n);
        seq![
            Act::Partials { len: splits * (call.n as nat) },
            Act::Launch {
                kernel: Kernel::MatvecSplit { even: n % 128 == 0 },
                operands: seq![a, w, partials],
                grid: (grid, splits, 1),
            },
            Act::Launch {
                kernel: Kernel::Q8Reduce { even: n % 128 == 0 },
                operands: seq![partials, out],
                grid: (grid, 1, 1),
            },
        ]
    }
}

/// A dense projection: a row on the matvec, anything wider in tiles.
pub open spec fn dense_acts(call: DenseCall, tiles: DenseTiles) -> Seq<Act> {
    if call.m > 1 {
        batched_acts(call, tiles)
    } else {
        single_acts(call)
    }
}

proof fn lemma_dense(call: DenseCall, from: int, rows: int)
    requires
        dense_fits(call),
        0 <= from,
        0 <= rows,
        from + rows <= call.m,
    ensures
        0 <= from * call.k <= usize::MAX,
        0 <= from * call.n <= usize::MAX,
        0 <= rows * call.n,
        8 * (rows * call.n) <= usize::MAX,
{
    let (k, n, m) = (call.k as int, call.n as int, call.m as int);
    assert(0 <= from * k <= m * k) by (nonlinear_arith)
        requires
            0 <= from <= m,
            0 <= k,
    ;
    assert(0 <= from * n <= m * n) by (nonlinear_arith)
        requires
            0 <= from <= m,
            0 <= n,
    ;
    assert(0 <= rows * n <= m * n) by (nonlinear_arith)
        requires
            0 <= rows <= m,
            0 <= n,
    ;
}

fn dense_band_of(call: DenseCall, from: usize, rows: usize) -> (operands: Vec<Operand>)
    requires
        dense_fits(call),
        from + rows <= call.m,
    ensures
        operands@ == dense_band(call, from as int, rows as int),
{
    proof {
        lemma_dense(call, from as int, rows as int);
    }
    let operands = vec![
        operand(Place::Input, from * call.k, rows, call.k),
        operand(Place::Dense, 0, call.k, call.n),
        operand(Place::Out, from * call.n, rows, call.n),
    ];
    assert(operands@ =~= dense_band(call, from as int, rows as int));
    operands
}

/// What a dense projection launches.
pub fn matmul_dense(call: DenseCall, tiles: DenseTiles) -> (steps: Steps)
    requires
        dense_fits(call),
        tiles.wf(),
        call.m <= 1 ==> call.n > 0,
    ensures
        steps@ == dense_acts(call, tiles),
{
    let (m, k, n) = (call.m, call.k, call.n);
    let mut steps = Steps::new();
    if m > 1 {
        proof {
            vstd::arithmetic::div_mod::lemma_mod_decreases(m as nat, tiles.tc_m as nat);
        }
        let tc: usize = if n % tiles.tc_n == 0 && k % tiles.tc_k == 0 {
            m - m % tiles.tc_m
        } else {
            0
        };
        assert(tc == tc_rows(call, tiles));
        if tc > 0 {
            let operands = dense_band_of(call, 0, tc);
            steps.launch(Kernel::MatmulTc, operands, tc / tiles.tc_m, n / tiles.tc_n, 1);
        }
        let rows: usize = m - tc;
        if rows > 0 {
            let even = rows % tiles.tile_m == 0 && n % tiles.tile_n == 0;
            let operands = dense_band_of(call, tc, rows);
            steps.launch(
                Kernel::Matmul { even },
                operands,
                div_up(rows, tiles.tile_m),
                div_up(n, tiles.tile_n),
                1,
            );
        }
        assert(steps@ =~= batched_acts(call, tiles));
        return steps;
    }
    let even = n % MV_TN == 0;
    let splits = mv_splits(n, k);
    let grid = div_up(n, MV_TN);
    let a = operand(Place::Input, 0, 1, k);
    let w = operand(Place::Dense, 0, k, n);
    let out = operand(Place::Out, 0, 1, n);
    if splits == 1 {
        let operands = vec![a, w, out];
        assert(operands@ =~= seq![a, w, out]);
        steps.launch(Kernel::Matvec { even }, operands, grid, 1, 1);
        assert(steps@ =~= single_acts(call));
        return steps;
    }
    assert(0 <= splits * n <= 96 * n) by (nonlinear_arith)
        requires
            0 <= splits <= 96,
            0 <= n,
    ;
    steps.push(Step::Partials { len: splits * n });
    let partials = operand(Place::Partials, 0, splits, n);
    let operands = vec![a, w, partials];
    assert(operands@ =~= seq![a, w, partials]);
    steps.launch(Kernel::MatvecSplit { even }, operands, grid, splits, 1);
    let operands = vec![partials, out];
    assert(operands@ =~= seq![partials, out]);
    steps.launch(Kernel::Q8Reduce { even: n % Q8_REDUCE_TN == 0 }, operands, div_up(n, Q8_REDUCE_TN), 1, 1);
    assert(steps@ =~= single_acts(call));
    steps
}

/// The widest tile up to a cap that divides the outputs.
pub open spec fn widest(n: nat, cap: nat) -> nat
    decreases cap,
{
    if cap <= 1 || n % cap == 0 {
        cap
    } else {
        widest(n, (cap - 1) as nat)
    }
}

/// Slices of a band: as many as reach the target, between one and the cap, cut
/// down to whole steps.
pub open spec fn band_splits(programs: nat, k: nat) -> nat {
    let most = 192nat / programs;
    matmul::steps_down(
        if most < 1 {
            1
        } else if most > 8 {
            8
        } else {
            most
        },
        k,
    )
}

/// One band of the row-major contraction: `rows` rows from `from`, `tm` to a
/// program. A band of whole tiles splits `k` where its programs are few.
pub open spec fn rows_band(call: DenseCall, from: int, rows: int, tm: usize) -> Seq<Act> {
    let n = call.n as int;
    let k = call.k as int;
    let tn = widest(call.n as nat, 16) as usize;
    let kernel = RowsKernel::Tiles { tm, tn };
    let gx = (rows / tm as int) as nat;
    let gy = call.n as nat / (tn as nat);
    let splits = band_splits(gx * gy, call.k as nat);
    let a = plan::part(Place::Input, from * k, rows, k);
    let w = plan::whole(Place::Dense, n, k);
    if rows == 0 {
        Seq::empty()
    } else if tm > 1 && splits > 1 {
        let len = rows * n;
        seq![
            Act::Partials { len: (splits * len) as nat },
            Act::Launch {
                kernel: Kernel::RowsSplit { kernel },
                operands: seq![a, w, plan::whole(Place::Partials, splits * rows, n)],
                grid: (gx, gy, splits),
            },
            Act::Launch {
                kernel: Kernel::Q8Reduce { even: len % 128 == 0 },
                operands: seq![
                    plan::whole(Place::Partials, splits as int, len),
                    plan::part(Place::Out, from * n, 1, len),
                ],
                grid: (plan::tiles(len as nat, 128), 1, 1),
            },
        ]
    } else {
        seq![
            Act::Launch {
                kernel: Kernel::Rows { kernel },
                operands: seq![a, w, plan::part(Place::Out, from * n, rows, n)],
                grid: (gx, gy, 1),
            },
        ]
    }
}

/// The row-major contraction: a decode row in blocks where it fits, otherwise a
/// band of whole programs and then the rest a row a program.
pub open spec fn rows_acts(call: DenseCall) -> Seq<Act> {
    let n = call.n as int;
    let kb = call.k as int / 32;
    let band = call.m as int - call.m as int % 16;
    if call.m == 1 && call.k <= 5120 {
        let tn: usize = if n % 2 == 0 {
            2
        } else {
            1
        };
        seq![
            Act::Launch {
                kernel: Kernel::Rows { kernel: RowsKernel::Blocks { k: call.k, tn } },
                operands: seq![
                    plan::whole(Place::Input, kb, 32),
                    plan::whole(Place::Dense, n * kb, 32),
                    plan::whole(Place::Out, n, 1),
                ],
                grid: (call.n as nat / (tn as nat), 1, 1),
            },
        ]
    } else {
        rows_band(call, 0, band, 16) + rows_band(call, band, call.m - band, 1)
    }
}

fn widest_tile(n: usize, cap: usize) -> (tile: usize)
    requires
        cap >= 1,
    ensures
        tile == widest(n as nat, cap as nat),
        1 <= tile <= cap,
        n % tile == 0,
{
    let mut tile: usize = cap;
    while tile > 1 && n % tile != 0
        invariant
            1 <= tile <= cap,
            widest(n as nat, tile as nat) == widest(n as nat, cap as nat),
        decreases tile,
    {
        tile = tile - 1;
    }
    tile
}

fn splits_for(programs: usize, k: usize) -> (splits: usize)
    requires
        programs > 0,
    ensures
        splits == band_splits(programs as nat, k as nat),
        1 <= splits <= 8,
{
    let most: usize = ROWS_SPLIT_TARGET / programs;
    let mut splits: usize = if most < 1 {
        1
    } else if most > ROWS_MAX_SPLITS {
        ROWS_MAX_SPLITS
    } else {
        most
    };
    let ghost start = splits as nat;
    while splits > 1 && k % (splits * 16) != 0
        invariant
            1 <= splits <= 8,
            matmul::steps_down(splits as nat, k as nat) == matmul::steps_down(start, k as nat),
        decreases splits,
    {
        splits = splits - 1;
    }
    splits
}

fn push_band(steps: &mut Steps, call: DenseCall, from: usize, rows: usize, tm: usize)
    requires
        dense_fits(call),
        rows > 0 ==> call.n > 0,
        from + rows <= call.m,
        tm == 1 || tm == 16,
        rows % tm == 0,
    ensures
        final(steps)@ == old(steps)@ + rows_band(call, from as int, rows as int, tm),
{
    let ghost before = steps@;
    if rows == 0 {
        assert(steps@ =~= before + rows_band(call, from as int, rows as int, tm));
        return ;
    }
    proof {
        lemma_dense(call, from as int, rows as int);
    }
    let (k, n) = (call.k, call.n);
    let tn = widest_tile(n, ROWS_TN);
    let gx: usize = rows / tm;
    let gy: usize = n / tn;
    proof {
        vstd::arithmetic::div_mod::lemma_fundamental_div_mod(n as int, tn as int);
        vstd::arithmetic::div_mod::lemma_fundamental_div_mod(rows as int, tm as int);
    }
    assert(0 < gx * gy <= rows * n) by (nonlinear_arith)
        requires
            rows == tm * gx + 0,
            n == tn * gy + 0,
            rows > 0,
            n > 0,
            tm >= 1,
            tn >= 1,
            gx >= 0,
            gy >= 0,
    ;
    let splits = splits_for(gx * gy, k);
    let a = operand(Place::Input, from * k, rows, k);
    let w = operand(Place::Dense, 0, n, k);
    let kernel = RowsKernel::Tiles { tm, tn };
    if tm > 1 && splits > 1 {
        let len: usize = rows * n;
        assert(0 <= splits * len <= 8 * len) by (nonlinear_arith)
            requires
                0 <= splits <= 8,
                0 <= len,
        ;
        assert(0 <= splits * rows <= splits * len) by (nonlinear_arith)
            requires
                0 <= splits,
                0 <= rows,
                len == rows * n,
                n >= 1,
        ;
        steps.push(Step::Partials { len: splits * len });
        let operands = vec![a, w, operand(Place::Partials, 0, splits * rows, n)];
        assert(operands@ =~= seq![a, w, plan::whole(Place::Partials, splits * rows, n as int)]);
        steps.launch(Kernel::RowsSplit { kernel }, operands, gx, gy, splits);
        let operands = vec![
            operand(Place::Partials, 0, splits, len),
            operand(Place::Out, from * n, 1, len),
        ];
        assert(operands@ =~= seq![
            plan::whole(Place::Partials, splits as int, len as int),
            plan::part(Place::Out, from * n, 1, len as int),
        ]);
        steps.launch(
            Kernel::Q8Reduce { even: len % Q8_REDUCE_TN == 0 },
            operands,
            div_up(len, Q8_REDUCE_TN),
            1,
            1,
        );
        assert(steps@ =~= before + rows_band(call, from as int, rows as int, tm));
        return ;
    }
    let operands = vec![a, w, operand(Place::Out, from * n, rows, n)];
    assert(operands@ =~= seq![a, w, plan::part(Place::Out, from * n, rows as int, n as int)]);
    steps.launch(Kernel::Rows { kernel }, operands, gx, gy, 1);
    assert(steps@ =~= before + rows_band(call, from as int, rows as int, tm));
}

/// A weight the row-major contraction does not take.
#[derive(Clone, Copy, PartialEq, Eq, Structural, Debug)]
pub struct RowsError {
    pub k: usize,
    pub n: usize,
}

pub const E_ROWS: &'static str = "a [$0, $1] weight is not one the row-major contraction takes";

impl RowsError {
    pub fn message(self) -> (s: String)
        ensures
            s@ == text::filled(
                E_ROWS@,
                seq![text::decimal(self.k as nat), text::decimal(self.n as nat)],
            ),
    {
        Args::new().num(self.k).num(self.n).fill(E_ROWS)
    }
}

/// What the row-major contraction launches. `taken` is whether the weight's
/// shape is one it takes.
pub fn matmul_rows_dense(call: DenseCall, taken: bool) -> (result: Result<Steps, RowsError>)
    requires
        dense_fits(call),
        taken && call.n == 0 ==> call.m == 0 || (call.m == 1 && call.k <= BLOCKS_MAX_K),
    ensures
        match result {
            Ok(steps) => taken && steps@ == rows_acts(call),
            Err(e) => !taken && e == (RowsError { k: call.k, n: call.n }),
        },
{
    let (m, k, n) = (call.m, call.k, call.n);
    if !taken {
        return Err(RowsError { k, n });
    }
    let mut steps = Steps::new();
    if m == 1 && k <= BLOCKS_MAX_K {
        let tn: usize = if n % 2 == 0 {
            2
        } else {
            1
        };
        let kb: usize = k / 32;
        assert(0 <= n * kb <= n * k) by (nonlinear_arith)
            requires
                0 <= n,
                0 <= kb <= k,
        ;
        let operands = vec![
            operand(Place::Input, 0, kb, 32),
            operand(Place::Dense, 0, n * kb, 32),
            operand(Place::Out, 0, n, 1),
        ];
        assert(operands@ =~= seq![
            plan::whole(Place::Input, kb as int, 32),
            plan::whole(Place::Dense, n * kb, 32),
            plan::whole(Place::Out, n as int, 1),
        ]);
        steps.launch(
            Kernel::Rows { kernel: RowsKernel::Blocks { k, tn } },
            operands,
            n / tn,
            1,
            1,
        );
        assert(steps@ =~= rows_acts(call));
        return Ok(steps);
    }
    let band: usize = m - m % ROWS_TM;
    push_band(&mut steps, call, 0, band, ROWS_TM);
    push_band(&mut steps, call, band, m - band, 1);
    assert(steps@ =~= rows_acts(call));
    Ok(steps)
}

/// The row-major tile divides the outputs, so its grid is exactly them.
pub proof fn the_row_tile_divides(n: nat, cap: nat)
    requires
        cap >= 1,
    ensures
        1 <= widest(n, cap) <= cap,
        n % widest(n, cap) == 0,
        forall|t: nat| widest(n, cap) < t <= cap ==> #[trigger] (n % t) != 0,
    decreases cap,
{
    if cap > 1 && n % cap != 0 {
        the_row_tile_divides(n, (cap - 1) as nat);
    }
}

/// The quantizer over `m` rows of `k`: wide programs for a prompt.
pub open spec fn quantize_acts(m: nat, k: nat) -> Seq<Act> {
    let rows = m * (k / 32);
    let wide = rows * 32 >= 192 * 1024;
    seq![
        Act::Launch {
            kernel: Kernel::Quantize { wide },
            operands: seq![
                plan::whole(Place::Input, rows as int, 32),
                plan::whole(Place::Act, rows as int, 32),
                plan::whole(Place::ActScales, rows as int, 1),
            ],
            grid: (
                plan::tiles(
                    rows,
                    if wide {
                        16
                    } else {
                        4
                    },
                ),
                1,
                1,
            ),
        },
    ]
}

/// What quantizing an activation launches.
pub fn quantize_act(m: usize, k: usize) -> (steps: Steps)
    requires
        m * k <= usize::MAX,
    ensures
        steps@ == quantize_acts(m as nat, k as nat),
{
    let blocks: usize = k / Q8_BLOCK;
    assert(0 <= m * blocks && m * blocks * 32 <= m * k) by (nonlinear_arith)
        requires
            0 <= m,
            0 <= blocks,
            blocks * 32 <= k,
    ;
    let rows: usize = m * blocks;
    let wide = rows * Q8_BLOCK >= WIDE_FLOOR;
    let tile: usize = if wide {
        QUANT_TB_WIDE
    } else {
        QUANT_TB
    };
    let operands = vec![
        operand(Place::Input, 0, rows, Q8_BLOCK),
        operand(Place::Act, 0, rows, Q8_BLOCK),
        operand(Place::ActScales, 0, rows, 1),
    ];
    assert(operands@ =~= seq![
        plan::whole(Place::Input, rows as int, 32),
        plan::whole(Place::Act, rows as int, 32),
        plan::whole(Place::ActScales, rows as int, 1),
    ]);
    let mut steps = Steps::new();
    steps.launch(Kernel::Quantize { wide }, operands, div_up(rows, tile), 1, 1);
    assert(steps@ =~= quantize_acts(m as nat, k as nat));
    steps
}

/// A width that is not whole lanes.
#[derive(Clone, Copy, PartialEq, Eq, Structural, Debug)]
pub struct NormError {
    pub width: usize,
}

pub const E_NORM: &'static str = "a normalization needs a width ($0) that is a multiple of 32";

impl NormError {
    pub fn message(self) -> (s: String)
        ensures
            s@ == text::filled(E_NORM@, seq![text::decimal(self.width as nat)]),
    {
        Args::new().num(self.width).fill(E_NORM)
    }
}

/// A normalization of `rows` rows, with or without the quantized copy.
pub open spec fn norm_acts(rows: nat, width: nat, eps_bits: u32, quantized: bool) -> Seq<Act> {
    let lanes = width / 32;
    let all = (rows * lanes) as int;
    let plain = seq![
        plan::whole(Place::Input, all, 32),
        plan::whole(Place::Gain, lanes as int, 32),
        plan::whole(Place::Out, all, 32),
    ];
    seq![
        Act::Launch {
            kernel: if quantized {
                Kernel::NormQ { width: width as usize, eps_bits }
            } else {
                Kernel::Norm { width: width as usize, eps_bits }
            },
            operands: if quantized {
                plain + seq![plan::whole(Place::Act, all, 32), plan::whole(Place::ActScales, all, 1)]
            } else {
                plain
            },
            grid: (rows, 1, 1),
        },
    ]
}

/// What a normalization launches, one CTA a row.
pub fn rms_norm_rows(rows: usize, width: usize, eps_bits: u32, quantized: bool) -> (result: Result<
    Steps,
    NormError,
>)
    requires
        rows * width <= usize::MAX,
    ensures
        match result {
            Ok(steps) => width % 32 == 0 && steps@ == norm_acts(
                rows as nat,
                width as nat,
                eps_bits,
                quantized,
            ),
            Err(e) => width % 32 != 0 && e.width == width,
        },
{
    if width % RMS_LANE != 0 {
        return Err(NormError { width });
    }
    let lanes: usize = width / RMS_LANE;
    assert(0 <= rows * lanes <= rows * width) by (nonlinear_arith)
        requires
            0 <= rows,
            0 <= lanes <= width,
    ;
    let all: usize = rows * lanes;
    let mut operands = vec![
        operand(Place::Input, 0, all, RMS_LANE),
        operand(Place::Gain, 0, lanes, RMS_LANE),
        operand(Place::Out, 0, all, RMS_LANE),
    ];
    let ghost plain = operands@;
    assert(plain =~= seq![
        plan::whole(Place::Input, all as int, 32),
        plan::whole(Place::Gain, lanes as int, 32),
        plan::whole(Place::Out, all as int, 32),
    ]);
    let kernel = if quantized {
        operands.push(operand(Place::Act, 0, all, RMS_LANE));
        operands.push(operand(Place::ActScales, 0, all, 1));
        assert(operands@ =~= plain + seq![
            plan::whole(Place::Act, all as int, 32),
            plan::whole(Place::ActScales, all as int, 1),
        ]);
        Kernel::NormQ { width, eps_bits }
    } else {
        Kernel::Norm { width, eps_bits }
    };
    let mut steps = Steps::new();
    steps.launch(kernel, operands, rows, 1, 1);
    assert(steps@ =~= norm_acts(rows as nat, width as nat, eps_bits, quantized));
    Ok(steps)
}

} // verus!
