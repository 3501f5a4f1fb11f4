//! The Q8_0 projection: four kernels, deepest tile first, each taking the whole
//! tiles it can before handing the remainder on.

use vstd::prelude::*;

use crate::backend::device::kernels::quant::{
    self, q8_qmma_splits, q8_splits, qmma_width, Q8_MMA_TM, Q8_MMA_TN, Q8_QDOT_TN, Q8_QMMA_SHALLOW,
    Q8_QMMA_TM, Q8_QMMA_TN, Q8_REDUCE_TN, Q8_TN,
};
use crate::backend::device::plan::{
    self, div_up, operand, Act, Kernel, Operand, Place, Step, Steps,
};
use crate::backend::Q8_BLOCK;
use crate::text::{self, Args};

verus! {

broadcast use crate::text::lemma_filled_args;

/// A projection of `m` rows against a Q8_0 weight, and what the card was set up
/// to do with one.
#[derive(Clone, Copy, PartialEq, Eq, Structural, Debug)]
pub struct Q8Call {
    pub m: usize,
    pub k: usize,
    pub n: usize,
    /// Outputs the weight was uploaded with, for a handle that is one.
    pub stored: Option<usize>,
    /// Add into the output of a single row rather than store it.
    pub accumulate: bool,
    /// Whether the fused tensor-core kernel takes this many outputs.
    pub fused: bool,
    /// Run a single row on a resident grid.
    pub persist: bool,
    /// Split the deep tile's contraction wherever its grid is starved.
    pub split: bool,
    /// The column tile of the narrow form, where the deep tile runs as it.
    pub narrow: Option<usize>,
}

/// Why a projection is refused.
#[derive(Clone, Copy, PartialEq, Eq, Structural, Debug)]
pub enum ProjectError {
    /// `k` is not whole blocks.
    Ragged { k: usize },
    /// The handle is no weight's.
    Unknown,
    /// The weight has another number of outputs.
    Width { stored: usize, n: usize },
}

pub const E_RAGGED: &'static str = "matmul_quant needs k ($0) to be a multiple of 32";

pub const E_UNKNOWN: &'static str = "use of an unknown quantized weight handle";

pub const E_WIDTH: &'static str =
    "quantized weight was uploaded with n = $0, used with n = $1";

impl ProjectError {
    /// What is wrong, in words.
    pub fn message(self) -> (s: String)
        ensures
            s@ == (match self {
                ProjectError::Ragged { k } => text::filled(E_RAGGED@, seq![text::decimal(k as nat)]),
                ProjectError::Unknown => text::filled(E_UNKNOWN@, Seq::empty()),
                ProjectError::Width { stored, n } => text::filled(
                    E_WIDTH@,
                    seq![text::decimal(stored as nat), text::decimal(n as nat)],
                ),
            }),
    {
        match self {
            ProjectError::Ragged { k } => Args::new().num(k).fill(E_RAGGED),
            ProjectError::Unknown => Args::new().fill(E_UNKNOWN),
            ProjectError::Width { stored, n } => Args::new().num(stored).num(n).fill(E_WIDTH),
        }
    }
}

/// The operands of a launch over `rows` rows from `from`. The weight is whole
/// for every launch; the rest is offset to the band.
pub open spec fn band(call: Q8Call, from: int, rows: int) -> Seq<Operand> {
    let blocks = call.k as int / 32;
    seq![
        plan::part(Place::Act, from * call.k, rows, call.k as int),
        plan::part(Place::ActScales, from * blocks, rows, blocks),
        plan::whole(Place::Weight, call.n as int, call.k as int),
        plan::whole(Place::Scales, blocks, call.n as int),
        plan::part(Place::Out, from * call.n, rows, call.n as int),
    ]
}

/// One split's plane of partial sums.
pub open spec fn plane(call: Q8Call, rows: int, i: int) -> Operand {
    plan::part(Place::Partials, i * (rows * call.n), rows, call.n as int)
}

pub open spec fn planes(call: Q8Call, rows: int, splits: nat) -> Seq<Operand> {
    Seq::new(splits, |i: int| plane(call, rows, i))
}

/// The deep tile split along `k`: a plane a split, and their sum.
pub open spec fn split_acts(call: Q8Call, rows: int, wide: usize, splits: usize) -> Seq<Act> {
    let columns = call.n as nat / (wide as nat);
    seq![
        Act::Partials { len: (splits * (rows * call.n)) as nat },
        Act::Launch {
            kernel: Kernel::Q8QmmaSplit { wide, k: call.k, splits },
            operands: band(call, 0, rows).take(4) + planes(call, rows, splits as nat),
            grid: ((rows / 128) as nat, columns, splits as nat),
        },
        Act::Launch {
            kernel: Kernel::Q8QmmaReduce { wide, k: call.k, splits },
            operands: planes(call, rows, splits as nat).push(band(call, 0, rows)[4]),
            grid: (rows as nat, columns, 1),
        },
    ]
}

/// Rows the deep tile takes.
pub open spec fn deep_rows(call: Q8Call) -> int {
    if call.fused && call.n as nat % quant::width_of(call.n as nat) == 0 {
        call.m - call.m % 128
    } else {
        0
    }
}

/// Rows the shallow tile takes of what is left.
pub open spec fn shallow_rows(call: Q8Call) -> int {
    let left = call.m - deep_rows(call);
    if call.fused && call.n % 64 == 0 {
        left - left % 64
    } else {
        0
    }
}

/// Rows the plain tensor-core tile takes of what is left then.
pub open spec fn plain_rows(call: Q8Call) -> int {
    let left = call.m - deep_rows(call) - shallow_rows(call);
    left - left % 8
}

/// Splits of the deep tile. A grid of one or two blocks is split whatever was
/// set.
pub open spec fn deep_splits(call: Q8Call) -> nat {
    let wide = quant::width_of(call.n as nat);
    let rows = deep_rows(call) as nat;
    if call.split || (rows / 128) * (call.n as nat / wide) <= 2 {
        quant::qmma_splits_of(rows, call.n as nat, call.k as nat, wide)
    } else {
        1
    }
}

pub open spec fn deep_acts(call: Q8Call) -> Seq<Act> {
    let wide = quant::width_of(call.n as nat);
    let rows = deep_rows(call);
    if rows == 0 {
        Seq::empty()
    } else if call.narrow is Some {
        seq![
            Act::Launch {
                kernel: Kernel::Q8QmmaNarrow { tn: call.narrow->Some_0 },
                operands: band(call, 0, rows),
                grid: ((rows / 128) as nat, call.n as nat / (call.narrow->Some_0 as nat), 1),
            },
        ]
    } else if deep_splits(call) > 1 {
        split_acts(call, rows, wide as usize, deep_splits(call) as usize)
    } else {
        seq![
            Act::Launch {
                kernel: Kernel::Q8QmmaDeep { wide: wide as usize },
                operands: band(call, 0, rows),
                grid: ((rows / 128) as nat, call.n as nat / wide, 1),
            },
        ]
    }
}

pub open spec fn shallow_acts(call: Q8Call) -> Seq<Act> {
    let rows = shallow_rows(call);
    if rows == 0 {
        Seq::empty()
    } else {
        seq![
            Act::Launch {
                kernel: Kernel::Q8Qmma,
                operands: band(call, deep_rows(call), rows),
                grid: ((rows / 64) as nat, call.n as nat / 64, 1),
            },
        ]
    }
}

pub open spec fn plain_acts(call: Q8Call) -> Seq<Act> {
    let rows = plain_rows(call);
    if rows == 0 {
        Seq::empty()
    } else {
        seq![
            Act::Launch {
                kernel: Kernel::Q8Mma { even: call.n % 64 == 0 },
                operands: band(call, deep_rows(call) + shallow_rows(call), rows),
                grid: ((rows / 8) as nat, plan::tiles(call.n as nat, 64), 1),
            },
        ]
    }
}

/// One row: the fused dot where its tile divides the outputs, which fills the
/// grid from the contraction; else the whole contraction in one program, or a
/// split of it and the sum.
pub open spec fn row_acts(call: Q8Call, row: int) -> Seq<Act> {
    let k = call.k as int;
    let n = call.n as int;
    let blocks = k / 32;
    let a = plan::part(Place::Act, row * k, 1, k);
    let scales = plan::part(Place::ActScales, row * blocks, 1, blocks);
    let out = plan::part(Place::Out, row * n, 1, n);
    let splits = quant::splits_of(n as nat, k as nat);
    if n % 8 == 0 {
        seq![
            Act::Launch {
                kernel: if call.persist {
                    Kernel::Q8QdotPersist { accumulate: call.accumulate }
                } else {
                    Kernel::Q8Qdot { accumulate: call.accumulate }
                },
                operands: seq![
                    a,
                    scales,
                    plan::whole(Place::Weight, n, k),
                    plan::whole(Place::RowScales, n, blocks),
                    out,
                ],
                grid: (plan::tiles(n as nat, 8), 1, 1),
            },
        ]
    } else if splits == 1 {
        seq![
            Act::Launch {
                kernel: Kernel::Q8Dp4a { even: n % 32 == 0 },
                operands: seq![
                    a,
                    scales,
                    plan::whole(Place::Weight, n, k),
                    plan::whole(Place::Scales, blocks, n),
                    out,
                ],
                grid: (plan::tiles(n as nat, 32), 1, 1),
            },
        ]
    } else {
        let partials = plan::whole(Place::Partials, splits as int, n);
        seq![
            Act::Partials { len: splits * (n as nat) },
            Act::Launch {
                kernel: Kernel::Q8Split { even: n % 32 == 0 },
                operands: seq![
                    a,
                    scales,
                    plan::whole(Place::Weight, n, k),
                    plan::whole(Place::Scales, blocks, n),
                    partials,
                ],
                grid: (plan::tiles(n as nat, 32), splits, 1),
            },
            Act::Launch {
                kernel: Kernel::Q8Reduce { even: n % 32 == 0 },
                operands: seq![partials, out],
                grid: (plan::tiles(n as nat, 128), 1, 1),
            },
        ]
    }
}

/// The rows from `from` to `to`, one at a time.
pub open spec fn rows_acts(call: Q8Call, from: int, to: int) -> Seq<Act>
    decreases to - from,
{
    if from >= to {
        Seq::empty()
    } else {
        rows_acts(call, from, to - 1) + row_acts(call, to - 1)
    }
}

/// Rows the tiles leave for the matvec start here.
pub open spec fn tiled_rows(call: Q8Call) -> int {
    deep_rows(call) + shallow_rows(call) + plain_rows(call)
}

pub open spec fn q8_acts(call: Q8Call) -> Seq<Act> {
    deep_acts(call) + shallow_acts(call) + plain_acts(call) + rows_acts(
        call,
        tiled_rows(call),
        call.m as int,
    )
}

/// Every offset and length of a projection is one a machine can count.
pub open spec fn q8_fits(call: Q8Call) -> bool {
    &&& call.m * call.k <= usize::MAX
    &&& 16 * (call.m * call.n) <= usize::MAX
    &&& 16 * call.n <= usize::MAX
    &&& call.narrow matches Some(tn) ==> tn > 0
}

proof fn lemma_band(call: Q8Call, from: int, rows: int)
    requires
        q8_fits(call),
        0 <= from,
        0 <= rows,
        from + rows <= call.m,
    ensures
        0 <= from * call.k <= usize::MAX,
        0 <= from * (call.k as int / 32) <= usize::MAX,
        0 <= from * call.n <= usize::MAX,
        0 <= rows * call.n,
        16 * (rows * call.n) <= usize::MAX,
{
    let k = call.k as int;
    let n = call.n as int;
    let m = call.m as int;
    let blocks = k / 32;
    assert(0 <= from * k <= m * k) by (nonlinear_arith)
        requires
            0 <= from <= m,
            0 <= k,
    ;
    assert(0 <= from * blocks <= from * k) by (nonlinear_arith)
        requires
            0 <= from,
            0 <= blocks <= k,
    ;
    assert(0 <= from * n <= m * n) by (nonlinear_arith)
        requires
            0 <= from <= m,
            0 <= n,
    ;
    assert(0 <= rows * n <= m * n) by (nonlinear_arith)
        requires
            0 <= rows <= m,
            0 <= n,
    ;
}

fn band_of(call: Q8Call, from: usize, rows: usize) -> (operands: Vec<Operand>)
    requires
        q8_fits(call),
        from + rows <= call.m,
    ensures
        operands@ == band(call, from as int, rows as int),
{
    proof {
        lemma_band(call, from as int, rows as int);
    }
    let blocks: usize = call.k / Q8_BLOCK;
    let operands = vec![
        operand(Place::Act, from * call.k, rows, call.k),
        operand(Place::ActScales, from * blocks, rows, blocks),
        operand(Place::Weight, 0, call.n, call.k),
        operand(Place::Scales, 0, blocks, call.n),
        operand(Place::Out, from * call.n, rows, call.n),
    ];
    assert(operands@ =~= band(call, from as int, rows as int));
    operands
}

/// The deep tile of a starved grid, split along `k`.
fn launch_qmma_split(steps: &mut Steps, call: Q8Call, rows: usize, wide: usize, splits: usize)
    requires
        q8_fits(call),
        rows <= call.m,
        wide > 0,
        splits <= 8,
    ensures
        final(steps)@ == old(steps)@ + split_acts(call, rows as int, wide, splits),
{
    let ghost before = steps@;
    proof {
        lemma_band(call, 0, rows as int);
    }
    let len: usize = rows * call.n;
    assert(0 <= splits * len <= 16 * len) by (nonlinear_arith)
        requires
            0 <= splits <= 8,
            0 <= len,
    ;
    steps.push(Step::Partials { len: splits * len });
    let mut inputs = band_of(call, 0, rows);
    let out = inputs[4];
    let ghost whole = inputs@;
    inputs.truncate(4);
    assert(inputs@ =~= whole.take(4));
    let mut sums: Vec<Operand> = Vec::new();
    let mut i: usize = 0;
    while i < splits
        invariant
            i <= splits <= 8,
            len == rows * call.n,
            16 * len <= usize::MAX,
            inputs@ == whole.take(4) + planes(call, rows as int, i as nat),
            sums@ == planes(call, rows as int, i as nat),
        decreases splits - i,
    {
        assert(0 <= i * len <= 16 * len) by (nonlinear_arith)
            requires
                0 <= i <= 8,
                0 <= len,
        ;
        let one = operand(Place::Partials, i * len, rows, call.n);
        inputs.push(one);
        sums.push(one);
        i = i + 1;
        assert(sums@ =~= planes(call, rows as int, i as nat));
        assert(inputs@ =~= whole.take(4) + planes(call, rows as int, i as nat));
    }
    sums.push(out);
    let columns: usize = call.n / wide;
    steps.launch(
        Kernel::Q8QmmaSplit { wide, k: call.k, splits },
        inputs,
        rows / Q8_QMMA_TM,
        columns,
        splits,
    );
    steps.launch(Kernel::Q8QmmaReduce { wide, k: call.k, splits }, sums, rows, columns, 1);
    assert(steps@ =~= before + split_acts(call, rows as int, wide, splits));
}

/// One row of the projection.
fn project_row(steps: &mut Steps, call: Q8Call, row: usize, splits: usize)
    requires
        q8_fits(call),
        row < call.m,
        splits == quant::splits_of(call.n as nat, call.k as nat),
        splits <= 16,
    ensures
        final(steps)@ == old(steps)@ + row_acts(call, row as int),
{
    let ghost before = steps@;
    proof {
        lemma_band(call, row as int, 1);
    }
    let k: usize = call.k;
    let n: usize = call.n;
    let blocks: usize = k / Q8_BLOCK;
    let a = operand(Place::Act, row * k, 1, k);
    let scales = operand(Place::ActScales, row * blocks, 1, blocks);
    let out = operand(Place::Out, row * n, 1, n);
    let weight = operand(Place::Weight, 0, n, k);
    if n % Q8_QDOT_TN == 0 {
        let kernel = if call.persist {
            Kernel::Q8QdotPersist { accumulate: call.accumulate }
        } else {
            Kernel::Q8Qdot { accumulate: call.accumulate }
        };
        let operands = vec![a, scales, weight, operand(Place::RowScales, 0, n, blocks), out];
        assert(operands@ =~= seq![
            a,
            scales,
            weight,
            plan::whole(Place::RowScales, n as int, blocks as int),
            out,
        ]);
        steps.launch(kernel, operands, div_up(n, Q8_QDOT_TN), 1, 1);
        assert(steps@ =~= before + row_acts(call, row as int));
        return ;
    }
    let plane_scales = operand(Place::Scales, 0, blocks, n);
    if splits == 1 {
        let operands = vec![a, scales, weight, plane_scales, out];
        assert(operands@ =~= seq![a, scales, weight, plane_scales, out]);
        steps.launch(Kernel::Q8Dp4a { even: n % Q8_TN == 0 }, operands, div_up(n, Q8_TN), 1, 1);
        assert(steps@ =~= before + row_acts(call, row as int));
        return ;
    }
    assert(0 <= splits * n <= 16 * n) by (nonlinear_arith)
        requires
            0 <= splits <= 16,
            0 <= n,
    ;
    steps.push(Step::Partials { len: splits * n });
    let partials = operand(Place::Partials, 0, splits, n);
    let operands = vec![a, scales, weight, plane_scales, partials];
    assert(operands@ =~= seq![a, scales, weight, plane_scales, partials]);
    steps.launch(Kernel::Q8Split { even: n % Q8_TN == 0 }, operands, div_up(n, Q8_TN), splits, 1);
    let operands = vec![partials, out];
    assert(operands@ =~= seq![partials, out]);
    steps.launch(
        Kernel::Q8Reduce { even: n % Q8_TN == 0 },
        operands,
        div_up(n, Q8_REDUCE_TN),
        1,
        1,
    );
    assert(steps@ =~= before + row_acts(call, row as int));
}

/// What a projection against a Q8_0 weight launches.
pub fn project_q8(call: Q8Call) -> (result: Result<Steps, ProjectError>)
    requires
        q8_fits(call),
    ensures
        match result {
            Ok(steps) => call.k % 32 == 0 && call.stored == Some(call.n) && steps@ == q8_acts(call),
            Err(ProjectError::Ragged { k }) => k == call.k && call.k % 32 != 0,
            Err(ProjectError::Unknown) => call.k % 32 == 0 && call.stored is None,
            Err(ProjectError::Width { stored, n }) => call.k % 32 == 0 && call.stored == Some(stored)
                && n == call.n && stored != n,
        },
{
    let (m, k, n) = (call.m, call.k, call.n);
    if k % Q8_BLOCK != 0 {
        return Err(ProjectError::Ragged { k });
    }
    match call.stored {
        None => {
            return Err(ProjectError::Unknown);
        },
        Some(stored) => {
            if stored != n {
                return Err(ProjectError::Width { stored, n });
            }
        },
    }
    let mut steps = Steps::new();
    let mut done: usize = 0;
    if call.fused {
        let wide = qmma_width(n);
        let rows: usize = m - m % Q8_QMMA_TM;
        if rows > 0 && n % wide == 0 {
            assert(rows == deep_rows(call));
            assert(0 <= (rows / 128) * (n / wide) <= m * n) by (nonlinear_arith)
                requires
                    0 <= rows <= m,
                    0 <= n,
                    wide >= 1,
            ;
            let starved = (rows / Q8_QMMA_TM) * (n / wide) <= 2;
            let splits: usize = if call.split || starved {
                q8_qmma_splits(rows, n, k, wide)
            } else {
                1
            };
            assert(splits == deep_splits(call));
            match call.narrow {
                Some(tn) => {
                    let operands = band_of(call, 0, rows);
                    steps.launch(
                        Kernel::Q8QmmaNarrow { tn },
                        operands,
                        rows / Q8_QMMA_TM,
                        n / tn,
                        1,
                    );
                },
                None => {
                    if splits > 1 {
                        launch_qmma_split(&mut steps, call, rows, wide, splits);
                    } else {
                        let operands = band_of(call, 0, rows);
                        steps.launch(
                            Kernel::Q8QmmaDeep { wide },
                            operands,
                            rows / Q8_QMMA_TM,
                            n / wide,
                            1,
                        );
                    }
                },
            }
            done = rows;
        }
        assert(done == deep_rows(call));
        assert(steps@ =~= deep_acts(call));
        let left: usize = m - done;
        let rows: usize = left - left % Q8_QMMA_SHALLOW;
        if rows > 0 && n % Q8_QMMA_TN == 0 {
            let operands = band_of(call, done, rows);
            steps.launch(Kernel::Q8Qmma, operands, rows / Q8_QMMA_SHALLOW, n / Q8_QMMA_TN, 1);
            done = done + rows;
        }
    }
    assert(done == deep_rows(call) + shallow_rows(call));
    assert(steps@ =~= deep_acts(call) + shallow_acts(call));
    let left: usize = m - done;
    let rows: usize = left - left % Q8_MMA_TM;
    if rows > 0 {
        let operands = band_of(call, done, rows);
        steps.launch(
            Kernel::Q8Mma { even: n % Q8_MMA_TN == 0 },
            operands,
            rows / Q8_MMA_TM,
            div_up(n, Q8_MMA_TN),
            1,
        );
    }
    let from: usize = done + rows;
    assert(from == tiled_rows(call));
    let ghost tiled = deep_acts(call) + shallow_acts(call) + plain_acts(call);
    assert(steps@ =~= tiled);
    let splits = q8_splits(n, k);
    let mut row: usize = from;
    assert(rows_acts(call, from as int, from as int) =~= Seq::empty());
    assert(steps@ =~= tiled + rows_acts(call, from as int, from as int));
    while row < m
        invariant
            from <= row <= m,
            m == call.m,
            q8_fits(call),
            splits == quant::splits_of(call.n as nat, call.k as nat),
            splits <= 16,
            steps@ == tiled + rows_acts(call, from as int, row as int),
        decreases m - row,
    {
        project_row(&mut steps, call, row, splits);
        row = row + 1;
        assert(steps@ =~= tiled + rows_acts(call, from as int, row as int));
    }
    Ok(steps)
}

/// The tiles and the single rows are all the rows, each band whole tiles deep.
pub proof fn the_bands_are_the_rows(call: Q8Call)
    ensures
        0 <= deep_rows(call) && deep_rows(call) % 128 == 0,
        0 <= shallow_rows(call) && shallow_rows(call) % 64 == 0,
        0 <= plain_rows(call) && plain_rows(call) % 8 == 0,
        tiled_rows(call) <= call.m < tiled_rows(call) + 8,
{
}

/// A decode step's one row costs one launch wherever eight divides the outputs.
pub proof fn a_decode_row_is_one_launch(call: Q8Call)
    requires
        call.m == 1,
        call.n % 8 == 0,
    ensures
        q8_acts(call).len() == 1,
        q8_acts(call)[0] is Launch,
{
    reveal_with_fuel(rows_acts, 2);
    assert(q8_acts(call) =~= row_acts(call, 0));
}

/// No launch of the tiles reads or writes past the rows of the call.
pub proof fn a_band_stays_in_its_rows(call: Q8Call, from: int, rows: int)
    requires
        q8_fits(call),
        0 <= from,
        0 <= rows,
        from + rows <= call.m,
    ensures
        band(call, from, rows)[0].skip + band(call, from, rows)[0].rows * call.k <= call.m * call.k,
        band(call, from, rows)[4].skip + band(call, from, rows)[4].rows * call.n <= call.m * call.n,
{
    lemma_band(call, from, rows);
    let (k, n, m) = (call.k as int, call.n as int, call.m as int);
    assert(from * k + rows * k <= m * k) by (nonlinear_arith)
        requires
            from + rows <= m,
            0 <= k,
    ;
    assert(from * n + rows * n <= m * n) by (nonlinear_arith)
        requires
            from + rows <= m,
            0 <= n,
    ;
}

} // verus!
