//! What a projection's launches leave in its output: which contraction stands in each
//! element once they have all run.

use vstd::arithmetic::div_mod;
use vstd::prelude::*;

use crate::backend::device::dense::{self, DenseCall, DenseTiles};
use crate::backend::device::kernels::matmul::{self, RowsKernel};
use crate::backend::device::kernels::quant;
use crate::backend::device::plan::{self, Act, Kernel, Operand, Place};
use crate::backend::device::q8::{self, Q8Call};
use crate::backend::device::raw::{self, QmmaTile, RawCall};
use crate::backend::host::meaning::{cell, lemma_cell};

verus! {

/// What an element holds.
pub ghost enum Held {
    /// What it held before.
    Before,
    /// A row of the activation contracted with a row of the weight, all of it.
    Full(int, int),
    /// That, added to what it held before.
    Added(int, int),
    /// One of so many slices of it.
    Slice(int, int, int, int),
}

/// The output, the partial sums of a split and the padded output of a ragged row.
pub ghost struct Card {
    pub out: spec_fn(int) -> Held,
    pub partials: spec_fn(int) -> Held,
    pub padded: spec_fn(int) -> Held,
}

impl Card {
    pub open spec fn at(self, place: Place) -> spec_fn(int) -> Held {
        match place {
            Place::Partials => self.partials,
            Place::Padded => self.padded,
            _ => self.out,
        }
    }

    pub open spec fn with(self, place: Place, held: spec_fn(int) -> Held) -> Card {
        match place {
            Place::Partials => Card { partials: held, ..self },
            Place::Padded => Card { padded: held, ..self },
            _ => Card { out: held, ..self },
        }
    }
}

/// The tiles kernels were compiled for, where the kernel does not say.
pub ghost struct Tiles {
    pub dense: DenseTiles,
    /// Columns of the wide integer matvec.
    pub wide: nat,
    pub fused: QmmaTile,
}

/// The rows, columns and slices that a grid of a kernel's programs reaches.
pub open spec fn reach(t: Tiles, kernel: Kernel, grid: (nat, nat, nat)) -> (int, int, int) {
    let (x, y, z) = (grid.0 as int, grid.1 as int, grid.2 as int);
    match kernel {
        Kernel::MatmulTc => (x * t.dense.tc_m, y * t.dense.tc_n, 1),
        Kernel::Matmul { .. } => (x * t.dense.tile_m, y * t.dense.tile_n, 1),
        Kernel::Matvec { .. } => (1, x * 128, 1),
        Kernel::MatvecSplit { .. } => (1, x * 128, y),
        Kernel::Rows { kernel: RowsKernel::Blocks { tn, .. } } => (1, x * tn, 1),
        Kernel::Rows { kernel: RowsKernel::Tiles { tm, tn } } => (x * tm, y * tn, 1),
        Kernel::RowsSplit { kernel: RowsKernel::Tiles { tm, tn } } => (x * tm, y * tn, z),
        Kernel::Q8Qmma => (x * 64, y * 64, 1),
        Kernel::Q8QmmaDeep { wide } => (x * 128, y * wide, 1),
        Kernel::Q8QmmaNarrow { tn } => (x * 128, y * tn, 1),
        Kernel::Q8QmmaSplit { wide, .. } => (x * 128, y * wide, z),
        Kernel::Q8QmmaReduce { wide, .. } => (x, y * wide, 1),
        Kernel::Q8Mma { .. } => (x * 8, y * 64, 1),
        Kernel::Q8Dp4a { .. } => (1, x * 32, 1),
        Kernel::Q8Qdot { .. } | Kernel::Q8QdotPersist { .. } => (1, x * 8, 1),
        Kernel::Q8Split { .. } => (1, x * 32, y),
        Kernel::Q8Reduce { .. } => (1, x * 128, 1),
        Kernel::RawMatvec { quant } | Kernel::RawQdot { quant } => (
            y,
            x * raw::float_tile(quant)->Some_0,
            1,
        ),
        Kernel::RawI8 { narrow, .. } => (
            1,
            x * (if narrow {
                16
            } else {
                t.wide as int
            }),
            1,
        ),
        Kernel::RawQmma { .. } => (x * t.fused.tm, y * t.fused.tn, 1),
        _ => (0, 0, 0),
    }
}

/// Whether a Q8_0 kernel is handed rows of the activation with their own scales, and the
/// weight whole with its scales in the order the kernel reads them.
pub open spec fn q8_fed(operands: Seq<Operand>, by_rows: bool) -> bool {
    let (a, s) = (operands[0], operands[1]);
    let (k, n) = (a.cols as int, operands[2].rows as int);
    &&& a.place == Place::Act && s.place == Place::ActScales
    &&& a.skip as int % k == 0 || k == 0
    &&& s.rows == a.rows && s.cols == k / 32
    &&& s.skip * k == a.skip * (k / 32)
    &&& operands[2] == plan::whole(Place::Weight, n, k)
    &&& operands[3] == (if by_rows {
        plan::whole(Place::RowScales, n, k / 32)
    } else {
        plan::whole(Place::Scales, k / 32, n)
    })
}

/// The first row of the activation that an operand starts with, `from` being its offset
/// in elements.
pub open spec fn first_row(a: Operand) -> int {
    a.skip as int / a.cols as int
}

/// A matrix of the output written where programs reach it: element `(i, j)` becomes
/// `what(i, j)`.
pub open spec fn filled(
    held: spec_fn(int) -> Held,
    o: Operand,
    to: (int, int, int),
    what: spec_fn(int, int) -> Held,
) -> spec_fn(int) -> Held {
    |p: int|
        {
            let q = p - o.skip;
            let (i, j) = (q / o.cols as int, q % o.cols as int);
            if 0 <= q < o.rows * o.cols && i < to.0 && j < to.1 {
                what(i, j)
            } else {
                held(p)
            }
        }
}

/// The first `n` planes of partial sums written, those that programs reach.
pub open spec fn sliced(
    held: spec_fn(int) -> Held,
    planes: Seq<Operand>,
    to: (int, int, int),
    row: int,
    n: nat,
) -> spec_fn(int) -> Held
    decreases n,
{
    if n == 0 {
        held
    } else {
        let s = n - 1;
        let before = sliced(held, planes, to, row, s as nat);
        if s < to.2 {
            filled(
                before,
                planes[s],
                to,
                |i: int, j: int| Held::Slice(row + i, j, s, planes.len() as int),
            )
        } else {
            before
        }
    }
}

/// What the slices at some places sum to: the whole, where they are all the slices of
/// one contraction.
pub open spec fn summed(slices: Seq<Held>) -> Held {
    match slices[0] {
        Held::Slice(r, c, _, _) => if forall|s: int|
            0 <= s < slices.len() ==> #[trigger] slices[s] == Held::Slice(
                r,
                c,
                s,
                slices.len() as int,
            ) {
            Held::Full(r, c)
        } else {
            Held::Before
        },
        _ => Held::Before,
    }
}

/// What a step leaves.
pub open spec fn after_act(t: Tiles, card: Card, act: Act) -> Card {
    match act {
        Act::Launch { kernel, operands, grid } => {
            let to = reach(t, kernel, grid);
            let (a, o) = (operands[0], operands.last());
            let row = first_row(a);
            let whole = |i: int, j: int| Held::Full(row + i, j);
            let stored = card.with(o.place, filled(card.at(o.place), o, to, whole));
            match kernel {
                Kernel::Q8Qmma
                | Kernel::Q8QmmaDeep { .. }
                | Kernel::Q8QmmaNarrow { .. }
                | Kernel::Q8Mma { .. }
                | Kernel::Q8Dp4a { .. } => if q8_fed(operands, false) {
                    stored
                } else {
                    card
                },
                Kernel::Q8Qdot { accumulate } | Kernel::Q8QdotPersist { accumulate } => if !q8_fed(
                    operands,
                    true,
                ) {
                    card
                } else if accumulate {
                    card.with(
                        o.place,
                        filled(
                            card.at(o.place),
                            o,
                            to,
                            |i: int, j: int| Held::Added(row + i, j),
                        ),
                    )
                } else {
                    stored
                },
                Kernel::Q8Split { .. } => if q8_fed(operands, false) {
                    card.with(
                        o.place,
                        filled(
                            card.at(o.place),
                            o,
                            (to.2, to.1, 1),
                            |s: int, j: int| Held::Slice(row, j, s, o.rows as int),
                        ),
                    )
                } else {
                    card
                },
                // The operands are partial sums a row a slice, and where their sum goes.
                Kernel::Q8Reduce { .. } => card.with(
                    o.place,
                    filled(
                        card.at(o.place),
                        o,
                        to,
                        |i: int, j: int|
                            summed(
                                Seq::new(
                                    a.rows as nat,
                                    |s: int| (card.at(a.place))(a.skip + s * a.cols + j),
                                ),
                            ),
                    ),
                ),
                // A plane of partial sums a slice, after the four operands of the tile.
                Kernel::Q8QmmaSplit { .. } => if q8_fed(operands, false) {
                    let planes = operands.skip(4);
                    card.with(
                        Place::Partials,
                        sliced(card.partials, planes, to, row, planes.len()),
                    )
                } else {
                    card
                },
                Kernel::Q8QmmaReduce { .. } => card.with(
                    o.place,
                    filled(
                        card.at(o.place),
                        o,
                        to,
                        |i: int, j: int|
                            summed(
                                Seq::new(
                                    (operands.len() - 1) as nat,
                                    |s: int|
                                        (card.partials)(operands[s].skip + (i * o.cols + j)),
                                ),
                            ),
                    ),
                ),
                Kernel::MatvecSplit { .. } => if operands[1] == plan::whole(
                    Place::Dense,
                    a.cols as int,
                    o.cols as int,
                ) && a.place == Place::Input {
                    card.with(
                        o.place,
                        filled(
                            card.at(o.place),
                            o,
                            (to.2, to.1, 1),
                            |s: int, j: int| Held::Slice(row, j, s, o.rows as int),
                        ),
                    )
                } else {
                    card
                },
                Kernel::MatmulTc | Kernel::Matmul { .. } | Kernel::Matvec { .. } => if operands[1]
                    == plan::whole(Place::Dense, a.cols as int, o.cols as int) && a.place
                    == Place::Input {
                    stored
                } else {
                    card
                },
                Kernel::Rows { kernel: RowsKernel::Tiles { .. } } => if operands[1] == plan::whole(
                    Place::Dense,
                    o.cols as int,
                    a.cols as int,
                ) && a.place == Place::Input {
                    stored
                } else {
                    card
                },
                // One row and the weight viewed in blocks of 32, an output a row.
                Kernel::Rows { kernel: RowsKernel::Blocks { k, .. } } => if a == plan::whole(
                    Place::Input,
                    k as int / 32,
                    32,
                ) && operands[1] == plan::whole(Place::Dense, o.rows * (k as int / 32), 32)
                    && o.cols == 1 {
                    card.with(
                        o.place,
                        filled(
                            card.at(o.place),
                            o,
                            (to.1, 1, 1),
                            |j: int, one: int| Held::Full(0, j),
                        ),
                    )
                } else {
                    card
                },
                // The partial sums of every row for one slice after another.
                Kernel::RowsSplit { .. } => if operands[1] == plan::whole(
                    Place::Dense,
                    o.cols as int,
                    a.cols as int,
                ) && a.place == Place::Input && to.0 >= a.rows {
                    card.with(
                        o.place,
                        filled(
                            card.at(o.place),
                            o,
                            (to.2 * a.rows, to.1, 1),
                            |q: int, j: int|
                                Held::Slice(
                                    row + q % a.rows as int,
                                    j,
                                    q / a.rows as int,
                                    o.rows as int / a.rows as int,
                                ),
                        ),
                    )
                } else {
                    card
                },
                Kernel::RawMatvec { .. } | Kernel::RawQdot { .. } => if a.place == Place::Input
                    && raw_fed(operands, 1) {
                    stored
                } else {
                    card
                },
                Kernel::RawI8 { .. } | Kernel::RawQmma { .. } => if a.place == Place::Act
                    && operands[1] == plan::whole(
                    Place::ActScales,
                    a.rows as int,
                    a.cols as int / 32,
                ) && raw_fed(operands, 2) {
                    stored
                } else {
                    card
                },
                _ => card,
            }
        },
        Act::Unpad { padded, width } => Card {
            out: |p: int|
                if 0 <= p < width {
                    (card.padded)(p)
                } else {
                    (card.out)(p)
                },
            ..card
        },
        _ => card,
    }
}

/// Whether a raw kernel is handed a row of blocks and of their scales for every output,
/// and all of the activation.
pub open spec fn raw_fed(operands: Seq<Operand>, at: int) -> bool {
    let (bytes, headers, o) = (operands[at], operands[at + 1], operands.last());
    &&& operands[0].skip == 0 && o.skip == 0
    &&& bytes.place == Place::Bytes && headers.place == Place::Headers
    &&& bytes.skip == 0 && headers.skip == 0
    &&& bytes.rows == o.cols && headers.rows == o.cols
}

/// What steps leave, one after the other.
pub open spec fn after_acts(t: Tiles, card: Card, acts: Seq<Act>) -> Card
    decreases acts.len(),
{
    if acts.len() == 0 {
        card
    } else {
        after_act(t, after_acts(t, card, acts.drop_last()), acts.last())
    }
}

/// Whether rows of the output hold their own contractions.
pub open spec fn projected(card: Card, from: int, to: int, n: int) -> bool {
    forall|r: int, j: int|
        from <= r < to && 0 <= j < n ==> (card.out)(#[trigger] cell(r, j, n)) == Held::Full(r, j)
}

/// Whether what lies outside rows of the output is as it was.
pub open spec fn untouched(before: Card, after: Card, from: int, to: int, n: int) -> bool {
    forall|p: int| !(from * n <= p < to * n) ==> #[trigger] (after.out)(p) == (before.out)(p)
}

proof fn lemma_acts_joined(t: Tiles, card: Card, first: Seq<Act>, then_acts: Seq<Act>)
    ensures
        after_acts(t, card, first + then_acts) == after_acts(
            t,
            after_acts(t, card, first),
            then_acts,
        ),
    decreases then_acts.len(),
{
    if then_acts.len() == 0 {
        assert(first + then_acts =~= first);
    } else {
        lemma_acts_joined(t, card, first, then_acts.drop_last());
        assert((first + then_acts).drop_last() =~= first + then_acts.drop_last());
    }
}

/// A matrix of `rows` by `n` from row `from` on, written whole.
proof fn lemma_filled(
    held: spec_fn(int) -> Held,
    o: Operand,
    to: (int, int, int),
    what: spec_fn(int, int) -> Held,
    from: int,
    rows: int,
    n: int,
)
    requires
        0 <= from,
        0 < rows,
        0 <= n,
        o.skip == from * n,
        o.rows == rows,
        o.cols == n,
        rows <= to.0,
        n <= to.1,
    ensures
        forall|r: int, j: int|
            from <= r < from + rows && 0 <= j < n ==> #[trigger] filled(held, o, to, what)(
                cell(r, j, n),
            ) == what(r - from, j),
        forall|p: int|
            !(from * n <= p < (from + rows) * n) ==> #[trigger] filled(held, o, to, what)(p)
                == held(p),
{
    assert forall|r: int, j: int|
        from <= r < from + rows && 0 <= j < n implies #[trigger] filled(held, o, to, what)(
        cell(r, j, n),
    ) == what(r - from, j) by {
        lemma_cell(r - from, j, rows, n);
        assert(r * n + j - from * n == (r - from) * n + j) by (nonlinear_arith);
    }
    assert((from + rows) * n == from * n + rows * n) by (nonlinear_arith);
}

/// A tile kernel over a band of a Q8_0 projection projects the band's rows.
proof fn lemma_band(t: Tiles, card: Card, call: Q8Call, kernel: Kernel, grid: (nat, nat, nat), from: int, rows: int)
    requires
        q8::q8_fits(call),
        0 <= from,
        0 < rows,
        from + rows <= call.m,
        call.k > 0,
        kernel is Q8Qmma || kernel is Q8QmmaDeep || kernel is Q8QmmaNarrow || kernel is Q8Mma,
        rows <= reach(t, kernel, grid).0,
        call.n <= reach(t, kernel, grid).1,
    ensures
        ({
            let after = after_act(
                t,
                card,
                Act::Launch { kernel, operands: q8::band(call, from, rows), grid },
            );
            projected(after, from, from + rows, call.n as int) && untouched(
                card,
                after,
                from,
                from + rows,
                call.n as int,
            )
        }),
{
    let (k, n, blocks) = (call.k as int, call.n as int, call.k as int / 32);
    let operands = q8::band(call, from, rows);
    let to = reach(t, kernel, grid);
    lemma_sizes(call, from, rows);
    let (a, o) = (operands[0], operands.last());
    div_mod::lemma_div_multiples_vanish(from, k);
    div_mod::lemma_mod_multiples_basic(from, k);
    assert(k * from == from * k) by (nonlinear_arith);
    assert((from * blocks) * k == (from * k) * blocks) by (nonlinear_arith);
    assert(first_row(a) == from);
    assert(q8_fed(operands, false));
    let whole = |i: int, j: int| Held::Full(from + i, j);
    lemma_filled(card.out, o, to, whole, from, rows, n);
    let after = after_act(t, card, Act::Launch { kernel, operands, grid });
    assert forall|r: int, j: int| from <= r < from + rows && 0 <= j < n implies (after.out)(
        #[trigger] cell(r, j, n),
    ) == Held::Full(r, j) by {
        assert(filled(card.out, o, to, whole)(cell(r, j, n)) == whole(r - from, j));
    }
    assert forall|p: int| !(from * n <= p < (from + rows) * n) implies #[trigger] (after.out)(p)
        == (card.out)(p) by {
        assert(filled(card.out, o, to, whole)(p) == (card.out)(p));
    }
}

proof fn lemma_sizes(call: Q8Call, from: int, rows: int)
    requires
        q8::q8_fits(call),
        0 <= from,
        0 <= rows,
        from + rows <= call.m,
    ensures
        0 <= from * call.k <= usize::MAX,
        0 <= from * (call.k as int / 32) <= usize::MAX,
        0 <= from * call.n <= usize::MAX,
        0 <= rows * call.n,
        16 * (rows * call.n) <= usize::MAX,
{
    let (k, n, m) = (call.k as int, call.n as int, call.m as int);
    let blocks = k / 32;
    assert(0 <= from * k <= m * k && 0 <= from * n <= m * n && 0 <= rows * n <= m * n && 0 <= from
        * blocks <= from * k) by (nonlinear_arith)
        requires
            0 <= from <= m,
            0 <= rows <= m,
            0 <= k,
            0 <= n,
            0 <= blocks <= k,
    ;
}

proof fn lemma_sliced(
    held: spec_fn(int) -> Held,
    planes: Seq<Operand>,
    to: (int, int, int),
    row: int,
    count: nat,
    rows: int,
    n: int,
    s: int,
    i: int,
    j: int,
)
    requires
        0 <= s < count <= planes.len(),
        count <= to.2,
        0 <= i < rows,
        0 <= j < n,
        rows <= to.0,
        n <= to.1,
        forall|q: int|
            0 <= q < count ==> (#[trigger] planes[q]).skip == q * (rows * n) && planes[q].rows
                == rows && planes[q].cols == n,
    ensures
        sliced(held, planes, to, row, count)(planes[s].skip + (i * n + j)) == Held::Slice(
            row + i,
            j,
            s,
            planes.len() as int,
        ),
    decreases count,
{
    let last = count - 1;
    lemma_cell(i, j, rows, n);
    let at = i * n + j;
    let o = planes[last];
    if s == last {
        assert(o.skip + at - o.skip == at);
    } else {
        lemma_sliced(held, planes, to, row, last as nat, rows, n, s, i, j);
        assert(s * (rows * n) + rows * n <= last * (rows * n)) by (nonlinear_arith)
            requires
                s + 1 <= last,
                0 <= rows * n,
        ;
        assert(planes[s].skip + at < o.skip);
    }
}

/// The deep tile split along `k`: the slices of every output, and their sum.
proof fn lemma_split(t: Tiles, card: Card, call: Q8Call, rows: int, wide: usize, splits: usize)
    requires
        q8::q8_fits(call),
        0 < rows <= call.m,
        rows % 128 == 0,
        call.k > 0,
        wide > 0,
        call.n as nat % (wide as nat) == 0,
        1 < splits <= 16,
    ensures
        ({
            let after = after_acts(t, card, q8::split_acts(call, rows, wide, splits));
            projected(after, 0, rows, call.n as int) && untouched(
                card,
                after,
                0,
                rows,
                call.n as int,
            )
        }),
{
    let n = call.n as int;
    let acts = q8::split_acts(call, rows, wide, splits);
    lemma_sizes(call, 0, rows);
    lemma_sizes(call, rows, 0);
    let columns = call.n as nat / (wide as nat);
    div_mod::lemma_fundamental_div_mod(n, wide as int);
    assert(columns * wide == n) by (nonlinear_arith)
        requires
            n == wide * columns + 0,
    ;
    let first = acts.take(1);
    let two = acts.take(2);
    assert(first.drop_last() =~= Seq::empty());
    assert(two.drop_last() =~= first);
    assert(acts.drop_last() =~= two);
    assert(after_acts(t, card, first.drop_last()) == card);
    assert(after_acts(t, card, first) == card);
    let mid = after_acts(t, card, two);
    let planes = q8::planes(call, rows, splits as nat);
    let band = q8::band(call, 0, rows);
    let operands = band.take(4) + planes;
    assert(operands.skip(4) =~= planes);
    let to = (rows / 128 * 128, columns * wide, splits as int);
    assert(first_row(operands[0]) == 0) by {
        assert(0 * call.k == 0);
    }
    assert(q8_fed(operands, false)) by {
        assert(0 * (call.k as int / 32) == 0);
        assert(operands[1] == band[1] && operands[2] == band[2] && operands[3] == band[3]);
    }
    assert(mid.partials == sliced(card.partials, planes, to, 0, splits as nat));
    assert forall|q: int| 0 <= q < splits implies (#[trigger] planes[q]).skip == q * (rows * n)
        && planes[q].rows == rows && planes[q].cols == n by {
        assert(0 <= q * (rows * n) <= 16 * (rows * n)) by (nonlinear_arith)
            requires
                0 <= q <= 16,
                0 <= rows * n,
        ;
    }
    let last = planes.push(band[4]);
    let o = last.last();
    assert(o == band[4]);
    let sum = |i: int, j: int|
        summed(
            Seq::new(
                (last.len() - 1) as nat,
                |s: int| (mid.partials)(last[s].skip + (i * o.cols + j)),
            ),
        );
    let reached = (rows, columns * wide, 1int);
    assert(0 * n == 0);
    if n > 0 {
        lemma_filled(mid.out, o, reached, sum, 0, rows, n);
    } else {
        lemma_filled(mid.out, o, reached, sum, 0, rows, 0);
    }
    let after = after_acts(t, card, acts);
    assert(after.out == filled(mid.out, o, reached, sum));
    assert forall|r: int, j: int| 0 <= r < rows && 0 <= j < n implies (after.out)(
        #[trigger] cell(r, j, n),
    ) == Held::Full(r, j) by {
        assert(filled(mid.out, o, reached, sum)(cell(r, j, n)) == sum(r - 0, j));
        let slices = Seq::new(
            (last.len() - 1) as nat,
            |s: int| (mid.partials)(last[s].skip + (r * o.cols + j)),
        );
        assert forall|s: int| 0 <= s < slices.len() implies #[trigger] slices[s] == Held::Slice(
            r,
            j,
            s,
            slices.len() as int,
        ) by {
            assert(last[s] == planes[s]);
            lemma_sliced(card.partials, planes, to, 0, splits as nat, rows, n, s, r, j);
        }
        assert(slices[0] == Held::Slice(r, j, 0, slices.len() as int));
    }
    assert forall|p: int| !(0 * n <= p < rows * n) implies #[trigger] (after.out)(p) == (card.out)(
        p,
    ) by {
        assert(filled(mid.out, o, reached, sum)(p) == (mid.out)(p));
    }
}

proof fn lemma_tiles_cover(len: nat, tile: nat)
    requires
        tile > 0,
    ensures
        len <= plan::tiles(len, tile) * tile,
{
    div_mod::lemma_fundamental_div_mod(len as int, tile as int);
    let q = len / tile;
    assert(tile * q == q * tile && (q + 1) * tile == q * tile + tile) by (nonlinear_arith);
}

/// What one row of a Q8_0 projection becomes: its contraction, or that added.
pub open spec fn row_held(call: Q8Call, row: int, j: int) -> Held {
    if call.accumulate && call.n % 8 == 0 {
        Held::Added(row, j)
    } else {
        Held::Full(row, j)
    }
}

proof fn lemma_row_acts(t: Tiles, card: Card, call: Q8Call, row: int)
    requires
        q8::q8_fits(call),
        0 <= row < call.m,
        call.k > 0,
        call.k % 32 == 0,
    ensures
        ({
            let after = after_acts(t, card, q8::row_acts(call, row));
            &&& untouched(card, after, row, row + 1, call.n as int)
            &&& forall|j: int|
                0 <= j < call.n ==> (after.out)(#[trigger] cell(row, j, call.n as int)) == row_held(
                    call,
                    row,
                    j,
                )
        }),
{
    let (k, n, blocks) = (call.k as int, call.n as int, call.k as int / 32);
    let acts = q8::row_acts(call, row);
    lemma_sizes(call, row, 1);
    let splits = quant::splits_of(n as nat, k as nat);
    let after = after_acts(t, card, acts);
    div_mod::lemma_div_multiples_vanish(row, k);
    div_mod::lemma_mod_multiples_basic(row, k);
    assert(k * row == row * k) by (nonlinear_arith);
    assert((row * blocks) * k == (row * k) * blocks) by (nonlinear_arith);
    lemma_tiles_cover(n as nat, 8);
    lemma_tiles_cover(n as nat, 32);
    lemma_tiles_cover(n as nat, 128);
    let out = plan::part(Place::Out, row * n, 1, n);
    let a = plan::part(Place::Act, row * k, 1, k);
    assert(first_row(a) == row);
    if n % 8 == 0 || splits == 1 {
        assert(acts.drop_last() =~= Seq::empty());
        assert(after_acts(t, card, acts.drop_last()) == card);
        let operands = acts[0]->operands;
        assert(q8_fed(operands, n % 8 == 0));
        let tile = if n % 8 == 0 {
            8nat
        } else {
            32
        };
        let to = (1int, plan::tiles(n as nat, tile) as int * tile, 1int);
        let what = if n % 8 == 0 && call.accumulate {
            |i: int, j: int| Held::Added(row + i, j)
        } else {
            |i: int, j: int| Held::Full(row + i, j)
        };
        lemma_filled(card.out, out, to, what, row, 1, n);
        assert(after.out == filled(card.out, out, to, what));
        assert forall|j: int| 0 <= j < n implies (after.out)(#[trigger] cell(row, j, n))
            == row_held(call, row, j) by {
            assert(filled(card.out, out, to, what)(cell(row, j, n)) == what(row - row, j));
        }
        assert forall|p: int| !(row * n <= p < (row + 1) * n) implies #[trigger] (after.out)(p)
            == (card.out)(p) by {
            assert(filled(card.out, out, to, what)(p) == (card.out)(p));
        }
    } else {
        quant::a_split_is_whole_blocks(n as nat, k as nat);
        lemma_few_splits(n as nat, k as nat);
        let first = acts.take(1);
        let two = acts.take(2);
        assert(first.drop_last() =~= Seq::empty());
        assert(two.drop_last() =~= first);
        assert(acts.drop_last() =~= two);
        assert(after_acts(t, card, first.drop_last()) == card);
        assert(after_acts(t, card, first) == card);
        let mid = after_acts(t, card, two);
        let partials = plan::whole(Place::Partials, splits as int, n);
        let operands = acts[1]->operands;
        assert(q8_fed(operands, false));
        let to = (splits as int, plan::tiles(n as nat, 32) as int * 32, 1int);
        let slice = |s: int, j: int| Held::Slice(row, j, s, splits as int);
        assert(0 * n == 0);
        lemma_filled(card.partials, partials, to, slice, 0, splits as int, n);
        assert(mid.partials == filled(card.partials, partials, to, slice));
        assert(mid.out == card.out);
        let reached = (1int, plan::tiles(n as nat, 128) as int * 128, 1int);
        let sum = |i: int, j: int|
            summed(
                Seq::new(
                    partials.rows as nat,
                    |s: int| (mid.partials)(partials.skip + s * partials.cols + j),
                ),
            );
        lemma_filled(mid.out, out, reached, sum, row, 1, n);
        assert(after.out == filled(mid.out, out, reached, sum));
        assert forall|j: int| 0 <= j < n implies (after.out)(#[trigger] cell(row, j, n))
            == row_held(call, row, j) by {
            assert(filled(mid.out, out, reached, sum)(cell(row, j, n)) == sum(row - row, j));
            let slices = Seq::new(
                partials.rows as nat,
                |s: int| (mid.partials)(partials.skip + s * partials.cols + j),
            );
            assert forall|s: int| 0 <= s < slices.len() implies #[trigger] slices[s]
                == Held::Slice(row, j, s, slices.len() as int) by {
                assert(filled(card.partials, partials, to, slice)(cell(s, j, n)) == slice(
                    s - 0,
                    j,
                ));
            }
            assert(slices[0] == Held::Slice(row, j, 0, slices.len() as int));
        }
        assert forall|p: int| !(row * n <= p < (row + 1) * n) implies #[trigger] (after.out)(p)
            == (card.out)(p) by {
            assert(filled(mid.out, out, reached, sum)(p) == (mid.out)(p));
        }
    }
}

proof fn lemma_few_splits(n: nat, k: nat)
    ensures
        quant::splits_of(n, k) <= 16,
{
    let grid = if (n + 31) / 32 == 0 {
        1
    } else {
        (n + 31) / 32
    };
    let most = if 256nat / grid < 16 {
        256nat / grid
    } else {
        16
    };
    crate::backend::device::kernels::lemma_halved(most, k / 32);
}

proof fn lemma_rows_acts(t: Tiles, card: Card, call: Q8Call, from: int, to: int)
    requires
        q8::q8_fits(call),
        0 <= from <= to <= call.m,
        call.k > 0,
        call.k % 32 == 0,
        !(call.accumulate && call.n % 8 == 0),
    ensures
        ({
            let after = after_acts(t, card, q8::rows_acts(call, from, to));
            projected(after, from, to, call.n as int) && untouched(
                card,
                after,
                from,
                to,
                call.n as int,
            )
        }),
    decreases to - from,
{
    let n = call.n as int;
    if from < to {
        let first = q8::rows_acts(call, from, to - 1);
        let one = q8::row_acts(call, to - 1);
        let before = after_acts(t, card, first);
        lemma_rows_acts(t, card, call, from, to - 1);
        lemma_acts_joined(t, card, first, one);
        lemma_row_acts(t, before, call, to - 1);
        lemma_then(card, before, after_acts(t, before, one), from, to - 1, to, n);
    }
}

/// Rows projected in two bands are projected.
proof fn lemma_then(first: Card, mid: Card, last: Card, from: int, cut: int, to: int, n: int)
    requires
        0 <= from <= cut <= to,
        0 <= n,
        projected(mid, from, cut, n),
        untouched(first, mid, from, cut, n),
        projected(last, cut, to, n),
        untouched(mid, last, cut, to, n),
    ensures
        projected(last, from, to, n),
        untouched(first, last, from, to, n),
{
    assert(from * n <= cut * n <= to * n) by (nonlinear_arith)
        requires
            from <= cut <= to,
            0 <= n,
    ;
    assert forall|r: int, j: int| from <= r < to && 0 <= j < n implies (last.out)(
        #[trigger] cell(r, j, n),
    ) == Held::Full(r, j) by {
        if r < cut {
            assert(r * n + n <= cut * n) by (nonlinear_arith)
                requires
                    r + 1 <= cut,
                    0 <= n,
            ;
            assert((mid.out)(cell(r, j, n)) == Held::Full(r, j));
            assert((last.out)(cell(r, j, n)) == (mid.out)(cell(r, j, n)));
        }
    }
    assert forall|p: int| !(from * n <= p < to * n) implies #[trigger] (last.out)(p) == (first.out)(
        p,
    ) by {
        assert((last.out)(p) == (mid.out)(p));
    }
}

/// A Q8_0 projection's launches leave every output of every row, each the whole
/// contraction of its own row of the activation with its own row of the weight, and
/// touch nothing past them.
pub proof fn a_q8_projection_computes(t: Tiles, card: Card, call: Q8Call)
    requires
        q8::q8_fits(call),
        call.k > 0,
        call.k % 32 == 0,
        !(call.accumulate && call.n % 8 == 0),
        call.narrow matches Some(tn) ==> call.n % tn == 0,
    ensures
        ({
            let after = after_acts(t, card, q8::q8_acts(call));
            projected(after, 0, call.m as int, call.n as int) && untouched(
                card,
                after,
                0,
                call.m as int,
                call.n as int,
            )
        }),
{
    let n = call.n as int;
    q8::the_bands_are_the_rows(call);
    let (d, s, p) = (q8::deep_rows(call), q8::shallow_rows(call), q8::plain_rows(call));
    let (deep, shallow, plain) = (
        q8::deep_acts(call),
        q8::shallow_acts(call),
        q8::plain_acts(call),
    );
    let rows = q8::rows_acts(call, d + s + p, call.m as int);
    let c1 = after_acts(t, card, deep);
    let c2 = after_acts(t, c1, shallow);
    let c3 = after_acts(t, c2, plain);
    lemma_acts_joined(t, card, deep, shallow);
    lemma_acts_joined(t, card, deep + shallow, plain);
    lemma_acts_joined(t, card, deep + shallow + plain, rows);
    let wide = quant::width_of(n as nat);
    if d > 0 {
        if call.narrow is Some {
            let tn = call.narrow->Some_0 as int;
            div_mod::lemma_fundamental_div_mod(n, tn);
            assert(n / tn * tn == tn * (n / tn)) by (nonlinear_arith);
            lemma_one(t, card, call, deep[0]->kernel, deep[0]->grid, 0, d);
        } else if q8::deep_splits(call) > 1 {
            lemma_split(t, card, call, d, wide as usize, q8::deep_splits(call) as usize);
        } else {
            div_mod::lemma_fundamental_div_mod(n, wide as int);
            assert(n / wide as int * wide == wide * (n / wide as int)) by (nonlinear_arith);
            lemma_one(t, card, call, deep[0]->kernel, deep[0]->grid, 0, d);
        }
    } else {
        assert(c1 == card);
    }
    if s > 0 {
        lemma_one(t, c1, call, shallow[0]->kernel, shallow[0]->grid, d, s);
    } else {
        assert(c2 == c1);
    }
    if p > 0 {
        lemma_tiles_cover(n as nat, 64);
        lemma_one(t, c2, call, plain[0]->kernel, plain[0]->grid, d + s, p);
    } else {
        assert(c3 == c2);
    }
    lemma_rows_acts(t, c3, call, d + s + p, call.m as int);
    lemma_then(card, c1, c2, 0, d, d + s, n);
    lemma_then(card, c2, c3, 0, d + s, d + s + p, n);
    lemma_then(card, c3, after_acts(t, c3, rows), 0, d + s + p, call.m as int, n);
}

/// One launch over a band.
proof fn lemma_one(
    t: Tiles,
    card: Card,
    call: Q8Call,
    kernel: Kernel,
    grid: (nat, nat, nat),
    from: int,
    rows: int,
)
    requires
        q8::q8_fits(call),
        0 <= from,
        0 < rows,
        from + rows <= call.m,
        call.k > 0,
        kernel is Q8Qmma || kernel is Q8QmmaDeep || kernel is Q8QmmaNarrow || kernel is Q8Mma,
        rows <= reach(t, kernel, grid).0,
        call.n <= reach(t, kernel, grid).1,
    ensures
        ({
            let after = after_acts(
                t,
                card,
                seq![Act::Launch { kernel, operands: q8::band(call, from, rows), grid }],
            );
            projected(after, from, from + rows, call.n as int) && untouched(
                card,
                after,
                from,
                from + rows,
                call.n as int,
            )
        }),
{
    let acts = seq![Act::Launch { kernel, operands: q8::band(call, from, rows), grid }];
    assert(acts.drop_last() =~= Seq::empty());
    assert(after_acts(t, card, acts.drop_last()) == card);
    lemma_band(t, card, call, kernel, grid, from, rows);
}

/// A single row that is to be accumulated is added to what its output held.
pub proof fn an_accumulating_row_adds(t: Tiles, card: Card, call: Q8Call, j: int)
    requires
        q8::q8_fits(call),
        call.m == 1,
        call.accumulate,
        call.k > 0,
        call.k % 32 == 0,
        call.n % 8 == 0,
        0 <= j < call.n,
    ensures
        (after_acts(t, card, q8::q8_acts(call)).out)(j) == Held::Added(0, j),
{
    reveal_with_fuel(q8::rows_acts, 2);
    assert(q8::q8_acts(call) =~= q8::row_acts(call, 0));
    lemma_row_acts(t, card, call, 0);
    assert(cell(0, j, call.n as int) == j);
}

proof fn lemma_dense_sizes(call: DenseCall, from: int, rows: int)
    requires
        dense::dense_fits(call),
        0 <= from,
        0 <= rows,
        from + rows <= call.m,
    ensures
        0 <= from * call.k <= usize::MAX,
        0 <= from * call.n <= usize::MAX,
        0 <= rows * call.n,
        8 * (rows * call.n) <= usize::MAX,
{
    let (k, n, m) = (call.k as int, call.n as int, call.m as int);
    assert(0 <= from * k <= m * k && 0 <= from * n <= m * n && 0 <= rows * n <= m * n)
        by (nonlinear_arith)
        requires
            0 <= from <= m,
            0 <= rows <= m,
            0 <= k,
            0 <= n,
    ;
}

/// One launch that stores a band of a projection in single precision.
proof fn lemma_dense_one(
    t: Tiles,
    card: Card,
    call: DenseCall,
    kernel: Kernel,
    weight: Operand,
    grid: (nat, nat, nat),
    from: int,
    rows: int,
)
    requires
        dense::dense_fits(call),
        0 <= from,
        0 < rows,
        from + rows <= call.m,
        call.k > 0,
        kernel is MatmulTc || kernel is Matmul || kernel is Matvec || (kernel matches Kernel::Rows {
            kernel: k,
        } && k is Tiles),
        kernel is Rows ==> weight == plan::whole(Place::Dense, call.n as int, call.k as int),
        !(kernel is Rows) ==> weight == plan::whole(Place::Dense, call.k as int, call.n as int),
        rows <= reach(t, kernel, grid).0,
        call.n <= reach(t, kernel, grid).1,
    ensures
        ({
            let after = after_acts(
                t,
                card,
                seq![
                    Act::Launch {
                        kernel,
                        operands: seq![
                            plan::part(Place::Input, from * call.k, rows, call.k as int),
                            weight,
                            plan::part(Place::Out, from * call.n, rows, call.n as int),
                        ],
                        grid,
                    },
                ],
            );
            projected(after, from, from + rows, call.n as int) && untouched(
                card,
                after,
                from,
                from + rows,
                call.n as int,
            )
        }),
{
    let (k, n) = (call.k as int, call.n as int);
    let a = plan::part(Place::Input, from * k, rows, k);
    let o = plan::part(Place::Out, from * n, rows, n);
    let acts = seq![Act::Launch { kernel, operands: seq![a, weight, o], grid }];
    assert(acts.drop_last() =~= Seq::empty());
    assert(after_acts(t, card, acts.drop_last()) == card);
    let to = reach(t, kernel, grid);
    lemma_dense_sizes(call, from, rows);
    div_mod::lemma_div_multiples_vanish(from, k);
    assert(k * from == from * k) by (nonlinear_arith);
    assert(first_row(a) == from);
    let whole = |i: int, j: int| Held::Full(from + i, j);
    lemma_filled(card.out, o, to, whole, from, rows, n);
    let after = after_acts(t, card, acts);
    assert(after.out == filled(card.out, o, to, whole));
    assert forall|r: int, j: int| from <= r < from + rows && 0 <= j < n implies (after.out)(
        #[trigger] cell(r, j, n),
    ) == Held::Full(r, j) by {
        assert(filled(card.out, o, to, whole)(cell(r, j, n)) == whole(r - from, j));
    }
    assert forall|p: int| !(from * n <= p < (from + rows) * n) implies #[trigger] (after.out)(p)
        == (card.out)(p) by {
        assert(filled(card.out, o, to, whole)(p) == (card.out)(p));
    }
}

/// A dense projection's launches leave every output of every row, whole.
pub proof fn a_dense_projection_computes(t: Tiles, card: Card, call: DenseCall)
    requires
        dense::dense_fits(call),
        t.dense.wf(),
        call.m > 0,
        call.k > 0,
        call.n > 0,
    ensures
        ({
            let after = after_acts(t, card, dense::dense_acts(call, t.dense));
            projected(after, 0, call.m as int, call.n as int) && untouched(
                card,
                after,
                0,
                call.m as int,
                call.n as int,
            )
        }),
{
    let (m, n, k) = (call.m as int, call.n as int, call.k as int);
    let weight = plan::whole(Place::Dense, k, n);
    if call.m > 1 {
        let tc = dense::tc_rows(call, t.dense);
        let rows = m - tc;
        div_mod::lemma_fundamental_div_mod(m, t.dense.tc_m as int);
        let acts = dense::batched_acts(call, t.dense);
        let first = if tc > 0 {
            seq![acts[0]]
        } else {
            Seq::empty()
        };
        let rest = if rows > 0 {
            seq![acts[acts.len() - 1]]
        } else {
            Seq::empty()
        };
        assert(acts =~= first + rest);
        lemma_acts_joined(t, card, first, rest);
        let c1 = after_acts(t, card, first);
        if tc > 0 {
            div_mod::lemma_fundamental_div_mod(n, t.dense.tc_n as int);
            let (x, y) = (tc / t.dense.tc_m as int, n / t.dense.tc_n as int);
            assert(t.dense.tc_m * (m / t.dense.tc_m as int) == m / t.dense.tc_m as int
                * t.dense.tc_m) by (nonlinear_arith);
            div_mod::lemma_div_multiples_vanish(m / t.dense.tc_m as int, t.dense.tc_m as int);
            assert(x * t.dense.tc_m == tc);
            assert(y * t.dense.tc_n == t.dense.tc_n * y) by (nonlinear_arith);
            lemma_dense_one(
                t,
                card,
                call,
                Kernel::MatmulTc,
                weight,
                (x as nat, call.n as nat / (t.dense.tc_n as nat), 1),
                0,
                tc,
            );
        }
        if rows > 0 {
            lemma_tiles_cover(rows as nat, t.dense.tile_m as nat);
            lemma_tiles_cover(n as nat, t.dense.tile_n as nat);
            lemma_dense_one(
                t,
                c1,
                call,
                acts[acts.len() - 1]->kernel,
                weight,
                acts[acts.len() - 1]->grid,
                tc,
                rows,
            );
        }
        lemma_then(card, c1, after_acts(t, c1, rest), 0, tc, m, n);
    } else {
        let acts = dense::single_acts(call);
        let splits = matmul::mv_splits_of(call.n as nat, call.k as nat);
        lemma_tiles_cover(n as nat, 128);
        assert(0 * k == 0 && 0 * n == 0);
        if splits == 1 {
            assert(plan::whole(Place::Input, 1, k) == plan::part(Place::Input, 0 * k, 1, k));
            assert(plan::whole(Place::Out, 1, n) == plan::part(Place::Out, 0 * n, 1, n));
            lemma_dense_one(t, card, call, acts[0]->kernel, weight, acts[0]->grid, 0, 1);
        } else {
            lemma_mv_splits(call.n as nat, call.k as nat);
            assert(1 * n == n);
            let partials = plan::whole(Place::Partials, splits as int, n);
            let out = plan::whole(Place::Out, 1, n);
            let first = acts.take(1);
            let two = acts.take(2);
            assert(first.drop_last() =~= Seq::empty());
            assert(two.drop_last() =~= first);
            assert(acts.drop_last() =~= two);
            assert(after_acts(t, card, first.drop_last()) == card);
            assert(after_acts(t, card, first) == card);
            let mid = after_acts(t, card, two);
            let to = (splits as int, plan::tiles(n as nat, 128) as int * 128, 1int);
            let slice = |s: int, j: int| Held::Slice(0, j, s, splits as int);
            lemma_filled(card.partials, partials, to, slice, 0, splits as int, n);
            assert(first_row(plan::whole(Place::Input, 1, k)) == 0);
            assert(mid.partials == filled(card.partials, partials, to, slice));
            assert(mid.out == card.out);
            lemma_reduced(t, mid, partials, out, acts[2], 0, splits as int, 1, n);
            let after = after_acts(t, card, acts);
            assert forall|r: int, j: int| 0 <= r < 1 && 0 <= j < n implies (after.out)(
                #[trigger] cell(r, j, n),
            ) == Held::Full(r, j) by {
                assert forall|s: int| 0 <= s < splits implies #[trigger] (mid.partials)(s * n + j)
                    == Held::Slice(0, j, s, splits as int) by {
                    assert(filled(card.partials, partials, to, slice)(cell(s, j, n)) == slice(
                        s - 0,
                        j,
                    ));
                }
                lemma_all_slices(mid, partials, splits as int, n, j, 0, j);
                assert((after.out)(0 * n + j) == Held::Full(0, j));
                assert(cell(0, j, n) == j);
            }
        }
    }
}

/// The sum of partial sums, a row a slice, over a run of the output from an element on.
proof fn lemma_reduced(
    t: Tiles,
    mid: Card,
    partials: Operand,
    out: Operand,
    act: Act,
    from: int,
    splits: int,
    rows: int,
    n: int,
)
    requires
        0 <= from,
        0 < rows,
        0 <= n,
        0 < splits,
        partials.place == Place::Partials,
        partials.skip == 0,
        partials.rows == splits,
        partials.cols == rows * n,
        out.place == Place::Out,
        out.skip == from * n,
        out.rows == 1,
        out.cols == rows * n,
        act matches Act::Launch { kernel, operands, grid } && kernel is Q8Reduce && operands
            == seq![partials, out] && rows * n <= grid.0 * 128,
    ensures
        ({
            let after = after_act(t, mid, act);
            &&& forall|p: int|
                0 <= p < rows * n ==> #[trigger] (after.out)(from * n + p) == summed(
                    Seq::new(splits as nat, |s: int| (mid.partials)(s * (rows * n) + p)),
                )
            &&& untouched(mid, after, from, from + rows, n)
        }),
{
    let after = after_act(t, mid, act);
    let grid = act->grid;
    let to = (1int, grid.0 as int * 128, 1int);
    let len = rows * n;
    let sum = |i: int, j: int|
        summed(
            Seq::new(
                partials.rows as nat,
                |s: int| (mid.partials)(partials.skip + s * partials.cols + j),
            ),
        );
    assert(after.out == filled(mid.out, out, to, sum));
    assert((from + rows) * n == from * n + len) by (nonlinear_arith)
        requires
            len == rows * n,
    ;
    assert forall|p: int| 0 <= p < len implies #[trigger] (after.out)(from * n + p) == summed(
        Seq::new(splits as nat, |s: int| (mid.partials)(s * len + p)),
    ) by {
        div_mod::lemma_small_mod(p as nat, len as nat);
        div_mod::lemma_basic_div(p, len);
        assert(from * n + p - out.skip == p);
        assert(sum(0, p) == summed(Seq::new(splits as nat, |s: int| (mid.partials)(s * len + p)))) by {
            assert(Seq::new(splits as nat, |s: int| (mid.partials)(s * len + p)) =~= Seq::new(
                partials.rows as nat,
                |s: int| (mid.partials)(partials.skip + s * partials.cols + p),
            ));
        }
    }
}

/// Slices that are all of one contraction sum to it.
proof fn lemma_all_slices(
    mid: Card,
    partials: Operand,
    splits: int,
    len: int,
    p: int,
    r: int,
    c: int,
)
    requires
        0 < splits,
        forall|s: int|
            0 <= s < splits ==> #[trigger] (mid.partials)(s * len + p) == Held::Slice(
                r,
                c,
                s,
                splits,
            ),
    ensures
        summed(Seq::new(splits as nat, |s: int| (mid.partials)(s * len + p))) == Held::Full(r, c),
{
    let slices = Seq::new(splits as nat, |s: int| (mid.partials)(s * len + p));
    assert forall|s: int| 0 <= s < slices.len() implies #[trigger] slices[s] == Held::Slice(
        r,
        c,
        s,
        slices.len() as int,
    ) by {
        assert((mid.partials)(s * len + p) == Held::Slice(r, c, s, splits));
    }
    assert(slices[0] == Held::Slice(r, c, 0, slices.len() as int));
}

proof fn lemma_steps_down(splits: nat, k: nat)
    ensures
        matmul::steps_down(splits, k) <= splits,
        splits >= 1 ==> matmul::steps_down(splits, k) >= 1,
    decreases splits,
{
    if splits > 1 && k % (splits * 16) != 0 {
        lemma_steps_down((splits - 1) as nat, k);
    }
}

proof fn lemma_mv_splits(n: nat, k: nat)
    requires
        n > 0,
    ensures
        1 <= matmul::mv_splits_of(n, k) <= 96,
{
    let grid = (n + 127) / 128;
    let most = if 96nat / grid < k / 64 {
        96nat / grid
    } else {
        k / 64
    };
    lemma_steps_down(most, k);
    assert(grid >= 1);
    assert(96nat / grid <= 96) by (nonlinear_arith)
        requires
            grid >= 1,
    ;
}

/// A band of the row-major contraction, whole or split and summed.
proof fn lemma_rows_band(t: Tiles, card: Card, call: DenseCall, from: int, rows: int, tm: usize)
    requires
        dense::dense_fits(call),
        0 <= from,
        0 <= rows,
        from + rows <= call.m,
        call.k > 0,
        call.n > 0,
        tm == 1 || tm == 16,
        rows % tm as int == 0,
    ensures
        ({
            let after = after_acts(t, card, dense::rows_band(call, from, rows, tm));
            projected(after, from, from + rows, call.n as int) && untouched(
                card,
                after,
                from,
                from + rows,
                call.n as int,
            )
        }),
{
    let (n, k) = (call.n as int, call.k as int);
    let acts = dense::rows_band(call, from, rows, tm);
    if rows > 0 {
        dense::the_row_tile_divides(call.n as nat, 16);
        let tn = dense::widest(call.n as nat, 16) as usize;
        let gx = (rows / tm as int) as nat;
        let gy = call.n as nat / (tn as nat);
        div_mod::lemma_fundamental_div_mod(n, tn as int);
        div_mod::lemma_fundamental_div_mod(rows, tm as int);
        assert(gx * tm == rows && gy * tn == n) by (nonlinear_arith)
            requires
                rows == tm * gx + 0,
                n == tn * gy + 0,
        ;
        lemma_dense_sizes(call, from, rows);
        let splits = dense::band_splits(gx * gy, call.k as nat);
        if tm > 1 && splits > 1 {
            lemma_rows_split(t, card, call, from, rows, tm, tn, gx, gy, splits);
        } else {
            lemma_dense_one(
                t,
                card,
                call,
                acts[0]->kernel,
                plan::whole(Place::Dense, n, k),
                acts[0]->grid,
                from,
                rows,
            );
        }
    }
}

proof fn lemma_rows_split(
    t: Tiles,
    card: Card,
    call: DenseCall,
    from: int,
    rows: int,
    tm: usize,
    tn: usize,
    gx: nat,
    gy: nat,
    splits: nat,
)
    requires
        dense::dense_fits(call),
        0 <= from,
        0 < rows,
        from + rows <= call.m,
        call.k > 0,
        call.n > 0,
        tm == 16,
        tn == dense::widest(call.n as nat, 16),
        gx == rows / tm as int,
        gy == call.n as nat / (tn as nat),
        gx * tm == rows,
        gy * tn == call.n,
        splits == dense::band_splits(gx * gy, call.k as nat),
        splits > 1,
    ensures
        ({
            let after = after_acts(t, card, dense::rows_band(call, from, rows, tm));
            projected(after, from, from + rows, call.n as int) && untouched(
                card,
                after,
                from,
                from + rows,
                call.n as int,
            )
        }),
{
    let (n, k) = (call.n as int, call.k as int);
    let acts = dense::rows_band(call, from, rows, tm);
    let len = rows * n;
    lemma_dense_sizes(call, from, rows);
    let most = 192nat / (gx * gy);
    lemma_steps_down(
        if most < 1 {
            1
        } else if most > 8 {
            8
        } else {
            most
        },
        call.k as nat,
    );
    let a = plan::part(Place::Input, from * k, rows, k);
    assert(0 <= splits * rows <= splits * len && splits * len <= 8 * len) by (nonlinear_arith)
        requires
            0 <= splits <= 8,
            0 <= rows,
            len == rows * n,
            n >= 1,
    ;
    let kept = plan::whole(Place::Partials, splits * rows, n);
    let sums = plan::whole(Place::Partials, splits as int, len);
    let out = plan::part(Place::Out, from * n, 1, len);
    let first = acts.take(1);
    let two = acts.take(2);
    assert(first.drop_last() =~= Seq::empty());
    assert(two.drop_last() =~= first);
    assert(acts.drop_last() =~= two);
    assert(after_acts(t, card, first.drop_last()) == card);
    assert(after_acts(t, card, first) == card);
    let mid = after_acts(t, card, two);
    div_mod::lemma_div_multiples_vanish(from, k);
    assert(k * from == from * k) by (nonlinear_arith);
    assert(first_row(a) == from);
    let to = (splits * rows, gy * tn, 1int);
    div_mod::lemma_div_multiples_vanish(splits as int, rows);
    assert(rows * splits == splits * rows) by (nonlinear_arith);
    let slice = |q: int, j: int|
        Held::Slice(from + q % rows, j, q / rows, kept.rows as int / a.rows as int);
    assert(0 * n == 0);
    assert(0 < splits * rows) by (nonlinear_arith)
        requires
            splits > 1,
            rows > 0,
    ;
    lemma_filled(card.partials, kept, to, slice, 0, splits * rows, n);
    assert(mid.partials == filled(card.partials, kept, to, slice));
    assert(mid.out == card.out);
    lemma_tiles_cover(len as nat, 128);
    lemma_reduced(t, mid, sums, out, acts[2], from, splits as int, rows, n);
    let after = after_acts(t, card, acts);
    assert forall|r: int, j: int| from <= r < from + rows && 0 <= j < n implies (after.out)(
        #[trigger] cell(r, j, n),
    ) == Held::Full(r, j) by {
        let i = r - from;
        lemma_cell(i, j, rows, n);
        let p = i * n + j;
        assert(r * n + j == from * n + p) by (nonlinear_arith)
            requires
                r == from + i,
                p == i * n + j,
        ;
        assert forall|s: int| 0 <= s < splits implies #[trigger] (mid.partials)(s * len + p)
            == Held::Slice(r, j, s, splits as int) by {
            lemma_cell(s, i, splits as int, rows);
            let q = s * rows + i;
            assert(s * len + p == q * n + j) by (nonlinear_arith)
                requires
                    len == rows * n,
                    p == i * n + j,
                    q == s * rows + i,
            ;
            assert(filled(card.partials, kept, to, slice)(cell(q, j, n)) == slice(q - 0, j));
        }
        lemma_all_slices(mid, sums, splits as int, len, p, r, j);
        assert((after.out)(from * n + p) == Held::Full(r, j));
    }
}

/// A row-major projection's launches leave every output of every row, whole.
pub proof fn a_row_major_projection_computes(t: Tiles, card: Card, call: DenseCall)
    requires
        dense::dense_fits(call),
        call.k > 0,
        call.n > 0,
    ensures
        ({
            let after = after_acts(t, card, dense::rows_acts(call));
            projected(after, 0, call.m as int, call.n as int) && untouched(
                card,
                after,
                0,
                call.m as int,
                call.n as int,
            )
        }),
{
    let (m, n, k) = (call.m as int, call.n as int, call.k as int);
    let acts = dense::rows_acts(call);
    if call.m == 1 && call.k <= 5120 {
        let kb = k / 32;
        let tn = if n % 2 == 0 {
            2int
        } else {
            1
        };
        let out = plan::whole(Place::Out, n, 1);
        assert(0 <= n * kb <= n * k) by (nonlinear_arith)
            requires
                0 <= n,
                0 <= kb <= k,
        ;
        assert(acts.drop_last() =~= Seq::empty());
        assert(after_acts(t, card, acts.drop_last()) == card);
        let after = after_acts(t, card, acts);
        let to = (n / tn * tn, 1int, 1int);
        let what = |j: int, one: int| Held::Full(0, j);
        lemma_filled(card.out, out, to, what, 0, n, 1);
        assert(after.out == filled(card.out, out, to, what));
        assert forall|r: int, j: int| 0 <= r < 1 && 0 <= j < n implies (after.out)(
            #[trigger] cell(r, j, n),
        ) == Held::Full(r, j) by {
            assert(cell(r, j, n) == j && cell(j, 0, 1) == j);
            assert(filled(card.out, out, to, what)(cell(j, 0, 1)) == what(j - 0, 0));
        }
        assert forall|p: int| !(0 * n <= p < 1 * n) implies #[trigger] (after.out)(p) == (card.out)(
            p,
        ) by {
            assert(filled(card.out, out, to, what)(p) == (card.out)(p));
        }
    } else {
        let band = m - m % 16;
        let first = dense::rows_band(call, 0, band, 16);
        let rest = dense::rows_band(call, band, m - band, 1);
        lemma_acts_joined(t, card, first, rest);
        let c1 = after_acts(t, card, first);
        lemma_rows_band(t, card, call, 0, band, 16);
        lemma_rows_band(t, c1, call, band, m - band, 1);
        lemma_then(card, c1, after_acts(t, c1, rest), 0, band, m, n);
    }
}

/// A raw projection's launches leave every output of every row, whole, wherever the
/// weight is not expanded instead.
pub proof fn a_raw_projection_computes(t: Tiles, card: Card, call: RawCall)
    requires
        raw::raw_fits(call),
        t.wide == call.wide_tn,
        call.m > 0,
        call.k > 0,
        call.n > 0,
        raw::raw_plan(call) matches Ok(acts) && acts != seq![Act::Expand],
    ensures
        projected(
            after_acts(t, card, raw::raw_plan(call)->Ok_0),
            0,
            call.m as int,
            call.n as int,
        ),
{
    let (m, n, k) = (call.m as int, call.n as int, call.k as int);
    let acts = raw::raw_plan(call)->Ok_0;
    if raw::takes_i8(call) {
        let tile = raw::i8_tile(call);
        let wide = raw::padded(call.n as nat, tile);
        lemma_tiles_cover(n as nat, tile);
        lemma_padded_fits(n as nat, tile);
        let ragged = wide != call.n;
        let place = if ragged {
            Place::Padded
        } else {
            Place::Out
        };
        let at = acts.len() - (if ragged {
            2int
        } else {
            1
        });
        let head = acts.take(at);
        let launch = acts[at];
        assert(head.len() <= 2);
        assert forall|i: int| 0 <= i < head.len() implies (#[trigger] head[i]) is Quantize
            || head[i] is Pad by {}
        lemma_prepares(t, card, head);
        let upto = acts.take(at + 1);
        assert(upto.drop_last() =~= head);
        let mid = after_acts(t, card, upto);
        let operands = launch->operands;
        let o = operands.last();
        let to = (1int, plan::tiles(n as nat, tile) as int * tile, 1int);
        let whole = |i: int, j: int| Held::Full(0 + i, j);
        assert(0 * wide == 0);
        lemma_filled(card.at(place), o, to, whole, 0, 1, wide as int);
        assert(first_row(operands[0]) == 0);
        assert(mid.at(place) == filled(card.at(place), o, to, whole));
        let after = after_acts(t, card, acts);
        if ragged {
            assert(acts.drop_last() =~= upto);
        } else {
            assert(acts =~= upto);
        }
        assert forall|r: int, j: int| 0 <= r < m && 0 <= j < n implies (after.out)(
            #[trigger] cell(r, j, n),
        ) == Held::Full(r, j) by {
            assert(cell(0, j, n) == j && cell(0, j, wide as int) == j);
            assert(filled(card.at(place), o, to, whole)(cell(0, j, wide as int)) == whole(
                0 - 0,
                j,
            ));
        }
    } else {
        let tile = raw::float_tile(call.quant)->Some_0;
        lemma_tiles_cover(n as nat, tile);
        assert(acts.drop_last() =~= Seq::empty());
        assert(after_acts(t, card, acts.drop_last()) == card);
        let operands = acts[0]->operands;
        let o = operands.last();
        let to = (m, plan::tiles(n as nat, tile) as int * tile, 1int);
        let whole = |i: int, j: int| Held::Full(0 + i, j);
        assert(0 * n == 0);
        lemma_filled(card.out, o, to, whole, 0, m, n);
        assert(first_row(operands[0]) == 0);
        let after = after_acts(t, card, acts);
        assert(after.out == filled(card.out, o, to, whole));
        assert forall|r: int, j: int| 0 <= r < m && 0 <= j < n implies (after.out)(
            #[trigger] cell(r, j, n),
        ) == Held::Full(r, j) by {
            assert(filled(card.out, o, to, whole)(cell(r, j, n)) == whole(r - 0, j));
        }
    }
}

proof fn lemma_padded_fits(n: nat, tile: nat)
    requires
        tile > 0,
    ensures
        raw::padded(n, tile) < n + tile,
{
    div_mod::lemma_fundamental_div_mod(n as int, tile as int);
    let q = n / tile;
    assert(tile * q == q * tile && (q + 1) * tile == q * tile + tile) by (nonlinear_arith);
}

/// Steps that only make room leave the outputs as they were.
proof fn lemma_prepares(t: Tiles, card: Card, acts: Seq<Act>)
    requires
        forall|i: int|
            0 <= i < acts.len() ==> (#[trigger] acts[i]) is Quantize || acts[i] is Pad || acts[i]
                is GiveBack,
    ensures
        after_acts(t, card, acts) == card,
    decreases acts.len(),
{
    if acts.len() > 0 {
        lemma_prepares(t, card, acts.drop_last());
        assert(acts.last() == acts[acts.len() - 1]);
    }
}

/// The fused prompt projection's launch leaves every output of every row, whole, where
/// its tile divides both.
pub proof fn a_fused_prompt_projection_computes(t: Tiles, card: Card, call: RawCall)
    requires
        raw::raw_fits(call),
        raw::qmma_plan(call, t.fused) is Ok,
        t.fused.tm > 0,
        t.fused.tn > 0,
        call.m as nat % (t.fused.tm as nat) == 0,
        call.n as nat % (t.fused.tn as nat) == 0,
        call.m > 0,
        call.k > 0,
        call.n > 0,
    ensures
        projected(
            after_acts(t, card, raw::qmma_plan(call, t.fused)->Ok_0),
            0,
            call.m as int,
            call.n as int,
        ),
{
    let (m, n, k) = (call.m as int, call.n as int, call.k as int);
    let acts = raw::qmma_acts(call, t.fused);
    let at = acts.len() - 1;
    let head = acts.take(at);
    assert forall|i: int| 0 <= i < head.len() implies (#[trigger] head[i]) is Quantize || head[i]
        is GiveBack by {}
    lemma_prepares(t, card, head);
    assert(acts.drop_last() =~= head);
    let operands = acts[at]->operands;
    let o = operands.last();
    div_mod::lemma_fundamental_div_mod(m, t.fused.tm as int);
    div_mod::lemma_fundamental_div_mod(n, t.fused.tn as int);
    let (x, y) = (m / t.fused.tm as int, n / t.fused.tn as int);
    assert(x * t.fused.tm == t.fused.tm * x && y * t.fused.tn == t.fused.tn * y)
        by (nonlinear_arith);
    let to = (x * t.fused.tm, y * t.fused.tn, 1int);
    let whole = |i: int, j: int| Held::Full(0 + i, j);
    assert(0 * n == 0);
    lemma_filled(card.out, o, to, whole, 0, m, n);
    assert(first_row(operands[0]) == 0);
    let after = after_acts(t, card, acts);
    assert(after.out == filled(card.out, o, to, whole));
    assert forall|r: int, j: int| 0 <= r < m && 0 <= j < n implies (after.out)(
        #[trigger] cell(r, j, n),
    ) == Held::Full(r, j) by {
        assert(filled(card.out, o, to, whole)(cell(r, j, n)) == whole(r - 0, j));
    }
}

} // verus!
