//! A projection's weight between load and upload: dense or left in its blocks,
//! and what fusing, stacking and reordering make of it.

use vstd::prelude::*;

use crate::backend::{HeadPerm, HADAMARD_BLOCK};
use crate::gguf::{self, GgmlType, Gguf, TensorInfo};
use crate::hadamard::{self, Folding, FoldingError};
use crate::layers::{check_dims, DimsError, Uploads};
use crate::quant::packed::{self, Packed};
use crate::quant::{self, Quant};
use crate::text::{self, Args};

verus! {

broadcast use crate::text::lemma_filled_args;

/// Output columns a fused projection is rounded up to: the widest column tile
/// the batched projection has.
pub const FUSE_ALIGN: usize = 256;

/// How a projection's weights are held.
pub enum Weights<T> {
    /// `[in, out]`, whatever the file held.
    Dense(Vec<T>),
    /// Left in the file's blocks, `[out, in]`.
    Quant(Packed),
}

/// A weight stored folded: an input one, whose activation goes through the
/// transform ahead of every projection, or a lookup table, whose rows are
/// restored after the lookup.
pub enum Fold {
    Input { signs: Vec<i64>, perm: Option<HeadPerm> },
    Table { signs: Vec<i64> },
}

/// A fold, as a value.
pub ghost enum Folded {
    Input { signs: Seq<i64>, perm: Option<HeadPerm> },
    Table { signs: Seq<i64> },
}

impl View for Fold {
    type V = Folded;

    open spec fn view(&self) -> Folded {
        match self {
            Fold::Input { signs, perm } => Folded::Input { signs: signs@, perm: *perm },
            Fold::Table { signs } => Folded::Table { signs: signs@ },
        }
    }
}

pub open spec fn fold_of(fold: Option<Fold>) -> Option<Folded> {
    match fold {
        Some(fold) => Some(fold@),
        None => None,
    }
}

/// The transform an input goes through: its width and head regrouping.
#[derive(Clone, Copy, PartialEq, Eq, Structural, Debug)]
pub struct Rotation {
    pub width: usize,
    pub perm: Option<HeadPerm>,
}

/// A projection.
pub struct Linear<T> {
    pub weight: Weights<T>,
    pub in_dim: usize,
    pub out_dim: usize,
    pub key: String,
    pub fold: Option<Fold>,
    /// Whether a dense weight of this shape is narrow enough to be read by rows.
    pub narrow: bool,
}

/// A matrix with its rows as columns.
pub open spec fn transposed<T>(data: Seq<T>, rows: nat, cols: nat) -> Seq<T> {
    Seq::new(rows * cols, |p: int| data[p % (rows as int) * cols + p / (rows as int)])
}

proof fn lemma_cell(r: int, c: int, rows: int, cols: int)
    requires
        0 <= r < rows,
        0 <= c < cols,
    ensures
        0 <= r * cols + c < rows * cols,
        (r * cols + c) / cols == r,
        (r * cols + c) % cols == c,
{
    assert(0 <= r * cols && r * cols + cols <= rows * cols) by (nonlinear_arith)
        requires
            0 <= r < rows,
            0 <= cols,
    ;
    vstd::arithmetic::div_mod::lemma_fundamental_div_mod_converse(r * cols + c, cols, r, c);
}

/// Transposing twice gives a matrix back.
pub proof fn transposing_is_undone<T>(data: Seq<T>, rows: nat, cols: nat)
    requires
        data.len() == rows * cols,
    ensures
        transposed(transposed(data, rows, cols), cols, rows) == data,
{
    let once = transposed(data, rows, cols);
    let twice = transposed(once, cols, rows);
    assert(cols * rows == rows * cols) by (nonlinear_arith);
    assert forall|p: int| 0 <= p < data.len() implies #[trigger] twice[p] == data[p] by {
        let (r, c) = (p / cols as int, p % cols as int);
        assert(cols > 0) by (nonlinear_arith)
            requires
                0 <= p < rows * cols,
        ;
        vstd::arithmetic::div_mod::lemma_fundamental_div_mod(p, cols as int);
        assert(cols * r == r * cols) by (nonlinear_arith);
        assert(r < rows) by (nonlinear_arith)
            requires
                r * cols + c == p,
                0 <= c,
                p < rows * cols,
        ;
        lemma_cell(c, r, cols as int, rows as int);
        assert(twice[p] == once[c * rows + r]);
    }
    assert(twice =~= data);
}

/// A matrix with its rows as columns.
pub fn transpose<T: Copy>(data: &[T], rows: usize, cols: usize) -> (out: Vec<T>)
    requires
        data@.len() == rows * cols,
    ensures
        out@ == transposed(data@, rows as nat, cols as nat),
{
    let held: usize = data.len();
    let mut out: Vec<T> = Vec::new();
    let mut c: usize = 0;
    let ghost whole = transposed(data@, rows as nat, cols as nat);
    assert(0 * rows == 0) by (nonlinear_arith);
    assert(out@ =~= whole.take(0));
    while c < cols
        invariant
            c <= cols,
            held == data@.len(),
            data@.len() == rows * cols,
            whole == transposed(data@, rows as nat, cols as nat),
            out@ == whole.take(c * rows),
            0 <= c * rows <= rows * cols,
        decreases cols - c,
    {
        let mut r: usize = 0;
        while r < rows
            invariant
                c < cols,
                r <= rows,
                held == data@.len(),
                data@.len() == rows * cols,
                whole == transposed(data@, rows as nat, cols as nat),
                out@ == whole.take(c * rows + r),
                0 <= c * rows + r <= rows * cols,
            decreases rows - r,
        {
            proof {
                lemma_cell(r as int, c as int, rows as int, cols as int);
                lemma_cell(c as int, r as int, cols as int, rows as int);
                assert(cols * rows == rows * cols) by (nonlinear_arith);
            }
            let p: usize = r * cols + c;
            out.push(data[p]);
            r = r + 1;
            assert(out@ =~= whole.take(c * rows + r));
        }
        assert(c * rows + rows == (c + 1) * rows && (c + 1) * rows <= rows * cols)
            by (nonlinear_arith)
            requires
                c < cols,
                0 <= rows,
        ;
        c = c + 1;
    }
    assert(cols * rows == rows * cols) by (nonlinear_arith);
    assert(whole.take(whole.len() as int) =~= whole);
    out
}

/// A matrix whose column `j` is column `order[j]` of another.
pub open spec fn reordered<T>(data: Seq<T>, rows: nat, order: Seq<usize>) -> Seq<T> {
    let cols = order.len() as int;
    Seq::new(rows * order.len(), |p: int| data[p / cols * cols + order[p % cols]])
}

fn reorder_columns<T: Copy>(data: &[T], rows: usize, order: &[usize]) -> (out: Vec<T>)
    requires
        data@.len() == rows * order@.len(),
        forall|j: int| 0 <= j < order@.len() ==> #[trigger] order@[j] < order@.len(),
    ensures
        out@ == reordered(data@, rows as nat, order@),
{
    let held: usize = data.len();
    let cols: usize = order.len();
    let mut out: Vec<T> = Vec::new();
    let ghost whole = reordered(data@, rows as nat, order@);
    let mut i: usize = 0;
    assert(0 * cols == 0) by (nonlinear_arith);
    assert(out@ =~= whole.take(0));
    while i < rows
        invariant
            i <= rows,
            held == data@.len(),
            cols == order@.len(),
            data@.len() == rows * cols,
            whole == reordered(data@, rows as nat, order@),
            forall|j: int| 0 <= j < order@.len() ==> #[trigger] order@[j] < order@.len(),
            out@ == whole.take(i * cols),
            0 <= i * cols <= rows * cols,
        decreases rows - i,
    {
        let mut j: usize = 0;
        while j < cols
            invariant
                i < rows,
                j <= cols,
                held == data@.len(),
                cols == order@.len(),
                data@.len() == rows * cols,
                whole == reordered(data@, rows as nat, order@),
                forall|j: int| 0 <= j < order@.len() ==> #[trigger] order@[j] < order@.len(),
                out@ == whole.take(i * cols + j),
                0 <= i * cols + j <= rows * cols,
            decreases cols - j,
        {
            let from: usize = order[j];
            proof {
                lemma_cell(i as int, j as int, rows as int, cols as int);
                lemma_cell(i as int, from as int, rows as int, cols as int);
            }
            out.push(data[i * cols + from]);
            j = j + 1;
            assert(out@ =~= whole.take(i * cols + j));
        }
        assert(i * cols + cols == (i + 1) * cols && (i + 1) * cols <= rows * cols)
            by (nonlinear_arith)
            requires
                i < rows,
                0 <= cols,
        ;
        i = i + 1;
    }
    assert(whole.take(whole.len() as int) =~= whole);
    out
}

/// A row of a matrix.
pub open spec fn matrix_row<T>(data: Seq<T>, width: nat, i: int) -> Seq<T> {
    data.subrange(i * width, (i + 1) * width)
}

/// Row `i` of matrices side by side, with zeros up to a width.
pub open spec fn joined_row<T>(
    datas: Seq<Seq<T>>,
    widths: Seq<nat>,
    i: int,
    out: nat,
    zero: T,
) -> Seq<T> {
    let rows = Seq::new(datas.len(), |p: int| matrix_row(datas[p], widths[p], i));
    packed::flat(rows) + Seq::new((out - packed::flat(rows).len()) as nat, |c: int| zero)
}

/// Matrices side by side, with columns of zeros up to a width.
pub open spec fn joined<T>(
    datas: Seq<Seq<T>>,
    widths: Seq<nat>,
    rows: nat,
    out: nat,
    zero: T,
) -> Seq<T> {
    packed::flat(Seq::new(rows, |i: int| joined_row(datas, widths, i, out, zero)))
}

/// The sum of a list of widths.
pub open spec fn total(widths: Seq<nat>) -> nat
    decreases widths.len(),
{
    if widths.len() == 0 {
        0
    } else {
        total(widths.drop_last()) + widths.last()
    }
}

/// Every matrix has its rows.
pub open spec fn matrices<T>(datas: Seq<Seq<T>>, widths: Seq<nat>, rows: nat) -> bool {
    &&& datas.len() == widths.len()
    &&& forall|p: int| 0 <= p < datas.len() ==> (#[trigger] datas[p]).len() == rows * widths[p]
}

proof fn lemma_row_fits(rows: int, width: int, i: int)
    requires
        0 <= i < rows,
        0 <= width,
    ensures
        0 <= i * width,
        (i + 1) * width == i * width + width,
        (i + 1) * width <= rows * width,
{
    assert(0 <= i * width && (i + 1) * width == i * width + width && (i + 1) * width <= rows
        * width)
        by (nonlinear_arith)
        requires
            0 <= i < rows,
            0 <= width,
    ;
}

proof fn lemma_joined_row_len<T>(datas: Seq<Seq<T>>, widths: Seq<nat>, rows: nat, i: int)
    requires
        matrices(datas, widths, rows),
        0 <= i < rows,
    ensures
        packed::flat(Seq::new(datas.len(), |p: int| matrix_row(datas[p], widths[p], i))).len()
            == total(widths),
    decreases datas.len(),
{
    let all = Seq::new(datas.len(), |p: int| matrix_row(datas[p], widths[p], i));
    if datas.len() > 0 {
        let (d, w) = (datas.drop_last(), widths.drop_last());
        assert forall|p: int| 0 <= p < d.len() implies (#[trigger] d[p]).len() == rows * w[p] by {
            assert(d[p] == datas[p]);
        }
        lemma_joined_row_len(d, w, rows, i);
        assert(all.drop_last() =~= Seq::new(d.len(), |p: int| matrix_row(d[p], w[p], i)));
        let last = datas.len() - 1;
        assert(datas[last].len() == rows * widths[last]);
        lemma_row_fits(rows as int, widths[last] as int, i);
        assert(all.last().len() == widths[last]);
    }
}

/// Where a column of one of the matrices stands among all of them.
pub proof fn joining_keeps_every_column<T>(
    datas: Seq<Seq<T>>,
    widths: Seq<nat>,
    rows: nat,
    out: nat,
    zero: T,
    p: int,
    i: int,
    c: int,
)
    requires
        matrices(datas, widths, rows),
        total(widths) <= out,
        0 <= p < datas.len(),
        0 <= i < rows,
        0 <= c < widths[p],
    ensures
        joined(datas, widths, rows, out, zero)[i * out + total(widths.take(p)) + c]
            == datas[p][i * widths[p] + c],
{
    let lines = Seq::new(rows, |i: int| joined_row(datas, widths, i, out, zero));
    assert forall|j: int| 0 <= j < lines.len() implies (#[trigger] lines[j]).len() == out by {
        lemma_joined_row_len(datas, widths, rows, j);
    }
    packed::lemma_flat(lines, i);
    packed::lemma_flat_even(lines, out, i);
    let parts = Seq::new(datas.len(), |q: int| matrix_row(datas[q], widths[q], i));
    packed::lemma_flat(parts, p);
    let before = datas.take(p);
    let (d, w) = (before, widths.take(p));
    assert forall|q: int| 0 <= q < d.len() implies (#[trigger] d[q]).len() == rows * w[q] by {
        assert(d[q] == datas[q]);
    }
    lemma_joined_row_len(d, w, rows, i);
    assert(parts.take(p) =~= Seq::new(d.len(), |q: int| matrix_row(d[q], w[q], i)));
    let at = total(widths.take(p)) as int;
    assert(datas[p].len() == rows * widths[p]);
    lemma_row_fits(rows as int, widths[p] as int, i);
    lemma_joined_row_len(datas, widths, rows, i);
    let own = packed::flat(parts).subrange(at, at + parts[p].len());
    assert(own[c] == matrix_row(datas[p], widths[p], i)[c]);
    let line = packed::flat(lines).subrange(i * out, i * out + out);
    assert(line == lines[i]);
    assert(line[at + c] == packed::flat(lines)[i * out + (at + c)]);
    assert(lines[i][at + c] == packed::flat(parts)[at + c]);
}

/// Columns past those of the matrices are zeros.
pub proof fn joining_pads_with_zeros<T>(
    datas: Seq<Seq<T>>,
    widths: Seq<nat>,
    rows: nat,
    out: nat,
    zero: T,
    i: int,
    c: int,
)
    requires
        matrices(datas, widths, rows),
        total(widths) <= c < out,
        0 <= i < rows,
    ensures
        joined(datas, widths, rows, out, zero)[i * out + c] == zero,
{
    let lines = Seq::new(rows, |i: int| joined_row(datas, widths, i, out, zero));
    assert forall|j: int| 0 <= j < lines.len() implies (#[trigger] lines[j]).len() == out by {
        lemma_joined_row_len(datas, widths, rows, j);
    }
    packed::lemma_flat(lines, i);
    packed::lemma_flat_even(lines, out, i);
    lemma_joined_row_len(datas, widths, rows, i);
    let line = packed::flat(lines).subrange(i * out, i * out + out);
    assert(line == lines[i]);
    assert(line[c] == packed::flat(lines)[i * out + c]);
}

fn push_part<T: Copy>(out: &mut Vec<T>, from: &[T], first: usize, width: usize)
    requires
        first + width <= from@.len(),
    ensures
        final(out)@ == old(out)@ + from@.subrange(first as int, first + width),
{
    let ghost before = out@;
    let given: usize = from.len();
    let mut i: usize = 0;
    assert(out@ =~= before + from@.subrange(first as int, first as int));
    while i < width
        invariant
            i <= width,
            given == from@.len(),
            first + width <= from@.len(),
            out@ == before + from@.subrange(first as int, first + i),
        decreases width - i,
    {
        out.push(from[first + i]);
        i = i + 1;
        assert(out@ =~= before + from@.subrange(first as int, first + i));
    }
}

pub open spec fn contents<T>(datas: Seq<&Vec<T>>) -> Seq<Seq<T>> {
    Seq::new(datas.len(), |p: int| datas[p]@)
}

pub open spec fn nats(widths: Seq<usize>) -> Seq<nat> {
    Seq::new(widths.len(), |p: int| widths[p] as nat)
}

/// Matrices side by side, with columns of zeros up to a width.
fn join<T: Copy>(
    datas: &[&Vec<T>],
    widths: &[usize],
    rows: usize,
    out: usize,
    zero: T,
) -> (data: Vec<T>)
    requires
        matrices(contents(datas@), nats(widths@), rows as nat),
        total(nats(widths@)) <= out,
    ensures
        data@ == joined(contents(datas@), nats(widths@), rows as nat, out as nat, zero),
        data@.len() == rows * out,
{
    let ghost (d, w) = (contents(datas@), nats(widths@));
    let ghost lines = Seq::new(rows as nat, |i: int| joined_row(d, w, i, out as nat, zero));
    let mut data: Vec<T> = Vec::new();
    let mut i: usize = 0;
    assert(lines.take(0) =~= Seq::empty());
    while i < rows
        invariant
            i <= rows,
            d == contents(datas@),
            w == nats(widths@),
            matrices(d, w, rows as nat),
            total(w) <= out,
            lines == Seq::new(rows as nat, |i: int| joined_row(d, w, i, out as nat, zero)),
            data@ == packed::flat(lines.take(i as int)),
        decreases rows - i,
    {
        let ghost parts = Seq::new(d.len(), |p: int| matrix_row(d[p], w[p], i as int));
        let ghost before = data@;
        let mut p: usize = 0;
        assert(parts.take(0) =~= Seq::empty());
        assert(data@ =~= before + packed::flat(parts.take(0)));
        while p < datas.len()
            invariant
                i < rows,
                p <= datas@.len(),
                d == contents(datas@),
                w == nats(widths@),
                matrices(d, w, rows as nat),
                parts == Seq::new(d.len(), |p: int| matrix_row(d[p], w[p], i as int)),
                data@ == before + packed::flat(parts.take(p as int)),
            decreases datas@.len() - p,
        {
            let part = datas[p];
            let width: usize = widths[p];
            let held: usize = part.len();
            assert(d[p as int].len() == rows * w[p as int]);
            proof {
                lemma_row_fits(rows as int, width as int, i as int);
                assert(parts.take(p as int + 1).drop_last() =~= parts.take(p as int));
            }
            push_part(&mut data, part.as_slice(), i * width, width);
            assert(data@ =~= before + packed::flat(parts.take(p as int + 1)));
            p = p + 1;
        }
        proof {
            lemma_joined_row_len(d, w, rows as nat, i as int);
            assert(parts.take(p as int) =~= parts);
        }
        let ghost line = before + packed::flat(parts);
        let ghost pad = |m: int| Seq::new(m as nat, |c: int| zero);
        let mut wide: usize = sum(widths, out);
        assert(data@ =~= line + pad(0));
        while wide < out
            invariant
                total(w) <= wide <= out,
                pad == (|m: int| Seq::new(m as nat, |c: int| zero)),
                data@ == line + pad(wide - total(w)),
            decreases out - wide,
        {
            let ghost m = wide - total(w);
            data.push(zero);
            assert(data@ =~= line + pad(m + 1));
            wide = wide + 1;
        }
        assert(lines.take(i as int + 1).drop_last() =~= lines.take(i as int));
        assert(data@ =~= packed::flat(lines.take(i as int + 1)));
        i = i + 1;
    }
    proof {
        assert(lines.take(i as int) =~= lines);
        assert forall|j: int| 0 <= j < lines.len() implies (#[trigger] lines[j]).len() == out by {
            lemma_joined_row_len(d, w, rows as nat, j);
        }
        packed::lemma_flat_even(lines, out as nat, rows as int);
    }
    data
}

proof fn lemma_total(widths: Seq<nat>, i: int)
    requires
        0 <= i < widths.len(),
    ensures
        total(widths.take(i)) + widths[i] == total(widths.take(i + 1)),
        total(widths.take(i + 1)) <= total(widths),
    decreases widths.len() - i,
{
    let next = widths.take(i + 1);
    assert(next.drop_last() =~= widths.take(i));
    if i + 1 < widths.len() {
        lemma_total(widths, i + 1);
    } else {
        assert(next =~= widths);
    }
}

/// The sum of a list of widths, no more than `most`.
fn sum(widths: &[usize], most: usize) -> (n: usize)
    requires
        total(nats(widths@)) <= most,
    ensures
        n == total(nats(widths@)),
{
    let ghost w = nats(widths@);
    let mut n: usize = 0;
    let mut i: usize = 0;
    assert(w.take(0) =~= Seq::empty());
    while i < widths.len()
        invariant
            i <= widths@.len(),
            w == nats(widths@),
            total(w) <= most,
            n == total(w.take(i as int)),
        decreases widths@.len() - i,
    {
        proof {
            lemma_total(w, i as int);
        }
        n = n + widths[i];
        i = i + 1;
    }
    assert(w.take(i as int) =~= w);
    n
}

/// Where a load of a weight fails.
pub enum LoadError {
    Missing { name: String },
    Dims(DimsError),
    /// The tensor's bytes run past the file.
    OutOfFile { name: String },
    /// The tensor's values were not decoded, or not all of them.
    Values { name: String },
    Signs(FoldingError),
    /// Folded in blocks of another size than the one implemented.
    Block { name: String, block: usize },
}

pub const MISSING: &'static str = "missing tensor '$0'";

pub const OUT_OF_FILE: &'static str = "tensor '$0' runs past the end of the file";

pub const VALUES: &'static str = "tensor '$0' was not decoded";

pub const BLOCK: &'static str = "'$0' is folded in blocks of $1; only $2 is implemented";

pub open spec fn load_words(error: LoadError) -> Seq<char> {
    match error {
        LoadError::Missing { name } => text::filled(MISSING@, seq![name@]),
        LoadError::Dims(e) => text::filled(
            crate::layers::DIMS@,
            seq![e.name@, text::listed(e.dims@), text::listed(e.expected@)],
        ),
        LoadError::OutOfFile { name } => text::filled(OUT_OF_FILE@, seq![name@]),
        LoadError::Values { name } => text::filled(VALUES@, seq![name@]),
        LoadError::Signs(e) => hadamard::words(e),
        LoadError::Block { name, block } => text::filled(
            BLOCK@,
            seq![name@, text::decimal(block as nat), text::decimal(HADAMARD_BLOCK as nat)],
        ),
    }
}

impl LoadError {
    pub fn message(&self) -> (s: String)
        ensures
            s@ == load_words(*self),
    {
        match self {
            LoadError::Missing { name } => Args::new().text(name.as_str()).fill(MISSING),
            LoadError::Dims(e) => e.message(),
            LoadError::OutOfFile { name } => Args::new().text(name.as_str()).fill(OUT_OF_FILE),
            LoadError::Values { name } => Args::new().text(name.as_str()).fill(VALUES),
            LoadError::Signs(e) => e.message(),
            LoadError::Block { name, block } => Args::new().text(name.as_str()).num(*block).num(
                HADAMARD_BLOCK,
            ).fill(BLOCK),
        }
    }
}

/// Whether a sign vector is the one a file declares for a width.
pub open spec fn are_signs(folding: Folding, width: usize, signs: Seq<i64>) -> bool {
    &&& width % folding.block == 0
    &&& if folding.signs@.len() == 0 {
        signs == Seq::new(width as nat, |i: int| 1i64)
    } else {
        exists|i: int|
            0 <= i < folding.signs@.len() && (#[trigger] folding.signs@[i]).width == width && signs
                == folding.signs@[i].values@
    }
}

/// Whether a file declares no sign vector for a width, and why.
pub open spec fn no_signs(folding: Folding, width: usize, error: FoldingError) -> bool {
    match error {
        FoldingError::Ragged(w, b) => width % folding.block != 0 && w == width && b
            == folding.block,
        FoldingError::NoSigns(w) => width % folding.block == 0 && folding.signs@.len() > 0 && w
            == width && forall|i: int|
            0 <= i < folding.signs@.len() ==> (#[trigger] folding.signs@[i]).width != width,
        _ => false,
    }
}

/// Whether a file stores a weight folded, as an input or as a table.
pub open spec fn is_listed(folding: Folding, name: Seq<char>) -> bool {
    hadamard::lists(folding.weights@, name) || hadamard::lists(folding.inverse@, name)
}

/// Whether a fold is the one a file declares for a weight.
pub open spec fn declared_fold(
    folding: Option<&Folding>,
    name: Seq<char>,
    width: usize,
    fold: Option<Fold>,
) -> bool {
    match folding {
        Some(f) if is_listed(*f, name) => {
            &&& f.block == HADAMARD_BLOCK
            &&& if hadamard::lists(f.weights@, name) {
                fold matches Some(Fold::Input { signs, perm }) && perm is None && are_signs(
                    *f,
                    width,
                    signs@,
                )
            } else {
                fold matches Some(Fold::Table { signs }) && are_signs(*f, width, signs@)
            }
        },
        _ => fold is None,
    }
}

/// Whether a fold is refused, the signs before the block size.
pub open spec fn refused_fold(
    folding: Option<&Folding>,
    name: Seq<char>,
    width: usize,
    error: LoadError,
) -> bool {
    match folding {
        Some(f) if is_listed(*f, name) => match error {
            LoadError::Signs(e) => no_signs(*f, width, e),
            LoadError::Block { name: at, block } => f.block != HADAMARD_BLOCK && at@ == name
                && block == f.block && exists|signs: Seq<i64>| are_signs(*f, width, signs),
            _ => false,
        },
        _ => false,
    }
}

/// The format a tensor is left in: its own, where its blocks divide the input
/// width.
pub open spec fn kept_quant(info: TensorInfo, in_dim: usize) -> Option<Quant> {
    match info.ggml_type {
        GgmlType::Quantized(q) if in_dim % quant::block_of(q) == 0 => Some(q),
        _ => None,
    }
}

/// What loading a weight from its tensor comes to, the first thing that is
/// wrong deciding.
pub open spec fn loads_from<T>(
    info: TensorInfo,
    data: Seq<u8>,
    folding: Option<&Folding>,
    name: Seq<char>,
    in_dim: usize,
    out_dim: usize,
    decoded: Option<Seq<T>>,
    narrow: bool,
    result: Result<Linear<T>, LoadError>,
) -> bool {
    if info.dims@ != seq![in_dim as u64, out_dim as u64] {
        result matches Err(LoadError::Dims(e)) && e.name@ == info.name@ && e.dims@ == info.dims@
            && e.expected@ == seq![in_dim as u64, out_dim as u64]
    } else if kept_quant(info, in_dim) is Some && !gguf::in_file(info, data.len()) {
        result matches Err(LoadError::OutOfFile { name: at }) && at@ == name
    } else if kept_quant(info, in_dim) is None && !(decoded is Some && decoded->Some_0.len()
        == in_dim * out_dim) {
        result matches Err(LoadError::Values { name: at }) && at@ == name
    } else {
        match result {
            Err(e) => refused_fold(folding, name, in_dim, e),
            Ok(l) => {
                &&& l.wf()
                &&& l.in_dim == in_dim
                &&& l.out_dim == out_dim
                &&& l.key@ == name
                &&& l.narrow == narrow
                &&& declared_fold(folding, name, in_dim, l.fold)
                &&& match kept_quant(info, in_dim) {
                    Some(q) => l.weight matches Weights::Quant(p) && p.quant == q && p.bytes@
                        == gguf::bytes_of(info, data),
                    None => l.weight matches Weights::Dense(d) && d@ == transposed(
                        decoded->Some_0,
                        out_dim as nat,
                        in_dim as nat,
                    ),
                }
            },
        }
    }
}

pub open spec fn loads<T>(
    gguf: Gguf,
    folding: Option<&Folding>,
    name: Seq<char>,
    in_dim: usize,
    out_dim: usize,
    decoded: Option<Seq<T>>,
    narrow: bool,
    result: Result<Linear<T>, LoadError>,
) -> bool {
    if !gguf::has_name(gguf.tensors@, name) {
        result matches Err(LoadError::Missing { name: at }) && at@ == name
    } else {
        exists|at: int| #[trigger]
            gguf::is_named(gguf.tensors@, name, at) && loads_from(
                gguf.tensors@[at],
                gguf.data@,
                folding,
                name,
                in_dim,
                out_dim,
                decoded,
                narrow,
                result,
            )
    }
}

/// Whole blocks of rows are whole blocks of the tensor.
proof fn lemma_blocks(k: nat, n: nat, block: nat)
    requires
        0 < block,
        k % block == 0,
    ensures
        k * n / block == n * (k / block),
{
    let nb = k / block;
    vstd::arithmetic::div_mod::lemma_fundamental_div_mod(k as int, block as int);
    assert(k * n == (n * nb) * block) by (nonlinear_arith)
        requires
            k == block * nb,
    ;
    vstd::arithmetic::div_mod::lemma_div_by_multiple((n * nb) as int, block as int);
}

proof fn lemma_extents(k: u64, n: u64)
    ensures
        gguf::elements(seq![k, n]) == k as nat * n as nat,
{
    let all = seq![k, n];
    reveal_with_fuel(gguf::elements, 3);
    assert(all.drop_last().drop_last() =~= Seq::empty());
    assert(all.last() == n);
    assert(all.drop_last().last() == k);
    assert(gguf::elements(all.drop_last()) == 1 * (k as nat));
    assert(gguf::elements(all) == (1 * (k as nat)) * (n as nat));
}

/// The fold a file declares for a weight.
fn load_fold(folding: Option<&Folding>, name: &str, width: usize) -> (result: Result<
    Option<Fold>,
    LoadError,
>)
    requires
        folding is Some ==> folding->Some_0.block > 0,
    ensures
        match result {
            Ok(fold) => declared_fold(folding, name@, width, fold),
            Err(e) => refused_fold(folding, name@, width, e),
        },
{
    let f = match folding {
        Some(f) => f,
        None => {
            return Ok(None);
        },
    };
    let input = f.folds(name);
    if !input && !f.restores(name) {
        return Ok(None);
    }
    let signs = match f.signs(width) {
        Ok(signs) => signs,
        Err(e) => {
            return Err(LoadError::Signs(e));
        },
    };
    assert(are_signs(*f, width, signs@));
    if f.block != HADAMARD_BLOCK {
        return Err(LoadError::Block { name: name.to_owned(), block: f.block });
    }
    if input {
        Ok(Some(Fold::Input { signs, perm: None }))
    } else {
        Ok(Some(Fold::Table { signs }))
    }
}

fn copy_signs(signs: &Vec<i64>) -> (out: Vec<i64>)
    ensures
        out@ == signs@,
{
    let mut out: Vec<i64> = Vec::new();
    push_part(&mut out, signs.as_slice(), 0, signs.len());
    assert(out@ =~= signs@);
    out
}

fn copy_fold(fold: &Option<Fold>) -> (out: Option<Fold>)
    ensures
        fold_of(out) == fold_of(*fold),
{
    match fold {
        None => None,
        Some(Fold::Input { signs, perm }) => Some(
            Fold::Input { signs: copy_signs(signs), perm: *perm },
        ),
        Some(Fold::Table { signs }) => Some(Fold::Table { signs: copy_signs(signs) }),
    }
}

/// An order that is not one of a projection's outputs.
pub struct ReorderError {
    pub key: String,
    pub out_dim: usize,
}

pub const REORDER: &'static str =
    "a reordering of '$0' must be a permutation of its $1 outputs";

impl ReorderError {
    pub fn message(&self) -> (s: String)
        ensures
            s@ == text::filled(REORDER@, seq![self.key@, text::decimal(self.out_dim as nat)]),
    {
        Args::new().text(self.key.as_str()).num(self.out_dim).fill(REORDER)
    }
}

/// Whether an order is a permutation of a projection's outputs.
pub open spec fn is_order(order: Seq<usize>, out_dim: nat) -> bool {
    &&& order.len() == out_dim
    &&& forall|j: int| 0 <= j < order.len() ==> #[trigger] order[j] < out_dim
    &&& forall|i: int, j: int| 0 <= i < j < order.len() ==> order[i] != order[j]
}

/// Whether an order is a permutation of so many outputs.
fn permutes(order: &[usize], out_dim: usize) -> (yes: bool)
    ensures
        yes == is_order(order@, out_dim as nat),
{
    if order.len() != out_dim {
        return false;
    }
    let mut seen: Vec<bool> = Vec::new();
    while seen.len() < out_dim
        invariant
            seen@.len() <= out_dim,
            forall|o: int| 0 <= o < seen@.len() ==> !#[trigger] seen@[o],
        decreases out_dim - seen@.len(),
    {
        seen.push(false);
    }
    let mut j: usize = 0;
    while j < order.len()
        invariant
            j <= order@.len(),
            seen@.len() == out_dim,
            forall|i: int| 0 <= i < j ==> #[trigger] order@[i] < out_dim && seen@[order@[i] as int],
            forall|o: int|
                0 <= o < out_dim && #[trigger] seen@[o] ==> exists|i: int|
                    0 <= i < j && #[trigger] order@[i] == o,
            forall|i: int, k: int| 0 <= i < k < j ==> order@[i] != order@[k],
        decreases order@.len() - j,
    {
        let at: usize = order[j];
        if at >= out_dim {
            return false;
        }
        if seen[at] {
            let ghost i = choose|i: int| 0 <= i < j && #[trigger] order@[i] == at;
            assert(order@[i] == order@[j as int]);
            return false;
        }
        let ghost before = seen@;
        seen.set(at, true);
        j = j + 1;
        assert forall|o: int| 0 <= o < out_dim && #[trigger] seen@[o] implies exists|i: int|
            0 <= i < j && #[trigger] order@[i] == o by {
            if o == at {
                assert(order@[j - 1] == o);
            } else {
                assert(before[o]);
                let i = choose|i: int| 0 <= i < j - 1 && #[trigger] order@[i] == o;
                assert(order@[i] == o);
            }
        }
    }
    true
}

/// A row that does not fit where it is asked for.
#[derive(Clone, Copy, PartialEq, Eq, Structural, Debug)]
pub struct RowError {
    pub index: usize,
    pub out_dim: usize,
    pub in_dim: usize,
    pub len: usize,
}

pub const ROW: &'static str = "row $0 of a [$1, $2] weight does not fit a $3-element slice";

impl RowError {
    pub fn message(self) -> (s: String)
        ensures
            s@ == text::filled(
                ROW@,
                seq![
                    text::decimal(self.index as nat),
                    text::decimal(self.out_dim as nat),
                    text::decimal(self.in_dim as nat),
                    text::decimal(self.len as nat),
                ],
            ),
    {
        Args::new().num(self.index).num(self.out_dim).num(self.in_dim).num(self.len).fill(ROW)
    }
}

/// A weight's row: its values, or the blocks they are decoded from.
pub enum Row<T> {
    Values(Vec<T>),
    Blocks(Vec<u8>),
}

impl<T> Linear<T> {
    pub open spec fn wf(self) -> bool {
        match self.weight {
            Weights::Dense(data) => data@.len() == self.in_dim * self.out_dim,
            Weights::Quant(p) => p.wf() && p.k == self.in_dim && p.n == self.out_dim,
        }
    }

    /// The transform this weight's input goes through.
    pub open spec fn rotates(self) -> Option<Rotation> {
        match self.fold {
            Some(Fold::Input { signs, perm }) => Some(Rotation { width: self.in_dim, perm }),
            _ => None,
        }
    }

    /// Whether it is folded, and then whether its input is transformed.
    pub open spec fn fold_kind(self) -> Option<bool> {
        match self.fold {
            Some(Fold::Input { .. }) => Some(true),
            Some(Fold::Table { .. }) => Some(false),
            None => None,
        }
    }

    /// The quantized contraction applies: a kernel unpacks the weight's format.
    pub open spec fn in_planes(self) -> bool {
        self.weight matches Weights::Quant(p) && quant::has_planes(p.quant)
    }

    /// The raw contraction applies: a kernel decodes the weight's blocks.
    pub open spec fn in_blocks(self) -> bool {
        self.weight matches Weights::Quant(p) && quant::has_raw_scales(p.quant)
    }

    /// What it goes up under.
    pub open spec fn upload_key(self) -> Seq<char> {
        if self.weight is Dense && self.narrow {
            self.key@ + ".rows"@
        } else {
            self.key@
        }
    }

    /// What it takes on the backend.
    pub open spec fn upload_bytes(self) -> nat {
        let elems = self.in_dim as nat * self.out_dim as nat;
        match self.weight {
            Weights::Quant(p) if quant::has_planes(p.quant) => elems + 2 * (elems / 32) * 4,
            Weights::Quant(p) if quant::has_raw_scales(p.quant) => p.bytes@.len() + (
            if quant::has_min(p.quant) {
                2nat
            } else {
                1
            }) * (elems / (quant::block_of(p.quant) as nat)) * 2,
            _ => elems * 4,
        }
    }

    /// What it is counted as.
    pub open spec fn upload(self) -> crate::layers::Upload {
        crate::layers::Upload {
            bytes: self.upload_bytes() as usize,
            dense: !self.in_planes() && !self.in_blocks(),
            streamed: false,
        }
    }

    /// The projection of a layer a file keeps under a name. `decoded` is what
    /// its tensor decodes to, for one that is not left in its blocks.
    pub fn load(
        gguf: &Gguf,
        folding: Option<&Folding>,
        name: &str,
        in_dim: usize,
        out_dim: usize,
        decoded: Option<&[T]>,
        narrow: bool,
    ) -> (result: Result<Linear<T>, LoadError>) where T: Copy
        requires
            folding is Some ==> folding->Some_0.block > 0,
        ensures
            loads(
                *gguf,
                folding,
                name@,
                in_dim,
                out_dim,
                match decoded {
                    Some(d) => Some(d@),
                    None => None,
                },
                narrow,
                result,
            ),
    {
        let info = match gguf.tensor(name) {
            Some(info) => info,
            None => {
                return Err(LoadError::Missing { name: name.to_owned() });
            },
        };
        let ghost at = choose|at: int| #[trigger]
            gguf::is_named(gguf.tensors@, name@, at) && *info == gguf.tensors@[at];
        assert(gguf::is_named(gguf.tensors@, name@, at) && *info == gguf.tensors@[at]);
        let ghost values: Option<Seq<T>> = match decoded {
            Some(d) => Some(d@),
            None => None,
        };
        let expected: Vec<u64> = vec![in_dim as u64, out_dim as u64];
        assert(expected@ =~= seq![in_dim as u64, out_dim as u64]);
        if let Err(e) = check_dims(info, expected.as_slice()) {
            let result: Result<Linear<T>, LoadError> = Err(LoadError::Dims(e));
            assert(loads_from(
                *info,
                gguf.data@,
                folding,
                name@,
                in_dim,
                out_dim,
                values,
                narrow,
                result,
            ));
            return result;
        }
        let kept: Option<Quant> = match info.ggml_type.quant() {
            Some(q) => if in_dim % q.block() == 0 {
                Some(q)
            } else {
                None
            },
            None => None,
        };
        assert(kept == kept_quant(*info, in_dim));
        let weight: Weights<T> = match kept {
            Some(q) => match gguf.tensor_window(info) {
                None => {
                    let result: Result<Linear<T>, LoadError> = Err(
                        LoadError::OutOfFile { name: name.to_owned() },
                    );
                    assert(loads_from(
                        *info,
                        gguf.data@,
                        folding,
                        name@,
                        in_dim,
                        out_dim,
                        values,
                        narrow,
                        result,
                    ));
                    return result;
                },
                Some(window) => {
                    let bytes = window.bytes();
                    proof {
                        lemma_extents(in_dim as u64, out_dim as u64);
                        lemma_blocks(in_dim as nat, out_dim as nat, quant::block_of(q) as nat);
                        let nb = in_dim as nat / (quant::block_of(q) as nat);
                        let each = quant::block_bytes_of(q) as nat;
                        assert(out_dim * nb * each == out_dim * (nb * each)) by (nonlinear_arith);
                    }
                    let mut copy: Vec<u8> = Vec::new();
                    push_part(&mut copy, bytes, 0, bytes.len());
                    assert(copy@ =~= bytes@);
                    Weights::Quant(Packed { quant: q, bytes: copy, k: in_dim, n: out_dim })
                },
            },
            None => {
                let source: Option<&[T]> = match decoded {
                    Some(d) => if (in_dim as u128).checked_mul(out_dim as u128) == Some(
                        d.len() as u128,
                    ) {
                        Some(d)
                    } else {
                        None
                    },
                    None => None,
                };
                match source {
                    None => {
                        let result: Result<Linear<T>, LoadError> = Err(
                            LoadError::Values { name: name.to_owned() },
                        );
                        assert(loads_from(
                            *info,
                            gguf.data@,
                            folding,
                            name@,
                            in_dim,
                            out_dim,
                            values,
                            narrow,
                            result,
                        ));
                        return result;
                    },
                    Some(d) => {
                        assert(in_dim * out_dim == out_dim * in_dim) by (nonlinear_arith);
                        Weights::Dense(transpose(d, out_dim, in_dim))
                    },
                }
            },
        };
        let fold = match load_fold(folding, name, in_dim) {
            Ok(fold) => fold,
            Err(e) => {
                let result: Result<Linear<T>, LoadError> = Err(e);
                assert(loads_from(
                    *info,
                    gguf.data@,
                    folding,
                    name@,
                    in_dim,
                    out_dim,
                    values,
                    narrow,
                    result,
                ));
                return result;
            },
        };
        let result: Result<Linear<T>, LoadError> = Ok(
            Linear { weight, in_dim, out_dim, key: name.to_owned(), fold, narrow },
        );
        assert(loads_from(
            *info,
            gguf.data@,
            folding,
            name@,
            in_dim,
            out_dim,
            values,
            narrow,
            result,
        ));
        result
    }

    /// For a folded input weight, regroups the activation's heads ahead of the
    /// transform.
    pub fn regroup_heads(&mut self, regroup: HeadPerm)
        ensures
            final(self).weight == old(self).weight,
            final(self).in_dim == old(self).in_dim,
            final(self).out_dim == old(self).out_dim,
            final(self).key == old(self).key,
            final(self).narrow == old(self).narrow,
            fold_of(final(self).fold) == (match fold_of(old(self).fold) {
                Some(Folded::Input { signs, perm }) => Some(
                    Folded::Input { signs, perm: Some(regroup) },
                ),
                other => other,
            }),
    {
        let fold = self.fold.take();
        self.fold = match fold {
            Some(Fold::Input { signs, perm: _ }) => Some(
                Fold::Input { signs, perm: Some(regroup) },
            ),
            other => other,
        };
    }

    /// Whether this weight's input has to go through the transform.
    pub fn folded(&self) -> (yes: bool)
        ensures
            yes == (self.rotates() is Some),
    {
        match &self.fold {
            Some(Fold::Input { .. }) => true,
            _ => false,
        }
    }

    pub fn rotation(&self) -> (r: Option<Rotation>)
        ensures
            r == self.rotates(),
    {
        match &self.fold {
            Some(Fold::Input { signs: _, perm }) => Some(
                Rotation { width: self.in_dim, perm: *perm },
            ),
            _ => None,
        }
    }

    fn kind(&self) -> (kind: Option<bool>)
        ensures
            kind == self.fold_kind(),
    {
        match &self.fold {
            Some(Fold::Input { .. }) => Some(true),
            Some(Fold::Table { .. }) => Some(false),
            None => None,
        }
    }

    pub fn is_quantized(&self) -> (yes: bool)
        ensures
            yes == self.in_planes(),
    {
        match &self.weight {
            Weights::Quant(p) => p.quant.has_planes(),
            Weights::Dense(_) => false,
        }
    }

    pub fn is_raw(&self) -> (yes: bool)
        ensures
            yes == self.in_blocks(),
    {
        match &self.weight {
            Weights::Quant(p) => p.quant.has_raw_scales(),
            Weights::Dense(_) => false,
        }
    }

    /// The raw format this weight is held in, where a raw kernel decodes it.
    pub fn raw_quant(&self) -> (q: Option<Quant>)
        ensures
            q is Some == self.in_blocks(),
            q is Some ==> (self.weight matches Weights::Quant(p) && q->Some_0 == p.quant),
    {
        match &self.weight {
            Weights::Quant(p) => if p.quant.has_raw_scales() {
                Some(p.quant)
            } else {
                None
            },
            Weights::Dense(_) => None,
        }
    }

    /// The key a weight goes up under: its own, or for a dense one narrow enough
    /// to be read by rows, that of the layout it is read in.
    pub fn dense_key(&self) -> (key: String)
        ensures
            key@ == self.upload_key(),
    {
        match &self.weight {
            Weights::Dense(_) if self.narrow => text::joined(self.key.as_str(), ".rows"),
            _ => self.key.clone(),
        }
    }

    /// Counts what the weight will take on the backend.
    ///
    /// A quantized weight a kernel unpacks goes up as one quant per element plus
    /// its scales twice, in the two layouts the kernels read. One a raw kernel
    /// decodes goes up as its bytes plus a half-precision plane per scale term.
    /// Anything else goes up in single precision.
    pub fn footprint(&self, into: &mut Uploads)
        requires
            self.wf(),
            old(into).wf(),
            self.upload_bytes() <= usize::MAX,
            self.in_dim * self.out_dim <= usize::MAX,
        ensures
            final(into).wf(),
            final(into)@ == old(into)@.with(self.upload_key(), self.upload()),
    {
        let elems: usize = self.in_dim * self.out_dim;
        let key = self.dense_key();
        match &self.weight {
            Weights::Quant(p) => if p.quant.has_planes() {
                let bytes: usize = elems + 2 * (elems / 32) * 4;
                into.add_resident(key.as_str(), bytes, false);
            } else if !p.quant.has_raw_scales() {
                into.add_resident(key.as_str(), elems * 4, true);
            } else {
                let headers: usize = if p.quant.has_min() {
                    2
                } else {
                    1
                };
                let blocks: usize = elems / p.quant.block();
                let bytes: usize = p.byte_len() + headers * blocks * 2;
                into.add_resident(key.as_str(), bytes, false);
            },
            Weights::Dense(_) => into.add_resident(key.as_str(), elems * 4, true),
        }
    }

    /// The same projection with its outputs permuted: output `j` of the result
    /// is output `order[j]` of this one.
    pub fn reorder_outputs(&self, suffix: &str, order: &[usize]) -> (result: Result<
        Linear<T>,
        ReorderError,
    >) where T: Copy
        requires
            self.wf(),
        ensures
            match result {
                Err(e) => !is_order(order@, self.out_dim as nat) && e.key@ == self.key@ && e.out_dim
                    == self.out_dim,
                Ok(l) => {
                    &&& is_order(order@, self.out_dim as nat)
                    &&& l.wf()
                    &&& l.in_dim == self.in_dim
                    &&& l.out_dim == self.out_dim
                    &&& l.narrow == self.narrow
                    &&& l.key@ == self.key@ + "."@ + suffix@
                    &&& fold_of(l.fold) == fold_of(self.fold)
                    &&& match self.weight {
                        Weights::Dense(d) => l.weight matches Weights::Dense(m) && m@ == reordered(
                            d@,
                            self.in_dim as nat,
                            order@,
                        ),
                        Weights::Quant(p) => l.weight matches Weights::Quant(m) && m.quant
                            == p.quant && forall|j: int|
                            0 <= j < order@.len() ==> m.row(j) == p.row(#[trigger] order@[j] as int),
                    }
                },
            },
    {
        if !permutes(order, self.out_dim) {
            return Err(ReorderError { key: self.key.clone(), out_dim: self.out_dim });
        }
        let weight: Weights<T> = match &self.weight {
            Weights::Quant(p) => Weights::Quant(p.select_outputs(order)),
            Weights::Dense(d) => Weights::Dense(
                reorder_columns(d.as_slice(), self.in_dim, order),
            ),
        };
        let mut key = text::joined(self.key.as_str(), ".");
        key.append(suffix);
        Ok(
            Linear {
                weight,
                in_dim: self.in_dim,
                out_dim: self.out_dim,
                key,
                fold: copy_fold(&self.fold),
                narrow: self.narrow,
            },
        )
    }

    /// Output row `index` of this weight, for `len` elements of room: its
    /// values, or the blocks they are decoded from.
    pub fn row(&self, index: usize, len: usize) -> (result: Result<Row<T>, RowError>) where T: Copy
        requires
            self.wf(),
        ensures
            match result {
                Err(e) => !(index < self.out_dim && len == self.in_dim) && e == (RowError {
                    index,
                    out_dim: self.out_dim,
                    in_dim: self.in_dim,
                    len,
                }),
                Ok(row) => index < self.out_dim && len == self.in_dim && match self.weight {
                    Weights::Dense(d) => row matches Row::Values(v) && v@ == Seq::new(
                        self.in_dim as nat,
                        |j: int| d@[j * self.out_dim + index],
                    ),
                    Weights::Quant(p) => row matches Row::Blocks(b) && b@ == p.row(index as int),
                },
            },
    {
        if index >= self.out_dim || len != self.in_dim {
            return Err(
                RowError { index, out_dim: self.out_dim, in_dim: self.in_dim, len },
            );
        }
        match &self.weight {
            Weights::Quant(p) => Ok(Row::Blocks(p.row_of(index))),
            Weights::Dense(d) => {
                let held: usize = d.len();
                let mut v: Vec<T> = Vec::new();
                let mut j: usize = 0;
                let ghost whole = Seq::new(
                    self.in_dim as nat,
                    |j: int| d@[j * self.out_dim + index],
                );
                while j < self.in_dim
                    invariant
                        j <= self.in_dim,
                        index < self.out_dim,
                        held == d@.len(),
                        d@.len() == self.in_dim * self.out_dim,
                        whole == Seq::new(
                            self.in_dim as nat,
                            |j: int| d@[j * self.out_dim + index],
                        ),
                        v@ == whole.take(j as int),
                    decreases self.in_dim - j,
                {
                    proof {
                        lemma_cell(j as int, index as int, self.in_dim as int, self.out_dim as int);
                    }
                    v.push(d[j * self.out_dim + index]);
                    j = j + 1;
                    assert(v@ =~= whole.take(j as int));
                }
                assert(whole.take(j as int) =~= whole);
                Ok(Row::Values(v))
            },
        }
    }
}

/// Whether every part reads its input through the same transform, or none does.
pub open spec fn same_folds<T>(parts: Seq<&Linear<T>>) -> bool {
    forall|i: int|
        0 <= i < parts.len() ==> (#[trigger] parts[i]).rotates() == parts[0].rotates()
            && parts[i].fold_kind() == parts[0].fold_kind()
}

/// Whether every part is left in blocks, of one format.
pub open spec fn uniform<T>(parts: Seq<&Linear<T>>) -> bool {
    forall|i: int|
        0 <= i < parts.len() ==> ((#[trigger] parts[i]).weight matches Weights::Quant(p)
            && parts[0].weight matches Weights::Quant(q) && p.quant == q.quant)
}

/// Whether parts are worth fusing: in blocks of one format that a kernel
/// unpacks, or of PTQ1_0, or all dense and none folded; and read through one
/// transform.
pub open spec fn fusible<T>(parts: Seq<&Linear<T>>) -> bool {
    &&& same_folds(parts)
    &&& ({
        ||| uniform(parts) && quant::stacks(parts[0].weight->Quant_0.quant)
        ||| forall|i: int|
            0 <= i < parts.len() ==> (#[trigger] parts[i]).weight is Dense && parts[i].fold is None
    })
}

pub open spec fn widths_of<T>(parts: Seq<&Linear<T>>) -> Seq<nat> {
    Seq::new(parts.len(), |i: int| parts[i].out_dim as nat)
}

/// The outputs of parts together, up to a whole number of tiles.
pub open spec fn fused_width(widths: Seq<nat>) -> nat {
    (total(widths) + 255) / 256 * 256
}

/// The keys of parts, a plus between them.
pub open spec fn plus_keys<T>(parts: Seq<&Linear<T>>) -> Seq<char>
    decreases parts.len(),
{
    if parts.len() == 0 {
        Seq::empty()
    } else if parts.len() == 1 {
        parts[0].key@
    } else {
        plus_keys(parts.drop_last()) + "+"@ + parts.last().key@
    }
}

/// What each part is dense: its own values, or what its blocks decode to.
pub open spec fn dense_parts<T>(parts: Seq<&Linear<T>>, decoded: Seq<Vec<T>>) -> Seq<Seq<T>> {
    Seq::new(
        parts.len(),
        |i: int|
            match parts[i].weight {
                Weights::Dense(d) => d@,
                Weights::Quant(_) => decoded[i]@,
            },
    )
}

pub open spec fn packed_of<T>(parts: Seq<&Linear<T>>) -> Seq<&Packed> {
    Seq::new(parts.len(), |i: int| &parts[i].weight->Quant_0)
}

/// What fusing fails on.
pub enum FuseError {
    Nothing,
    Widths,
    Folds { key: String },
}

pub const NOTHING: &'static str = "fusing needs a weight";

pub const WIDTHS: &'static str = "fused projections must share their input width";

pub const FOLDS: &'static str = "fusing weights read through different transforms ('$0')";

impl FuseError {
    pub fn message(&self) -> (s: String)
        ensures
            s@ == (match *self {
                FuseError::Nothing => NOTHING@,
                FuseError::Widths => WIDTHS@,
                FuseError::Folds { key } => text::filled(FOLDS@, seq![key@]),
            }),
    {
        match self {
            FuseError::Nothing => NOTHING.to_owned(),
            FuseError::Widths => WIDTHS.to_owned(),
            FuseError::Folds { key } => Args::new().text(key.as_str()).fill(FOLDS),
        }
    }
}

pub fn same_fold<T>(parts: &[&Linear<T>]) -> (yes: bool)
    ensures
        yes == same_folds(parts@),
{
    let mut i: usize = 0;
    while i < parts.len()
        invariant
            i <= parts@.len(),
            forall|j: int|
                0 <= j < i ==> (#[trigger] parts@[j]).rotates() == parts@[0].rotates()
                    && parts@[j].fold_kind() == parts@[0].fold_kind(),
        decreases parts@.len() - i,
    {
        if parts[i].rotation() != parts[0].rotation() || parts[i].kind() != parts[0].kind() {
            assert(parts@[i as int].rotates() != parts@[0].rotates()
                || parts@[i as int].fold_kind() != parts@[0].fold_kind());
            return false;
        }
        i = i + 1;
    }
    true
}

/// Whether every part is left in blocks of one format, so that fusing them
/// decodes nothing.
pub fn is_uniform<T>(parts: &[&Linear<T>]) -> (yes: bool)
    ensures
        yes == uniform(parts@),
{
    let mut i: usize = 0;
    while i < parts.len()
        invariant
            i <= parts@.len(),
            forall|j: int|
                0 <= j < i ==> ((#[trigger] parts@[j]).weight matches Weights::Quant(p)
                    && parts@[0].weight matches Weights::Quant(q) && p.quant == q.quant),
        decreases parts@.len() - i,
    {
        let same = match (&parts[i].weight, &parts[0].weight) {
            (Weights::Quant(p), Weights::Quant(q)) => p.quant == q.quant,
            _ => false,
        };
        if !same {
            let ghost one = parts@[i as int];
            assert(!(one.weight matches Weights::Quant(p) && parts@[0].weight matches Weights::Quant(
                q,
            ) && p.quant == q.quant));
            return false;
        }
        i = i + 1;
    }
    true
}

/// Whether fusing these parts is worth it: it leaves them quantized, or they
/// are all dense.
pub fn should_fuse<T>(parts: &[&Linear<T>]) -> (yes: bool)
    requires
        parts@.len() > 0,
    ensures
        yes == fusible(parts@),
{
    if !same_fold(parts) {
        return false;
    }
    if is_uniform(parts) {
        assert(parts@[0].weight is Quant);
        return match &parts[0].weight {
            Weights::Quant(p) => p.quant.stacks(),
            Weights::Dense(_) => false,
        };
    }
    let mut i: usize = 0;
    while i < parts.len()
        invariant
            i <= parts@.len(),
            !uniform(parts@),
            same_folds(parts@),
            forall|j: int|
                0 <= j < i ==> (#[trigger] parts@[j]).weight is Dense && parts@[j].fold is None,
        decreases parts@.len() - i,
    {
        let dense = match &parts[i].weight {
            Weights::Dense(_) => parts[i].fold.is_none(),
            Weights::Quant(_) => false,
        };
        if !dense {
            let ghost one = parts@[i as int];
            assert(!(one.weight is Dense && one.fold is None));
            return false;
        }
        i = i + 1;
    }
    true
}

fn keys_of<T>(parts: &[&Linear<T>]) -> (key: String)
    ensures
        key@ == plus_keys(parts@),
{
    let mut key = String::new();
    let mut i: usize = 0;
    assert(parts@.take(0) =~= Seq::empty());
    while i < parts.len()
        invariant
            i <= parts@.len(),
            key@ == plus_keys(parts@.take(i as int)),
        decreases parts@.len() - i,
    {
        let ghost head = parts@.take(i as int + 1);
        assert(head.drop_last() =~= parts@.take(i as int));
        assert(head.last() == parts@[i as int]);
        if i > 0 {
            key.append("+");
        }
        key.append(parts[i].key.as_str());
        if i == 0 {
            assert(key@ =~= plus_keys(head));
        }
        i = i + 1;
    }
    assert(parts@.take(i as int) =~= parts@);
    key
}

fn widths_list<T>(parts: &[&Linear<T>]) -> (widths: Vec<usize>)
    ensures
        nats(widths@) == widths_of(parts@),
        widths@.len() == parts@.len(),
{
    let mut widths: Vec<usize> = Vec::new();
    let mut i: usize = 0;
    while i < parts.len()
        invariant
            i <= parts@.len(),
            widths@.len() == i,
            forall|j: int| 0 <= j < i ==> #[trigger] widths@[j] == parts@[j].out_dim,
        decreases parts@.len() - i,
    {
        widths.push(parts[i].out_dim);
        i = i + 1;
    }
    assert(nats(widths@) =~= widths_of(parts@));
    widths
}

/// Whether every part has the first one's input width.
pub open spec fn share_input<T>(parts: Seq<&Linear<T>>) -> bool {
    forall|i: int| 0 <= i < parts.len() ==> (#[trigger] parts[i]).in_dim == parts[0].in_dim
}

/// What fusing parts comes to.
pub open spec fn fuses<T>(
    parts: Seq<&Linear<T>>,
    decoded: Seq<Vec<T>>,
    zero: T,
    narrow: bool,
    result: Result<Linear<T>, FuseError>,
) -> bool {
    if parts.len() == 0 {
        result matches Err(FuseError::Nothing)
    } else if !share_input(parts) {
        result matches Err(FuseError::Widths)
    } else if !same_folds(parts) {
        result matches Err(FuseError::Folds { key }) && key@ == plus_keys(parts)
    } else {
        let out = fused_width(widths_of(parts));
        &&& result matches Ok(l)
        &&& l.wf()
        &&& l.in_dim == parts[0].in_dim
        &&& l.out_dim == out
        &&& l.key@ == plus_keys(parts)
        &&& l.narrow == narrow
        &&& fold_of(l.fold) == fold_of(parts[0].fold)
        &&& if uniform(parts) {
            &&& l.weight matches Weights::Quant(p)
            &&& p.quant == parts[0].weight->Quant_0.quant
            &&& p.bytes@ == packed::flat(packed::all_bytes(packed_of(parts))) + Seq::new(
                ((out - packed::outputs(packed_of(parts))) * packed::row_bytes(
                    p.quant,
                    l.in_dim as nat,
                )) as nat,
                |i: int| 0u8,
            )
        } else {
            &&& l.weight matches Weights::Dense(d)
            &&& d@ == joined(
                dense_parts(parts, decoded),
                widths_of(parts),
                l.in_dim as nat,
                out,
                zero,
            )
        }
    }
}

proof fn lemma_outputs_are_widths<T>(parts: Seq<&Linear<T>>)
    requires
        forall|i: int| 0 <= i < parts.len() ==> (#[trigger] parts[i]).wf() && parts[i].weight is Quant,
    ensures
        packed::outputs(packed_of(parts)) == total(widths_of(parts)),
    decreases parts.len(),
{
    if parts.len() > 0 {
        let head = parts.drop_last();
        assert forall|i: int| 0 <= i < head.len() implies (#[trigger] head[i]).wf() && head[i].weight is Quant by {
            assert(head[i] == parts[i]);
        }
        lemma_outputs_are_widths(head);
        assert(packed_of(parts).drop_last() =~= packed_of(head));
        assert(widths_of(parts).drop_last() =~= widths_of(head));
        let last = parts[parts.len() - 1];
        assert(last.wf() && last.weight is Quant);
    }
}

/// The parts of a fused weight that is not left in blocks are whole matrices.
pub open spec fn decodes_whole<T>(parts: Seq<&Linear<T>>, decoded: Seq<Vec<T>>) -> bool {
    forall|i: int|
        0 <= i < parts.len() ==> (#[trigger] dense_parts(parts, decoded)[i]).len()
            == parts[i].in_dim * parts[i].out_dim
}

/// An output of a part is the fused weight's output as many further on as the
/// parts before it have, in its blocks or by its weight on each input.
pub proof fn a_fused_output_is_its_parts<T>(
    parts: Seq<&Linear<T>>,
    decoded: Seq<Vec<T>>,
    zero: T,
    narrow: bool,
    l: Linear<T>,
    p: int,
    o: int,
)
    requires
        fuses(parts, decoded, zero, narrow, Ok(l)),
        forall|i: int| 0 <= i < parts.len() ==> (#[trigger] parts[i]).wf(),
        !uniform(parts) ==> decodes_whole(parts, decoded),
        0 <= p < parts.len(),
        0 <= o < parts[p].out_dim,
    ensures
        ({
            let at = total(widths_of(parts).take(p)) + o;
            if uniform(parts) {
                l.weight->Quant_0.row(at) == parts[p].weight->Quant_0.row(o)
            } else {
                forall|i: int|
                    0 <= i < l.in_dim ==> l.weight->Dense_0@[#[trigger] (i * l.out_dim) + at]
                        == dense_parts(parts, decoded)[p][i * parts[p].out_dim + o]
            }
        }),
{
    let widths = widths_of(parts);
    lemma_fused_fits(parts);
    if uniform(parts) {
        let all = packed_of(parts);
        let q = l.weight->Quant_0;
        lemma_packed_parts(parts);
        lemma_outputs_are_widths(parts);
        packed::stacking_keeps_every_output(all, q, p, o);
        let head = parts.take(p);
        assert forall|i: int| 0 <= i < head.len() implies (#[trigger] head[i]).wf()
            && head[i].weight is Quant by {
            assert(head[i] == parts[i]);
        }
        lemma_outputs_are_widths(head);
        assert(packed_of(head) =~= all.take(p));
        assert(widths_of(head) =~= widths.take(p));
    } else {
        let datas = dense_parts(parts, decoded);
        let at = total(widths.take(p)) + o;
        lemma_dense_parts(parts, decoded);
        assert forall|i: int| 0 <= i < l.in_dim implies l.weight->Dense_0@[#[trigger] (i
            * l.out_dim) + at] == datas[p][i * parts[p].out_dim + o] by {
            joining_keeps_every_column(
                datas,
                widths,
                l.in_dim as nat,
                l.out_dim as nat,
                zero,
                p,
                i,
                o,
            );
        }
    }
}

/// A fused weight's outputs past those of its parts are zeros.
pub proof fn a_fused_weight_is_padded_with_zeros<T>(
    parts: Seq<&Linear<T>>,
    decoded: Seq<Vec<T>>,
    zero: T,
    narrow: bool,
    l: Linear<T>,
    o: int,
)
    requires
        fuses(parts, decoded, zero, narrow, Ok(l)),
        forall|i: int| 0 <= i < parts.len() ==> (#[trigger] parts[i]).wf(),
        !uniform(parts) ==> decodes_whole(parts, decoded),
        total(widths_of(parts)) <= o < l.out_dim,
    ensures
        if uniform(parts) {
            l.weight->Quant_0.row(o) == Seq::new(
                packed::row_bytes(l.weight->Quant_0.quant, l.in_dim as nat),
                |i: int| 0u8,
            )
        } else {
            forall|i: int|
                0 <= i < l.in_dim ==> l.weight->Dense_0@[#[trigger] (i * l.out_dim) + o] == zero
        },
{
    let widths = widths_of(parts);
    lemma_fused_fits(parts);
    if uniform(parts) {
        lemma_packed_parts(parts);
        lemma_outputs_are_widths(parts);
        packed::stacking_pads_with_zeros(packed_of(parts), l.weight->Quant_0, o);
    } else {
        let datas = dense_parts(parts, decoded);
        lemma_dense_parts(parts, decoded);
        assert forall|i: int| 0 <= i < l.in_dim implies l.weight->Dense_0@[#[trigger] (i
            * l.out_dim) + o] == zero by {
            joining_pads_with_zeros(
                datas,
                widths,
                l.in_dim as nat,
                l.out_dim as nat,
                zero,
                i,
                o,
            );
        }
    }
}

proof fn lemma_fused_fits<T>(parts: Seq<&Linear<T>>)
    ensures
        total(widths_of(parts)) <= fused_width(widths_of(parts)),
{
}

proof fn lemma_packed_parts<T>(parts: Seq<&Linear<T>>)
    requires
        parts.len() > 0,
        uniform(parts),
        share_input(parts),
        forall|i: int| 0 <= i < parts.len() ==> (#[trigger] parts[i]).wf(),
    ensures
        forall|i: int| 0 <= i < parts.len() ==> (#[trigger] parts[i]).wf() && parts[i].weight is Quant,
        forall|a: int|
            0 <= a < packed_of(parts).len() ==> {
                &&& (#[trigger] packed_of(parts)[a]).wf()
                &&& packed_of(parts)[a].quant == parts[0].weight->Quant_0.quant
                &&& packed_of(parts)[a].k == parts[0].in_dim
                &&& packed_of(parts)[a].n == parts[a].out_dim
            },
{
    assert forall|a: int| 0 <= a < packed_of(parts).len() implies {
        &&& (#[trigger] packed_of(parts)[a]).wf()
        &&& packed_of(parts)[a].quant == parts[0].weight->Quant_0.quant
        &&& packed_of(parts)[a].k == parts[0].in_dim
        &&& packed_of(parts)[a].n == parts[a].out_dim
    } by {
        assert(parts[a].wf() && parts[a].in_dim == parts[0].in_dim);
    }
}

proof fn lemma_dense_parts<T>(parts: Seq<&Linear<T>>, decoded: Seq<Vec<T>>)
    requires
        parts.len() > 0,
        share_input(parts),
        decodes_whole(parts, decoded),
    ensures
        matrices(dense_parts(parts, decoded), widths_of(parts), parts[0].in_dim as nat),
{
    assert forall|p: int| 0 <= p < dense_parts(parts, decoded).len() implies (
    #[trigger] dense_parts(parts, decoded)[p]).len() == parts[0].in_dim * widths_of(parts)[p] by {
        assert(parts[p].in_dim == parts[0].in_dim);
    }
}

/// Stacks weights that share an input into one projection. `decoded` holds what
/// each part left in blocks decodes to, where they are not all of one format;
/// zeros pad the result to whole tiles.
pub fn fuse<T: Copy>(
    parts: &[&Linear<T>],
    decoded: &[Vec<T>],
    zero: T,
    narrow: bool,
) -> (result: Result<Linear<T>, FuseError>)
    requires
        forall|i: int| 0 <= i < parts@.len() ==> (#[trigger] parts@[i]).wf(),
        total(widths_of(parts@)) + 255 <= usize::MAX,
        parts@.len() > 0 && uniform(parts@) ==> fused_width(widths_of(parts@)) * packed::row_bytes(
            parts@[0].weight->Quant_0.quant,
            parts@[0].in_dim as nat,
        ) <= usize::MAX,
        !uniform(parts@) ==> decoded@.len() == parts@.len() && forall|i: int|
            0 <= i < parts@.len() && parts@[i].weight is Quant ==> (#[trigger] decoded@[i])@.len()
                == parts@[i].in_dim * parts@[i].out_dim,
    ensures
        fuses(parts@, decoded@, zero, narrow, result),
{
    if parts.len() == 0 {
        return Err(FuseError::Nothing);
    }
    let first = parts[0];
    let in_dim: usize = first.in_dim;
    let mut i: usize = 1;
    while i < parts.len()
        invariant
            1 <= i <= parts@.len(),
            in_dim == parts@[0].in_dim,
            forall|j: int| 0 <= j < i ==> (#[trigger] parts@[j]).in_dim == in_dim,
        decreases parts@.len() - i,
    {
        if parts[i].in_dim != in_dim {
            assert(parts@[i as int].in_dim != parts@[0].in_dim);
            return Err(FuseError::Widths);
        }
        i = i + 1;
    }
    assert(share_input(parts@));
    let widths = widths_list(parts);
    let all: usize = sum(widths.as_slice(), usize::MAX - 255);
    let out_dim: usize = (all + (FUSE_ALIGN - 1)) / FUSE_ALIGN * FUSE_ALIGN;
    assert(out_dim == fused_width(widths_of(parts@)));
    let key = keys_of(parts);
    if !same_fold(parts) {
        return Err(FuseError::Folds { key });
    }
    let weight: Weights<T> = if is_uniform(parts) {
        Weights::Quant(stack_blocks(parts, out_dim))
    } else {
        let mut datas: Vec<&Vec<T>> = Vec::new();
        let mut i: usize = 0;
        while i < parts.len()
            invariant
                i <= parts@.len(),
                decoded@.len() == parts@.len(),
                datas@.len() == i,
                forall|j: int|
                    0 <= j < i ==> (#[trigger] datas@[j])@ == dense_parts(parts@, decoded@)[j],
            decreases parts@.len() - i,
        {
            match &parts[i].weight {
                Weights::Dense(d) => datas.push(d),
                Weights::Quant(_) => datas.push(&decoded[i]),
            }
            i = i + 1;
        }
        let ghost dense = dense_parts(parts@, decoded@);
        assert(contents(datas@) =~= dense);
        proof {
            assert forall|p: int| 0 <= p < dense.len() implies (#[trigger] dense[p]).len() == in_dim
                * widths_of(parts@)[p] by {
                assert(parts@[p].wf());
                assert(parts@[p].in_dim == in_dim);
                if parts@[p].weight is Quant {
                    assert(decoded@[p]@.len() == parts@[p].in_dim * parts@[p].out_dim);
                }
            }
        }
        Weights::Dense(join(datas.as_slice(), widths.as_slice(), in_dim, out_dim, zero))
    };
    Ok(Linear { weight, in_dim, out_dim, key, fold: copy_fold(&first.fold), narrow })
}

fn stack_blocks<T>(parts: &[&Linear<T>], out_dim: usize) -> (p: Packed)
    requires
        parts@.len() > 0,
        share_input(parts@),
        uniform(parts@),
        forall|i: int| 0 <= i < parts@.len() ==> (#[trigger] parts@[i]).wf(),
        total(widths_of(parts@)) <= out_dim,
        out_dim * packed::row_bytes(
            parts@[0].weight->Quant_0.quant,
            parts@[0].in_dim as nat,
        ) <= usize::MAX,
    ensures
        p.wf(),
        p.quant == parts@[0].weight->Quant_0.quant,
        p.k == parts@[0].in_dim,
        p.n == out_dim,
        p.bytes@ == packed::flat(packed::all_bytes(packed_of(parts@))) + Seq::new(
            ((out_dim - packed::outputs(packed_of(parts@))) * packed::row_bytes(
                p.quant,
                p.k as nat,
            )) as nat,
            |i: int| 0u8,
        ),
{
    let mut list: Vec<&Packed> = Vec::new();
    let mut i: usize = 0;
    while i < parts.len()
        invariant
            i <= parts@.len(),
            uniform(parts@),
            list@.len() == i,
            forall|j: int| 0 <= j < i ==> #[trigger] list@[j] == packed_of(parts@)[j],
        decreases parts@.len() - i,
    {
        let part = parts[i];
        assert(parts@[i as int].weight is Quant);
        if let Weights::Quant(p) = &part.weight {
            list.push(p);
        }
        i = i + 1;
    }
    assert(list@ =~= packed_of(parts@));
    proof {
        assert forall|i: int| 0 <= i < parts@.len() implies (#[trigger] parts@[i]).wf()
            && parts@[i].weight is Quant by {}
        lemma_outputs_are_widths(parts@);
        assert forall|i: int| 0 <= i < list@.len() implies {
            &&& (#[trigger] list@[i]).wf()
            &&& list@[i].quant == list@[0].quant
            &&& list@[i].k == list@[0].k
        } by {
            assert(parts@[i].wf() && parts@[i].weight is Quant && parts@[i].in_dim
                == parts@[0].in_dim);
            assert(parts@[0].wf() && parts@[0].weight is Quant);
        }
        assert(parts@[0].wf() && parts@[0].weight is Quant);
    }
    Packed::stack(list.as_slice(), out_dim)
}

/// Whether parts stack by rows: all dense and unfolded, of one input width.
pub open spec fn stackable<T>(parts: Seq<&Linear<T>>) -> bool {
    parts.len() > 0 && forall|i: int|
        0 <= i < parts.len() ==> (#[trigger] parts[i]).weight is Dense && parts[i].in_dim
            == parts[0].in_dim && parts[i].fold is None
}

/// Dense parts sharing an input, stacked along the output axis into one
/// projection narrow enough to be read by rows, unpadded; `None` where a part is
/// held otherwise or the stack is too wide, as `narrow` says.
pub fn stack<T: Copy>(parts: &[&Linear<T>], narrow: bool, zero: T) -> (result: Option<Linear<T>>)
    requires
        forall|i: int| 0 <= i < parts@.len() ==> (#[trigger] parts@[i]).wf(),
        total(widths_of(parts@)) <= usize::MAX,
    ensures
        result is Some == (stackable(parts@) && narrow),
        result matches Some(l) ==> {
            &&& l.wf()
            &&& l.in_dim == parts@[0].in_dim
            &&& l.out_dim == total(widths_of(parts@))
            &&& l.key@ == plus_keys(parts@)
            &&& l.narrow
            &&& l.fold is None
            &&& l.weight matches Weights::Dense(d)
            &&& d@ == joined(
                dense_parts(parts@, Seq::empty()),
                widths_of(parts@),
                l.in_dim as nat,
                l.out_dim as nat,
                zero,
            )
        },
{
    if parts.len() == 0 {
        return None;
    }
    let in_dim: usize = parts[0].in_dim;
    let mut datas: Vec<&Vec<T>> = Vec::new();
    let ghost dense = dense_parts(parts@, Seq::empty());
    let mut i: usize = 0;
    while i < parts.len()
        invariant
            i <= parts@.len(),
            parts@.len() > 0,
            in_dim == parts@[0].in_dim,
            dense == dense_parts(parts@, Seq::empty()),
            datas@.len() == i,
            forall|j: int|
                0 <= j < i ==> (#[trigger] parts@[j]).weight is Dense && parts@[j].in_dim == in_dim
                    && parts@[j].fold is None,
            forall|j: int| 0 <= j < i ==> (#[trigger] datas@[j])@ == dense[j],
        decreases parts@.len() - i,
    {
        let part = parts[i];
        let ghost one = parts@[i as int];
        if part.in_dim != in_dim || part.fold.is_some() {
            assert(one.in_dim != parts@[0].in_dim || one.fold is Some);
            return None;
        }
        match &part.weight {
            Weights::Dense(d) => datas.push(d),
            Weights::Quant(_) => {
                assert(!(one.weight is Dense));
                return None;
            },
        }
        i = i + 1;
    }
    if !narrow {
        return None;
    }
    let widths = widths_list(parts);
    let out_dim: usize = sum(widths.as_slice(), usize::MAX);
    assert(contents(datas@) =~= dense);
    proof {
        assert forall|p: int| 0 <= p < dense.len() implies (#[trigger] dense[p]).len() == in_dim
            * widths_of(parts@)[p] by {
            assert(parts@[p].wf() && parts@[p].weight is Dense);
        }
    }
    let data = join(datas.as_slice(), widths.as_slice(), in_dim, out_dim, zero);
    Some(
        Linear {
            weight: Weights::Dense(data),
            in_dim,
            out_dim,
            key: keys_of(parts),
            fold: None,
            narrow: true,
        },
    )
}

/// Element `r` of column `c` of a transposed matrix is element `c` of row `r`.
pub proof fn a_transposed_matrix_has_its_rows_as_columns<T>(
    data: Seq<T>,
    rows: nat,
    cols: nat,
    r: int,
    c: int,
)
    requires
        0 <= r < rows,
        0 <= c < cols,
    ensures
        transposed(data, rows, cols)[c * rows + r] == data[r * cols + c],
{
    lemma_cell(c, r, cols as int, rows as int);
    assert(cols * rows == rows * cols) by (nonlinear_arith);
}

/// Output `j` of a reordered weight is output `order[j]` of the weight, input by input.
pub proof fn a_reordered_output_is_the_one_ordered<T>(
    data: Seq<T>,
    rows: nat,
    order: Seq<usize>,
    i: int,
    j: int,
)
    requires
        0 <= i < rows,
        0 <= j < order.len(),
    ensures
        reordered(data, rows, order)[i * order.len() + j] == data[i * order.len() + order[j]],
{
    lemma_cell(i, j, rows as int, order.len() as int);
}

} // verus!
