//! A weight left in its format's blocks, a row of them an output.

use vstd::arithmetic::div_mod;
use vstd::prelude::*;

use crate::quant::{self, Quant};
use crate::text::{self, Args};

verus! {

broadcast use crate::text::lemma_filled_args;

/// Lists end to end.
pub open spec fn flat<T>(lists: Seq<Seq<T>>) -> Seq<T>
    decreases lists.len(),
{
    if lists.len() == 0 {
        Seq::empty()
    } else {
        flat(lists.drop_last()) + lists.last()
    }
}

/// Where a list starts among those laid end to end.
pub open spec fn start<T>(lists: Seq<Seq<T>>, at: int) -> int {
    flat(lists.take(at)).len() as int
}

/// A list stands whole among those laid end to end.
pub proof fn lemma_flat<T>(lists: Seq<Seq<T>>, at: int)
    requires
        0 <= at < lists.len(),
    ensures
        start(lists, at) + lists[at].len() <= flat(lists).len(),
        flat(lists).subrange(start(lists, at), start(lists, at) + lists[at].len())
            == lists[at],
    decreases lists.len(),
{
    let head = lists.drop_last();
    if at == lists.len() - 1 {
        assert(lists.take(at) =~= head);
        assert(flat(lists).subrange(start(lists, at), flat(lists).len() as int)
            =~= lists[at]);
    } else {
        lemma_flat(head, at);
        assert(head.take(at) =~= lists.take(at));
        assert(flat(lists).subrange(
            start(lists, at),
            start(lists, at) + lists[at].len(),
        ) =~= flat(head).subrange(start(lists, at), start(lists, at) + lists[at].len()));
    }
}

/// Lists of one length start at its multiples.
pub proof fn lemma_flat_even<T>(lists: Seq<Seq<T>>, width: nat, at: int)
    requires
        0 <= at <= lists.len(),
        forall|i: int| 0 <= i < lists.len() ==> (#[trigger] lists[i]).len() == width,
    ensures
        start(lists, at) == at * width,
    decreases at,
{
    if at > 0 {
        lemma_flat_even(lists, width, at - 1);
        assert(lists.take(at).drop_last() =~= lists.take(at - 1));
        assert(at * width == (at - 1) * width + width) by (nonlinear_arith);
    } else {
        assert(lists.take(0) =~= Seq::empty());
        assert(0 * width == 0);
    }
}

/// Bytes a row of a format takes.
pub open spec fn row_bytes(quant: Quant, k: nat) -> nat {
    k / (quant::block_of(quant) as nat) * (quant::block_bytes_of(quant) as nat)
}

/// A quantized `[n, k]` weight.
pub struct Packed {
    pub quant: Quant,
    pub bytes: Vec<u8>,
    pub k: usize,
    pub n: usize,
}

impl Packed {
    /// Rows are whole blocks, and every row is there.
    pub open spec fn wf(self) -> bool {
        &&& self.k % quant::block_of(self.quant) == 0
        &&& self.bytes@.len() == self.n * row_bytes(self.quant, self.k as nat)
    }

    /// An output's bytes.
    pub open spec fn row(self, j: int) -> Seq<u8> {
        let width = row_bytes(self.quant, self.k as nat);
        self.bytes@.subrange(j * width, (j + 1) * width)
    }

    /// The bytes by output.
    pub open spec fn rows(self) -> Seq<Seq<u8>> {
        Seq::new(self.n as nat, |j: int| self.row(j))
    }
}

/// Bytes that are no weight of a shape.
#[derive(Clone, Copy, PartialEq, Eq, Structural, Debug)]
pub enum PackError {
    /// The input width is no whole number of blocks.
    Ragged { quant: Quant, k: usize },
    /// The bytes are not those of so many rows.
    Length { held: usize, n: usize, k: usize },
}

pub const RAGGED: &'static str = "$0 blocks do not divide an input width of $1";

pub const LENGTH: &'static str = "$0 bytes are not a [$1, $2] weight";

impl PackError {
    pub fn message(self) -> (s: String)
        ensures
            s@ == (match self {
                PackError::Ragged { quant, k } => text::filled(
                    RAGGED@,
                    seq![quant::name_of(quant), text::decimal(k as nat)],
                ),
                PackError::Length { held, n, k } => text::filled(
                    LENGTH@,
                    seq![
                        text::decimal(held as nat),
                        text::decimal(n as nat),
                        text::decimal(k as nat),
                    ],
                ),
            }),
    {
        match self {
            PackError::Ragged { quant, k } => Args::new().text(quant.name().as_str()).num(k).fill(RAGGED),
            PackError::Length { held, n, k } => Args::new().num(held).num(n).num(k).fill(LENGTH),
        }
    }
}

pub proof fn lemma_row(p: Packed, j: int)
    requires
        p.wf(),
        0 <= j < p.n,
    ensures
        0 <= j * row_bytes(p.quant, p.k as nat),
        (j + 1) * row_bytes(p.quant, p.k as nat) == j * row_bytes(p.quant, p.k as nat) + row_bytes(
            p.quant,
            p.k as nat,
        ),
        (j + 1) * row_bytes(p.quant, p.k as nat) <= p.bytes@.len(),
        p.row(j).len() == row_bytes(p.quant, p.k as nat),
{
    let width = row_bytes(p.quant, p.k as nat);
    assert(0 <= j * width && (j + 1) * width == j * width + width && (j + 1) * width <= p.n * width)
        by (nonlinear_arith)
        requires
            0 <= j < p.n,
            0 <= width,
    ;
}

/// A packed weight is its rows end to end.
pub proof fn a_weight_is_its_rows(p: Packed)
    requires
        p.wf(),
    ensures
        flat(p.rows()) == p.bytes@,
{
    lemma_rows_to(p, p.n as int);
    assert(p.rows().take(p.n as int) =~= p.rows());
    assert(p.bytes@.take(p.bytes@.len() as int) =~= p.bytes@);
}

proof fn lemma_rows_to(p: Packed, j: int)
    requires
        p.wf(),
        0 <= j <= p.n,
    ensures
        flat(p.rows().take(j)) == p.bytes@.take(j * row_bytes(p.quant, p.k as nat)),
    decreases j,
{
    let width = row_bytes(p.quant, p.k as nat);
    if j > 0 {
        lemma_rows_to(p, j - 1);
        lemma_row(p, j - 1);
        assert(p.rows().take(j).drop_last() =~= p.rows().take(j - 1));
        assert(p.bytes@.take(j * width) =~= p.bytes@.take((j - 1) * width) + p.row(j - 1));
    } else {
        assert(0 * width == 0) by (nonlinear_arith);
        assert(p.rows().take(0) =~= Seq::empty());
        assert(p.bytes@.take(0) =~= Seq::empty());
    }
}

fn push_row(out: &mut Vec<u8>, from: &[u8], first: usize, width: usize)
    requires
        first + width <= from@.len(),
    ensures
        final(out)@ == old(out)@ + from@.subrange(first as int, first + width),
{
    let ghost before = out@;
    let given: usize = from.len();
    let mut i: usize = 0;
    assert(out@ =~= before + from@.subrange(first as int, first as int));
    while i < width
        invariant
            i <= width,
            given == from@.len(),
            first + width <= from@.len(),
            out@ == before + from@.subrange(first as int, first + i),
        decreases width - i,
    {
        out.push(from[first + i]);
        i = i + 1;
        assert(out@ =~= before + from@.subrange(first as int, first + i));
    }
}

impl Packed {
    /// The weight a run of bytes holds.
    pub fn from_bytes(quant: Quant, bytes: &[u8], k: usize, n: usize) -> (result: Result<
        Packed,
        PackError,
    >)
        ensures
            match result {
                Ok(p) => p.wf() && p.quant == quant && p.k == k && p.n == n && p.bytes@ == bytes@,
                Err(PackError::Ragged { quant: q, k: w }) => k % quant::block_of(quant) != 0 && q
                    == quant && w == k,
                Err(PackError::Length { held, n: m, k: w }) => k % quant::block_of(quant) == 0
                    && bytes@.len() != n * row_bytes(quant, k as nat) && held == bytes@.len() && m
                    == n && w == k,
            },
    {
        if k % quant.block() != 0 {
            return Err(PackError::Ragged { quant, k });
        }
        let blocks: u128 = (k / quant.block()) as u128;
        let each: u128 = quant.block_bytes() as u128;
        assert(blocks * each <= u64::MAX * 65535) by (nonlinear_arith)
            requires
                0 <= blocks <= u64::MAX,
                0 <= each <= 65535,
        ;
        let width: u128 = blocks * each;
        assert(width == row_bytes(quant, k as nat));
        let held: usize = bytes.len();
        let all: Option<u128> = (n as u128).checked_mul(width);
        if all != Some(held as u128) {
            return Err(PackError::Length { held, n, k });
        }
        let mut copy: Vec<u8> = Vec::new();
        push_row(&mut copy, bytes, 0, held);
        assert(copy@ =~= bytes@);
        Ok(Packed { quant, bytes: copy, k, n })
    }

    pub fn byte_len(&self) -> (len: usize)
        ensures
            len == self.bytes@.len(),
    {
        self.bytes.len()
    }

    fn width(&self) -> (width: usize)
        requires
            self.wf(),
            self.n > 0,
        ensures
            width == row_bytes(self.quant, self.k as nat),
    {
        proof {
            lemma_row(*self, 0);
        }
        let held: usize = self.bytes.len();
        assert(row_bytes(self.quant, self.k as nat) <= held);
        self.k / self.quant.block() * self.quant.block_bytes()
    }

    /// An output's bytes.
    pub fn row_of(&self, j: usize) -> (row: Vec<u8>)
        requires
            self.wf(),
            j < self.n,
        ensures
            row@ == self.row(j as int),
    {
        let width: usize = self.width();
        proof {
            lemma_row(*self, j as int);
        }
        let held: usize = self.bytes.len();
        let mut row: Vec<u8> = Vec::new();
        push_row(&mut row, self.bytes.as_slice(), j * width, width);
        assert(row@ =~= self.row(j as int));
        row
    }

    /// The weight whose output `j` is output `order[j]` of this one. A row
    /// moves whole.
    pub fn select_outputs(&self, order: &[usize]) -> (p: Packed)
        requires
            self.wf(),
            forall|j: int| 0 <= j < order@.len() ==> #[trigger] order@[j] < self.n,
        ensures
            p.wf(),
            p.quant == self.quant,
            p.k == self.k,
            p.n == order@.len(),
            forall|j: int| 0 <= j < order@.len() ==> p.row(j) == self.row(#[trigger] order@[j] as int),
    {
        let ghost width = row_bytes(self.quant, self.k as nat);
        let ghost rows = Seq::new(order@.len(), |j: int| self.row(order@[j] as int));
        let mut bytes: Vec<u8> = Vec::new();
        let held: usize = self.bytes.len();
        let mut j: usize = 0;
        assert(rows.take(0) =~= Seq::empty());
        while j < order.len()
            invariant
                self.wf(),
                held == self.bytes@.len(),
                width == row_bytes(self.quant, self.k as nat),
                rows == Seq::new(order@.len(), |j: int| self.row(order@[j] as int)),
                forall|j: int| 0 <= j < order@.len() ==> #[trigger] order@[j] < self.n,
                j <= order@.len(),
                bytes@ == flat(rows.take(j as int)),
            decreases order@.len() - j,
        {
            let from: usize = order[j];
            let step: usize = self.width();
            proof {
                lemma_row(*self, from as int);
                assert(rows.take(j as int + 1).drop_last() =~= rows.take(j as int));
            }
            push_row(&mut bytes, self.bytes.as_slice(), from * step, step);
            assert(bytes@ =~= flat(rows.take(j as int + 1)));
            j = j + 1;
        }
        let p = Packed { quant: self.quant, bytes, k: self.k, n: order.len() };
        proof {
            assert(rows.take(j as int) =~= rows);
            assert forall|i: int| 0 <= i < rows.len() implies (#[trigger] rows[i]).len() == width by {
                lemma_row(*self, order@[i] as int);
            }
            lemma_flat_even(rows, width, rows.len() as int);
            assert(rows.take(rows.len() as int) =~= rows);
            assert forall|i: int| 0 <= i < order@.len() implies p.row(i) == self.row(
                #[trigger] order@[i] as int,
            ) by {
                lemma_flat(rows, i);
                lemma_flat_even(rows, width, i);
                lemma_row(p, i);
                assert(p.row(i) =~= rows[i]);
            }
        }
        p
    }

    /// Weights of one format and input width stacked along their outputs, with
    /// rows of zeros up to `n`.
    pub fn stack(parts: &[&Packed], n: usize) -> (p: Packed)
        requires
            parts@.len() > 0,
            forall|i: int|
                0 <= i < parts@.len() ==> {
                    &&& (#[trigger] parts@[i]).wf()
                    &&& parts@[i].quant == parts@[0].quant
                    &&& parts@[i].k == parts@[0].k
                },
            outputs(parts@) <= n,
            n * row_bytes(parts@[0].quant, parts@[0].k as nat) <= usize::MAX,
        ensures
            p.wf(),
            p.quant == parts@[0].quant,
            p.k == parts@[0].k,
            p.n == n,
            p.bytes@ == flat(all_bytes(parts@)) + Seq::new(
                ((n - outputs(parts@)) * row_bytes(p.quant, p.k as nat)) as nat,
                |i: int| 0u8,
            ),
    {
        let first = parts[0];
        let ghost width = row_bytes(first.quant, first.k as nat);
        let ghost all = all_bytes(parts@);
        let mut bytes: Vec<u8> = Vec::new();
        let mut i: usize = 0;
        assert(all.take(0) =~= Seq::empty());
        while i < parts.len()
            invariant
                i <= parts@.len(),
                all == all_bytes(parts@),
                bytes@ == flat(all.take(i as int)),
            decreases parts@.len() - i,
        {
            let part = parts[i];
            let held: usize = part.bytes.len();
            assert(all.take(i as int + 1).drop_last() =~= all.take(i as int));
            push_row(&mut bytes, part.bytes.as_slice(), 0, held);
            assert(part.bytes@.subrange(0, held as int) =~= part.bytes@);
            i = i + 1;
        }
        assert(all.take(i as int) =~= all);
        proof {
            lemma_outputs(parts@, width);
            assert(outputs(parts@) * width <= n * width) by (nonlinear_arith)
                requires
                    outputs(parts@) <= n,
            ;
            assert((n - outputs(parts@)) * width == n * width - outputs(parts@) * width)
                by (nonlinear_arith);
        }
        let ghost held = bytes@;
        let total: usize = if n == 0 {
            assert(0 * width == 0) by (nonlinear_arith);
            0
        } else {
            assert(width <= n * width) by (nonlinear_arith)
                requires
                    n >= 1,
            ;
            n * (first.k / first.quant.block() * first.quant.block_bytes())
        };
        assert(total == n * width);
        let ghost zeros = |m: int| Seq::new(m as nat, |i: int| 0u8);
        assert(bytes@ =~= held + zeros(0));
        while bytes.len() < total
            invariant
                held.len() <= bytes@.len() <= total,
                zeros == (|m: int| Seq::new(m as nat, |i: int| 0u8)),
                bytes@ == held + zeros(bytes@.len() - held.len()),
            decreases total - bytes@.len(),
        {
            let ghost m = bytes@.len() - held.len();
            bytes.push(0);
            assert(bytes@ =~= held + zeros(m + 1));
        }
        Packed { quant: first.quant, bytes, k: first.k, n }
    }
}

/// Outputs of a list of weights.
pub open spec fn outputs(parts: Seq<&Packed>) -> nat
    decreases parts.len(),
{
    if parts.len() == 0 {
        0
    } else {
        outputs(parts.drop_last()) + parts.last().n as nat
    }
}

/// The bytes of each of a list of weights.
pub open spec fn all_bytes(parts: Seq<&Packed>) -> Seq<Seq<u8>> {
    Seq::new(parts.len(), |i: int| parts[i].bytes@)
}

proof fn lemma_outputs(parts: Seq<&Packed>, width: nat)
    requires
        forall|i: int|
            0 <= i < parts.len() ==> (#[trigger] parts[i]).bytes@.len() == parts[i].n * width,
    ensures
        flat(all_bytes(parts)).len() == outputs(parts) * width,
    decreases parts.len(),
{
    if parts.len() > 0 {
        let head = parts.drop_last();
        assert forall|i: int| 0 <= i < head.len() implies (#[trigger] head[i]).bytes@.len()
            == head[i].n * width by {
            assert(head[i] == parts[i]);
        }
        lemma_outputs(head, width);
        assert(all_bytes(parts).drop_last() =~= all_bytes(head));
        assert(outputs(parts) * width == outputs(head) * width + parts.last().n * width)
            by (nonlinear_arith)
            requires
                outputs(parts) == outputs(head) + parts.last().n,
        ;
        assert(parts[parts.len() - 1].bytes@.len() == parts.last().n * width);
    } else {
        assert(0 * width == 0) by (nonlinear_arith);
    }
}

/// A stack keeps every output of its parts: output `j` of part `i` is the one
/// as many outputs after as the parts before it have.
pub proof fn stacking_keeps_every_output(parts: Seq<&Packed>, p: Packed, i: int, j: int)
    requires
        0 <= i < parts.len(),
        0 <= j < parts[i].n,
        forall|a: int|
            0 <= a < parts.len() ==> {
                &&& (#[trigger] parts[a]).wf()
                &&& parts[a].quant == p.quant
                &&& parts[a].k == p.k
            },
        p.wf(),
        outputs(parts) <= p.n,
        p.bytes@ == flat(all_bytes(parts)) + Seq::new(
            ((p.n - outputs(parts)) * row_bytes(p.quant, p.k as nat)) as nat,
            |i: int| 0u8,
        ),
    ensures
        p.row(outputs(parts.take(i)) + j) == parts[i].row(j),
{
    let width = row_bytes(p.quant, p.k as nat);
    let all = all_bytes(parts);
    lemma_flat(all, i);
    assert(all.take(i) =~= all_bytes(parts.take(i)));
    assert forall|a: int| 0 <= a < parts.take(i).len() implies (
    #[trigger] parts.take(i)[a]).bytes@.len() == parts.take(i)[a].n * width by {
        assert(parts.take(i)[a] == parts[a]);
    }
    lemma_outputs(parts.take(i), width);
    assert(parts[i].wf());
    lemma_row(*parts[i], j);
    let at = (outputs(parts.take(i)) * width) as int;
    let o = outputs(parts.take(i)) + j;
    assert(o * width == at + j * width && (o + 1) * width == at + (j + 1) * width)
        by (nonlinear_arith)
        requires
            o == outputs(parts.take(i)) + j,
            at == outputs(parts.take(i)) * width,
    ;
    let own = flat(all).subrange(at, at + parts[i].bytes@.len());
    assert(own == parts[i].bytes@);
    assert(p.row(o) =~= own.subrange(j * width, (j + 1) * width));
}

/// The outputs of a stack past those of its parts are zeros.
pub proof fn stacking_pads_with_zeros(parts: Seq<&Packed>, p: Packed, o: int)
    requires
        forall|a: int|
            0 <= a < parts.len() ==> {
                &&& (#[trigger] parts[a]).wf()
                &&& parts[a].quant == p.quant
                &&& parts[a].k == p.k
            },
        p.wf(),
        outputs(parts) <= o < p.n,
        p.bytes@ == flat(all_bytes(parts)) + Seq::new(
            ((p.n - outputs(parts)) * row_bytes(p.quant, p.k as nat)) as nat,
            |i: int| 0u8,
        ),
    ensures
        p.row(o) == Seq::new(row_bytes(p.quant, p.k as nat), |i: int| 0u8),
{
    let width = row_bytes(p.quant, p.k as nat);
    lemma_outputs(parts, width);
    lemma_row(p, o);
    let held = (outputs(parts) * width) as int;
    assert(held <= o * width && (o + 1) * width == o * width + width && (o + 1) * width <= p.n
        * width) by (nonlinear_arith)
        requires
            held == outputs(parts) * width,
            outputs(parts) <= o,
            o + 1 <= p.n,
            0 <= width,
    ;
    assert(p.row(o) =~= Seq::new(width, |i: int| 0u8));
}

} // verus!
