//! One row of a weight: a token's, out of the embedding table.

use vstd::arithmetic::power2;
use vstd::prelude::*;

use crate::backend::host::ops;
use crate::backend::HADAMARD_BLOCK;
use crate::hadamard;
use crate::layers::linear::{self, Fold, Linear, Row, RowError, Weights};
use crate::quant::packed;
use crate::transform::{self, restore_row};

verus! {

/// Whether values are a row as the weight stores it, its blocks decoded.
pub open spec fn is_stored<T, D: Fn(&[u8]) -> Vec<T>>(
    l: Linear<T>,
    decode: D,
    index: int,
    row: Seq<T>,
) -> bool {
    match l.weight {
        Weights::Dense(d) => row == Seq::new(l.in_dim as nat, |j: int| d@[j * l.out_dim + index]),
        Weights::Quant(p) => exists|s: &[u8], v: Vec<T>| #[trigger]
            call_ensures(decode, (s,), v) && s@ == p.row(index) && v@ == row,
    }
}

/// The signs of a table, as numbers.
pub open spec fn sign_values<T, G: Fn(i64) -> T>(number: G, signs: Seq<i64>) -> Seq<T> {
    Seq::new(signs.len(), |i: int| ops::of1(number, signs[i]))
}

/// A stored row as it was before it was folded.
pub open spec fn unfolded<
    T,
    P: Fn(T, T) -> T,
    S: Fn(T, T) -> T,
    M: Fn(T, T) -> T,
    G: Fn(i64) -> T,
>(l: Linear<T>, plus: P, minus: S, times: M, number: G, scale: T, row: Seq<T>) -> Seq<T> {
    match l.fold {
        Some(Fold::Table { signs }) => {
            let mid = transform::transformed(plus, minus, times, scale, row, 1024);
            transform::signed(times, mid, sign_values(number, signs@), None, mid)
        },
        _ => row,
    }
}

/// The arithmetic a row is restored with: `scale` is the inverse root of the
/// block.
pub struct Restore<T, P, S, M, G> {
    pub plus: P,
    pub minus: S,
    pub times: M,
    pub number: G,
    pub scale: T,
}

impl<T, P: Fn(T, T) -> T, S: Fn(T, T) -> T, M: Fn(T, T) -> T, G: Fn(i64) -> T> Restore<
    T,
    P,
    S,
    M,
    G,
> {
    pub open spec fn wf(self) -> bool {
        &&& ops::is_op2(self.plus)
        &&& ops::is_op2(self.minus)
        &&& ops::is_op2(self.times)
        &&& ops::is_op1(self.number)
    }
}

/// Output row `index`, decoded, and restored where the table is stored folded.
pub fn row_into<
    T: Copy,
    D: Fn(&[u8]) -> Vec<T>,
    P: Fn(T, T) -> T,
    S: Fn(T, T) -> T,
    M: Fn(T, T) -> T,
    G: Fn(i64) -> T,
>(l: &Linear<T>, decode: &D, how: &Restore<T, P, S, M, G>, index: usize, len: usize) -> (result:
    Result<Vec<T>, RowError>)
    requires
        l.wf(),
        how.wf(),
        l.weight matches Weights::Quant(p) ==> forall|s: &[u8]|
            s@.len() == packed::row_bytes(p.quant, p.k as nat) ==> #[trigger] call_requires(
                *decode,
                (s,),
            ),
    ensures
        match result {
            Err(e) => !(index < l.out_dim && len == l.in_dim) && e == (RowError {
                index,
                out_dim: l.out_dim,
                in_dim: l.in_dim,
                len,
            }),
            Ok(out) => index < l.out_dim && len == l.in_dim && exists|row: Seq<T>| #[trigger]
                is_stored(*l, *decode, index as int, row) && out@ == unfolded(
                    *l,
                    how.plus,
                    how.minus,
                    how.times,
                    how.number,
                    how.scale,
                    row,
                ),
        },
{
    let mut row: Vec<T> = match l.row(index, len) {
        Err(e) => {
            return Err(e);
        },
        Ok(Row::Values(v)) => v,
        Ok(Row::Blocks(b)) => {
            proof {
                packed::lemma_row(l.weight->Quant_0, index as int);
            }
            decode(b.as_slice())
        },
    };
    let ghost stored = row@;
    assert(is_stored(*l, *decode, index as int, stored));
    if let Some(Fold::Table { signs }) = &l.fold {
        let mut values: Vec<T> = Vec::new();
        let mut i: usize = 0;
        while i < signs.len()
            invariant
                i <= signs@.len(),
                how.wf(),
                values@ == sign_values(how.number, signs@.take(i as int)),
            decreases signs@.len() - i,
        {
            values.push((how.number)(signs[i]));
            i = i + 1;
            assert(values@ =~= sign_values(how.number, signs@.take(i as int)));
        }
        assert(signs@.take(i as int) =~= signs@);
        proof {
            power2::lemma2_to64();
            assert(hadamard::is_power(power2::pow2(10)));
        }
        restore_row(
            &how.plus,
            &how.minus,
            &how.times,
            how.scale,
            &mut row,
            values.as_slice(),
            HADAMARD_BLOCK,
        );
    }
    Ok(row)
}

/// A row of a dense weight is the file's own: the outputs stand row by row there, and the
/// weight keeps them as columns.
pub proof fn a_dense_row_is_the_files<T, D: Fn(&[u8]) -> Vec<T>>(
    l: Linear<T>,
    decode: D,
    file: Seq<T>,
    index: int,
    row: Seq<T>,
    j: int,
)
    requires
        l.weight matches Weights::Dense(d) && d@ == linear::transposed(
            file,
            l.out_dim as nat,
            l.in_dim as nat,
        ),
        is_stored(l, decode, index, row),
        0 <= index < l.out_dim,
        0 <= j < l.in_dim,
    ensures
        row[j] == file[index * l.in_dim + j],
{
    linear::a_transposed_matrix_has_its_rows_as_columns(
        file,
        l.out_dim as nat,
        l.in_dim as nat,
        index,
        j,
    );
}

/// In exact arithmetic, looking a row up in a folded table undoes the folding, but for the
/// length of the transform's block: the table keeps the row rotated.
pub proof fn a_folded_row_is_restored<
    P: Fn(int, int) -> int,
    S: Fn(int, int) -> int,
    M: Fn(int, int) -> int,
    G: Fn(i64) -> int,
>(
    l: Linear<int>,
    plus: P,
    minus: S,
    times: M,
    number: G,
    x: Seq<int>,
    p: int,
)
    requires
        transform::is_exact(plus, minus),
        transform::is_product(times),
        forall|v: i64| #[trigger] ops::of1(number, v) == v,
        l.fold matches Some(Fold::Table { signs }) && signs@.len() == x.len() && forall|i: int|
            0 <= i < x.len() ==> #[trigger] signs@[i] == 1 || signs@[i] == -1,
        x.len() % 1024 == 0,
        0 <= p < x.len(),
    ensures
        ({
            let signs = sign_values(number, l.fold->Some_0->Table_signs@);
            let kept = transform::rotated_row(plus, minus, times, 1, x, signs, None, x, 1024);
            unfolded(l, plus, minus, times, number, 1, kept)[p] == 1024 * x[p]
        }),
{
    let signs = sign_values(number, l.fold->Some_0->Table_signs@);
    power2::lemma2_to64();
    assert(hadamard::is_power(power2::pow2(10)));
    assert forall|i: int| 0 <= i < signs.len() implies #[trigger] signs[i] == 1 || signs[i]
        == -1 by {
        assert(l.fold->Some_0->Table_signs@[i] == 1 || l.fold->Some_0->Table_signs@[i] == -1);
    }
    transform::restoring_undoes_rotating(plus, minus, times, x, signs, 1024, p);
}

} // verus!
