//! The grouped layout: rows by eights, so a warp of a device kernel reads its
//! eight columns of one block side by side.

use vstd::arithmetic::div_mod;
use vstd::prelude::*;

verus! {

/// Rows of one group.
pub const GROUP: usize = 8;

/// Rows a grouped weight is padded to: the widest decode tile.
pub const RAW_GROUP_PAD: usize = 64;

/// Elements `n` rows of `nb` blocks of `unit` take, padded to whole tiles.
pub open spec fn grouped_size(n: nat, nb: nat, unit: nat) -> nat {
    (n + 63) / 64 * 8 * nb * 8 * unit
}

/// Where block `b` of row `j` keeps its element `u`: groups in order, and in a
/// group every row's copy of a block before any row's next.
pub open spec fn place(j: int, b: int, u: int, nb: int, unit: int) -> int {
    ((j / 8 * nb + b) * 8 + j % 8) * unit + u
}

/// The row, block and element a place of the grouped layout holds.
pub open spec fn held(p: int, nb: int, unit: int) -> (int, int, int) {
    let q = p / unit;
    (q / 8 / nb * 8 + q % 8, q / 8 % nb, p % unit)
}

/// `rows`, `n` of them with `nb` blocks of `unit` each, written over `under` in
/// the grouped layout. Padding rows are left as they are.
pub open spec fn grouped<T>(rows: Seq<T>, under: Seq<T>, n: nat, nb: nat, unit: nat) -> Seq<T> {
    Seq::new(
        under.len(),
        |p: int|
            {
                let (j, b, u) = held(p, nb as int, unit as int);
                if j < n {
                    rows[(j * nb + b) * unit + u]
                } else {
                    under[p]
                }
            },
    )
}

/// A place holds what was put there.
pub proof fn lemma_held(g: int, b: int, slot: int, u: int, nb: int, unit: int)
    requires
        0 <= g,
        0 <= b < nb,
        0 <= slot < 8,
        0 <= u < unit,
    ensures
        held(((g * nb + b) * 8 + slot) * unit + u, nb, unit) == (g * 8 + slot, b, u),
{
    let r = g * nb + b;
    let q = r * 8 + slot;
    let p = q * unit + u;
    assert(0 <= g * nb) by (nonlinear_arith)
        requires
            0 <= g,
            0 < nb,
    ;
    div_mod::lemma_fundamental_div_mod_converse(p, unit, q, u);
    div_mod::lemma_fundamental_div_mod_converse(q, 8, r, slot);
    assert(r == nb * g + b) by (nonlinear_arith)
        requires
            r == g * nb + b,
    ;
    div_mod::lemma_fundamental_div_mod_converse(r, nb, g, b);
}

/// Grouping loses nothing: every element of every row is at its place.
pub proof fn grouping_keeps_every_element<T>(
    rows: Seq<T>,
    under: Seq<T>,
    n: nat,
    nb: nat,
    unit: nat,
    j: int,
    b: int,
    u: int,
)
    requires
        0 <= j < n,
        0 <= b < nb,
        0 <= u < unit,
        under.len() == grouped_size(n, nb, unit),
    ensures
        0 <= place(j, b, u, nb as int, unit as int) < under.len(),
        grouped(rows, under, n, nb, unit)[place(j, b, u, nb as int, unit as int)] == rows[(j * nb
            + b) * unit + u],
{
    let g = j / 8;
    let slot = j % 8;
    lemma_held(g, b, slot, u, nb as int, unit as int);
    lemma_place_fits(n, nb, unit, g, b, slot, u);
}

proof fn lemma_place_fits(n: nat, nb: nat, unit: nat, g: int, b: int, slot: int, u: int)
    requires
        0 <= g < (n + 63) / 64 * 8,
        0 <= b < nb,
        0 <= slot < 8,
        0 <= u < unit,
    ensures
        0 <= ((g * nb + b) * 8 + slot) * unit + u < grouped_size(n, nb, unit),
{
    let groups = (n + 63) / 64 * 8;
    assert(0 <= g * nb + b <= groups * nb - 1) by (nonlinear_arith)
        requires
            0 <= g <= groups - 1,
            0 <= b <= nb - 1,
    ;
    let r = g * nb + b;
    let q = r * 8 + slot;
    assert(0 <= q * unit + u < (groups * nb * 8) * unit) by (nonlinear_arith)
        requires
            0 <= q <= groups * nb * 8 - 1,
            0 <= u < unit,
    ;
}

/// Two elements never share a place.
pub proof fn places_are_distinct(j: int, b: int, u: int, k: int, c: int, v: int, nb: int, unit: int)
    requires
        0 <= j,
        0 <= k,
        0 <= b < nb,
        0 <= c < nb,
        0 <= u < unit,
        0 <= v < unit,
        place(j, b, u, nb, unit) == place(k, c, v, nb, unit),
    ensures
        j == k && b == c && u == v,
{
    lemma_held(j / 8, b, j % 8, u, nb, unit);
    lemma_held(k / 8, c, k % 8, v, nb, unit);
}

/// Elements `n` rows of `nb` blocks of `unit` take in the grouped layout.
pub fn grouped_len(n: usize, nb: usize, unit: usize) -> (len: usize)
    requires
        n + 63 <= usize::MAX,
        (n + 63) / 64 * 8 * nb * 8 <= usize::MAX,
        grouped_size(n as nat, nb as nat, unit as nat) <= usize::MAX,
    ensures
        len == grouped_size(n as nat, nb as nat, unit as nat),
{
    let groups: usize = (n + (RAW_GROUP_PAD - 1)) / RAW_GROUP_PAD * (RAW_GROUP_PAD / GROUP);
    if nb == 0 {
        assert(groups * 0 * 8 * unit == 0) by (nonlinear_arith);
        return 0;
    }
    assert(groups * nb <= groups * nb * 8);
    groups * nb * GROUP * unit
}

/// Writes rows over a buffer in the grouped layout.
pub fn group_rows_into<T: Copy>(rows: &[T], n: usize, nb: usize, unit: usize, out: &mut [T])
    requires
        n as nat * nb as nat * unit as nat <= rows@.len(),
        old(out)@.len() == grouped_size(n as nat, nb as nat, unit as nat),
    ensures
        final(out)@ == grouped(rows@, old(out)@, n as nat, nb as nat, unit as nat),
{
    let held_rows: usize = rows.len();
    let held_out: usize = out.len();
    let ghost under = out@;
    let ghost all = grouped(rows@, under, n as nat, nb as nat, unit as nat);
    let ghost groups = (n as nat + 63) / 64 * 8;
    let mut p: usize = 0;
    let mut g: usize = 0;
    proof {
        if n == 0 || nb == 0 || unit == 0 {
            assert(under.len() == 0) by (nonlinear_arith)
                requires
                    under.len() == groups * nb * 8 * unit,
                    n == 0 ==> groups == 0,
                    n == 0 || nb == 0 || unit == 0,
            ;
            assert(all =~= under);
        }
    }
    if n == 0 || nb == 0 || unit == 0 {
        return ;
    }
    proof {
        lemma_place_fits(n as nat, nb as nat, unit as nat, 0, 0, 0, 0);
    }
    assert(groups <= out@.len()) by (nonlinear_arith)
        requires
            out@.len() == groups * nb * 8 * unit,
            nb >= 1,
            unit >= 1,
    ;
    let count: usize = ((n - 1) / RAW_GROUP_PAD + 1) * (RAW_GROUP_PAD / GROUP);
    assert(count == groups);
    while g < count
        invariant
            g <= count == groups == (n as nat + 63) / 64 * 8,
            0 < nb,
            0 < unit,
            n as nat * nb as nat * unit as nat <= rows@.len() == held_rows,
            under.len() == grouped_size(n as nat, nb as nat, unit as nat),
            all == grouped(rows@, under, n as nat, nb as nat, unit as nat),
            out@.len() == under.len() == held_out,
            p == (g * nb) * 8 * unit,
            forall|i: int| 0 <= i < p ==> #[trigger] out@[i] == all[i],
            forall|i: int| p <= i < out@.len() ==> #[trigger] out@[i] == under[i],
        decreases count - g,
    {
        let mut b: usize = 0;
        assert((g * nb + 0) * 8 * unit == (g * nb) * 8 * unit);
        while b < nb
            invariant
                b <= nb,
                g < count == groups == (n as nat + 63) / 64 * 8,
                0 < nb,
                0 < unit,
                n as nat * nb as nat * unit as nat <= rows@.len() == held_rows,
                under.len() == grouped_size(n as nat, nb as nat, unit as nat),
                all == grouped(rows@, under, n as nat, nb as nat, unit as nat),
                out@.len() == under.len() == held_out,
                p == (g * nb + b) * 8 * unit,
                forall|i: int| 0 <= i < p ==> #[trigger] out@[i] == all[i],
                forall|i: int| p <= i < out@.len() ==> #[trigger] out@[i] == under[i],
            decreases nb - b,
        {
            let mut slot: usize = 0;
            assert(((g * nb + b) * 8 + 0) * unit == (g * nb + b) * 8 * unit);
            while slot < GROUP
                invariant
                    slot <= 8,
                    b < nb,
                    g < count == groups == (n as nat + 63) / 64 * 8,
                    0 < nb,
                    0 < unit,
                    n as nat * nb as nat * unit as nat <= rows@.len() == held_rows,
                    under.len() == grouped_size(n as nat, nb as nat, unit as nat),
                    all == grouped(rows@, under, n as nat, nb as nat, unit as nat),
                    out@.len() == under.len() == held_out,
                    p == ((g * nb + b) * 8 + slot) * unit,
                    forall|i: int| 0 <= i < p ==> #[trigger] out@[i] == all[i],
                    forall|i: int| p <= i < out@.len() ==> #[trigger] out@[i] == under[i],
                decreases 8 - slot,
            {
                let ghost start = p as int;
                proof {
                    lemma_place_fits(
                        n as nat,
                        nb as nat,
                        unit as nat,
                        g as int,
                        b as int,
                        slot as int,
                        unit - 1,
                    );
                    assert(((g * nb + b) * 8 + slot) * unit + unit == ((g * nb + b) * 8 + slot + 1)
                        * unit) by (nonlinear_arith);
                    assert(groups <= out@.len()) by (nonlinear_arith)
                        requires
                            out@.len() == groups * nb * 8 * unit,
                            nb >= 1,
                            unit >= 1,
                    ;
                }
                // The last group may hold padding rows.
                if g < n / GROUP || (g == n / GROUP && slot < n % GROUP) {
                    let j: usize = g * GROUP + slot;
                    proof {
                        assert((j * nb + b) * unit + unit <= n * nb * unit) by (nonlinear_arith)
                            requires
                                j + 1 <= n,
                                b + 1 <= nb,
                                0 < unit,
                        ;
                        assert(0 <= j * nb <= (j * nb + b) * unit) by (nonlinear_arith)
                            requires
                                0 <= j,
                                0 <= b,
                                0 < nb,
                                0 < unit,
                        ;
                        assert(j * nb + b <= (j * nb + b) * unit) by (nonlinear_arith)
                            requires
                                0 <= j * nb + b,
                                0 < unit,
                        ;
                    }
                    let from: usize = (j * nb + b) * unit;
                    let mut u: usize = 0;
                    while u < unit
                        invariant
                            u <= unit,
                            p == start + u,
                            start == ((g * nb + b) * 8 + slot) * unit,
                            start + unit <= out@.len(),
                            from == (j * nb + b) * unit,
                            from + unit <= rows@.len() == held_rows,
                            j == g * 8 + slot,
                            j < n,
                            slot < 8,
                            b < nb,
                            all == grouped(rows@, under, n as nat, nb as nat, unit as nat),
                            out@.len() == under.len() == held_out,
                            forall|i: int| 0 <= i < p ==> #[trigger] out@[i] == all[i],
                            forall|i: int| p <= i < out@.len() ==> #[trigger] out@[i] == under[i],
                        decreases unit - u,
                    {
                        proof {
                            lemma_held(
                                g as int,
                                b as int,
                                slot as int,
                                u as int,
                                nb as int,
                                unit as int,
                            );
                        }
                        out[p] = rows[from + u];
                        p = p + 1;
                        u = u + 1;
                    }
                } else {
                    assert forall|i: int| start <= i < start + unit implies under[i] == #[trigger] all[i] by {
                        lemma_held(
                            g as int,
                            b as int,
                            slot as int,
                            i - start,
                            nb as int,
                            unit as int,
                        );
                    }
                    p = p + unit;
                }
                slot = slot + 1;
            }
            assert(((g * nb + b) * 8 + 8) * unit == (g * nb + (b + 1)) * 8 * unit) by (
            nonlinear_arith);
            b = b + 1;
        }
        assert((g * nb + nb) * 8 * unit == ((g + 1) * nb) * 8 * unit) by (nonlinear_arith);
        g = g + 1;
    }
    assert(out@ =~= all);
}

/// Rows in the grouped layout, the padding zeroed.
pub fn group_rows<T: Copy + Default>(rows: &[T], n: usize, nb: usize, unit: usize) -> (out: Vec<T>)
    requires
        n as nat * nb as nat * unit as nat <= rows@.len(),
        n + 63 <= usize::MAX,
        (n + 63) / 64 * 8 * nb * 8 <= usize::MAX,
        grouped_size(n as nat, nb as nat, unit as nat) <= usize::MAX,
    ensures
        exists|zero: T| #[trigger]
            call_ensures(T::default, (), zero) && out@ == grouped(
                rows@,
                Seq::new(grouped_size(n as nat, nb as nat, unit as nat), |i: int| zero),
                n as nat,
                nb as nat,
                unit as nat,
            ),
{
    let zero = T::default();
    let len = grouped_len(n, nb, unit);
    let mut out: Vec<T> = Vec::new();
    let mut i: usize = 0;
    while i < len
        invariant
            i <= len,
            out@ == Seq::new(i as nat, |k: int| zero),
        decreases len - i,
    {
        out.push(zero);
        i = i + 1;
        assert(out@ =~= Seq::new(i as nat, |k: int| zero));
    }
    group_rows_into(rows, n, nb, unit, out.as_mut_slice());
    out
}

/// The layout step by step: a row's block is contiguous, the same block of the next row
/// of eight follows it, then the next block of all eight, and then the next eight rows.
pub proof fn eight_rows_of_a_block_stand_together(j: int, b: int, u: int, nb: int, unit: int)
    requires
        0 <= j,
        0 <= nb,
        0 <= unit,
    ensures
        place(0, 0, u, nb, unit) == u,
        place(j, b, u + 1, nb, unit) == place(j, b, u, nb, unit) + 1,
        j % 8 < 7 ==> place(j + 1, b, u, nb, unit) == place(j, b, u, nb, unit) + unit,
        place(j, b + 1, u, nb, unit) == place(j, b, u, nb, unit) + 8 * unit,
        place(j + 8, b, u, nb, unit) == place(j, b, u, nb, unit) + nb * (8 * unit),
{
    let (g, slot) = (j / 8, j % 8);
    assert((0 * nb + 0) * 8 * unit == 0) by (nonlinear_arith);
    assert(((g * nb + b) * 8 + slot + 1) * unit == ((g * nb + b) * 8 + slot) * unit + unit)
        by (nonlinear_arith);
    assert(((g * nb + b + 1) * 8 + slot) * unit == ((g * nb + b) * 8 + slot) * unit + 8 * unit)
        by (nonlinear_arith);
    assert((((g + 1) * nb + b) * 8 + slot) * unit == ((g * nb + b) * 8 + slot) * unit + nb * (8
        * unit)) by (nonlinear_arith);
}

} // verus!
