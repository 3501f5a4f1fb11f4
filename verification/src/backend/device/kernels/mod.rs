//! The source every device kernel is compiled from, and the tile sizes that
//! shape it. One module per family of operations.

pub mod argmax;
pub mod attn;
pub mod delta;
pub mod elem;
pub mod hadamard;
pub mod iq1m;
pub mod iq1s;
pub mod iq2s;
pub mod iq2xs;
pub mod iq2xxs;
pub mod iq3s;
pub mod iq3xxs;
pub mod iq4xs;
pub mod kquant;
pub mod layouts;
pub mod matmul;
pub mod moe;
pub mod norm;
pub mod q2k;
pub mod q3k;
pub mod qgemm;
pub mod quant;

use vstd::prelude::*;

verus! {

/// `base` to the power of `e`.
pub open spec fn raised(base: nat, e: nat) -> nat
    decreases e,
{
    if e == 0 {
        1
    } else {
        base * raised(base, (e - 1) as nat)
    }
}

proof fn lemma_raised(base: nat, e: nat)
    requires
        base <= 8,
        e <= 9,
    ensures
        raised(base, e) <= raised(8, e) <= 134217728,
    decreases e,
{
    reveal_with_fuel(raised, 10);
    if e > 0 {
        lemma_raised(base, (e - 1) as nat);
        let below = raised(base, (e - 1) as nat);
        let most = raised(8, (e - 1) as nat);
        assert(base * below <= 8 * most) by (nonlinear_arith)
            requires
                base <= 8,
                below <= most,
        ;
    }
}

/// A small power.
pub fn raise(base: usize, e: usize) -> (p: usize)
    requires
        base <= 8,
        e <= 9,
    ensures
        p == raised(base as nat, e as nat),
{
    let mut p: usize = 1;
    let mut i: usize = 0;
    while i < e
        invariant
            i <= e <= 9,
            base <= 8,
            p == raised(base as nat, i as nat),
        decreases e - i,
    {
        proof {
            lemma_raised(base as nat, (i + 1) as nat);
        }
        p = base * p;
        i = i + 1;
    }
    p
}

/// A byte of a block read as unsigned.
pub const BYTE: &'static str = "((i32(qb[:, $0 :+ 1]) + 256) % 256)";

/// A number halved until it divides another.
pub open spec fn halved_to_divide(splits: nat, blocks: nat) -> nat
    decreases splits,
{
    if splits <= 1 || blocks % splits == 0 {
        splits
    } else {
        halved_to_divide(splits / 2, blocks)
    }
}

/// Halving ends at a divisor no larger than it began.
pub proof fn lemma_halved(splits: nat, blocks: nat)
    ensures
        halved_to_divide(splits, blocks) <= splits,
        splits >= 1 ==> halved_to_divide(splits, blocks) >= 1 && blocks % halved_to_divide(
            splits,
            blocks,
        ) == 0,
    decreases splits,
{
    if splits > 1 && blocks % splits != 0 {
        lemma_halved(splits / 2, blocks);
    }
}

pub fn halved(splits: usize, blocks: usize) -> (s: usize)
    ensures
        s == halved_to_divide(splits as nat, blocks as nat),
        s <= splits,
        splits >= 1 ==> s >= 1 && blocks % s == 0,
{
    proof {
        lemma_halved(splits as nat, blocks as nat);
    }
    let mut s: usize = splits;
    while s > 1 && blocks % s != 0
        invariant
            halved_to_divide(s as nat, blocks as nat) == halved_to_divide(
                splits as nat,
                blocks as nat,
            ),
        decreases s,
    {
        s = s / 2;
    }
    s
}

/// CTAs a multiprocessor holds at a register budget of `resident` of four.
pub open spec fn resident_of(cta: usize, resident: usize) -> nat {
    let blocks = 1024nat / (cta as nat) * (resident as nat) / 4;
    if blocks == 0 {
        1
    } else {
        blocks
    }
}

pub fn resident_blocks(cta: usize, resident: usize) -> (blocks: usize)
    requires
        cta > 0,
        resident <= usize::MAX / 1024,
    ensures
        blocks == resident_of(cta, resident),
{
    let each: usize = 1024 / cta;
    assert(each <= 1024) by (nonlinear_arith)
        requires
            each == 1024int / cta as int,
            cta > 0,
    ;
    assert(0 <= each * resident <= 1024 * resident) by (nonlinear_arith)
        requires
            0 <= each <= 1024,
            0 <= resident,
    ;
    let blocks: usize = each * resident / 4;
    if blocks == 0 {
        1
    } else {
        blocks
    }
}

} // verus!
