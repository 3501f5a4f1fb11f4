//! The mixture-of-experts feed-forward as one backend operation.

use vstd::prelude::*;

use crate::backend::{Buf, ExpertsBuf, QAct};

verus! {

/// What a backend needs to run the next block's router on the residual as it
/// stands, ahead of that block: its post-attention norm, the router's dense
/// weight and its expert set. One that does not prefetch ignores it.
#[derive(Clone, Copy, PartialEq, Eq, Structural, Debug)]
pub struct Lookahead {
    pub gain: Buf,
    pub eps_bits: u32,
    pub router: Buf,
    pub experts: ExpertsBuf,
}

/// A block's routed feed-forward: each row's top experts applied to it, their
/// outputs summed by the router's weights, the gated shared expert added, and
/// the whole added into `dest`.
///
/// One operation rather than a loop over experts, because which experts a row
/// chose exists only on the backend: nothing reads back inside a pass.
pub struct Moe {
    /// The block's normalized input, `[rows, d_model]`, and its quantized copy
    /// where the caller has one.
    pub x: Buf,
    pub act: Option<QAct>,
    pub rows: usize,
    pub d_model: usize,
    /// Width of one expert.
    pub d_ff: usize,
    /// `[rows, n_expert]` router logits.
    pub logits: Buf,
    pub n_expert: usize,
    pub n_used: usize,
    pub experts: ExpertsBuf,
    /// The shared expert's output, `[rows, d_model]`, and its gate's logit,
    /// `[rows, 1]`.
    pub shared: Option<(Buf, Buf)>,
    /// The residual, `[rows, d_model]`, accumulated into.
    pub dest: Buf,
    /// The next block's router, for a backend that prefetches.
    pub lookahead: Option<Lookahead>,
    /// Where to leave each row's chosen experts, `[rows, n_used]` ids, for a
    /// caller tracing the router.
    pub routes: Option<Buf>,
}

/// The place of a single-precision number, given by its bits, in the total
/// order of all of them: minus before plus, magnitudes by their bits.
pub open spec fn order_of(bits: u32) -> int {
    if bits < 0x8000_0000 {
        bits as int
    } else {
        0x8000_0000 - bits - 1
    }
}

/// Whether expert `a` goes before `b`: the larger probability does, and the
/// lower index where they are the same.
pub open spec fn before(probs: Seq<u32>, a: int, b: int) -> bool {
    ||| order_of(probs[a]) > order_of(probs[b])
    ||| order_of(probs[a]) == order_of(probs[b]) && a < b
}

/// Whether a list is the first `n` experts in that order.
pub open spec fn is_top(probs: Seq<u32>, n: nat, picked: Seq<usize>) -> bool {
    &&& picked.len() == n
    &&& forall|i: int| 0 <= i < n ==> #[trigger] picked[i] < probs.len()
    &&& forall|i: int, j: int|
        0 <= i < j < n ==> before(probs, #[trigger] picked[i] as int, #[trigger] picked[j] as int)
    &&& forall|i: int, e: int|
        0 <= i < n && 0 <= e < probs.len() && !picked.contains(e as usize)
            ==> #[trigger] before(probs, picked[i] as int, e)
}

fn order(bits: u32) -> (place: i64)
    ensures
        place == order_of(bits),
{
    if bits < 0x8000_0000 {
        bits as i64
    } else {
        0x8000_0000i64 - bits as i64 - 1
    }
}

fn goes_before(probs: &[u32], a: usize, b: usize) -> (yes: bool)
    requires
        a < probs@.len(),
        b < probs@.len(),
    ensures
        yes == before(probs@, a as int, b as int),
{
    let x: i64 = order(probs[a]);
    let y: i64 = order(probs[b]);
    x > y || (x == y && a < b)
}

/// The experts a row is routed to: the `n_used` of the largest probabilities,
/// descending, a tie keeping the lower index. Probabilities are given by their
/// bits.
pub fn rank(probs: &[u32], n_used: usize) -> (picked: Vec<usize>)
    requires
        n_used <= probs@.len(),
    ensures
        is_top(probs@, n_used as nat, picked@),
{
    let all: usize = probs.len();
    let mut picked: Vec<usize> = Vec::new();
    let mut taken: Vec<bool> = Vec::new();
    let mut i: usize = 0;
    while i < probs.len()
        invariant
            i <= probs@.len(),
            taken@ == Seq::new(i as nat, |k: int| false),
        decreases probs@.len() - i,
    {
        taken.push(false);
        i = i + 1;
        assert(taken@ =~= Seq::new(i as nat, |k: int| false));
    }
    proof {
        lemma_free_all(taken@);
    }
    while picked.len() < n_used
        invariant
            n_used <= probs@.len() == all,
            picked@.len() <= n_used,
            taken@.len() == probs@.len(),
            is_top(probs@, picked@.len(), picked@),
            forall|e: int| 0 <= e < probs@.len() ==> #[trigger] taken@[e] == picked@.contains(e as usize),
            free_count(taken@) == probs@.len() - picked@.len(),
        decreases n_used - picked@.len(),
    {
        proof {
            lemma_some_free(taken@);
        }
        let mut best: usize = 0;
        while taken[best]
            invariant
                best < taken@.len() == probs@.len() == all,
                forall|e: int| 0 <= e < best ==> taken@[e],
                exists|e: int| 0 <= e < taken@.len() && !#[trigger] taken@[e],
            decreases taken@.len() - best,
        {
            best = best + 1;
        }
        let mut e: usize = best + 1;
        while e < probs.len()
            invariant
                best < e <= probs@.len() == taken@.len(),
                !taken@[best as int],
                forall|o: int|
                    0 <= o < e && o != best && !#[trigger] taken@[o] ==> before(
                        probs@,
                        best as int,
                        o,
                    ),
            decreases probs@.len() - e,
        {
            if !taken[e] && goes_before(probs, e, best) {
                best = e;
            }
            e = e + 1;
        }
        let ghost old_picked = picked@;
        let ghost old_taken = taken@;
        picked.push(best);
        taken.set(best, true);
        proof {
            let n = picked@.len();
            assert(!old_picked.contains(best));
            assert forall|x: usize| #[trigger]
                picked@.contains(x) == (old_picked.contains(x) || x == best) by {
                assert(picked@[n - 1] == best);
                if old_picked.contains(x) {
                    let k = old_picked.index_of(x);
                    assert(picked@[k] == x);
                }
                if picked@.contains(x) {
                    let k = picked@.index_of(x);
                    if k < n - 1 {
                        assert(old_picked[k] == x);
                    }
                }
            }
            assert forall|i: int, j: int| 0 <= i < j < n implies before(
                probs@,
                #[trigger] picked@[i] as int,
                #[trigger] picked@[j] as int,
            ) by {
                assert(picked@[i] == old_picked[i]);
                if j < n - 1 {
                    assert(picked@[j] == old_picked[j]);
                } else {
                    assert(before(probs@, old_picked[i] as int, best as int));
                }
            }
            assert forall|i: int, o: int|
                0 <= i < n && 0 <= o < probs@.len() && !picked@.contains(o as usize)
                implies #[trigger] before(probs@, picked@[i] as int, o) by {
                assert(!old_picked.contains(o as usize));
                assert(!old_taken[o]);
                if i < n - 1 {
                    assert(picked@[i] == old_picked[i]);
                }
            }
            lemma_take_one(old_taken, best as int);
        }
    }
    picked
}

spec fn free_count(taken: Seq<bool>) -> int
    decreases taken.len(),
{
    if taken.len() == 0 {
        0
    } else {
        free_count(taken.drop_last()) + if taken.last() {
            0int
        } else {
            1
        }
    }
}

proof fn lemma_free_all(taken: Seq<bool>)
    requires
        forall|e: int| 0 <= e < taken.len() ==> !taken[e],
    ensures
        free_count(taken) == taken.len(),
    decreases taken.len(),
{
    if taken.len() > 0 {
        lemma_free_all(taken.drop_last());
    }
}

proof fn lemma_some_free(taken: Seq<bool>)
    requires
        free_count(taken) > 0,
    ensures
        exists|e: int| 0 <= e < taken.len() && !#[trigger] taken[e],
    decreases taken.len(),
{
    if taken.last() {
        lemma_some_free(taken.drop_last());
        let e = choose|e: int| 0 <= e < taken.len() - 1 && !#[trigger] taken.drop_last()[e];
        assert(!taken[e]);
    } else {
        assert(!taken[taken.len() - 1]);
    }
}

proof fn lemma_take_one(taken: Seq<bool>, e: int)
    requires
        0 <= e < taken.len(),
        !taken[e],
    ensures
        free_count(taken.update(e, true)) == free_count(taken) - 1,
    decreases taken.len(),
{
    let after = taken.update(e, true);
    if e == taken.len() - 1 {
        assert(after.drop_last() =~= taken.drop_last());
    } else {
        lemma_take_one(taken.drop_last(), e);
        assert(after.drop_last() =~= taken.drop_last().update(e, true));
    }
}

/// Nothing is routed twice.
pub proof fn a_route_repeats_no_expert(probs: Seq<u32>, n: nat, picked: Seq<usize>, i: int, j: int)
    requires
        is_top(probs, n, picked),
        0 <= i < j < n,
    ensures
        picked[i] != picked[j],
{
}

/// The routing is one list: two that are the first experts are the same.
pub proof fn the_route_is_unique(probs: Seq<u32>, n: nat, a: Seq<usize>, b: Seq<usize>, i: int)
    requires
        is_top(probs, n, a),
        is_top(probs, n, b),
        probs.len() <= usize::MAX,
        0 <= i < n,
    ensures
        a[i] == b[i],
    decreases i,
{
    if i > 0 {
        assert forall|j: int| 0 <= j < i implies a[j] == b[j] by {
            the_route_is_unique(probs, n, a, b, j);
        }
    }
    let x = a[i] as int;
    let y = b[i] as int;
    if x != y {
        // Whichever goes first has no place left in the other list.
        assert forall|s: Seq<usize>, t: Seq<usize>|
            is_top(probs, n, s) && is_top(probs, n, t) && s[i] != t[i] && (forall|j: int|
                0 <= j < i ==> s[j] == t[j]) implies #[trigger] before(
            probs,
            t[i] as int,
            s[i] as int,
        ) by {
            if t.contains(s[i]) {
                let k = t.index_of(s[i]);
                if k < i {
                    assert(s[k] == t[k]);
                    assert(before(probs, s[k] as int, s[i] as int));
                } else if k > i {
                    assert(before(probs, t[i] as int, t[k] as int));
                }
            } else {
                assert(before(probs, t[i] as int, s[i] as int));
            }
        }
        assert(before(probs, y, x));
        assert(before(probs, x, y));
    }
}

/// Numbers are ordered by their sign and magnitude: those without the sign bit by the
/// rest of their bits, those with it below them and the other way round.
pub proof fn the_order_is_by_sign_and_magnitude(a: u32, b: u32)
    requires
        a < 0x8000_0000,
        b < 0x8000_0000,
    ensures
        order_of(a) < order_of(b) <==> a < b,
        order_of((0x8000_0000 + a) as u32) < order_of(b),
        order_of((0x8000_0000 + a) as u32) < order_of((0x8000_0000 + b) as u32) <==> b < a,
{
}

/// A route takes the largest: no expert left out has a probability above one taken, and
/// those taken stand from the largest down, a tie by the lower index.
pub proof fn a_route_takes_the_largest(
    probs: Seq<u32>,
    n: nat,
    picked: Seq<usize>,
    i: int,
    j: int,
    e: int,
)
    requires
        is_top(probs, n, picked),
        0 <= i < j < n,
        0 <= e < probs.len(),
        e <= usize::MAX,
        !picked.contains(e as usize),
    ensures
        order_of(probs[e]) <= order_of(probs[picked[i] as int]),
        order_of(probs[e]) == order_of(probs[picked[i] as int]) ==> picked[i] < e,
        order_of(probs[picked[j] as int]) <= order_of(probs[picked[i] as int]),
        order_of(probs[picked[j] as int]) == order_of(probs[picked[i] as int]) ==> picked[i]
            < picked[j],
{
    assert(before(probs, picked[i] as int, e));
    assert(before(probs, picked[i] as int, picked[j] as int));
}

} // verus!
