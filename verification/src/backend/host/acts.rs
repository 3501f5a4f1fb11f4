//! The activations of a pass, quantized in blocks.

use vstd::prelude::*;
use vstd::slice::slice_subrange;

use crate::backend::host::contract::{HostError, QuantRows};
use crate::backend::QAct;

verus! {

/// What a pass has quantized: a slot an activation, over again every pass.
pub struct Acts<T> {
    pub slots: Vec<QuantRows<T>>,
    pub next: usize,
}

/// Whether a block quantizes to these quants under this scale.
pub open spec fn quantizes<T, Q: Fn(&[T]) -> (Vec<i8>, T)>(
    quantize: Q,
    block: Seq<T>,
    qs: Seq<i8>,
    d: T,
) -> bool {
    exists|s: &[T], r: (Vec<i8>, T)| #[trigger]
        call_ensures(quantize, (s,), r) && s@ == block && r.0@ == qs && r.1 == d
}

/// A function that quantizes any block of 32.
pub open spec fn is_quantizer<T, Q: Fn(&[T]) -> (Vec<i8>, T)>(quantize: Q) -> bool {
    &&& forall|s: &[T]| s@.len() == 32 ==> #[trigger] call_requires(quantize, (s,))
    &&& forall|s: &[T], r: (Vec<i8>, T)| #[trigger]
        call_ensures(quantize, (s,), r) ==> r.0@.len() == 32
}

/// A list cut or filled up to a length.
pub open spec fn resized<A>(list: Seq<A>, len: nat, fill: A) -> Seq<A> {
    Seq::new(
        len,
        |i: int|
            if i < list.len() {
                list[i]
            } else {
                fill
            },
    )
}

fn resize<A: Copy>(list: &Vec<A>, len: usize, fill: A) -> (out: Vec<A>)
    ensures
        out@ == resized(list@, len as nat, fill),
{
    let held: usize = list.len();
    let mut out: Vec<A> = Vec::new();
    let mut i: usize = 0;
    while i < len
        invariant
            i <= len,
            held == list@.len(),
            out@ == resized(list@, i as nat, fill),
        decreases len - i,
    {
        out.push(
            if i < held {
                list[i]
            } else {
                fill
            },
        );
        i = i + 1;
        assert(out@ =~= resized(list@, i as nat, fill));
    }
    assert(out@ =~= resized(list@, len as nat, fill));
    out
}

/// The slot an activation is quantized into, as it was before.
pub open spec fn slot_before<T>(slots: Seq<QuantRows<T>>, at: int) -> (Seq<i8>, Seq<T>) {
    if at < slots.len() {
        (slots[at].qs@, slots[at].scales@)
    } else {
        (Seq::empty(), Seq::empty())
    }
}

impl<T> Acts<T> {
    /// Every slot up to the next was filled in this pass or an earlier one.
    pub open spec fn wf(self) -> bool {
        self.next <= self.slots@.len()
    }

    pub fn new() -> (acts: Acts<T>)
        ensures
            acts.wf(),
            acts.next == 0,
            acts.slots@ == Seq::<QuantRows<T>>::empty(),
    {
        Acts { slots: Vec::new(), next: 0 }
    }

    /// Starts the slots over.
    pub fn begin_pass(&mut self)
        ensures
            final(self).next == 0,
            final(self).slots == old(self).slots,
    {
        self.next = 0;
    }

    /// Quantizes the first `m` rows of `k` in blocks of 32, into the next slot.
    /// What is left of the slot past the last whole block stays as it was.
    pub fn quantize_act<Q: Fn(&[T]) -> (Vec<i8>, T)>(
        &mut self,
        quantize: &Q,
        zero: T,
        a: &[T],
        m: usize,
        k: usize,
    ) -> (result: Result<QAct, HostError>) where T: Copy
        requires
            old(self).wf(),
            is_quantizer(*quantize),
            m * k <= usize::MAX,
        ensures
            final(self).wf(),
            final(self).slots@.len() == (if old(self).next == old(self).slots@.len() {
                old(self).slots@.len() + 1
            } else {
                old(self).slots@.len()
            }),
            forall|i: int|
                0 <= i < old(self).slots@.len() && i != old(self).next
                    ==> #[trigger] final(self).slots@[i] == old(self).slots@[i],
            ({
                let at = old(self).next as int;
                let slot = final(self).slots@[at];
                let (qs, scales) = slot_before(old(self).slots@, at);
                let len = (m * k) as nat;
                let blocks = len / 32;
                match result {
                    Err(e) => {
                        &&& a@.len() < m * k
                        &&& e == HostError::QuantizeSource
                        &&& final(self).next == old(self).next
                        &&& slot.qs@ == resized(qs, len, 0)
                        &&& slot.scales@ == resized(scales, blocks, zero)
                    },
                    Ok(act) => {
                        &&& a@.len() >= m * k
                        &&& act.0 == at
                        &&& final(self).next == at + 1
                        &&& slot.qs@.len() == len
                        &&& slot.scales@.len() == blocks
                        &&& forall|b: int|
                            0 <= b < blocks ==> #[trigger] quantizes(
                                *quantize,
                                a@.subrange(32 * b, 32 * b + 32),
                                slot.qs@.subrange(32 * b, 32 * b + 32),
                                slot.scales@[b],
                            )
                        &&& forall|i: int|
                            32 * blocks <= i < len ==> #[trigger] slot.qs@[i] == resized(
                                qs,
                                len,
                                0,
                            )[i]
                    },
                }
            }),
    {
        let at: usize = self.next;
        let ghost before = self.slots@;
        if at == self.slots.len() {
            self.slots.push(QuantRows { qs: Vec::new(), scales: Vec::new() });
        }
        let len: usize = m * k;
        let blocks: usize = len / 32;
        let mut qs = resize(&self.slots[at].qs, len, 0);
        let mut scales = resize(&self.slots[at].scales, blocks, zero);
        let ghost started = qs@;
        assert(started =~= resized(slot_before(before, at as int).0, len as nat, 0));
        assert(scales@ =~= resized(slot_before(before, at as int).1, blocks as nat, zero));
        if a.len() < len {
            self.slots.set(at, QuantRows { qs, scales });
            return Err(HostError::QuantizeSource);
        }
        let held: usize = a.len();
        let mut b: usize = 0;
        while b < blocks
            invariant
                b <= blocks,
                blocks == len / 32,
                len <= held,
                held == a@.len(),
                is_quantizer(*quantize),
                qs@.len() == len,
                scales@.len() == blocks,
                started.len() == len,
                forall|c: int|
                    0 <= c < b ==> #[trigger] quantizes(
                        *quantize,
                        a@.subrange(32 * c, 32 * c + 32),
                        qs@.subrange(32 * c, 32 * c + 32),
                        scales@[c],
                    ),
                forall|i: int| 32 * b <= i < len ==> #[trigger] qs@[i] == started[i],
            decreases blocks - b,
        {
            let block = slice_subrange(a, 32 * b, 32 * b + 32);
            let r = quantize(block);
            let ghost (qs_before, scales_before) = (qs@, scales@);
            let (q, d) = r;
            let mut i: usize = 0;
            while i < 32
                invariant
                    i <= 32,
                    32 * b + 32 <= len,
                    q@.len() == 32,
                    qs@.len() == len,
                    qs_before.len() == len,
                    forall|j: int| 0 <= j < i ==> #[trigger] qs@[32 * b + j] == q@[j],
                    forall|j: int|
                        0 <= j < len && !(32 * b <= j < 32 * b + i) ==> #[trigger] qs@[j]
                            == qs_before[j],
                decreases 32 - i,
            {
                qs.set(32 * b + i, q[i]);
                i = i + 1;
            }
            scales.set(b, d);
            assert(qs@.subrange(32 * b as int, 32 * b + 32) =~= q@) by {
                assert forall|j: int| 0 <= j < 32 implies qs@.subrange(
                    32 * b as int,
                    32 * b + 32,
                )[j] == q@[j] by {
                    assert(qs@[32 * b + j] == q@[j]);
                }
            }
            assert(quantizes(
                *quantize,
                a@.subrange(32 * b as int, 32 * b + 32),
                qs@.subrange(32 * b as int, 32 * b + 32),
                scales@[b as int],
            ));
            assert forall|c: int| 0 <= c < b implies #[trigger] quantizes(
                *quantize,
                a@.subrange(32 * c, 32 * c + 32),
                qs@.subrange(32 * c, 32 * c + 32),
                scales@[c],
            ) by {
                assert(qs@.subrange(32 * c, 32 * c + 32) =~= qs_before.subrange(
                    32 * c,
                    32 * c + 32,
                ));
                assert(quantizes(
                    *quantize,
                    a@.subrange(32 * c, 32 * c + 32),
                    qs_before.subrange(32 * c, 32 * c + 32),
                    scales_before[c],
                ));
            }
            b = b + 1;
        }
        self.slots.set(at, QuantRows { qs, scales });
        let filled: usize = self.slots.len();
        assert(at < filled);
        self.next = at + 1;
        Ok(QAct(at))
    }
}

} // verus!
