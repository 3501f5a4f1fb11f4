//! The caches a sequence grows: keys and values, and the rotary table.

use vstd::arithmetic::power2;
use vstd::prelude::*;

use crate::backend::HBuf;
use crate::gguf::{self, Gguf, TensorInfo};
use crate::hadamard;
use crate::layers::linear::LoadError;
use crate::layers::{check_dims, Upload, Uploads};

verus! {

/// The least power of two no less than a number.
pub open spec fn is_least_power(p: nat, n: nat) -> bool {
    hadamard::is_power(p) && n <= p && (p == 1 || p < 2 * n)
}

/// The larger of two numbers.
pub open spec fn larger(a: nat, b: nat) -> nat {
    if a < b {
        b
    } else {
        a
    }
}

fn next_power(n: usize) -> (p: usize)
    requires
        n <= usize::MAX / 2,
    ensures
        is_least_power(p as nat, n as nat),
{
    let mut p: usize = 1;
    let ghost mut e: nat = 0;
    proof {
        power2::lemma2_to64();
    }
    while p < n
        invariant
            n <= usize::MAX / 2,
            p as nat == power2::pow2(e),
            p >= 1,
            p == 1 || p < 2 * n,
        decreases 2 * n - p,
    {
        proof {
            power2::lemma_pow2_unfold(e + 1);
            power2::lemma_pow2_pos(e);
            e = e + 1;
        }
        p = 2 * p;
    }
    p
}

/// An attention block's key and value caches, `[capacity, width]` each.
#[derive(Clone, Copy, PartialEq, Eq, Structural, Debug)]
pub struct KvCache {
    pub keys: Option<HBuf>,
    pub values: Option<HBuf>,
    /// Positions the pair has room for.
    pub capacity: usize,
}

/// One of a pair's two caches.
#[derive(Clone, Copy, PartialEq, Eq, Structural, Debug)]
pub enum Slot {
    Keys,
    Values,
}

/// A call that a pair of caches makes of the backend, or what it settles on.
#[derive(Clone, Copy, PartialEq, Eq, Structural, Debug)]
pub enum CacheCall {
    /// Allocates a buffer of so many elements, which the slot holds from here on.
    Take { slot: Slot, len: usize },
    /// Copies so many elements from the front of an old buffer to the front of the
    /// one the slot holds.
    Carry { slot: Slot, old_buf: HBuf, len: usize },
    /// Releases a buffer.
    Release { buf: HBuf },
    /// The pair has room for so many positions from here on.
    Settle { capacity: usize },
}

/// The calls that give one slot a larger buffer: the old one, where it holds one,
/// is carried over and then released.
pub open spec fn slot_grows(slot: Slot, held: Option<HBuf>, len: usize, kept: usize) -> Seq<
    CacheCall,
> {
    match held {
        None => seq![CacheCall::Take { slot, len }],
        Some(old_buf) => seq![
            CacheCall::Take { slot, len },
            CacheCall::Carry { slot, old_buf, len: kept },
            CacheCall::Release { buf: old_buf },
        ],
    }
}

/// The calls that grow a pair to `want` positions, keys before values.
pub open spec fn grows(c: KvCache, want: usize, width: usize) -> Seq<CacheCall> {
    let len = (want * width) as usize;
    let kept = (c.capacity * width) as usize;
    slot_grows(Slot::Keys, c.keys, len, kept) + slot_grows(Slot::Values, c.values, len, kept)
        + seq![CacheCall::Settle { capacity: want }]
}

/// The calls that give back what a slot holds.
pub open spec fn slot_releases(held: Option<HBuf>) -> Seq<CacheCall> {
    match held {
        None => Seq::empty(),
        Some(buf) => seq![CacheCall::Release { buf }],
    }
}

/// A cache that was never allocated.
#[derive(Clone, Copy, PartialEq, Eq, Structural, Debug)]
pub enum CacheError {
    Keys,
    Values,
}

pub const NO_KEYS: &'static str = "key cache was never allocated";

pub const NO_VALUES: &'static str = "value cache was never allocated";

impl CacheError {
    pub fn message(self) -> (s: String)
        ensures
            s@ == (match self {
                CacheError::Keys => NO_KEYS@,
                CacheError::Values => NO_VALUES@,
            }),
    {
        match self {
            CacheError::Keys => NO_KEYS.to_owned(),
            CacheError::Values => NO_VALUES.to_owned(),
        }
    }
}

impl KvCache {
    pub fn new() -> (c: KvCache)
        ensures
            c == (KvCache { keys: None, values: None, capacity: 0 }),
    {
        KvCache { keys: None, values: None, capacity: 0 }
    }

    /// What a slot holds.
    pub open spec fn at(self, slot: Slot) -> Option<HBuf> {
        match slot {
            Slot::Keys => self.keys,
            Slot::Values => self.values,
        }
    }

    /// The pair with a slot holding another buffer.
    pub open spec fn holding(self, slot: Slot, buf: HBuf) -> KvCache {
        match slot {
            Slot::Keys => KvCache { keys: Some(buf), ..self },
            Slot::Values => KvCache { values: Some(buf), ..self },
        }
    }

    /// The calls that make the pair hold `total` positions, none where it does.
    /// Doubling amortizes the copy to a constant per position.
    pub fn reserve(&self, total: usize, width: usize) -> (calls: Vec<CacheCall>)
        requires
            total <= usize::MAX / 2,
            2 * total * width <= usize::MAX,
            64 * width <= usize::MAX,
        ensures
            self.capacity >= total ==> calls@ == Seq::<CacheCall>::empty(),
            self.capacity < total ==> exists|p: nat, want: usize| #[trigger]
                is_least_power(p, total as nat) && want == larger(p, 64) && want * width
                    <= usize::MAX && self.capacity * width <= usize::MAX && calls@ == #[trigger]
                    grows(*self, want, width),
    {
        let mut calls: Vec<CacheCall> = Vec::new();
        if self.capacity >= total {
            assert(calls@ =~= Seq::empty());
            return calls;
        }
        let p: usize = next_power(total);
        let want: usize = if p < 64 {
            64
        } else {
            p
        };
        assert(want * width <= usize::MAX && self.capacity * width <= usize::MAX)
            by (nonlinear_arith)
            requires
                want <= 2 * total || want == 64,
                self.capacity < total,
                2 * total * width <= usize::MAX,
                64 * width <= usize::MAX,
        ;
        let (len, kept): (usize, usize) = (want * width, self.capacity * width);
        grow_slot(&mut calls, Slot::Keys, self.keys, len, kept);
        grow_slot(&mut calls, Slot::Values, self.values, len, kept);
        calls.push(CacheCall::Settle { capacity: want });
        assert(calls@ =~= grows(*self, want, width));
        assert(is_least_power(p as nat, total as nat) && want == larger(p as nat, 64));
        calls
    }

    /// What a slot holds once its buffer is there.
    pub fn hold(&mut self, slot: Slot, buf: HBuf)
        ensures
            *final(self) == old(self).holding(slot, buf),
    {
        match slot {
            Slot::Keys => {
                self.keys = Some(buf);
            },
            Slot::Values => {
                self.values = Some(buf);
            },
        }
    }

    /// What a slot holds.
    pub fn held(&self, slot: Slot) -> (buf: Option<HBuf>)
        ensures
            buf == self.at(slot),
    {
        match slot {
            Slot::Keys => self.keys,
            Slot::Values => self.values,
        }
    }

    /// The room the pair has once both its caches have it.
    pub fn settle(&mut self, capacity: usize)
        ensures
            *final(self) == (KvCache { capacity, ..*old(self) }),
    {
        self.capacity = capacity;
    }

    /// The pair.
    pub fn pair(&self) -> (result: Result<(HBuf, HBuf), CacheError>)
        ensures
            match result {
                Ok((keys, values)) => self.keys == Some(keys) && self.values == Some(values),
                Err(CacheError::Keys) => self.keys is None,
                Err(CacheError::Values) => self.keys is Some && self.values is None,
            },
    {
        match (self.keys, self.values) {
            (Some(keys), Some(values)) => Ok((keys, values)),
            (None, _) => Err(CacheError::Keys),
            (_, None) => Err(CacheError::Values),
        }
    }

    /// The calls that hand both caches back, the pair left as new.
    pub fn release(&mut self) -> (calls: Vec<CacheCall>)
        ensures
            calls@ == slot_releases(old(self).keys) + slot_releases(old(self).values),
            *final(self) == (KvCache { keys: None, values: None, capacity: 0 }),
    {
        let mut calls: Vec<CacheCall> = Vec::new();
        if let Some(buf) = self.keys {
            calls.push(CacheCall::Release { buf });
        }
        if let Some(buf) = self.values {
            calls.push(CacheCall::Release { buf });
        }
        assert(calls@ =~= slot_releases(self.keys) + slot_releases(self.values));
        self.keys = None;
        self.values = None;
        self.capacity = 0;
        calls
    }
}

fn grow_slot(calls: &mut Vec<CacheCall>, slot: Slot, held: Option<HBuf>, len: usize, kept: usize)
    ensures
        final(calls)@ == old(calls)@ + slot_grows(slot, held, len, kept),
{
    let ghost before = calls@;
    calls.push(CacheCall::Take { slot, len });
    if let Some(old_buf) = held {
        calls.push(CacheCall::Carry { slot, old_buf, len: kept });
        calls.push(CacheCall::Release { buf: old_buf });
    }
    assert(calls@ =~= before + slot_grows(slot, held, len, kept));
}

/// A pair that has grown has room for what was asked, and for no more than twice
/// that or the least it starts with.
pub proof fn growing_makes_room(want: nat, p: nat, total: nat)
    requires
        is_least_power(p, total),
        want == larger(p, 64),
    ensures
        total <= want,
        want <= 64 || want < 2 * total,
{
}

/// The buffers a backend has given out and not had back, by handle.
pub type Halves<T> = Map<HBuf, Seq<T>>;

/// What a call leaves of the buffers and of the pair. `fresh` is the handle a slot's
/// new buffer gets and `filled` what stands in it. Nothing comes of a call that the
/// backend has no answer to: one that is handed a buffer it has not given out, or
/// had back, or that runs past one.
pub open spec fn after_call<T>(
    bufs: Halves<T>,
    c: KvCache,
    fresh: spec_fn(Slot) -> HBuf,
    filled: spec_fn(Slot) -> Seq<T>,
    call: CacheCall,
) -> Option<(Halves<T>, KvCache)> {
    match call {
        CacheCall::Take { slot, len } => if bufs.contains_key(fresh(slot)) || filled(slot).len()
            != len {
            None
        } else {
            Some((bufs.insert(fresh(slot), filled(slot)), c.holding(slot, fresh(slot))))
        },
        CacheCall::Carry { slot, old_buf, len } => match c.at(slot) {
            Some(buf) if bufs.contains_key(old_buf) && bufs.contains_key(buf) && len
                <= bufs[old_buf].len() && len <= bufs[buf].len() => Some(
                (bufs.insert(buf, bufs[old_buf].take(len as int) + bufs[buf].skip(len as int)), c),
            ),
            _ => None,
        },
        CacheCall::Release { buf } => if bufs.contains_key(buf) {
            Some((bufs.remove(buf), c))
        } else {
            None
        },
        CacheCall::Settle { capacity } => Some((bufs, KvCache { capacity, ..c })),
    }
}

/// What calls leave, one after the other.
pub open spec fn after_calls<T>(
    bufs: Halves<T>,
    c: KvCache,
    fresh: spec_fn(Slot) -> HBuf,
    filled: spec_fn(Slot) -> Seq<T>,
    calls: Seq<CacheCall>,
) -> Option<(Halves<T>, KvCache)>
    decreases calls.len(),
{
    if calls.len() == 0 {
        Some((bufs, c))
    } else {
        match after_calls(bufs, c, fresh, filled, calls.drop_last()) {
            None => None,
            Some((bufs, c)) => after_call(bufs, c, fresh, filled, calls.last()),
        }
    }
}

/// The buffers with a slot's new one among them, what it held carried over and its
/// old one given back.
pub open spec fn slot_grown<T>(
    bufs: Halves<T>,
    held: Option<HBuf>,
    buf: HBuf,
    filled: Seq<T>,
    kept: int,
) -> Halves<T> {
    match held {
        None => bufs.insert(buf, filled),
        Some(old_buf) => bufs.remove(old_buf).insert(
            buf,
            bufs[old_buf].take(kept) + filled.skip(kept),
        ),
    }
}

/// Whether a slot holds nothing, or a buffer the backend gave out with room for
/// `kept` elements.
pub open spec fn is_held<T>(bufs: Halves<T>, held: Option<HBuf>, kept: int) -> bool {
    held matches Some(buf) ==> bufs.contains_key(buf) && kept <= bufs[buf].len()
}

proof fn lemma_slot_grows<T>(
    bufs: Halves<T>,
    c: KvCache,
    fresh: spec_fn(Slot) -> HBuf,
    filled: spec_fn(Slot) -> Seq<T>,
    before: Seq<CacheCall>,
    now: Halves<T>,
    pair: KvCache,
    slot: Slot,
    held: Option<HBuf>,
    len: usize,
    kept: usize,
)
    requires
        after_calls(bufs, c, fresh, filled, before) == Some((now, pair)),
        kept <= len,
        filled(slot).len() == len,
        !now.contains_key(fresh(slot)),
        is_held(now, held, kept as int),
    ensures
        after_calls(bufs, c, fresh, filled, before + slot_grows(slot, held, len, kept)) == Some(
            (
                slot_grown(now, held, fresh(slot), filled(slot), kept as int),
                pair.holding(slot, fresh(slot)),
            ),
        ),
{
    let calls = slot_grows(slot, held, len, kept);
    let one = before + seq![calls[0]];
    assert(one.drop_last() =~= before);
    let taken = (now.insert(fresh(slot), filled(slot)), pair.holding(slot, fresh(slot)));
    assert(after_calls(bufs, c, fresh, filled, one) == Some(taken));
    match held {
        None => {
            assert(before + calls =~= one);
        },
        Some(old_buf) => {
            let two = one + seq![calls[1]];
            let three = two + seq![calls[2]];
            assert(two.drop_last() =~= one);
            assert(three.drop_last() =~= two);
            assert(before + calls =~= three);
            assert(taken.0[old_buf] == now[old_buf]);
            let carried = taken.0.insert(
                fresh(slot),
                now[old_buf].take(kept as int) + filled(slot).skip(kept as int),
            );
            assert(after_calls(bufs, c, fresh, filled, two) == Some((carried, taken.1)));
            assert(carried.remove(old_buf) =~= slot_grown(
                now,
                held,
                fresh(slot),
                filled(slot),
                kept as int,
            ));
        },
    }
}

/// Growing a pair answers every call and leaves each slot a fresh buffer of the
/// new room with the old one's elements at its front. Each old buffer is given back,
/// once and after its elements were copied; no other buffer changes.
pub proof fn growing_keeps_what_was_cached<T>(
    bufs: Halves<T>,
    c: KvCache,
    fresh: spec_fn(Slot) -> HBuf,
    filled: spec_fn(Slot) -> Seq<T>,
    want: usize,
    width: usize,
)
    requires
        c.capacity <= want,
        want * width <= usize::MAX,
        is_held(bufs, c.keys, c.capacity * width),
        is_held(bufs, c.values, c.capacity * width),
        c.keys is Some ==> c.keys != c.values,
        !bufs.contains_key(fresh(Slot::Keys)),
        !bufs.contains_key(fresh(Slot::Values)),
        fresh(Slot::Keys) != fresh(Slot::Values),
        filled(Slot::Keys).len() == want * width,
        filled(Slot::Values).len() == want * width,
    ensures
        ({
            let kept = c.capacity * width;
            let (keys, values) = (fresh(Slot::Keys), fresh(Slot::Values));
            &&& after_calls(bufs, c, fresh, filled, grows(c, want, width)) matches Some((after, pair))
            &&& pair == KvCache { keys: Some(keys), values: Some(values), capacity: want }
            &&& after.contains_key(keys) && after[keys].len() == want * width
            &&& after.contains_key(values) && after[values].len() == want * width
            &&& c.keys matches Some(buf) ==> !after.contains_key(buf) && after[keys].take(kept)
                == bufs[buf].take(kept)
            &&& c.values matches Some(buf) ==> !after.contains_key(buf) && after[values].take(kept)
                == bufs[buf].take(kept)
            &&& forall|h: HBuf|
                c.keys != Some(h) && c.values != Some(h) && h != keys && h != values ==> (
                #[trigger] after.contains_key(h) == bufs.contains_key(h) && after[h] == bufs[h])
        }),
{
    let len = (want * width) as usize;
    assert(0 <= c.capacity * width <= want * width) by (nonlinear_arith)
        requires
            0 <= c.capacity <= want,
            0 <= width,
    ;
    let kept = (c.capacity * width) as usize;
    let (keys, values) = (fresh(Slot::Keys), fresh(Slot::Values));
    let none = Seq::<CacheCall>::empty();
    let first = slot_grows(Slot::Keys, c.keys, len, kept);
    let second = slot_grows(Slot::Values, c.values, len, kept);
    lemma_slot_grows(bufs, c, fresh, filled, none, bufs, c, Slot::Keys, c.keys, len, kept);
    assert(none + first =~= first);
    let one = slot_grown(bufs, c.keys, keys, filled(Slot::Keys), kept as int);
    let pair = c.holding(Slot::Keys, keys);
    lemma_slot_grows(bufs, c, fresh, filled, first, one, pair, Slot::Values, c.values, len, kept);
    let both = slot_grown(one, c.values, values, filled(Slot::Values), kept as int);
    let all = grows(c, want, width);
    assert(all.drop_last() =~= first + second);
    if let Some(buf) = c.keys {
        assert((bufs[buf].take(kept as int) + filled(Slot::Keys).skip(kept as int)).take(kept as int)
            =~= bufs[buf].take(kept as int));
    }
    if let Some(buf) = c.values {
        assert((bufs[buf].take(kept as int) + filled(Slot::Values).skip(kept as int)).take(
            kept as int,
        ) =~= bufs[buf].take(kept as int));
    }
}

/// The positions a rotary table of `have` rows is extended to for `positions`
/// of them, where it has to be.
pub fn rope_rows(have: usize, positions: usize) -> (want: Option<usize>)
    requires
        positions <= usize::MAX / 2,
    ensures
        want is None == (have >= positions),
        want matches Some(w) ==> exists|p: nat| #[trigger]
            is_least_power(p, positions as nat) && w == larger(p, 512),
{
    if have >= positions {
        return None;
    }
    let p: usize = next_power(positions);
    let want: usize = if p < 512 {
        512
    } else {
        p
    };
    assert(is_least_power(p as nat, positions as nat) && want == larger(p as nat, 512));
    Some(want)
}

/// Counts what a rotary table costs once a sequence has reached `positions`:
/// superseded copies stay resident, so about twice the final table. `key` names
/// it.
pub fn rope_footprint(into: &mut Uploads, key: &str, rope_dim: usize, positions: usize)
    requires
        old(into).wf(),
        positions <= usize::MAX / 4,
        16 * positions * rope_dim <= usize::MAX,
        4096 * rope_dim <= usize::MAX,
    ensures
        final(into).wf(),
        exists|p: nat| #[trigger]
            is_least_power(p, positions as nat) && final(into)@ == old(into)@.with(
                key@,
                (Upload {
                    bytes: (2 * larger(p, 512) * rope_dim * 4) as usize,
                    dense: true,
                    streamed: false,
                }),
            ),
{
    let p: usize = next_power(positions);
    let rows: usize = if p < 512 {
        512
    } else {
        p
    };
    assert(rows == larger(p as nat, 512));
    assert(2 * rows * rope_dim * 4 <= usize::MAX && 0 <= 2 * rows * rope_dim <= 2 * rows * rope_dim * 4)
        by (nonlinear_arith)
        requires
            rows <= 2 * positions || rows == 512,
            16 * positions * rope_dim <= usize::MAX,
            4096 * rope_dim <= usize::MAX,
            0 <= rope_dim,
            0 <= rows,
    ;
    into.add_resident(key, 2 * rows * rope_dim * 4, true);
    assert(is_least_power(p as nat, positions as nat));
}

/// A named one-dimensional weight.
pub struct Gain<T> {
    pub data: Vec<T>,
    pub key: String,
}

/// What loading a vector comes to, given what its tensor decodes to.
pub open spec fn loads_vector<T>(
    gguf: Gguf,
    name: Seq<char>,
    len: usize,
    decoded: Option<Seq<T>>,
    result: Result<Gain<T>, LoadError>,
) -> bool {
    if !gguf::has_name(gguf.tensors@, name) {
        result matches Err(LoadError::Missing { name: at }) && at@ == name
    } else {
        exists|at: int| #[trigger]
            gguf::is_named(gguf.tensors@, name, at) && vector_from(
                gguf.tensors@[at],
                name,
                len,
                decoded,
                result,
            )
    }
}

pub open spec fn vector_from<T>(
    info: TensorInfo,
    name: Seq<char>,
    len: usize,
    decoded: Option<Seq<T>>,
    result: Result<Gain<T>, LoadError>,
) -> bool {
    if info.dims@ != seq![len as u64] {
        result matches Err(LoadError::Dims(e)) && e.name@ == info.name@ && e.dims@ == info.dims@
            && e.expected@ == seq![len as u64]
    } else {
        match decoded {
            Some(d) if d.len() == len => result matches Ok(g) && g.data@ == d && g.key@ == name,
            _ => result matches Err(LoadError::Values { name: at }) && at@ == name,
        }
    }
}

fn copied<T: Copy>(data: &[T]) -> (out: Vec<T>)
    ensures
        out@ == data@,
{
    let mut out: Vec<T> = Vec::new();
    let mut i: usize = 0;
    while i < data.len()
        invariant
            i <= data@.len(),
            out@ == data@.take(i as int),
        decreases data@.len() - i,
    {
        out.push(data[i]);
        i = i + 1;
        assert(out@ =~= data@.take(i as int));
    }
    assert(data@.take(i as int) =~= data@);
    out
}

impl<T> Gain<T> {
    /// The vector a file keeps under a name. `decoded` is what its tensor
    /// decodes to.
    pub fn load(gguf: &Gguf, name: &str, len: usize, decoded: Option<&[T]>) -> (result: Result<
        Gain<T>,
        LoadError,
    >) where T: Copy
        ensures
            loads_vector(
                *gguf,
                name@,
                len,
                match decoded {
                    Some(d) => Some(d@),
                    None => None,
                },
                result,
            ),
    {
        let info = match gguf.tensor(name) {
            Some(info) => info,
            None => {
                return Err(LoadError::Missing { name: name.to_owned() });
            },
        };
        let ghost at = choose|at: int| #[trigger]
            gguf::is_named(gguf.tensors@, name@, at) && *info == gguf.tensors@[at];
        let ghost values: Option<Seq<T>> = match decoded {
            Some(d) => Some(d@),
            None => None,
        };
        let expected: Vec<u64> = vec![len as u64];
        assert(expected@ =~= seq![len as u64]);
        if let Err(e) = check_dims(info, expected.as_slice()) {
            let result: Result<Gain<T>, LoadError> = Err(LoadError::Dims(e));
            assert(vector_from(*info, name@, len, values, result));
            return result;
        }
        let result: Result<Gain<T>, LoadError> = match decoded {
            Some(d) => if d.len() == len {
                Ok(Gain { data: copied(d), key: name.to_owned() })
            } else {
                Err(LoadError::Values { name: name.to_owned() })
            },
            None => Err(LoadError::Values { name: name.to_owned() }),
        };
        assert(vector_from(*info, name@, len, values, result));
        result
    }

    /// A constant with no tensor of its own. Its key must tell it from every
    /// other reading of one.
    pub fn derived(key: String, data: Vec<T>) -> (g: Gain<T>)
        ensures
            g.key == key,
            g.data == data,
    {
        Gain { data, key }
    }

    pub open spec fn upload(self) -> Upload {
        Upload { bytes: (4 * self.data@.len()) as usize, dense: true, streamed: false }
    }

    pub fn footprint(&self, into: &mut Uploads)
        requires
            old(into).wf(),
            4 * self.data@.len() <= usize::MAX,
        ensures
            final(into).wf(),
            final(into)@ == old(into)@.with(self.key@, self.upload()),
    {
        into.add_resident(self.key.as_str(), self.data.len() * 4, true);
    }
}

} // verus!
