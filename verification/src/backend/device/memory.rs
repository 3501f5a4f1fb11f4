//! The handles of a device's buffers, the slots quantized activations take, and
//! the scratch a pass grows into.

use vstd::prelude::*;

use crate::backend::fuse::Scratch;
use crate::backend::{Buf, HBuf, QAct, Q8_BLOCK};
use crate::text::{self, Args};

verus! {

broadcast use crate::text::lemma_filled_args;

/// What a handle points at: scratch that can be given back, a constant living
/// in an arena, or a sequence's state living in one until the sequence ends.
#[derive(Clone, Copy, PartialEq, Eq, Structural, Debug)]
pub enum SlotKind {
    Owned,
    Const,
    State,
}

/// A region of device memory, in single-precision elements.
#[derive(Clone, Copy, PartialEq, Eq, Structural, Debug)]
pub struct Slot {
    pub kind: SlotKind,
    pub base: u64,
    pub len: usize,
}

/// A region whose every address is one.
pub open spec fn slot_fits(slot: Slot) -> bool {
    slot.base + 4 * slot.len <= u64::MAX
}

/// The table of handles: what each points at, and the free ones, the last freed
/// first.
#[verifier::ext_equal]
pub ghost struct Table {
    pub slots: Seq<Option<Slot>>,
    pub free: Seq<usize>,
}

impl Table {
    /// The free handles are exactly those that point at nothing, each once.
    pub open spec fn wf(self) -> bool {
        &&& forall|i: int|
            0 <= i < self.free.len() ==> #[trigger] self.free[i] < self.slots.len()
                && self.slots[self.free[i] as int] is None
        &&& forall|i: int, j: int|
            0 <= i < j < self.free.len() ==> #[trigger] self.free[i] != #[trigger] self.free[j]
        &&& forall|i: int|
            0 <= i < self.slots.len() && #[trigger] self.slots[i] is None ==> self.free.contains(
                i as usize,
            )
        &&& forall|i: int|
            0 <= i < self.slots.len() && #[trigger] self.slots[i] is Some ==> slot_fits(
                self.slots[i]->Some_0,
            )
        &&& self.slots.len() <= usize::MAX
    }

    /// What a handle points at.
    pub open spec fn get(self, handle: int) -> Option<Slot> {
        if 0 <= handle < self.slots.len() {
            self.slots[handle]
        } else {
            None
        }
    }

    /// The handle the next region is stored under.
    pub open spec fn next(self) -> int {
        if self.free.len() > 0 {
            self.free.last() as int
        } else {
            self.slots.len() as int
        }
    }

    /// The table with a region stored.
    pub open spec fn stored(self, slot: Slot) -> Table {
        if self.free.len() > 0 {
            Table {
                slots: self.slots.update(self.free.last() as int, Some(slot)),
                free: self.free.drop_last(),
            }
        } else {
            Table { slots: self.slots.push(Some(slot)), free: self.free }
        }
    }

    /// The table with a handle given back; one that points at nothing is left.
    pub open spec fn discarded(self, handle: int) -> Table {
        if self.get(handle) is Some {
            Table {
                slots: self.slots.update(handle, None),
                free: self.free.push(handle as usize),
            }
        } else {
            self
        }
    }
}

/// Why a handle has no address.
#[derive(Clone, Copy, PartialEq, Eq, Structural, Debug)]
pub enum HandleError {
    Released,
    Past { elements: usize },
}

pub const E_RELEASED: &'static str = "use of a released buffer handle";

pub const E_PAST: &'static str = "offset $0 is past the buffer";

impl HandleError {
    pub fn message(self) -> (s: String)
        ensures
            s@ == (match self {
                HandleError::Released => text::filled(E_RELEASED@, Seq::empty()),
                HandleError::Past { elements } => text::filled(
                    E_PAST@,
                    seq![text::decimal(elements as nat)],
                ),
            }),
    {
        match self {
            HandleError::Released => Args::new().fill(E_RELEASED),
            HandleError::Past { elements } => Args::new().num(elements).fill(E_PAST),
        }
    }
}

/// The handles of a device.
pub struct Slots {
    slots: Vec<Option<Slot>>,
    free: Vec<usize>,
}

impl View for Slots {
    type V = Table;

    closed spec fn view(&self) -> Table {
        Table { slots: self.slots@, free: self.free@ }
    }
}

impl Slots {
    pub fn new() -> (slots: Slots)
        ensures
            slots@.wf(),
            slots@ == (Table { slots: Seq::empty(), free: Seq::empty() }),
    {
        let slots = Slots { slots: Vec::new(), free: Vec::new() };
        assert(slots@ =~= Table { slots: Seq::empty(), free: Seq::empty() });
        slots
    }

    /// Stores a region under a handle, a free one where there is one.
    pub fn store_slot(&mut self, slot: Slot) -> (buf: Buf)
        requires
            old(self)@.wf(),
            slot_fits(slot),
            old(self)@.slots.len() < usize::MAX,
        ensures
            final(self)@ == old(self)@.stored(slot),
            final(self)@.wf(),
            buf.0 == old(self)@.next(),
    {
        let ghost before = self@;
        proof {
            lemma_stored(before, slot);
        }
        if let Some(at) = self.free.pop() {
            self.slots.set(at, Some(slot));
            assert(self@ =~= before.stored(slot));
            return Buf(at);
        }
        self.slots.push(Some(slot));
        assert(self@ =~= before.stored(slot));
        Buf(self.slots.len() - 1)
    }

    /// Gives a handle's region up.
    pub fn discard(&mut self, buf: Buf) -> (taken: Option<Slot>)
        requires
            old(self)@.wf(),
        ensures
            final(self)@ == old(self)@.discarded(buf.0 as int),
            final(self)@.wf(),
            taken == old(self)@.get(buf.0 as int),
    {
        let ghost before = self@;
        proof {
            lemma_discarded(before, buf.0 as int);
        }
        if buf.0 < self.slots.len() {
            let taken = self.slots[buf.0];
            if taken.is_some() {
                self.slots.set(buf.0, None);
                self.free.push(buf.0);
                assert(self@ =~= before.discarded(buf.0 as int));
            }
            taken
        } else {
            None
        }
    }

    fn get(&self, handle: usize) -> (slot: Option<Slot>)
        ensures
            slot == self@.get(handle as int),
    {
        if handle < self.slots.len() {
            self.slots[handle]
        } else {
            None
        }
    }

    /// The address behind a handle, `elements` in.
    pub fn ptr(&self, buf: Buf, elements: usize) -> (at: Result<u64, HandleError>)
        requires
            self@.wf(),
        ensures
            at == (match self@.get(buf.0 as int) {
                None => Err::<u64, HandleError>(HandleError::Released),
                Some(slot) => if elements > slot.len {
                    Err(HandleError::Past { elements })
                } else {
                    Ok((slot.base + 4 * elements) as u64)
                },
            }),
    {
        match self.get(buf.0) {
            None => Err(HandleError::Released),
            Some(slot) => {
                if elements > slot.len {
                    return Err(HandleError::Past { elements });
                }
                Ok(slot.base + 4 * elements as u64)
            },
        }
    }

    /// The same for half-precision storage, whose offset is counted in halves:
    /// it shares the table, at half as many words.
    pub fn hptr(&self, buf: HBuf, elements: usize) -> (at: Result<u64, HandleError>)
        requires
            self@.wf(),
        ensures
            at == (match self@.get(buf.0 as int) {
                None => Err::<u64, HandleError>(HandleError::Released),
                Some(slot) => if elements > 2 * slot.len {
                    Err(HandleError::Past { elements })
                } else {
                    Ok((slot.base + 2 * elements) as u64)
                },
            }),
    {
        match self.get(buf.0) {
            None => Err(HandleError::Released),
            Some(slot) => {
                if elements / 2 > slot.len || (elements / 2 == slot.len && elements % 2 == 1) {
                    return Err(HandleError::Past { elements });
                }
                Ok(slot.base + 2 * elements as u64)
            },
        }
    }

    /// Elements behind a handle.
    pub fn len_of(&self, buf: Buf) -> (len: Result<usize, HandleError>)
        ensures
            len == (match self@.get(buf.0 as int) {
                None => Err::<usize, HandleError>(HandleError::Released),
                Some(slot) => Ok(slot.len),
            }),
    {
        match self.get(buf.0) {
            None => Err(HandleError::Released),
            Some(slot) => Ok(slot.len),
        }
    }
}

proof fn lemma_stored(table: Table, slot: Slot)
    requires
        table.wf(),
        slot_fits(slot),
        table.slots.len() < usize::MAX,
    ensures
        table.stored(slot).wf(),
        0 <= table.next() <= table.slots.len(),
{
    let after = table.stored(slot);
    if table.free.len() > 0 {
        let at = table.free.last();
        assert(table.free[table.free.len() - 1] == at);
        assert forall|i: int|
            0 <= i < after.slots.len() && #[trigger] after.slots[i] is None implies after.free.contains(
            i as usize,
        ) by {
            assert(table.slots[i] is None);
            let j = table.free.index_of(i as usize);
            assert(table.free[j] == i as usize);
            assert(j < after.free.len());
            assert(after.free[j] == i as usize);
        }
        assert forall|i: int| 0 <= i < after.free.len() implies #[trigger] after.free[i]
            < after.slots.len() && after.slots[after.free[i] as int] is None by {
            assert(after.free[i] == table.free[i]);
            assert(table.free[i] != table.free[table.free.len() - 1]);
        }
    } else {
        assert forall|i: int|
            0 <= i < after.slots.len() && #[trigger] after.slots[i] is None implies after.free.contains(
            i as usize,
        ) by {
            assert(table.slots[i] is None);
        }
    }
}

proof fn lemma_discarded(table: Table, handle: int)
    requires
        table.wf(),
    ensures
        table.discarded(handle).wf(),
{
    let after = table.discarded(handle);
    if table.get(handle) is Some {
        let n = table.free.len() as int;
        assert forall|i: int|
            0 <= i < after.slots.len() && #[trigger] after.slots[i] is None implies after.free.contains(
            i as usize,
        ) by {
            if i == handle {
                assert(after.free[n] == i as usize);
            } else {
                assert(table.slots[i] is None);
                let j = table.free.index_of(i as usize);
                assert(after.free[j] == i as usize);
            }
        }
        assert forall|i: int, j: int| 0 <= i < j < after.free.len() implies #[trigger] after.free[i]
            != #[trigger] after.free[j] by {
            assert(after.free[i] == table.free[i]);
            if j < n {
                assert(after.free[j] == table.free[j]);
            }
        }
        assert forall|i: int| 0 <= i < after.free.len() implies #[trigger] after.free[i]
            < after.slots.len() && after.slots[after.free[i] as int] is None by {
            if i < n {
                assert(after.free[i] == table.free[i]);
            }
        }
    }
}

/// A stored region is found under its handle, and no other handle moves.
pub proof fn storing_touches_one_handle(table: Table, slot: Slot, other: int)
    requires
        table.wf(),
        slot_fits(slot),
        table.slots.len() < usize::MAX,
        other != table.next(),
    ensures
        table.get(table.next()) is None,
        table.stored(slot).get(table.next()) == Some(slot),
        table.stored(slot).get(other) == table.get(other),
{
    lemma_stored(table, slot);
    if table.free.len() > 0 {
        assert(table.free[table.free.len() - 1] == table.free.last());
    }
}

/// A handle given back is the next one handed out.
pub proof fn a_released_handle_is_reused(table: Table, handle: int)
    requires
        table.wf(),
        table.get(handle) is Some,
    ensures
        table.discarded(handle).get(handle) is None,
        table.discarded(handle).next() == handle,
        forall|other: int|
            other != handle ==> #[trigger] table.discarded(handle).get(other) == table.get(other),
{
}

/// Giving a handle back twice is giving it back once.
pub proof fn releasing_twice_releases_once(table: Table, handle: int)
    ensures
        table.discarded(handle).discarded(handle) == table.discarded(handle),
{
}

/// Slots a pass's transient activations share.
pub const RING: usize = 4;

/// A quantized activation that is not whole blocks.
#[derive(Clone, Copy, PartialEq, Eq, Structural, Debug)]
pub struct ActError {
    pub k: usize,
}

pub const E_ACT: &'static str = "a quantized activation needs k ($0) to be a multiple of 32";

impl ActError {
    pub fn message(self) -> (s: String)
        ensures
            s@ == text::filled(E_ACT@, seq![text::decimal(self.k as nat)]),
    {
        Args::new().num(self.k).fill(E_ACT)
    }
}

/// The bytes and scales of a slot.
#[derive(Clone, Copy, PartialEq, Eq, Structural, Debug)]
pub struct ActSize {
    pub bytes: usize,
    pub scales: usize,
}

/// What a pass's activations take: where the ring and the exclusive slots are,
/// and the size of every slot.
pub struct ActSlots {
    pub ring: usize,
    pub next: usize,
    pub sizes: Vec<ActSize>,
}

/// What has to be allocated for a slot: small ones for the gap before it, then
/// the slot at its size. The recording has to be spent first, since growing
/// frees what its launches point at.
#[derive(Clone, Copy, PartialEq, Eq, Structural, Debug)]
pub struct Grow {
    pub gap: usize,
    pub size: ActSize,
}

pub open spec fn act_size(m: nat, k: nat) -> ActSize {
    ActSize { bytes: (m * k) as usize, scales: (m * (k / 32)) as usize }
}

/// Whether a slot holds `m` rows of `k`.
pub open spec fn act_holds(sizes: Seq<ActSize>, at: int, m: nat, k: nat) -> bool {
    0 <= at < sizes.len() && sizes[at].bytes >= m * k && sizes[at].scales >= m * (k / 32)
}

/// The sizes once a slot is grown, the gap before it filled with small ones.
pub open spec fn grown(sizes: Seq<ActSize>, at: int, size: ActSize) -> Seq<ActSize> {
    if at < sizes.len() {
        sizes.update(at, size)
    } else {
        (sizes + Seq::new(
            (at - sizes.len()) as nat,
            |i: int| ActSize { bytes: 1, scales: 1 },
        )).push(size)
    }
}

/// What taking a slot comes to: refused where `k` is not whole blocks, as it is
/// where it holds the rows, grown otherwise.
pub open spec fn takes(
    before: Seq<ActSize>,
    after: Seq<ActSize>,
    at: int,
    m: nat,
    k: nat,
    grow: Result<Option<Grow>, ActError>,
) -> bool {
    match grow {
        Err(e) => k % 32 != 0 && e.k == k && after == before,
        Ok(None) => k % 32 == 0 && act_holds(before, at, m, k) && after == before,
        Ok(Some(g)) => {
            &&& k % 32 == 0
            &&& !act_holds(before, at, m, k)
            &&& g.size == act_size(m, k)
            &&& g.gap == (if at > before.len() {
                at - before.len()
            } else {
                0
            })
            &&& after == grown(before, at, g.size)
        },
    }
}

impl ActSlots {
    pub open spec fn wf(self) -> bool {
        self.ring < 4
    }

    pub fn new() -> (slots: ActSlots)
        ensures
            slots.wf(),
            slots.ring == 0,
            slots.next == 0,
            slots.sizes@ == Seq::<ActSize>::empty(),
    {
        ActSlots { ring: 0, next: 0, sizes: Vec::new() }
    }

    /// The slot at `at`, grown where it is too small.
    pub fn act_slot_at(&mut self, at: usize, m: usize, k: usize) -> (grow: Result<
        Option<Grow>,
        ActError,
    >)
        requires
            m * k <= usize::MAX,
            at < usize::MAX,
        ensures
            final(self).ring == old(self).ring,
            final(self).next == old(self).next,
            takes(old(self).sizes@, final(self).sizes@, at as int, m as nat, k as nat, grow),
    {
        if k % Q8_BLOCK != 0 {
            return Err(ActError { k });
        }
        let blocks: usize = k / Q8_BLOCK;
        assert(0 <= m * blocks <= m * k) by (nonlinear_arith)
            requires
                0 <= m,
                0 <= blocks <= k,
        ;
        let size = ActSize { bytes: m * k, scales: m * blocks };
        let before: usize = self.sizes.len();
        let ghost sizes = self.sizes@;
        if at < before && self.sizes[at].bytes >= size.bytes && self.sizes[at].scales
            >= size.scales {
            return Ok(None);
        }
        while self.sizes.len() < at
            invariant
                before <= self.sizes@.len(),
                before <= at ==> self.sizes@.len() <= at,
                sizes.len() == before,
                at < before ==> self.sizes@ == sizes,
                self.ring == old(self).ring,
                self.next == old(self).next,
                self.sizes@ == sizes + Seq::new(
                    (self.sizes@.len() - before) as nat,
                    |i: int| ActSize { bytes: 1, scales: 1 },
                ),
            decreases at - self.sizes@.len(),
        {
            let ghost now = self.sizes@;
            self.sizes.push(ActSize { bytes: 1, scales: 1 });
            assert(self.sizes@ =~= sizes + Seq::new(
                (self.sizes@.len() - before) as nat,
                |i: int| ActSize { bytes: 1, scales: 1 },
            ));
        }
        if at == self.sizes.len() {
            self.sizes.push(size);
        } else {
            self.sizes.set(at, size);
        }
        assert(self.sizes@ =~= grown(sizes, at as int, size));
        Ok(
            Some(
                Grow {
                    gap: if at > before {
                        at - before
                    } else {
                        0
                    },
                    size,
                },
            ),
        )
    }

    /// A slot for an activation nothing outlives: one of the ring, the next
    /// each time.
    pub fn act_slot_transient(&mut self, m: usize, k: usize) -> (taken: (
        QAct,
        Result<Option<Grow>, ActError>,
    ))
        requires
            old(self).wf(),
            m * k <= usize::MAX,
        ensures
            final(self).wf(),
            taken.0.0 == old(self).ring,
            final(self).ring == (old(self).ring + 1) % 4,
            final(self).next == (if old(self).next < 4 {
                4
            } else {
                old(self).next
            }),
            takes(
                old(self).sizes@,
                final(self).sizes@,
                taken.0.0 as int,
                m as nat,
                k as nat,
                taken.1,
            ),
    {
        let at: usize = self.ring;
        self.ring = (at + 1) % RING;
        if self.next < RING {
            self.next = RING;
        }
        let grow = self.act_slot_at(at, m, k);
        (QAct(at), grow)
    }

    /// A slot of its own, past the ring.
    pub fn act_slot(&mut self, m: usize, k: usize) -> (taken: (
        QAct,
        Result<Option<Grow>, ActError>,
    ))
        requires
            old(self).wf(),
            m * k <= usize::MAX,
            old(self).next < usize::MAX - 1,
        ensures
            final(self).wf(),
            final(self).ring == old(self).ring,
            taken.0.0 == (if old(self).next < 4 {
                4
            } else {
                old(self).next
            }),
            final(self).next == taken.0.0 + 1,
            takes(
                old(self).sizes@,
                final(self).sizes@,
                taken.0.0 as int,
                m as nat,
                k as nat,
                taken.1,
            ),
    {
        let at: usize = if self.next < RING {
            RING
        } else {
            self.next
        };
        self.next = at + 1;
        let grow = self.act_slot_at(at, m, k);
        (QAct(at), grow)
    }
}

/// A slot that was taken holds the rows it was taken for.
pub proof fn a_taken_slot_holds(
    before: Seq<ActSize>,
    after: Seq<ActSize>,
    at: int,
    m: nat,
    k: nat,
    grow: Result<Option<Grow>, ActError>,
)
    requires
        0 <= at,
        m * k <= usize::MAX,
        takes(before, after, at, m, k, grow),
        grow is Ok,
    ensures
        act_holds(after, at, m, k),
{
    assert(m * (k / 32) <= m * k) by (nonlinear_arith)
        requires
            0 <= m,
            0 <= k,
    ;
}

/// A grown slot holds what it was grown for, and no other slot shrinks.
pub proof fn growing_keeps_the_others(sizes: Seq<ActSize>, at: int, m: nat, k: nat, other: int)
    requires
        0 <= at,
        m * k <= usize::MAX,
        0 <= other < sizes.len(),
        other != at,
    ensures
        act_holds(grown(sizes, at, act_size(m, k)), at, m, k),
        grown(sizes, at, act_size(m, k))[other] == sizes[other],
{
    assert(m * (k / 32) <= m * k) by (nonlinear_arith)
        requires
            0 <= m,
            0 <= k,
    ;
}

/// Whether a pool has room for a plan's value.
pub open spec fn scratch_fits(pool: Seq<ActSize>, at: int, need: Scratch) -> bool {
    at < pool.len() && pool[at].bytes >= need.bytes && pool[at].scales >= need.scales
}

/// The values of a plan a pool has no room for, in order.
pub open spec fn wanting(pool: Seq<ActSize>, need: Seq<Scratch>) -> Seq<usize>
    decreases need.len(),
{
    if need.len() == 0 {
        Seq::empty()
    } else {
        let at = need.len() - 1;
        if scratch_fits(pool, at, need.last()) {
            wanting(pool, need.drop_last())
        } else {
            wanting(pool, need.drop_last()).push(at as usize)
        }
    }
}

/// The scratch a plan wants grown. Where there is any, the recording has to be
/// spent first.
pub fn grow_scratch(pool: &[ActSize], need: &[Scratch]) -> (grow: Vec<usize>)
    ensures
        grow@ == wanting(pool@, need@),
{
    let mut grow: Vec<usize> = Vec::new();
    let mut at: usize = 0;
    assert(need@.take(0) =~= Seq::empty());
    while at < need.len()
        invariant
            at <= need@.len(),
            grow@ == wanting(pool@, need@.take(at as int)),
        decreases need@.len() - at,
    {
        let ghost head = need@.take(at as int + 1);
        assert(head.drop_last() =~= need@.take(at as int));
        assert(head.last() == need@[at as int]);
        let fits = at < pool.len() && pool[at].bytes >= need[at].bytes && pool[at].scales
            >= need[at].scales;
        if !fits {
            grow.push(at);
        }
        at = at + 1;
    }
    assert(need@.take(at as int) =~= need@);
    grow
}

/// Nothing wants growing exactly where everything fits.
pub proof fn nothing_grows_where_all_fits(pool: Seq<ActSize>, need: Seq<Scratch>)
    ensures
        wanting(pool, need).len() == 0 <==> forall|at: int|
            0 <= at < need.len() ==> scratch_fits(pool, at, #[trigger] need[at]),
    decreases need.len(),
{
    if need.len() > 0 {
        nothing_grows_where_all_fits(pool, need.drop_last());
        let n = need.len() - 1;
        if forall|at: int| 0 <= at < n ==> scratch_fits(pool, at, #[trigger] need.drop_last()[at]) {
            assert forall|at: int| 0 <= at < n implies scratch_fits(pool, at, #[trigger] need[at]) by {
                assert(need.drop_last()[at] == need[at]);
            }
        } else {
            let at = choose|at: int|
                0 <= at < n && !scratch_fits(pool, at, #[trigger] need.drop_last()[at]);
            assert(!scratch_fits(pool, at, need[at]));
        }
    }
}

/// Whether the partial sums of a split want more room than there is.
pub fn partials_grow(held: Option<usize>, len: usize) -> (grow: bool)
    ensures
        grow == (match held {
            Some(n) => n < len,
            None => true,
        }),
{
    match held {
        Some(n) => n < len,
        None => true,
    }
}

/// Whether the partials of a split attention want more room: `rows` of
/// `head_dim`, and their maxima and sums.
pub fn attn_grow(held: Option<ActSize>, rows: usize, head_dim: usize) -> (grow: bool)
    requires
        rows * head_dim <= usize::MAX,
        2 * rows <= usize::MAX,
    ensures
        grow == (match held {
            Some(size) => size.bytes < rows * head_dim || size.scales < 2 * rows,
            None => true,
        }),
{
    match held {
        Some(size) => size.bytes < rows * head_dim || size.scales < 2 * rows,
        None => true,
    }
}

/// What asking for the shared dense scratch comes to.
#[derive(Clone, Copy, PartialEq, Eq, Structural, Debug)]
pub enum DenseScratch {
    /// Scratch of its own, not kept.
    Own,
    Reuse,
    /// Drain the stream and give the old one back first: launches that read it
    /// may not have run.
    Replace,
    First,
}

pub fn dense_scratch(shared: bool, held: Option<usize>, len: usize) -> (what: DenseScratch)
    ensures
        what == (if !shared {
            DenseScratch::Own
        } else {
            match held {
                None => DenseScratch::First,
                Some(n) => if n >= len {
                    DenseScratch::Reuse
                } else {
                    DenseScratch::Replace
                },
            }
        }),
{
    if !shared {
        return DenseScratch::Own;
    }
    match held {
        None => DenseScratch::First,
        Some(n) => {
            if n >= len {
                DenseScratch::Reuse
            } else {
                DenseScratch::Replace
            }
        },
    }
}

/// Where an allocation's memory comes from.
#[derive(Clone, Copy, PartialEq, Eq, Structural, Debug)]
pub enum Source {
    /// The pool, which hands released memory out again.
    Pool,
    /// The driver: memory that nothing has held.
    Fresh,
}

/// Where memory comes from that is written at once rather than from the stream.
/// While a pass is being recorded, launches that have not run may still read
/// what the pool holds.
pub fn alloc_written_now(recording: bool) -> (source: Source)
    ensures
        source == (if recording {
            Source::Fresh
        } else {
            Source::Pool
        }),
{
    if recording {
        Source::Fresh
    } else {
        Source::Pool
    }
}

/// The bits of an `n` by `n` identity, row-major.
pub fn identity(n: usize) -> (entries: Vec<u32>)
    requires
        n * n <= usize::MAX,
    ensures
        entries@.len() == n * n,
        forall|r: int, c: int|
            0 <= r < n && 0 <= c < n ==> #[trigger] entries@[r * n + c] == (if r == c {
                0x3f80_0000u32
            } else {
                0
            }),
{
    let mut entries: Vec<u32> = Vec::new();
    let mut r: usize = 0;
    while r < n
        invariant
            r <= n,
            n * n <= usize::MAX,
            entries@.len() == r * n,
            forall|a: int, c: int|
                0 <= a < r && 0 <= c < n ==> #[trigger] entries@[a * n + c] == (if a == c {
                    0x3f80_0000u32
                } else {
                    0
                }),
        decreases n - r,
    {
        let ghost done = entries@;
        let mut c: usize = 0;
        while c < n
            invariant
                c <= n,
                r < n,
                entries@.len() == r * n + c,
                done.len() == r * n,
                forall|i: int| 0 <= i < done.len() ==> #[trigger] entries@[i] == done[i],
                forall|b: int|
                    0 <= b < c ==> #[trigger] entries@[r * n + b] == (if r == b {
                        0x3f80_0000u32
                    } else {
                        0
                    }),
            decreases n - c,
        {
            entries.push(
                if r == c {
                    0x3f80_0000
                } else {
                    0
                },
            );
            c = c + 1;
        }
        proof {
            assert((r + 1) * n == r * n + n) by (nonlinear_arith);
            assert forall|a: int, b: int| 0 <= a < r + 1 && 0 <= b < n implies #[trigger] entries@[a
                * n + b] == (if a == b {
                0x3f80_0000u32
            } else {
                0
            }) by {
                if a < r {
                    assert(0 <= a * n + b < r * n) by (nonlinear_arith)
                        requires
                            0 <= a,
                            a + 1 <= r,
                            0 <= b < n,
                    ;
                    assert(entries@[a * n + b] == done[a * n + b]);
                }
            }
        }
        r = r + 1;
    }
    entries
}

/// Whether a destination is none of its sources: the kernels do not tolerate
/// one that shares storage with a source.
pub fn check_distinct(dst: Buf, sources: &[Buf]) -> (yes: bool)
    ensures
        yes == !sources@.contains(dst),
{
    let mut i: usize = 0;
    while i < sources.len()
        invariant
            i <= sources@.len(),
            forall|j: int| 0 <= j < i ==> #[trigger] sources@[j] != dst,
        decreases sources@.len() - i,
    {
        if sources[i] == dst {
            assert(sources@[i as int] == dst);
            return false;
        }
        i = i + 1;
    }
    true
}

} // verus!
