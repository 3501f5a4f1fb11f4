//! What a device's memory goes to, and when a pass hands some of it back.

use vstd::prelude::*;

use crate::backend::device::memory::ActSize;
use crate::single::{self, nearest_to};
use crate::text::{self, Args};

verus! {

broadcast use crate::text::lemma_filled_args;

/// Bytes below which a count of them is exact in double precision.
pub const EXACT: u64 = 0x20_0000_0000_0000;

pub const MIB: u64 = 0x10_0000;

/// Bytes in whole mebibytes, the nearest.
pub open spec fn mib(bytes: nat) -> Seq<char> {
    text::decimal(single::nearest(bytes, 0x10_0000))
}

/// Bytes in mebibytes with one decimal.
pub open spec fn mib_tenths(bytes: nat) -> Seq<char> {
    let tenths = single::nearest(10 * bytes, 0x10_0000);
    text::decimal(tenths / 10) + "."@ + text::decimal(tenths % 10)
}

pub fn mib_text(bytes: u64) -> (s: String)
    requires
        bytes < EXACT,
    ensures
        s@ == mib(bytes as nat),
{
    text::decimal_text(nearest_to(bytes as u128, MIB as u128))
}

pub fn mib_tenths_text(bytes: u64) -> (s: String)
    requires
        bytes < EXACT,
    ensures
        s@ == mib_tenths(bytes as nat),
{
    let tenths: u128 = nearest_to(10 * bytes as u128, MIB as u128);
    let mut s = text::decimal_text(tenths / 10);
    s.append(".");
    s.append(text::decimal_text(tenths % 10).as_str());
    s
}

/// The sum of a list.
pub open spec fn total(items: Seq<nat>) -> nat
    decreases items.len(),
{
    if items.len() == 0 {
        0
    } else {
        total(items.drop_last()) + items.last()
    }
}

proof fn lemma_total(items: Seq<nat>, i: int)
    requires
        0 <= i < items.len(),
    ensures
        total(items.take(i)) + items[i] == total(items.take(i + 1)),
        total(items.take(i + 1)) <= total(items),
        items[i] <= total(items),
    decreases items.len() - i,
{
    let next = items.take(i + 1);
    assert(next.drop_last() =~= items.take(i));
    if i + 1 < items.len() {
        lemma_total(items, i + 1);
    } else {
        assert(next =~= items);
    }
}

/// What an arena holds and has handed out, and the slabs it is in.
#[derive(Clone, Copy, PartialEq, Eq, Structural, Debug)]
pub struct ArenaUse {
    pub held: u64,
    pub used: u64,
    pub slabs: usize,
}

/// A Q8_0 weight outside the arena.
#[derive(Clone, Copy, PartialEq, Eq, Structural, Debug)]
pub struct OwnedQuant {
    pub bytes: usize,
    pub scales: usize,
    pub row_scales: usize,
}

/// What a device holds.
pub struct Accounts {
    /// Elements of each live handle's buffer.
    pub slots: Vec<Option<usize>>,
    pub constants: usize,
    pub quants: usize,
    pub raws: usize,
    pub arena: ArenaUse,
    pub hot: ArenaUse,
    pub state: ArenaUse,
    pub act: Vec<ActSize>,
    pub fused: Vec<ActSize>,
    pub owned: Vec<OwnedQuant>,
}

pub open spec fn slot_bytes(slots: Seq<Option<usize>>) -> Seq<nat> {
    Seq::new(
        slots.len(),
        |i: int|
            match slots[i] {
                Some(len) => 4 * len as nat,
                None => 0,
            },
    )
}

pub open spec fn pair_bytes(pairs: Seq<ActSize>) -> Seq<nat> {
    Seq::new(pairs.len(), |i: int| (pairs[i].bytes + 4 * pairs[i].scales) as nat)
}

pub open spec fn owned_bytes(owned: Seq<OwnedQuant>) -> Seq<nat> {
    Seq::new(
        owned.len(),
        |i: int| (owned[i].bytes + 4 * owned[i].scales + 4 * owned[i].row_scales) as nat,
    )
}

/// How many handles are live.
pub open spec fn live_count(slots: Seq<Option<usize>>) -> nat
    decreases slots.len(),
{
    if slots.len() == 0 {
        0
    } else {
        live_count(slots.drop_last()) + if slots.last() is Some {
            1nat
        } else {
            0
        }
    }
}

impl Accounts {
    pub open spec fn live(self) -> nat {
        total(slot_bytes(self.slots@))
    }

    /// Everything accounted for.
    pub open spec fn accounted(self) -> nat {
        self.arena.held as nat + self.state.held as nat + self.hot.held as nat + total(
            owned_bytes(self.owned@),
        ) + total(pair_bytes(self.act@)) + total(pair_bytes(self.fused@)) + self.live()
    }

    /// Every figure is one double precision holds exactly.
    pub open spec fn exact(self) -> bool {
        &&& self.accounted() < EXACT
        &&& self.arena.used < EXACT
        &&& self.hot.used < EXACT
        &&& self.state.used < EXACT
    }
}

/// A run of elements, and its place in the list it was counted in.
#[derive(Clone, Copy, PartialEq, Eq, Structural, Debug)]
pub struct Held {
    pub len: usize,
    pub handle: usize,
}

/// The live buffers of at least `floor` bytes, in the order of their handles.
pub open spec fn held(slots: Seq<Option<usize>>, floor: nat) -> Seq<Held>
    decreases slots.len(),
{
    if slots.len() == 0 {
        Seq::empty()
    } else {
        let before = held(slots.drop_last(), floor);
        match slots.last() {
            Some(len) if 4 * len >= floor => before.push(
                Held { len, handle: (slots.len() - 1) as usize },
            ),
            _ => before,
        }
    }
}

/// Whether a list is another in order of size, the largest first.
pub open spec fn is_ranking(ranked: Seq<Held>, of: Seq<Held>) -> bool {
    &&& ranked.to_multiset() == of.to_multiset()
    &&& forall|i: int, j: int|
        0 <= i < j < ranked.len() ==> (#[trigger] ranked[i]).len >= (#[trigger] ranked[j]).len
}

fn held_of(slots: &[Option<usize>], floor: u64) -> (list: Vec<Held>)
    requires
        total(slot_bytes(slots@)) < EXACT,
    ensures
        list@ == held(slots@, floor as nat),
{
    let mut list: Vec<Held> = Vec::new();
    let mut i: usize = 0;
    assert(slots@.take(0) =~= Seq::empty());
    while i < slots.len()
        invariant
            i <= slots@.len(),
            total(slot_bytes(slots@)) < EXACT,
            list@ == held(slots@.take(i as int), floor as nat),
        decreases slots@.len() - i,
    {
        let ghost head = slots@.take(i as int + 1);
        proof {
            assert(head.drop_last() =~= slots@.take(i as int));
            lemma_total(slot_bytes(slots@), i as int);
        }
        if let Some(len) = slots[i] {
            if 4 * len as u64 >= floor {
                list.push(Held { len, handle: i });
            }
        }
        i = i + 1;
    }
    assert(slots@.take(i as int) =~= slots@);
    list
}

/// A list in order of size, the largest first.
fn ranked(list: Vec<Held>) -> (sorted: Vec<Held>)
    ensures
        is_ranking(sorted@, list@),
{
    broadcast use vstd::seq_lib::group_to_multiset_ensures;

    let mut sorted: Vec<Held> = Vec::new();
    let mut i: usize = 0;
    assert(list@.take(0) =~= Seq::empty());
    while i < list.len()
        invariant
            i <= list@.len(),
            is_ranking(sorted@, list@.take(i as int)),
        decreases list@.len() - i,
    {
        let one = list[i];
        let mut at: usize = 0;
        while at < sorted.len() && sorted[at].len >= one.len
            invariant
                at <= sorted@.len(),
                forall|j: int| 0 <= j < at ==> (#[trigger] sorted@[j]).len >= one.len,
            decreases sorted@.len() - at,
        {
            at = at + 1;
        }
        let ghost before = sorted@;
        sorted.insert(at, one);
        proof {
            assert(list@.take(i as int + 1) =~= list@.take(i as int).push(one));
            vstd::seq_lib::to_multiset_build(list@.take(i as int), one);
            assert(sorted@ =~= before.insert(at as int, one));
            assert(sorted@.to_multiset() =~= before.to_multiset().insert(one)) by {
                vstd::seq_lib::to_multiset_insert(before, at as int, one);
            }
            assert forall|a: int, b: int| 0 <= a < b < sorted@.len() implies (
            #[trigger] sorted@[a]).len >= (#[trigger] sorted@[b]).len by {
                if b < at {
                    assert(sorted@[a] == before[a] && sorted@[b] == before[b]);
                } else if a > at {
                    assert(sorted@[a] == before[a - 1] && sorted@[b] == before[b - 1]);
                } else if a < at && b > at {
                    assert(sorted@[a] == before[a] && sorted@[b] == before[b - 1]);
                } else if a == at {
                    assert(sorted@[b] == before[b - 1]);
                    assert(before[at as int].len < one.len);
                    if b - 1 > at {
                        assert(before[at as int].len >= before[b - 1].len);
                    }
                } else {
                    assert(sorted@[a] == before[a]);
                }
            }
        }
        i = i + 1;
        assert(is_ranking(sorted@, list@.take(i as int)));
    }
    assert(list@.take(i as int) =~= list@);
    sorted
}

fn live_total(slots: &[Option<usize>]) -> (sum: u64)
    requires
        total(slot_bytes(slots@)) < EXACT,
    ensures
        sum == total(slot_bytes(slots@)),
{
    let mut sum: u64 = 0;
    let mut i: usize = 0;
    let ghost items = slot_bytes(slots@);
    assert(items.take(0) =~= Seq::empty());
    while i < slots.len()
        invariant
            i <= slots@.len(),
            items == slot_bytes(slots@),
            total(items) < EXACT,
            sum == total(items.take(i as int)),
        decreases slots@.len() - i,
    {
        proof {
            lemma_total(items, i as int);
        }
        if let Some(len) = slots[i] {
            sum = sum + 4 * len as u64;
        }
        i = i + 1;
    }
    assert(items.take(i as int) =~= items);
    sum
}

fn pair_total(pairs: &[ActSize]) -> (sum: u64)
    requires
        total(pair_bytes(pairs@)) < EXACT,
    ensures
        sum == total(pair_bytes(pairs@)),
{
    let mut sum: u64 = 0;
    let mut i: usize = 0;
    let ghost items = pair_bytes(pairs@);
    assert(items.take(0) =~= Seq::empty());
    while i < pairs.len()
        invariant
            i <= pairs@.len(),
            items == pair_bytes(pairs@),
            total(items) < EXACT,
            sum == total(items.take(i as int)),
        decreases pairs@.len() - i,
    {
        proof {
            lemma_total(items, i as int);
        }
        sum = sum + (pairs[i].bytes as u64 + 4 * pairs[i].scales as u64);
        i = i + 1;
    }
    assert(items.take(i as int) =~= items);
    sum
}

fn owned_total(owned: &[OwnedQuant]) -> (sum: u64)
    requires
        total(owned_bytes(owned@)) < EXACT,
    ensures
        sum == total(owned_bytes(owned@)),
{
    let mut sum: u64 = 0;
    let mut i: usize = 0;
    let ghost items = owned_bytes(owned@);
    assert(items.take(0) =~= Seq::empty());
    while i < owned.len()
        invariant
            i <= owned@.len(),
            items == owned_bytes(owned@),
            total(items) < EXACT,
            sum == total(items.take(i as int)),
        decreases owned@.len() - i,
    {
        proof {
            lemma_total(items, i as int);
        }
        let one = owned[i];
        sum = sum + (one.bytes as u64 + 4 * one.scales as u64 + 4 * one.row_scales as u64);
        i = i + 1;
    }
    assert(items.take(i as int) =~= items);
    sum
}

fn count_live(slots: &[Option<usize>]) -> (n: usize)
    ensures
        n == live_count(slots@),
{
    let mut n: usize = 0;
    let mut i: usize = 0;
    assert(slots@.take(0) =~= Seq::empty());
    while i < slots.len()
        invariant
            i <= slots@.len(),
            n <= i,
            n == live_count(slots@.take(i as int)),
        decreases slots@.len() - i,
    {
        let ghost head = slots@.take(i as int + 1);
        assert(head.drop_last() =~= slots@.take(i as int));
        assert(head.last() == slots@[i as int]);
        if slots[i].is_some() {
            n = n + 1;
        }
        i = i + 1;
    }
    assert(slots@.take(i as int) =~= slots@);
    n
}

/// Bytes of the buffers of a list.
pub open spec fn held_bytes(list: Seq<Held>) -> Seq<nat> {
    Seq::new(list.len(), |i: int| 4 * list[i].len as nat)
}

/// The first buffers of a list in whole mebibytes, rounded down.
pub open spec fn first_mib(list: Seq<Held>, n: nat) -> Seq<u64> {
    Seq::new(
        if list.len() < n {
            list.len()
        } else {
            n
        },
        |i: int| (4 * list[i].len / 0x10_0000) as u64,
    )
}

pub const BIG: &'static str =
    "[vram]   live buffers over 1 MiB: $0 of them, $1 MiB; largest $2 MiB";

pub const NAMED: &'static str = "#$0 $1 f32 = $2 MiB";

pub const NAMED_LINE: &'static str = "[vram]   slots over 8 MiB: $0";

pub const HANDLES: &'static str =
    "[vram]   handles: $0 constants, $1 quants, $2 raw, $3 slabs, $4 hot slabs";

pub const STATE: &'static str =
    "[vram]   state $0 MiB ($1 used) in $2 slabs | hot $3 ($4) | owned quants $5 MiB | accounted $6 MiB";

pub const LIVE: &'static str =
    "[vram]   live $0 bufs $1 MiB | arena $2 MiB ($3 used) in $4 slabs (+$5 hot) | act $6 | fused $7 MiB";

/// The line on buffers of a mebibyte and more, given them in order of size.
pub open spec fn big_line(list: Seq<Held>) -> Seq<char> {
    text::filled(
        BIG@,
        seq![
            text::decimal(list.len()),
            mib(total(held_bytes(list))),
            text::listed(first_mib(list, 6)),
        ],
    )
}

pub open spec fn named(one: Held) -> Seq<char> {
    text::filled(
        NAMED@,
        seq![
            text::decimal(one.handle as nat),
            text::decimal(one.len as nat),
            mib(4 * one.len as nat),
        ],
    )
}

/// Texts in quotes, a comma and a blank between them.
pub open spec fn quoted(items: Seq<Seq<char>>) -> Seq<char>
    decreases items.len(),
{
    if items.len() == 0 {
        Seq::empty()
    } else {
        let one = "\""@ + items.last() + "\""@;
        if items.len() == 1 {
            one
        } else {
            quoted(items.drop_last()) + ", "@ + one
        }
    }
}

/// The line on the largest buffers by handle, given those of eight mebibytes
/// and more in order of size.
pub open spec fn named_line(list: Seq<Held>) -> Seq<char> {
    let first = if list.len() < 8 {
        list
    } else {
        list.take(8)
    };
    text::filled(
        NAMED_LINE@,
        seq!["["@ + quoted(first.map_values(|one: Held| named(one))) + "]"@],
    )
}

pub open spec fn handles_line(a: Accounts) -> Seq<char> {
    text::filled(
        HANDLES@,
        seq![
            text::decimal(a.constants as nat),
            text::decimal(a.quants as nat),
            text::decimal(a.raws as nat),
            text::decimal(a.arena.slabs as nat),
            text::decimal(a.hot.slabs as nat),
        ],
    )
}

pub open spec fn state_line(a: Accounts) -> Seq<char> {
    text::filled(
        STATE@,
        seq![
            mib(a.state.held as nat),
            mib(a.state.used as nat),
            text::decimal(a.state.slabs as nat),
            mib(a.hot.held as nat),
            mib(a.hot.used as nat),
            mib(total(owned_bytes(a.owned@))),
            mib(a.accounted()),
        ],
    )
}

pub open spec fn live_line(a: Accounts) -> Seq<char> {
    text::filled(
        LIVE@,
        seq![
            text::decimal(live_count(a.slots@)),
            mib(a.live()),
            mib(a.arena.held as nat),
            mib(a.arena.used as nat),
            text::decimal(a.arena.slabs as nat),
            text::decimal(a.hot.slabs as nat),
            mib(total(pair_bytes(a.act@))),
            mib(total(pair_bytes(a.fused@))),
        ],
    )
}

proof fn lemma_held(slots: Seq<Option<usize>>, floor: nat)
    ensures
        total(held_bytes(held(slots, floor))) <= total(slot_bytes(slots)),
        forall|i: int|
            0 <= i < held(slots, floor).len() ==> 4 * (#[trigger] held(slots, floor)[i]).len <= total(
                slot_bytes(slots),
            ),
    decreases slots.len(),
{
    if slots.len() > 0 {
        let head = slots.drop_last();
        lemma_held(head, floor);
        assert(slot_bytes(slots).drop_last() =~= slot_bytes(head));
        let list = held(slots, floor);
        let before = held(head, floor);
        if list != before {
            assert(held_bytes(list).drop_last() =~= held_bytes(before));
        }
    }
}

proof fn lemma_total_same(a: Seq<Held>, b: Seq<Held>)
    requires
        a.to_multiset() == b.to_multiset(),
    ensures
        total(held_bytes(a)) == total(held_bytes(b)),
    decreases a.len(),
{
    broadcast use vstd::seq_lib::group_to_multiset_ensures;

    if a.len() == 0 {
        assert(b.len() == b.to_multiset().len());
        assert(b.len() == 0);
        assert(held_bytes(a) =~= held_bytes(b));
    } else {
        let x = a.last();
        assert(a.to_multiset().contains(x)) by {
            assert(a.contains(x));
        }
        assert(b.contains(x));
        let i = b.index_of(x);
        let c = b.remove(i);
        vstd::seq_lib::to_multiset_remove(b, i);
        vstd::seq_lib::to_multiset_remove(a, a.len() - 1);
        assert(a.remove(a.len() - 1) =~= a.drop_last());
        lemma_total_same(a.drop_last(), c);
        assert(held_bytes(a).drop_last() =~= held_bytes(a.drop_last()));
        lemma_total_remove(b, i);
    }
}

proof fn lemma_total_remove(s: Seq<Held>, i: int)
    requires
        0 <= i < s.len(),
    ensures
        total(held_bytes(s)) == total(held_bytes(s.remove(i))) + 4 * s[i].len,
    decreases s.len(),
{
    let n = s.len() - 1;
    assert(held_bytes(s).drop_last() =~= held_bytes(s.drop_last()));
    if i == n {
        assert(s.remove(i) =~= s.drop_last());
    } else {
        lemma_total_remove(s.drop_last(), i);
        let r = s.remove(i);
        assert(r.drop_last() =~= s.drop_last().remove(i));
        assert(r.last() == s.last());
        assert(held_bytes(r).drop_last() =~= held_bytes(r.drop_last()));
    }
}

fn big_text(list: &[Held]) -> (s: String)
    requires
        total(held_bytes(list@)) < EXACT,
    ensures
        s@ == big_line(list@),
{
    let mut sum: u64 = 0;
    let mut first: Vec<u64> = Vec::new();
    let mut i: usize = 0;
    let ghost items = held_bytes(list@);
    assert(items.take(0) =~= Seq::empty());
    while i < list.len()
        invariant
            i <= list@.len(),
            items == held_bytes(list@),
            total(items) < EXACT,
            sum == total(items.take(i as int)),
            first@ == first_mib(list@.take(i as int), 6),
        decreases list@.len() - i,
    {
        proof {
            lemma_total(items, i as int);
        }
        let bytes: u64 = 4 * list[i].len as u64;
        sum = sum + bytes;
        if i < 6 {
            first.push(bytes / MIB);
        }
        i = i + 1;
        assert(first@ =~= first_mib(list@.take(i as int), 6));
    }
    assert(items.take(i as int) =~= items);
    assert(list@.take(i as int) =~= list@);
    let largest = text::list_text(first.as_slice());
    let sum_text = mib_text(sum);
    Args::new().num(list.len()).text(sum_text.as_str()).text(largest.as_str()).fill(BIG)
}

fn named_text(list: &[Held]) -> (s: String)
    requires
        total(held_bytes(list@)) < EXACT,
    ensures
        s@ == named_line(list@),
{
    let n: usize = if list.len() < 8 {
        list.len()
    } else {
        8
    };
    let mut s = "[".to_owned();
    let mut i: usize = 0;
    let ghost texts = list@.take(n as int).map_values(|one: Held| named(one));
    assert(texts.take(0) =~= Seq::empty());
    while i < n
        invariant
            i <= n <= list@.len(),
            total(held_bytes(list@)) < EXACT,
            texts == list@.take(n as int).map_values(|one: Held| named(one)),
            s@ == "["@ + quoted(texts.take(i as int)),
        decreases n - i,
    {
        proof {
            lemma_total(held_bytes(list@), i as int);
        }
        let one = list[i];
        let size = mib_text(4 * one.len as u64);
        let line = Args::new().num(one.handle).num(one.len).text(size.as_str()).fill(NAMED);
        let ghost head = texts.take(i as int + 1);
        assert(head.drop_last() =~= texts.take(i as int));
        assert(head.last() == named(one));
        let ghost before = s@;
        if i > 0 {
            s.append(", ");
        }
        s.append("\"");
        s.append(line.as_str());
        s.append("\"");
        assert(s@ =~= "["@ + quoted(head));
        i = i + 1;
    }
    assert(texts.take(i as int) =~= texts);
    assert(n < 8 ==> list@.take(n as int) =~= list@);
    s.append("]");
    Args::new().text(s.as_str()).fill(NAMED_LINE)
}

/// What the live buffers and the weights come to, line by line.
pub fn mark_buffers(a: &Accounts) -> (lines: Vec<String>)
    requires
        a.exact(),
    ensures
        lines@.len() == 5,
        exists|big: Seq<Held>| #[trigger]
            is_ranking(big, held(a.slots@, 0x10_0000)) && lines@[0]@ == big_line(big),
        exists|named: Seq<Held>| #[trigger]
            is_ranking(named, held(a.slots@, 0x80_0000)) && lines@[1]@ == named_line(named),
        lines@[2]@ == handles_line(*a),
        lines@[3]@ == state_line(*a),
        lines@[4]@ == live_line(*a),
{
    let slots = a.slots.as_slice();
    let live: u64 = live_total(slots);
    let live_n: usize = count_live(slots);
    proof {
        lemma_held(a.slots@, 0x10_0000);
        lemma_held(a.slots@, 0x80_0000);
    }
    let big = ranked(held_of(slots, MIB));
    proof {
        lemma_total_same(big@, held(a.slots@, 0x10_0000));
    }
    let big_text_line = big_text(big.as_slice());
    let largest = ranked(held_of(slots, 8 * MIB));
    proof {
        lemma_total_same(largest@, held(a.slots@, 0x80_0000));
    }
    let named_text_line = named_text(largest.as_slice());
    let handles = Args::new().num(a.constants).num(a.quants).num(a.raws).num(a.arena.slabs).num(
        a.hot.slabs,
    ).fill(HANDLES);
    let act: u64 = pair_total(a.act.as_slice());
    let fused: u64 = pair_total(a.fused.as_slice());
    let owned: u64 = owned_total(a.owned.as_slice());
    let all: u64 = a.arena.held + a.state.held + a.hot.held + owned + act + fused + live;
    let (t0, t1, t2, t3, t4, t5) = (
        mib_text(a.state.held),
        mib_text(a.state.used),
        mib_text(a.hot.held),
        mib_text(a.hot.used),
        mib_text(owned),
        mib_text(all),
    );
    let state = Args::new().text(t0.as_str()).text(t1.as_str()).num(a.state.slabs).text(
        t2.as_str(),
    ).text(t3.as_str()).text(t4.as_str()).text(t5.as_str()).fill(STATE);
    let (u0, u1, u2, u3, u4) = (
        mib_text(live),
        mib_text(a.arena.held),
        mib_text(a.arena.used),
        mib_text(act),
        mib_text(fused),
    );
    let live_text = Args::new().num(live_n).text(u0.as_str()).text(u1.as_str()).text(
        u2.as_str(),
    ).num(a.arena.slabs).num(a.hot.slabs).text(u3.as_str()).text(u4.as_str()).fill(LIVE);
    let mut lines: Vec<String> = Vec::new();
    lines.push(big_text_line);
    lines.push(named_text_line);
    lines.push(handles);
    lines.push(state);
    lines.push(live_text);
    assert(is_ranking(big@, held(a.slots@, 0x10_0000)));
    assert(is_ranking(largest@, held(a.slots@, 0x80_0000)));
    lines
}

/// The ranking's figures are those of the buffers, whatever order ties took.
pub proof fn a_ranking_adds_up(ranked: Seq<Held>, of: Seq<Held>)
    requires
        is_ranking(ranked, of),
    ensures
        ranked.len() == of.len(),
        total(held_bytes(ranked)) == total(held_bytes(of)),
{
    broadcast use vstd::seq_lib::group_to_multiset_ensures;

    lemma_total_same(ranked, of);
    assert(ranked.to_multiset().len() == of.to_multiset().len());
}

/// Counts a pass boundary. Free memory is reported at the first few, then at
/// every 32nd: the pass's number there.
pub fn mark_pass_vram(marks: &mut usize) -> (pass: Option<usize>)
    requires
        *old(marks) < usize::MAX,
    ensures
        *final(marks) == *old(marks) + 1,
        pass == (if *old(marks) < 4 || *old(marks) % 32 == 0 {
            Some(*old(marks))
        } else {
            None
        }),
{
    let n: usize = *marks;
    *marks = n + 1;
    if n < 4 || n % 32 == 0 {
        Some(n)
    } else {
        None
    }
}

/// Whether a prompt pass's buffers go back: once the pass shape moves on from
/// it. Passes of one length keep theirs: they are the next pass's buffers.
pub fn trim_after_prompt(last_rows: &mut usize, rows: usize) -> (yes: bool)
    ensures
        *final(last_rows) == rows,
        yes == (*old(last_rows) > 1 && *old(last_rows) != rows),
{
    let last: usize = *last_rows;
    *last_rows = rows;
    last > 1 && last != rows
}

/// Records that this pass took scratch no decode step has a use for.
pub fn note_dense_pass(filled: &mut bool)
    ensures
        *final(filled),
{
    *filled = true;
}

/// What the pass after one that took such scratch gives back.
#[derive(Clone, Copy, PartialEq, Eq, Structural, Debug)]
pub enum Trim {
    Nothing,
    /// The activation slots and the recorded pass.
    Slots,
    /// Those, the scratch and the free list.
    All,
}

pub fn trim_after_dense(filled: &mut bool, trim: bool) -> (what: Trim)
    ensures
        !*final(filled),
        what == (if !*old(filled) {
            Trim::Nothing
        } else if trim {
            Trim::All
        } else {
            Trim::Slots
        }),
{
    let expanded = *filled;
    *filled = false;
    if !expanded {
        Trim::Nothing
    } else if trim {
        Trim::All
    } else {
        Trim::Slots
    }
}

/// Allocations of one length taken, less those released.
#[derive(Clone, Copy, PartialEq, Eq, Structural, Debug)]
pub struct AllocCount {
    pub len: usize,
    pub n: isize,
}

/// What is counted of a length, zero where it was never counted.
pub open spec fn counted(counts: Seq<AllocCount>, len: usize) -> int {
    if exists|i: int| 0 <= i < counts.len() && (#[trigger] counts[i]).len == len {
        counts[choose|i: int| 0 <= i < counts.len() && (#[trigger] counts[i]).len == len].n as int
    } else {
        0
    }
}

/// The lengths released more often than taken: their elements, and their places
/// among the counts.
pub open spec fn freed(counts: Seq<AllocCount>) -> Seq<Held>
    decreases counts.len(),
{
    if counts.len() == 0 {
        Seq::empty()
    } else {
        let before = freed(counts.drop_last());
        let one = counts.last();
        if one.n < 0 {
            before.push(
                Held { len: (one.len * -one.n) as usize, handle: (counts.len() - 1) as usize },
            )
        } else {
            before
        }
    }
}

pub const FREE_LIST: &'static str = "[vram]   free list: $0 distinct lengths, $1 MiB";

pub const FREE_LINE: &'static str = "[vram]     $0 x $1 elements = $2 MiB";

pub open spec fn free_list_line(ranked: Seq<Held>) -> Seq<char> {
    text::filled(FREE_LIST@, seq![text::decimal(ranked.len()), mib(total(held_bytes(ranked)))])
}

pub open spec fn free_line(counts: Seq<AllocCount>, one: Held) -> Seq<char> {
    let count = counts[one.handle as int];
    text::filled(
        FREE_LINE@,
        seq![
            text::decimal((-count.n) as nat),
            text::decimal(count.len as nat),
            mib_tenths(4 * one.len as nat),
        ],
    )
}

/// The free list in lines, given its lengths in order of size: their number and
/// bytes, then the first eight of them.
pub open spec fn free_lines(
    counts: Seq<AllocCount>,
    ranked: Seq<Held>,
    lines: Seq<Seq<char>>,
) -> bool {
    &&& lines.len() == 1 + if ranked.len() < 8 {
        ranked.len() as int
    } else {
        8
    }
    &&& lines[0] == free_list_line(ranked)
    &&& forall|i: int|
        0 <= i < lines.len() - 1 ==> #[trigger] lines[i + 1] == free_line(counts, ranked[i])
}

/// Whether a run is a length released more often than taken.
pub open spec fn is_free(counts: Seq<AllocCount>, one: Held) -> bool {
    &&& one.handle < counts.len()
    &&& counts[one.handle as int].n < 0
    &&& one.len == (counts[one.handle as int].len * -counts[one.handle as int].n) as usize
}

proof fn lemma_freed(counts: Seq<AllocCount>)
    requires
        counts.len() <= usize::MAX,
    ensures
        forall|i: int|
            0 <= i < freed(counts).len() ==> is_free(counts, #[trigger] freed(counts)[i]),
    decreases counts.len(),
{
    if counts.len() > 0 {
        let head = counts.drop_last();
        lemma_freed(head);
        assert forall|i: int| 0 <= i < freed(counts).len() implies is_free(
            counts,
            #[trigger] freed(counts)[i],
        ) by {
            if i < freed(head).len() {
                assert(freed(counts)[i] == freed(head)[i]);
                assert(is_free(head, freed(head)[i]));
            }
        }
    }
}

proof fn lemma_ranking_contains(ranked: Seq<Held>, of: Seq<Held>)
    requires
        is_ranking(ranked, of),
    ensures
        forall|i: int| 0 <= i < ranked.len() ==> of.contains(#[trigger] ranked[i]),
{
    broadcast use vstd::seq_lib::group_to_multiset_ensures;

    assert forall|i: int| 0 <= i < ranked.len() implies of.contains(#[trigger] ranked[i]) by {
        assert(ranked.contains(ranked[i]));
        assert(ranked.to_multiset().count(ranked[i]) > 0);
    }
}

/// What is counted of a length is what its one count says.
proof fn lemma_counted(counts: Seq<AllocCount>, i: int)
    requires
        0 <= i < counts.len(),
        forall|a: int, b: int|
            0 <= a < b < counts.len() ==> (#[trigger] counts[a]).len != (#[trigger] counts[b]).len,
    ensures
        counted(counts, counts[i].len) == counts[i].n,
{
    let len = counts[i].len;
    assert(exists|j: int| 0 <= j < counts.len() && (#[trigger] counts[j]).len == len);
    let j = choose|j: int| 0 <= j < counts.len() && (#[trigger] counts[j]).len == len;
    assert(j == i);
}

proof fn lemma_counted_update(counts: Seq<AllocCount>, i: int, n: isize, other: usize)
    requires
        0 <= i < counts.len(),
        forall|a: int, b: int|
            0 <= a < b < counts.len() ==> (#[trigger] counts[a]).len != (#[trigger] counts[b]).len,
    ensures
        counted(counts.update(i, AllocCount { len: counts[i].len, n }), other) == if other
            == counts[i].len {
            n as int
        } else {
            counted(counts, other)
        },
{
    let after = counts.update(i, AllocCount { len: counts[i].len, n });
    assert(forall|j: int| 0 <= j < counts.len() ==> (#[trigger] after[j]).len == counts[j].len);
    assert(forall|j: int| 0 <= j < counts.len() && j != i ==> #[trigger] after[j] == counts[j]);
    if exists|j: int| 0 <= j < counts.len() && (#[trigger] counts[j]).len == other {
        let j = choose|j: int| 0 <= j < counts.len() && (#[trigger] counts[j]).len == other;
        assert(after[j].len == other);
        lemma_counted(counts, j);
        lemma_counted(after, j);
    } else {
        assert forall|j: int| 0 <= j < after.len() implies (#[trigger] after[j]).len != other by {
            assert(after[j].len == counts[j].len);
        }
    }
}

/// Allocations by length, so that the free list can be attributed to the
/// shapes that make it up.
pub struct AllocHist {
    pub counts: Vec<AllocCount>,
}

impl AllocHist {
    /// Each length is counted once.
    pub open spec fn wf(self) -> bool {
        forall|i: int, j: int|
            0 <= i < j < self.counts@.len() ==> (#[trigger] self.counts@[i]).len != (
            #[trigger] self.counts@[j]).len
    }

    pub fn new() -> (hist: AllocHist)
        ensures
            hist.wf(),
            forall|len: usize| counted(hist.counts@, len) == 0,
    {
        AllocHist { counts: Vec::new() }
    }

    /// Counts an allocation of `len` elements in or out.
    pub fn note_alloc(&mut self, len: usize, delta: isize)
        requires
            old(self).wf(),
            isize::MIN <= counted(old(self).counts@, len) + delta <= isize::MAX,
        ensures
            final(self).wf(),
            forall|other: usize| #[trigger]
                counted(final(self).counts@, other) == counted(old(self).counts@, other) + if other
                    == len {
                    delta as int
                } else {
                    0
                },
    {
        let ghost before = self.counts@;
        let mut i: usize = 0;
        while i < self.counts.len()
            invariant
                i <= self.counts@.len(),
                self.counts@ == before,
                before == old(self).counts@,
                self.wf(),
                isize::MIN <= counted(before, len) + delta <= isize::MAX,
                forall|j: int| 0 <= j < i ==> (#[trigger] before[j]).len != len,
            decreases self.counts@.len() - i,
        {
            if self.counts[i].len == len {
                proof {
                    lemma_counted(before, i as int);
                }
                let n: isize = self.counts[i].n + delta;
                self.counts.set(i, AllocCount { len, n });
                proof {
                    let after = self.counts@;
                    assert forall|other: usize| #[trigger]
                        counted(after, other) == counted(before, other) + if other == len {
                            delta as int
                        } else {
                            0
                        } by {
                        lemma_counted_update(before, i as int, n, other);
                    }
                }
                return;
            }
            i = i + 1;
        }
        self.counts.push(AllocCount { len, n: delta });
        proof {
            let after = self.counts@;
            assert(forall|j: int| 0 <= j < before.len() ==> after[j] == before[j]);
            assert forall|other: usize| #[trigger]
                counted(after, other) == counted(before, other) + if other == len {
                    delta as int
                } else {
                    0
                } by {
                lemma_counted(after, before.len() as int);
                if exists|j: int| 0 <= j < before.len() && (#[trigger] before[j]).len == other {
                    let j = choose|j: int|
                        0 <= j < before.len() && (#[trigger] before[j]).len == other;
                    lemma_counted(before, j);
                    assert(after[j] == before[j]);
                    lemma_counted(after, j);
                } else if other != len {
                    assert forall|j: int| 0 <= j < after.len() implies (#[trigger] after[j]).len
                        != other by {
                        if j < before.len() {
                            assert(after[j] == before[j]);
                        }
                    }
                }
            }
        }
    }

    /// Every length's free elements are a size, and their bytes in all a number
    /// double precision holds exactly.
    pub open spec fn exact(self) -> bool {
        &&& forall|i: int|
            0 <= i < self.counts@.len() && (#[trigger] self.counts@[i]).n < 0 ==> {
                &&& self.counts@[i].n > isize::MIN
                &&& self.counts@[i].len * -self.counts@[i].n <= usize::MAX
            }
        &&& total(held_bytes(freed(self.counts@))) < EXACT
    }

    /// The shapes the free list is made of: how many lengths were released more
    /// often than taken, and the largest of them.
    pub fn mark_alloc_hist(&self) -> (lines: Vec<String>)
        requires
            self.exact(),
        ensures
            exists|ranked: Seq<Held>| #[trigger]
                is_ranking(ranked, freed(self.counts@)) && free_lines(
                    self.counts@,
                    ranked,
                    lines@.map_values(|line: String| line@),
                ),
    {
        let list = ranked(self.freed_list());
        let lengths: usize = self.counts.len();
        assert(self.counts@.len() == lengths);
        proof {
            lemma_total_same(list@, freed(self.counts@));
        }
        let mut lines: Vec<String> = Vec::new();
        let mut sum: u64 = 0;
        let mut i: usize = 0;
        let ghost items = held_bytes(list@);
        assert(items.take(0) =~= Seq::empty());
        while i < list.len()
            invariant
                i <= list@.len(),
                items == held_bytes(list@),
                total(items) < EXACT,
                sum == total(items.take(i as int)),
            decreases list@.len() - i,
        {
            proof {
                lemma_total(items, i as int);
            }
            sum = sum + 4 * list[i].len as u64;
            i = i + 1;
        }
        assert(items.take(i as int) =~= items);
        let sum_text = mib_text(sum);
        lines.push(Args::new().num(list.len()).text(sum_text.as_str()).fill(FREE_LIST));
        let n: usize = if list.len() < 8 {
            list.len()
        } else {
            8
        };
        let mut i: usize = 0;
        proof {
            lemma_freed(self.counts@);
            lemma_ranking_contains(list@, freed(self.counts@));
        }
        while i < n
            invariant
                self.exact(),
                i <= n <= list@.len(),
                items == held_bytes(list@),
                total(items) < EXACT,
                lines@.len() == i + 1,
                lines@[0]@ == free_list_line(list@),
                forall|j: int|
                    0 <= j < list@.len() ==> is_free(self.counts@, #[trigger] list@[j]),
                forall|j: int|
                    0 <= j < i ==> (#[trigger] lines@[j + 1])@ == free_line(
                        self.counts@,
                        list@[j],
                    ),
            decreases n - i,
        {
            let one = list[i];
            proof {
                lemma_total(items, i as int);
                assert(is_free(self.counts@, list@[i as int]));
            }
            let count = self.counts[one.handle];
            let size = mib_tenths_text(4 * one.len as u64);
            let released: usize = (-count.n) as usize;
            lines.push(
                Args::new().num(released).num(count.len).text(size.as_str()).fill(FREE_LINE),
            );
            i = i + 1;
        }
        let ghost texts = lines@.map_values(|line: String| line@);
        assert(free_lines(self.counts@, list@, texts));
        assert(is_ranking(list@, freed(self.counts@)));
        lines
    }

    fn freed_list(&self) -> (list: Vec<Held>)
        requires
            self.exact(),
        ensures
            list@ == freed(self.counts@),
    {
        let mut list: Vec<Held> = Vec::new();
        let mut i: usize = 0;
        assert(self.counts@.take(0) =~= Seq::empty());
        while i < self.counts.len()
            invariant
                i <= self.counts@.len(),
                self.exact(),
                list@ == freed(self.counts@.take(i as int)),
            decreases self.counts@.len() - i,
        {
            let ghost head = self.counts@.take(i as int + 1);
            assert(head.drop_last() =~= self.counts@.take(i as int));
            let one = self.counts[i];
            if one.n < 0 {
                let n: usize = (-one.n) as usize;
                list.push(Held { len: one.len * n, handle: i });
            }
            i = i + 1;
        }
        assert(self.counts@.take(i as int) =~= self.counts@);
        list
    }
}

/// Whether an allocation is large enough to be named.
pub open spec fn is_big(len: usize) -> bool {
    4 * len >= 0x80_0000
}

pub const BIG_CONST: &'static str = "[vram] constant $0 $1 MiB ($2 f32)";

pub const BIG_ALLOC: &'static str = "[vram] alloc $0 MiB ($1 f32) at $2";

/// The line on a constant just stored, where it is large: `quoted` is its name
/// as written in a report.
pub fn note_big_const(quoted: &str, len: usize) -> (line: Option<String>)
    requires
        4 * len < EXACT,
    ensures
        line is Some == is_big(len),
        line is Some ==> line->Some_0@ == text::filled(
            BIG_CONST@,
            seq![quoted@, mib(4 * len as nat), text::decimal(len as nat)],
        ),
{
    if len < 0x20_0000 {
        return None;
    }
    let size = mib_text(4 * len as u64);
    Some(Args::new().text(quoted).text(size.as_str()).num(len).fill(BIG_CONST))
}

/// The line on a buffer just asked for, where it is large: `place` is where.
pub fn note_big_alloc(len: usize, place: &str) -> (line: Option<String>)
    requires
        4 * len < EXACT,
    ensures
        line is Some == is_big(len),
        line is Some ==> line->Some_0@ == text::filled(
            BIG_ALLOC@,
            seq![mib(4 * len as nat), text::decimal(len as nat), place@],
        ),
{
    if len < 0x20_0000 {
        return None;
    }
    let size = mib_text(4 * len as u64);
    Some(Args::new().text(size.as_str()).num(len).text(place).fill(BIG_ALLOC))
}

pub const MARK: &'static str = "[vram] $0: $1 of $2 MiB free$3";

pub const MARK_STEP: &'static str = ", $0$1 MiB since the last mark";

/// What came free since the last mark, or was taken.
pub open spec fn mark_step(free: u64, last: u64) -> Seq<char> {
    text::filled(
        MARK_STEP@,
        if free >= last {
            seq!["+"@, mib((free - last) as nat)]
        } else {
            seq!["-"@, mib((last - free) as nat)]
        },
    )
}

/// The line on what the card has free at a named point, and what the step since
/// the last such point cost.
pub fn vram_mark(label: &str, free: u64, all: u64, last: Option<u64>) -> (line: String)
    requires
        free < EXACT,
        all < EXACT,
        last is Some ==> last->Some_0 < EXACT,
    ensures
        line@ == text::filled(
            MARK@,
            seq![
                label@,
                mib(free as nat),
                mib(all as nat),
                match last {
                    Some(last) => mark_step(free, last),
                    None => Seq::empty(),
                },
            ],
        ),
{
    let step = match last {
        None => String::new(),
        Some(last) => {
            let (sign, size) = if free >= last {
                ("+", mib_text(free - last))
            } else {
                ("-", mib_text(last - free))
            };
            Args::new().text(sign).text(size.as_str()).fill(MARK_STEP)
        },
    };
    let (free_text, all_text) = (mib_text(free), mib_text(all));
    Args::new().text(label).text(free_text.as_str()).text(all_text.as_str()).text(
        step.as_str(),
    ).fill(MARK)
}

} // verus!
