//! Grouping the stages of a chain into nests, and deciding which nests a grid
//! barrier has to precede.

use vstd::prelude::*;

use super::{ChainKey, Kind, Part, Read, Shape, Stage, Val};

verus! {

/// The partition of the nest a stage is in. An elementwise stage takes its
/// predecessor's.
pub open spec fn nest_part(stages: Seq<Stage>, s: int) -> Part
    decreases s,
{
    let own = super::part_of(stages[s]);
    if s > 0 && own == Part::Inherit {
        nest_part(stages, s - 1)
    } else {
        own
    }
}

/// Where a stage stands: its nest, the nest's first stage, and whether a stage of
/// the nest up to this one waits for other blocks.
pub ghost struct Place {
    pub nest: nat,
    pub first: int,
    pub waits: bool,
}

/// Stage `s` reads all of a value written at stage `first` or later.
pub open spec fn contracts(stages: Seq<Stage>, s: int, first: int) -> bool {
    exists|i: int|
        0 <= i < super::reads_of(stages[s]).len() && (#[trigger] super::reads_of(stages[s])[i]).1
            == Read::All && within(stages, s, i, first)
}

/// Stage `s` reads its own unit of a value written at stage `first` or later.
pub open spec fn continues(stages: Seq<Stage>, s: int, first: int) -> bool {
    exists|i: int|
        0 <= i < super::reads_of(stages[s]).len() && (#[trigger] super::reads_of(stages[s])[i]).1
            == Read::Local && within(stages, s, i, first)
}

/// The `i`-th read of stage `s` is of a value last written at `first` or later.
pub open spec fn within(stages: Seq<Stage>, s: int, i: int, first: int) -> bool {
    match last_writer(stages, s, super::reads_of(stages[s])[i].0) {
        Some(w) => w >= first,
        None => false,
    }
}

/// The `i`-th read of stage `s` may be another block's work from ahead of stage
/// `first`: the writer split the value across the grid, and the reader takes all
/// of it or strides a different unit count.
pub open spec fn behind(stages: Seq<Stage>, s: int, i: int, first: int) -> bool {
    let (val, read) = super::reads_of(stages[s])[i];
    match last_writer(stages, s, val) {
        Some(w) => {
            &&& w < first
            &&& !(nest_part(stages, w) is Whole)
            &&& read == Read::All || nest_part(stages, w) != nest_part(stages, s)
        },
        None => false,
    }
}

/// Stage `s`, in a nest that starts at `first`, reads other blocks' work.
pub open spec fn looks_back(stages: Seq<Stage>, s: int, first: int) -> bool {
    exists|i: int|
        0 <= i < super::reads_of(stages[s]).len() && #[trigger] behind(stages, s, i, first)
}

/// Whether stage `s` stands apart from the nest it finds. A whole-row stage
/// always does, and an elementwise one never. Any other does unless its unit
/// count is that of the nest, and also where it reads all of what the nest
/// wrote, which only a barrier between them orders, or would be the first of the
/// nest to wait and has no register to take from it.
pub open spec fn stands_apart(stages: Seq<Stage>, s: int, found: Place) -> bool {
    match super::part_of(stages[s]) {
        Part::Whole(_) => true,
        Part::Inherit => false,
        Part::Units(_) => {
            ||| nest_part(stages, s - 1) != super::part_of(stages[s])
            ||| contracts(stages, s, found.first)
            ||| !found.waits && looks_back(stages, s, found.first) && !continues(
                stages,
                s,
                found.first,
            )
        },
    }
}

/// Where stage `s` stands.
pub open spec fn place(stages: Seq<Stage>, s: int) -> Place
    decreases s,
{
    if s <= 0 {
        Place { nest: 0, first: 0, waits: false }
    } else {
        let found = place(stages, s - 1);
        if stands_apart(stages, s, found) {
            Place { nest: found.nest + 1, first: s, waits: looks_back(stages, s, s) }
        } else {
            Place {
                nest: found.nest,
                first: found.first,
                waits: found.waits || looks_back(stages, s, found.first),
            }
        }
    }
}

/// Whether a stage opens a nest.
pub open spec fn opens(stages: Seq<Stage>, s: int) -> bool {
    s == 0 || stands_apart(stages, s, place(stages, s - 1))
}

/// The nest a stage is in, counted from zero.
pub open spec fn nest_of(stages: Seq<Stage>, s: int) -> nat {
    place(stages, s).nest
}

/// A chain whose first stage has no nest to join.
pub open spec fn starts_elementwise(stages: Seq<Stage>) -> bool {
    stages.len() > 0 && super::part_of(stages[0]) == Part::Inherit
}

/// The last stage ahead of `s` that writes a value.
pub open spec fn last_writer(stages: Seq<Stage>, s: int, val: Val) -> Option<int>
    decreases s,
{
    if s <= 0 {
        None
    } else if super::writes_of(stages[s - 1]) == val {
        Some(s - 1)
    } else {
        last_writer(stages, s - 1, val)
    }
}

/// Whether stage `s` reads a value that another nest wrote. A value the chain
/// writes only later is no dependency of a stage that reads it first.
pub open spec fn crosses(stages: Seq<Stage>, s: int, val: Val) -> bool {
    match last_writer(stages, s, val) {
        Some(w) => nest_of(stages, w) != nest_of(stages, s),
        None => false,
    }
}

/// The partition of the nest that wrote a value stage `s` reads.
pub open spec fn writer_part(stages: Seq<Stage>, s: int, val: Val) -> Part {
    nest_part(stages, last_writer(stages, s, val)->0)
}

/// Stage `s` reads a register another nest wrote, which has nowhere to live.
pub open spec fn strands(shape: Shape, s: int) -> bool {
    exists|i: int|
        0 <= i < super::reads_of(shape.stages[s]).len() && crosses(
            shape.stages,
            s,
            (#[trigger] super::reads_of(shape.stages[s])[i]).0,
        ) && shape.kind(super::reads_of(shape.stages[s])[i].0) is Temp
}

/// The `i`-th read of stage `s` may be another block's work: the writer split
/// the value across the grid, and the reader takes all of it or strides a
/// different unit count.
pub open spec fn read_waits(stages: Seq<Stage>, s: int, i: int) -> bool {
    let (val, read) = super::reads_of(stages[s])[i];
    &&& crosses(stages, s, val)
    &&& !(writer_part(stages, s, val) is Whole)
    &&& read == Read::All || writer_part(stages, s, val) != nest_part(stages, s)
}

/// Stage `s` reads what other blocks wrote.
pub open spec fn waits(stages: Seq<Stage>, s: int) -> bool {
    exists|i: int| 0 <= i < super::reads_of(stages[s]).len() && #[trigger] read_waits(stages, s, i)
}

/// A barrier has to precede a nest.
pub open spec fn barrier_before(stages: Seq<Stage>, n: nat) -> bool {
    exists|s: int|
        0 <= s < stages.len() && nest_of(stages, s) == n && #[trigger] waits(stages, s)
}

/// The `i`-th read of stage `s` is of a value every block wrote its own copy of.
pub open spec fn read_shares(stages: Seq<Stage>, s: int, i: int) -> bool {
    let val = super::reads_of(stages[s])[i].0;
    crosses(stages, s, val) && writer_part(stages, s, val) is Whole
}

/// Stage `s` reads its own block's copy of a value.
pub open spec fn shares(stages: Seq<Stage>, s: int, val: Val) -> bool {
    exists|i: int|
        0 <= i < super::reads_of(stages[s]).len() && super::reads_of(stages[s])[i].0 == val
            && #[trigger] read_shares(stages, s, i)
}

/// A value every block writes its own copy of and reads back from another
/// nest, so it belongs in shared memory.
pub open spec fn is_redundant(stages: Seq<Stage>, val: Val) -> bool {
    exists|s: int| 0 <= s < stages.len() && #[trigger] shares(stages, s, val)
}

/// Some stage reads a register another nest wrote.
pub open spec fn is_stranded(shape: Shape) -> bool {
    exists|s: int| 0 <= s < shape.stages.len() && #[trigger] strands(shape, s)
}

/// What the pass decided of a chain it can fuse.
pub struct Judgement {
    /// The nest of each stage.
    pub nest_of: Vec<usize>,
    /// The partition of each stage's nest.
    pub parts: Vec<Part>,
    /// Whether a barrier precedes each nest.
    pub barriers: Vec<bool>,
    /// The values every block keeps its own copy of.
    pub redundant: Vec<Val>,
}

impl Judgement {
    /// The nests and partitions of the first `n` stages.
    pub open spec fn groups(&self, stages: Seq<Stage>, n: int) -> bool {
        &&& self.nest_of@.len() == n
        &&& self.parts@.len() == n
        &&& forall|s: int| 0 <= s < n ==> #[trigger] self.nest_of@[s] == nest_of(stages, s)
        &&& forall|s: int| 0 <= s < n ==> #[trigger] self.parts@[s] == nest_part(stages, s)
    }

    /// The barriers and copies that the first `n` stages ask for.
    pub open spec fn settles(&self, stages: Seq<Stage>, n: int) -> bool {
        &&& self.barriers@.len() == stages.len()
        &&& forall|k: int|
            0 <= k < self.barriers@.len() ==> (#[trigger] self.barriers@[k] <==> exists|s: int|
                0 <= s < n && nest_of(stages, s) == k && #[trigger] waits(stages, s))
        &&& forall|val: Val|
            #[trigger] self.redundant@.contains(val) <==> exists|s: int|
                0 <= s < n && #[trigger] shares(stages, s, val)
    }

    /// The whole judgement of a chain.
    pub open spec fn judges(&self, stages: Seq<Stage>) -> bool {
        &&& self.groups(stages, stages.len() as int)
        &&& self.settles(stages, stages.len() as int)
    }
}

/// A stage's nest is no further than its own place in the chain.
pub proof fn lemma_nest_bound(stages: Seq<Stage>, s: int)
    requires
        0 <= s,
    ensures
        nest_of(stages, s) <= s,
    decreases s,
{
    if s > 0 {
        lemma_nest_bound(stages, s - 1);
    }
}

pub proof fn lemma_writer_bound(stages: Seq<Stage>, s: int, val: Val)
    requires
        last_writer(stages, s, val) is Some,
    ensures
        0 <= last_writer(stages, s, val)->0 < s,
    decreases s,
{
    if s > 0 && super::writes_of(stages[s - 1]) != val {
        lemma_writer_bound(stages, s - 1, val);
    }
}

/// A nest is the stages from its first on.
pub proof fn lemma_place(stages: Seq<Stage>, s: int)
    requires
        0 <= s,
    ensures
        0 <= place(stages, s).first <= s,
        forall|t: int|
            place(stages, s).first <= t <= s ==> #[trigger] nest_of(stages, t) == nest_of(stages, s)
                && place(stages, t).first == place(stages, s).first,
        forall|t: int|
            0 <= t < place(stages, s).first ==> #[trigger] nest_of(stages, t) < nest_of(stages, s),
    decreases s,
{
    if s > 0 {
        lemma_place(stages, s - 1);
    }
}

/// A read waits where it looks back past its nest's first stage.
pub proof fn lemma_read_waits(stages: Seq<Stage>, s: int, i: int)
    requires
        0 <= s,
    ensures
        read_waits(stages, s, i) == behind(stages, s, i, place(stages, s).first),
{
    let val = super::reads_of(stages[s])[i].0;
    lemma_place(stages, s);
    if last_writer(stages, s, val) is Some {
        lemma_writer_bound(stages, s, val);
        let w = last_writer(stages, s, val)->0;
        if w >= place(stages, s).first {
            assert(nest_of(stages, w) == nest_of(stages, s));
        } else {
            assert(nest_of(stages, w) < nest_of(stages, s));
        }
    }
}

/// A nest that waits so far has a stage that does.
pub proof fn lemma_place_waits(stages: Seq<Stage>, s: int)
    requires
        0 <= s,
        place(stages, s).waits,
    ensures
        exists|t: int| 0 <= t <= s && #[trigger] waits(stages, t),
    decreases s,
{
    lemma_waits(stages, s);
    if s > 0 && !waits(stages, s) {
        lemma_place_waits(stages, s - 1);
        let t = choose|t: int| 0 <= t <= s - 1 && #[trigger] waits(stages, t);
        assert(0 <= t <= s && waits(stages, t));
    }
}

pub proof fn lemma_waits(stages: Seq<Stage>, s: int)
    requires
        0 <= s,
    ensures
        waits(stages, s) == looks_back(stages, s, place(stages, s).first),
        waits(stages, s) ==> place(stages, s).waits,
{
    let first = place(stages, s).first;
    assert forall|i: int| #[trigger] read_waits(stages, s, i) == behind(stages, s, i, first) by {
        lemma_read_waits(stages, s, i);
    }
    if waits(stages, s) {
        let i = choose|i: int|
            0 <= i < super::reads_of(stages[s]).len() && #[trigger] read_waits(stages, s, i);
        assert(behind(stages, s, i, first));
    }
    if looks_back(stages, s, first) {
        let i = choose|i: int|
            0 <= i < super::reads_of(stages[s]).len() && #[trigger] behind(stages, s, i, first);
        assert(read_waits(stages, s, i));
    }
    if s == 0 && waits(stages, 0) {
        let i = choose|i: int|
            0 <= i < super::reads_of(stages[0]).len() && #[trigger] read_waits(stages, 0, i);
        assert(last_writer(stages, 0, super::reads_of(stages[0])[i].0) is None);
    }
}

fn find_writer(stages: &Vec<Stage>, s: usize, val: Val) -> (w: Option<usize>)
    requires
        s <= stages@.len(),
    ensures
        match w {
            Some(w) => last_writer(stages@, s as int, val) == Some(w as int) && w < s,
            None => last_writer(stages@, s as int, val) is None,
        },
{
    let mut at: usize = s;
    while at > 0
        invariant
            at <= s <= stages@.len(),
            last_writer(stages@, s as int, val) == last_writer(stages@, at as int, val),
        decreases at,
    {
        if stages[at - 1].writes() == val {
            return Some(at - 1);
        }
        at = at - 1;
    }
    None
}

/// What one stage's reads ask for.
struct Verdict {
    strands: bool,
    waits: bool,
}

fn judge_stage(key: &ChainKey, s: usize, judged: &mut Judgement) -> (v: Verdict)
    requires
        key@.wf(),
        s < key@.stages.len(),
        old(judged).groups(key@.stages, key@.stages.len() as int),
    ensures
        v.strands == strands(key@, s as int),
        !v.strands ==> v.waits == waits(key@.stages, s as int),
        final(judged).nest_of == old(judged).nest_of,
        final(judged).parts == old(judged).parts,
        final(judged).barriers == old(judged).barriers,
        !v.strands ==> forall|val: Val|
            #[trigger] final(judged).redundant@.contains(val) <==> old(
                judged,
            ).redundant@.contains(val) || shares(key@.stages, s as int, val),
{
    let ghost stages = key@.stages;
    let reads = key.stages[s].reads();
    let mut waiting = false;
    let mut i: usize = 0;
    while i < reads.len()
        invariant
            i <= reads@.len(),
            reads@ == super::reads_of(key@.stages[s as int]),
            stages == key@.stages,
            key@.wf(),
            s < key@.stages.len(),
            judged.groups(stages, stages.len() as int),
            judged.nest_of == old(judged).nest_of,
            judged.parts == old(judged).parts,
            judged.barriers == old(judged).barriers,
            forall|j: int|
                0 <= j < i ==> !(crosses(stages, s as int, (#[trigger] reads@[j]).0) && key@.kind(
                    reads@[j].0,
                ) is Temp),
            waiting <==> exists|j: int| 0 <= j < i && #[trigger] read_waits(stages, s as int, j),
            forall|val: Val|
                #[trigger] judged.redundant@.contains(val) <==> old(judged).redundant@.contains(val)
                    || exists|j: int|
                    0 <= j < i && reads@[j].0 == val && #[trigger] read_shares(stages, s as int, j),
        decreases reads@.len() - i,
    {
        let (val, read) = reads[i];
        let ghost before = judged.redundant@;
        let mut shared = false;
        assert(key@.stage_wf(key@.stages[s as int]));
        assert(key@.has(super::reads_of(key@.stages[s as int])[i as int].0));
        match find_writer(&key.stages, s, val) {
            Some(w) => {
                if judged.nest_of[w] != judged.nest_of[s] {
                    assert(crosses(stages, s as int, val));
                    if let Kind::Temp { .. } = key.vals[val.0] {
                        assert(super::reads_of(key@.stages[s as int])[i as int].0 == val);
                        return Verdict { strands: true, waits: false };
                    }
                    let part = judged.parts[w];
                    if let Part::Whole(_) = part {
                        judged.redundant.push(val);
                        shared = true;
                    } else if read == Read::All || part != judged.parts[s] {
                        waiting = true;
                        assert(read_waits(stages, s as int, i as int));
                    }
                }
            },
            None => {},
        }
        proof {
            assert(shared == read_shares(stages, s as int, i as int));
            assert forall|v: Val| #[trigger] judged.redundant@.contains(v) <==> old(
                judged,
            ).redundant@.contains(v) || exists|j: int|
                0 <= j < i + 1 && reads@[j].0 == v && #[trigger] read_shares(
                    stages,
                    s as int,
                    j,
                ) by {
                if shared {
                    assert(judged.redundant@ == before.push(val));
                    assert(judged.redundant@[before.len() as int] == val);
                    if before.contains(v) {
                        let k = choose|k: int| 0 <= k < before.len() && before[k] == v;
                        assert(judged.redundant@[k] == v);
                    }
                    if judged.redundant@.contains(v) && v != val {
                        let k = choose|k: int|
                            0 <= k < judged.redundant@.len() && judged.redundant@[k] == v;
                        assert(before[k] == v);
                    }
                }
            }
        }
        i = i + 1;
    }
    proof {
        assert(waiting == waits(stages, s as int));
    }
    Verdict { strands: false, waits: waiting }
}

/// How a stage's reads stand to a nest that starts at some stage.
struct Outlook {
    contracts: bool,
    continues: bool,
    looks_back: bool,
}

fn look(stages: &Vec<Stage>, parts: &Vec<Part>, part: Part, s: usize, first: usize) -> (o: Outlook)
    requires
        s < stages@.len(),
        first <= s,
        parts@.len() == s,
        forall|t: int| 0 <= t < s ==> #[trigger] parts@[t] == nest_part(stages@, t),
        part == nest_part(stages@, s as int),
    ensures
        o.contracts == contracts(stages@, s as int, first as int),
        o.continues == continues(stages@, s as int, first as int),
        o.looks_back == looks_back(stages@, s as int, first as int),
{
    let reads = stages[s].reads();
    let mut o = Outlook { contracts: false, continues: false, looks_back: false };
    let mut i: usize = 0;
    while i < reads.len()
        invariant
            i <= reads@.len(),
            s < stages@.len(),
            first <= s,
            reads@ == super::reads_of(stages@[s as int]),
            parts@.len() == s,
            forall|t: int| 0 <= t < s ==> #[trigger] parts@[t] == nest_part(stages@, t),
            part == nest_part(stages@, s as int),
            o.contracts <==> exists|j: int|
                0 <= j < i && (#[trigger] reads@[j]).1 == Read::All && within(
                    stages@,
                    s as int,
                    j,
                    first as int,
                ),
            o.continues <==> exists|j: int|
                0 <= j < i && (#[trigger] reads@[j]).1 == Read::Local && within(
                    stages@,
                    s as int,
                    j,
                    first as int,
                ),
            o.looks_back <==> exists|j: int|
                0 <= j < i && #[trigger] behind(stages@, s as int, j, first as int),
        decreases reads@.len() - i,
    {
        let (val, read) = reads[i];
        let ghost at = reads@[i as int];
        if let Some(w) = find_writer(stages, s, val) {
            if w >= first {
                assert(within(stages@, s as int, i as int, first as int));
                if read == Read::All {
                    o.contracts = true;
                } else {
                    o.continues = true;
                }
            } else {
                let of = parts[w];
                let whole = if let Part::Whole(_) = of {
                    true
                } else {
                    false
                };
                if !whole && (read == Read::All || of != part) {
                    assert(behind(stages@, s as int, i as int, first as int));
                    o.looks_back = true;
                }
            }
        }
        i = i + 1;
    }
    o
}

impl ChainKey {
    /// The nest and partition of every stage.
    fn group(&self) -> (judged: Judgement)
        requires
            self@.wf(),
            !starts_elementwise(self@.stages),
        ensures
            judged.groups(self@.stages, self@.stages.len() as int),
            judged.settles(self@.stages, 0),
    {
        let mut judged = Judgement {
            nest_of: Vec::new(),
            parts: Vec::new(),
            barriers: Vec::new(),
            redundant: Vec::new(),
        };
        let mut first: usize = 0;
        let mut waiting = false;
        let mut s: usize = 0;
        while s < self.stages.len()
            invariant
                s <= self@.stages.len(),
                self@.wf(),
                first <= s,
                s > 0 ==> first == place(self@.stages, s - 1).first,
                s > 0 ==> waiting == place(self@.stages, s - 1).waits,
                s == 0 ==> first == 0 && !waiting,
                judged.groups(self@.stages, s as int),
                judged.barriers@.len() == s,
                forall|k: int| 0 <= k < s ==> !#[trigger] judged.barriers@[k],
                judged.redundant@.len() == 0,
            decreases self@.stages.len() - s,
        {
            assert(self@.stage_wf(self@.stages[s as int]));
            let own = self.stages[s].part();
            let mut part = own;
            let mut nest: usize = 0;
            if s > 0 {
                let last = judged.parts[s - 1];
                nest = judged.nest_of[s - 1];
                proof {
                    lemma_nest_bound(self@.stages, s - 1);
                }
                if own == Part::Inherit {
                    part = last;
                }
                let found = look(&self.stages, &judged.parts, part, s, first);
                let apart = match own {
                    Part::Whole(_) => true,
                    Part::Inherit => false,
                    Part::Units(_) => last != own || found.contracts || (!waiting
                        && found.looks_back && !found.continues),
                };
                assert(apart == stands_apart(
                    self@.stages,
                    s as int,
                    place(self@.stages, s - 1),
                ));
                if apart {
                    nest = nest + 1;
                    first = s;
                    waiting = look(&self.stages, &judged.parts, part, s, s).looks_back;
                } else {
                    waiting = waiting || found.looks_back;
                }
            }
            judged.nest_of.push(nest);
            judged.parts.push(part);
            judged.barriers.push(false);
            s = s + 1;
        }
        judged
    }

    /// Groups the stages into nests and decides where a barrier is genuinely
    /// required, or finds that a register would have to cross one.
    pub fn judge(&self) -> (judged: Option<Judgement>)
        requires
            self@.wf(),
            !starts_elementwise(self@.stages),
        ensures
            judged is None <==> is_stranded(self@),
            judged is Some ==> judged->0.judges(self@.stages),
    {
        let ghost stages = self@.stages;
        let mut judged = self.group();
        let mut s: usize = 0;
        while s < self.stages.len()
            invariant
                s <= self@.stages.len(),
                stages == self@.stages,
                self@.wf(),
                judged.groups(stages, stages.len() as int),
                judged.settles(stages, s as int),
                forall|t: int| 0 <= t < s ==> !#[trigger] strands(self@, t),
            decreases stages.len() - s,
        {
            let ghost before = judged;
            let verdict = judge_stage(self, s, &mut judged);
            if verdict.strands {
                return None;
            }
            let n = judged.nest_of[s];
            proof {
                lemma_nest_bound(stages, s as int);
            }
            if verdict.waits {
                judged.barriers.set(n, true);
            }
            proof {
                assert forall|k: int| 0 <= k < judged.barriers@.len() implies (
                #[trigger] judged.barriers@[k] <==> exists|t: int|
                    0 <= t < s + 1 && nest_of(stages, t) == k && #[trigger] waits(stages, t)) by {
                    if before.barriers@[k] {
                        let t = choose|t: int|
                            0 <= t < s && nest_of(stages, t) == k && #[trigger] waits(stages, t);
                        assert(0 <= t < s + 1 && nest_of(stages, t) == k && waits(stages, t));
                    }
                    if verdict.waits && k == n {
                        assert(waits(stages, s as int));
                    }
                }
                assert forall|val: Val| #[trigger] judged.redundant@.contains(val) <==> exists|t: int|
                    0 <= t < s + 1 && #[trigger] shares(stages, t, val) by {
                    if before.redundant@.contains(val) {
                        let t = choose|t: int| 0 <= t < s && #[trigger] shares(stages, t, val);
                        assert(0 <= t < s + 1 && shares(stages, t, val));
                    }
                }
            }
            s = s + 1;
        }
        Some(judged)
    }
}

} // verus!
