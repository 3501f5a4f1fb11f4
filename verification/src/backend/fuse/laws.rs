//! What every plan keeps.

use vstd::prelude::*;

use super::emit::{Draft, Form, Name, Pair, Step, Tune};
use super::{Kind, Part, Read, Shape, Stage, Val, chains, emit, nests};
use crate::backend::{FusedMix, FusedProject};
use crate::quant::Quant;
use crate::text;

verus! {

/// Nests follow the order of the stages, and the stages of one share a
/// partition.
pub proof fn nests_are_runs(stages: Seq<Stage>, s: int, t: int)
    requires
        0 <= s <= t < stages.len(),
        !nests::starts_elementwise(stages),
    ensures
        nests::nest_of(stages, s) <= nests::nest_of(stages, t) <= nests::nest_of(stages, s) + (t - s),
        nests::nest_of(stages, s) == nests::nest_of(stages, t) ==> nests::nest_part(stages, s) == nests::nest_part(stages, t),
    decreases t - s,
{
    if s < t {
        nests_are_runs(stages, s, t - 1);
    }
}

/// The first nest never waits.
pub proof fn first_nest_never_waits(stages: Seq<Stage>)
    requires
        !nests::starts_elementwise(stages),
    ensures
        !nests::barrier_before(stages, 0),
{
    if nests::barrier_before(stages, 0) {
        let s = choose|s: int|
            0 <= s < stages.len() && nests::nest_of(stages, s) == 0 && #[trigger] nests::waits(stages, s);
        let i = choose|i: int|
            0 <= i < super::reads_of(stages[s]).len() && #[trigger] nests::read_waits(stages, s, i);
        let val = super::reads_of(stages[s])[i].0;
        nests::lemma_writer_bound(stages, s, val);
        nests_are_runs(stages, nests::last_writer(stages, s, val)->0, s);
    }
}

/// A stage that reads only values no earlier stage wrote waits for nothing,
/// even where the chain writes one of them later: that is what accumulating
/// into the residual is.
pub proof fn a_later_write_is_no_dependency(stages: Seq<Stage>, s: int)
    requires
        0 <= s < stages.len(),
        forall|i: int|
            0 <= i < super::reads_of(stages[s]).len() ==> nests::last_writer(
                stages,
                s,
                (#[trigger] super::reads_of(stages[s])[i]).0,
            ) is None,
    ensures
        !nests::waits(stages, s),
{
    if nests::waits(stages, s) {
        let i = choose|i: int|
            0 <= i < super::reads_of(stages[s]).len() && #[trigger] nests::read_waits(stages, s, i);
        assert(nests::last_writer(stages, s, super::reads_of(stages[s])[i].0) is None);
    }
}

/// The nests among the first `s` stages that a barrier has to precede.
pub open spec fn waiting_nests(stages: Seq<Stage>, s: nat) -> nat
    decreases s,
{
    if s == 0 {
        0
    } else {
        waiting_nests(stages, (s - 1) as nat) + if nests::opens(stages, s - 1) && nests::barrier_before(
            stages,
            nests::nest_of(stages, s - 1),
        ) {
            1nat
        } else {
            0
        }
    }
}

proof fn lemma_barriers_so_far(shape: Shape, s: nat)
    requires
        s <= shape.stages.len(),
        shape.stages.len() <= usize::MAX,
    ensures
        emit::emitted(shape, s) matches Step::Emitted(d) ==> d.barriers == waiting_nests(
            shape.stages,
            s,
        ),
    decreases s,
{
    if s > 0 {
        lemma_barriers_so_far(shape, (s - 1) as nat);
        if let Step::Emitted(before) = emit::emitted(shape, (s - 1) as nat) {
            let at = (s - 1) as usize;
            let n = nests::nest_of(shape.stages, s - 1) as usize;
            reveal(Draft::stage);
            reveal(Draft::enter);
            let d = if nests::opens(shape.stages, s - 1) {
                before.enter(shape, at)
            } else {
                before
            };
            emit::lemma_unit_keeps_barriers(d, shape, at, n);
        }
    }
}

/// A plan holds one barrier for each nest that has to wait, and no other.
pub proof fn barriers_are_the_waiting_nests(shape: Shape)
    requires
        shape.stages.len() <= usize::MAX,
    ensures
        emit::planned(shape) matches Step::Emitted(d) ==> d.barriers == waiting_nests(
            shape.stages,
            shape.stages.len(),
        ),
{
    lemma_barriers_so_far(shape, shape.stages.len());
}

proof fn lemma_mlp_barriers(stages: Seq<Stage>, hidden: Part, out: Part)
    requires
        stages.len() == 6,
        super::part_of(stages[0]) is Whole,
        super::part_of(stages[1]) == hidden,
        super::part_of(stages[2]) == hidden,
        super::part_of(stages[3]) == Part::Inherit,
        super::part_of(stages[4]) == hidden,
        super::part_of(stages[5]) == out,
        hidden is Units,
        out is Units,
        // The projections take what the first wrote, and the fifth its own unit.
        forall|i: int|
            0 <= i < super::reads_of(stages[2]).len() ==> (nests::last_writer(
                stages,
                2,
                (#[trigger] super::reads_of(stages[2])[i]).0,
            ) matches Some(w) ==> w == 0),
        forall|i: int|
            0 <= i < super::reads_of(stages[4]).len() ==> (#[trigger] super::reads_of(stages[4])[i]).1
                == Read::Local,
        // The last stage takes all of what the fifth wrote.
        super::reads_of(stages[5]).len() == 3,
        super::reads_of(stages[5])[0] == (super::writes_of(stages[4]), Read::All),
    ensures
        waiting_nests(stages, 6) == 1,
        nests::barrier_before(stages, nests::nest_of(stages, 5)),
{
    reveal_with_fuel(nests::nest_part, 6);
    assert(nests::place(stages, 0).first == 0 && nests::place(stages, 0).nest == 0);
    assert(nests::opens(stages, 0) && nests::opens(stages, 1));
    assert(nests::place(stages, 1).first == 1 && nests::place(stages, 1).nest == 1);
    assert(!nests::opens(stages, 2)) by {
        assert(!nests::contracts(stages, 2, 1));
        assert forall|i: int|
            0 <= i < super::reads_of(stages[2]).len() implies !#[trigger] nests::behind(
            stages,
            2,
            i,
            1,
        ) by {
            assert(nests::last_writer(stages, 2, super::reads_of(stages[2])[i].0) matches Some(w) ==> w
                == 0);
        }
        assert(!nests::looks_back(stages, 2, 1));
    }
    assert(nests::place(stages, 2).first == 1 && nests::place(stages, 2).nest == 1);
    assert(!nests::opens(stages, 3));
    assert(nests::place(stages, 3).first == 1 && nests::place(stages, 3).nest == 1);
    assert(!nests::opens(stages, 4)) by {
        assert(!nests::contracts(stages, 4, 1));
        if nests::looks_back(stages, 4, 1) {
            let i = choose|i: int|
                0 <= i < super::reads_of(stages[4]).len() && #[trigger] nests::behind(
                    stages,
                    4,
                    i,
                    1,
                );
            nests::lemma_writer_bound(stages, 4, super::reads_of(stages[4])[i].0);
            assert(nests::nest_part(stages, 0) is Whole);
        }
    }
    assert(nests::place(stages, 4).first == 1 && nests::place(stages, 4).nest == 1);
    let val = super::writes_of(stages[4]);
    assert(nests::last_writer(stages, 5, val) == Some(4int));
    assert(nests::opens(stages, 5)) by {
        assert(super::reads_of(stages[5])[0].1 == Read::All);
        assert(nests::within(stages, 5, 0, 1));
        assert(nests::contracts(stages, 5, 1));
    }
    assert(nests::nest_of(stages, 5) == 2);
    assert forall|s: int| 0 <= s < 5 implies !#[trigger] nests::waits(stages, s) by {
        if nests::waits(stages, s) {
            let i = choose|i: int|
                0 <= i < super::reads_of(stages[s]).len() && #[trigger] nests::read_waits(stages, s, i);
            let val = super::reads_of(stages[s])[i].0;
            nests::lemma_writer_bound(stages, s, val);
            assert(nests::nest_part(stages, 0) is Whole);
        }
    }
    assert(nests::waits(stages, 5)) by {
        assert(nests::read_waits(stages, 5, 0));
    }
    assert(!nests::barrier_before(stages, 0));
    assert(!nests::barrier_before(stages, 1));
    assert(nests::barrier_before(stages, 2));
    reveal_with_fuel(waiting_nests, 7);
}

/// The MLP needs exactly one barrier, the one ahead of its last stage, whatever
/// its widths: every block has read
/// the residual and written its part of the hidden row before any adds into the
/// one or takes the other.
pub proof fn the_mlp_needs_one_barrier(d_model: usize, d_ff: usize, eps_bits: u32, blocks: u32)
    ensures
        emit::planned(
            Shape {
                vals: chains::mlp_vals(d_model, d_ff),
                stages: chains::mlp_stages(d_model, d_ff, eps_bits),
                blocks,
            },
        ) matches Step::Emitted(d) ==> d.barriers == 1,
        ({
            let stages = chains::mlp_stages(d_model, d_ff, eps_bits);
            nests::barrier_before(stages, nests::nest_of(stages, 5))
        }),
{
    let shape = Shape {
        vals: chains::mlp_vals(d_model, d_ff),
        stages: chains::mlp_stages(d_model, d_ff, eps_bits),
        blocks,
    };
    let stages = shape.stages;
    reveal_with_fuel(nests::last_writer, 4);
    lemma_mlp_barriers(stages, Part::Units(d_ff / 32), Part::Units(d_model / 8));
    barriers_are_the_waiting_nests(shape);
}

/// The same over raw weights.
pub proof fn the_raw_mlp_needs_one_barrier(
    gate: Quant,
    up: Quant,
    down: Quant,
    d_model: usize,
    d_ff: usize,
    eps_bits: u32,
    blocks: u32,
)
    ensures
        emit::planned(
            Shape {
                vals: chains::mlp_raw_vals(gate, up, down, d_model, d_ff),
                stages: chains::mlp_raw_stages(d_model, d_ff, eps_bits),
                blocks,
            },
        ) matches Step::Emitted(d) ==> d.barriers == 1,
        ({
            let stages = chains::mlp_raw_stages(d_model, d_ff, eps_bits);
            nests::barrier_before(stages, nests::nest_of(stages, 5))
        }),
{
    let shape = Shape {
        vals: chains::mlp_raw_vals(gate, up, down, d_model, d_ff),
        stages: chains::mlp_raw_stages(d_model, d_ff, eps_bits),
        blocks,
    };
    let stages = shape.stages;
    reveal_with_fuel(nests::last_writer, 4);
    lemma_mlp_barriers(stages, Part::Units(d_ff / 64), Part::Units(d_model / 64));
    barriers_are_the_waiting_nests(shape);
}

/// A value some stage quantizes, or contracts as its activation.
pub open spec fn quantizes(stage: Stage, val: Val) -> bool {
    match stage {
        Stage::NormQ { out, .. } => out == val,
        Stage::QuantQ { out, .. } => out == val,
        Stage::ProjQ { a, .. } => a == val,
        Stage::ProjF { a, .. } => a == val,
        Stage::ProjRaw { a, .. } => a == val,
        Stage::ProjRawF { a, .. } => a == val,
        Stage::ProjAdd { a, .. } => a == val,
        Stage::ProjAddRaw { a, .. } => a == val,
        _ => false,
    }
}

pub open spec fn is_activation(stages: Seq<Stage>, val: Val) -> bool {
    exists|s: int| 0 <= s < stages.len() && quantizes(#[trigger] stages[s], val)
}

/// A parameter's name is accounted for, so it is not declared again.
pub open spec fn registered(d: Draft, name: Name) -> bool {
    match name {
        Name::Given(val, form) => d.views.contains((val, form)),
        Name::WeightQs(val) => emit::pair_of(d.pairs, val, Form::Flat) is Some,
        Name::WeightScales(val) => emit::pair_of(d.pairs, val, Form::Flat) is Some,
        Name::RawBytes(val) => emit::pair_of(d.pairs, val, Form::Flat) is Some,
        Name::RawD(val) => emit::pair_of(d.pairs, val, Form::Flat) is Some,
        Name::ScratchQs(val, true) => emit::pair_of(d.pairs, val, Form::Folded) is Some,
        Name::ScratchQs(val, false) => emit::pair_of(d.pairs, val, Form::Flat) is Some,
        Name::ScratchScales(val, true) => emit::pair_of(d.pairs, val, Form::Folded) is Some,
        Name::ScratchScales(val, false) => emit::pair_of(d.pairs, val, Form::Flat) is Some,
        Name::TileQs(_, _) => false,
        Name::TileScales(_, _) => false,
        Name::Barrier => d.barriers > 0,
    }
}

/// Some convolution walks rows of a width.
pub open spec fn walks(stages: Seq<Stage>, width: usize) -> bool {
    exists|s: int|
        0 <= s < stages.len() && #[trigger] stages[s] is Conv && stages[s]->Conv_channels == width
}

pub open spec fn grids(name: Name, stages: Seq<Stage>) -> bool {
    name matches Name::Given(_, Form::Grid(width)) ==> walks(stages, width)
}

/// What holds of a kernel however far it is written.
#[verifier::opaque]
pub open spec fn sound(d: Draft, shape: Shape) -> bool {
    // A parameter is declared once.
    &&& forall|i: int| 0 <= i < d.params.len() ==> registered(d, (#[trigger] d.params[i]).name)
    &&& forall|i: int, j: int|
        0 <= i < j < d.params.len() ==> (#[trigger] d.params[i]).name != (
        #[trigger] d.params[j]).name
    // A grid is as wide as a convolution walks it.
    &&& forall|i: int|
        0 <= i < d.params.len() ==> grids((#[trigger] d.params[i]).name, shape.stages)
    // Scratch is one entry a published activation, sized to it.
    &&& d.scratch.len() == d.stored.len()
    &&& forall|i: int|
        0 <= i < d.stored.len() ==> {
            let val = #[trigger] d.stored[i];
            &&& !nests::is_redundant(shape.stages, val)
            &&& is_activation(shape.stages, val)
            &&& d.scratch[i].bytes == shape.len_of(val) as usize
            &&& d.scratch[i].scales == (shape.len_of(val) / 32) as usize
        }
    &&& d.stored.no_duplicates()
    // Shared memory holds the activations every block keeps a copy of.
    &&& forall|i: int|
        0 <= i < d.shared.len() ==> {
            &&& nests::is_redundant(shape.stages, #[trigger] d.shared[i])
            &&& is_activation(shape.stages, d.shared[i])
        }
    &&& d.shared.no_duplicates()
}

proof fn lemma_params_grow(d: Draft, e: Draft, shape: Shape)
    requires
        sound(d, shape),
        d.params.len() <= e.params.len(),
        forall|i: int| 0 <= i < d.params.len() ==> #[trigger] e.params[i] == d.params[i],
        forall|name: Name| registered(d, name) ==> #[trigger] registered(e, name),
        forall|i: int|
            d.params.len() <= i < e.params.len() ==> {
                &&& !registered(d, (#[trigger] e.params[i]).name)
                &&& registered(e, e.params[i].name)
                &&& grids(e.params[i].name, shape.stages)
            },
        forall|i: int, j: int|
            d.params.len() <= i < j < e.params.len() ==> (#[trigger] e.params[i]).name != (
            #[trigger] e.params[j]).name,
    ensures
        forall|i: int| 0 <= i < e.params.len() ==> registered(e, (#[trigger] e.params[i]).name),
        forall|i: int| 0 <= i < e.params.len() ==> grids((#[trigger] e.params[i]).name, shape.stages),
        forall|i: int, j: int|
            0 <= i < j < e.params.len() ==> (#[trigger] e.params[i]).name != (
            #[trigger] e.params[j]).name,
{
    reveal(sound);
    assert forall|i: int| 0 <= i < e.params.len() implies registered(
        e,
        (#[trigger] e.params[i]).name,
    ) by {
        if i < d.params.len() {
            assert(registered(d, d.params[i].name));
        }
    }
    assert forall|i: int| 0 <= i < e.params.len() implies grids(
        (#[trigger] e.params[i]).name,
        shape.stages,
    ) by {
        if i < d.params.len() {
            assert(grids(d.params[i].name, shape.stages));
        }
    }
    assert forall|i: int, j: int| 0 <= i < j < e.params.len() implies (#[trigger] e.params[i]).name
        != (#[trigger] e.params[j]).name by {
        if i < d.params.len() {
            assert(registered(d, d.params[i].name));
            if j < d.params.len() {
                assert(d.params[i].name != d.params[j].name);
            }
        }
    }
}

proof fn lemma_same_names(d: Draft, e: Draft, shape: Shape)
    requires
        sound(d, shape),
        e.params == d.params,
        e.views == d.views,
        e.pairs == d.pairs,
        e.barriers == d.barriers,
        e.scratch == d.scratch,
        e.stored == d.stored,
        e.shared == d.shared,
    ensures
        sound(e, shape),
{
    reveal(sound);
    assert forall|i: int| 0 <= i < e.params.len() implies registered(
        e,
        (#[trigger] e.params[i]).name,
    ) by {
        assert(registered(d, d.params[i].name));
    }
}

broadcast proof fn lemma_tuned_sound(d: Draft, shape: Shape, name: Tune, value: usize)
    requires
        #[trigger] sound(d, shape),
    ensures
        sound(#[trigger] d.tuned(name, value), shape),
{
    lemma_same_names(d, d.tuned(name, value), shape);
}

broadcast proof fn lemma_wrote_sound(d: Draft, shape: Shape, text: Seq<char>)
    requires
        #[trigger] sound(d, shape),
    ensures
        sound(#[trigger] d.wrote(text), shape),
{
    lemma_same_names(d, d.wrote(text), shape);
}

broadcast proof fn lemma_reg_sound(d: Draft, shape: Shape, val: Val, s: usize)
    requires
        #[trigger] sound(d, shape),
    ensures
        sound(#[trigger] d.reg(val, s), shape),
{
    lemma_same_names(d, d.reg(val, s), shape);
}

broadcast proof fn lemma_given_sound(d: Draft, shape: Shape, val: Val, form: Form)
    requires
        #[trigger] sound(d, shape),
        form matches Form::Grid(width) ==> walks(shape.stages, width),
    ensures
        sound(#[trigger] d.given(shape, val, form), shape),
{
    let e = d.given(shape, val, form);
    if !d.views.contains((val, form)) {
        assert forall|name: Name| registered(d, name) implies #[trigger] registered(e, name) by {
            if let Name::Given(v, f) = name {
                let k = choose|k: int| 0 <= k < d.views.len() && d.views[k] == (v, f);
                assert(e.views[k] == (v, f));
            }
        }
        assert(e.views[d.views.len() as int] == (val, form));
        lemma_params_grow(d, e, shape);
        reveal(sound);
    }
}

proof fn lemma_pairs_grow(d: Draft, e: Draft, pair: Pair)
    requires
        e.pairs == d.pairs.push(pair),
        e.views == d.views,
        e.barriers == d.barriers,
    ensures
        forall|name: Name| registered(d, name) ==> #[trigger] registered(e, name),
        emit::pair_of(e.pairs, pair.val, pair.form) is Some,
{
    assert forall|name: Name| registered(d, name) implies #[trigger] registered(e, name) by {
        match name {
            Name::WeightQs(val)
            | Name::WeightScales(val)
            | Name::RawBytes(val)
            | Name::RawD(val)
            | Name::ScratchQs(val, false)
            | Name::ScratchScales(val, false) => {
                emit::lemma_pair_kept(d.pairs, pair, val, Form::Flat);
            },
            Name::ScratchQs(val, true) | Name::ScratchScales(val, true) => {
                emit::lemma_pair_kept(d.pairs, pair, val, Form::Folded);
            },
            _ => {},
        }
    }
    emit::lemma_pair_kept(d.pairs, pair, pair.val, pair.form);
}

broadcast proof fn lemma_weight_sound(d: Draft, shape: Shape, val: Val)
    requires
        #[trigger] sound(d, shape),
    ensures
        sound(#[trigger] d.weight(shape, val), shape),
{
    let e = d.weight(shape, val);
    if emit::pair_of(d.pairs, val, Form::Flat) is None && shape.kind(val) is Weight {
        let pair = e.pairs.last();
        assert(e.pairs =~= d.pairs.push(pair));
        lemma_pairs_grow(d, e, pair);
        lemma_params_grow(d, e, shape);
        reveal(sound);
    }
}

broadcast proof fn lemma_raw_weight_sound(d: Draft, shape: Shape, val: Val)
    requires
        #[trigger] sound(d, shape),
    ensures
        sound(#[trigger] d.raw_weight(shape, val), shape),
{
    let e = d.raw_weight(shape, val);
    if emit::pair_of(d.pairs, val, Form::Flat) is None && shape.kind(val) is Raw {
        let pair = e.pairs.last();
        assert(e.pairs =~= d.pairs.push(pair));
        lemma_pairs_grow(d, e, pair);
        lemma_params_grow(d, e, shape);
        reveal(sound);
    } else {
        lemma_same_names(d, e, shape);
    }
}

proof fn lemma_place(vals: Seq<Val>, val: Val)
    ensures
        emit::place_of(vals, val) is Some <==> vals.contains(val),
        emit::place_of(vals, val) matches Some(i) ==> 0 <= i < vals.len() && vals[i] == val,
    decreases vals.len(),
{
    if vals.len() > 0 {
        if vals.last() == val {
            assert(vals[vals.len() - 1] == val);
        } else {
            lemma_place(vals.drop_last(), val);
            if vals.contains(val) {
                let k = choose|k: int| 0 <= k < vals.len() && vals[k] == val;
                assert(vals.drop_last()[k] == val);
            }
        }
    }
}

broadcast proof fn lemma_quant_sound(d: Draft, shape: Shape, val: Val, folded: bool)
    requires
        #[trigger] sound(d, shape),
        is_activation(shape.stages, val),
    ensures
        sound(#[trigger] d.quant(shape, val, folded), shape),
{
    let e = d.quant(shape, val, folded);
    let form = if folded {
        Form::Folded
    } else {
        Form::Flat
    };
    if emit::pair_of(d.pairs, val, form) is None {
        let pair = e.pairs.last();
        assert(e.pairs =~= d.pairs.push(pair));
        lemma_pairs_grow(d, e, pair);
        lemma_place(d.stored, val);
        lemma_params_grow(d, e, shape);
        reveal(sound);
    }
}

broadcast proof fn lemma_barrier_sound(d: Draft, shape: Shape)
    requires
        #[trigger] sound(d, shape),
    ensures
        sound(#[trigger] d.barrier(), shape),
{
    let e = d.barrier();
    assert forall|name: Name| registered(d, name) implies #[trigger] registered(e, name) by {}
    lemma_params_grow(d, e, shape);
    reveal(sound);
}

broadcast group group_sound {
    lemma_tuned_sound,
    lemma_wrote_sound,
    lemma_reg_sound,
    lemma_given_sound,
    lemma_weight_sound,
    lemma_raw_weight_sound,
    lemma_quant_sound,
    lemma_barrier_sound,
}

proof fn lemma_runs_sound(
    d: Draft,
    shape: Shape,
    s: usize,
    n: usize,
    h: Seq<char>,
    qs: Seq<char>,
    scales: Seq<char>,
    blocks: usize,
    b: nat,
)
    requires
        sound(d, shape),
    ensures
        sound(d.quant_runs(s, n, h, qs, scales, blocks, b), shape),
    decreases b,
{
    broadcast use group_sound;

    if b > 0 {
        lemma_runs_sound(d, shape, s, n, h, qs, scales, blocks, (b - 1) as nat);
    }
}

proof fn lemma_stage_sound(d: Draft, shape: Shape, s: usize, n: usize)
    requires
        sound(d, shape),
        s < shape.stages.len(),
    ensures
        d.norm(shape, s) matches Step::Emitted(e) ==> sound(e, shape),
        d.unit_stage(shape, s, n) matches Step::Emitted(e) ==> sound(e, shape),
{
    broadcast use group_sound;

    reveal(Draft::norm);
    reveal(Draft::unit_stage);
    let stage = shape.stages[s as int];
    assert forall|val: Val| quantizes(stage, val) implies #[trigger] is_activation(
        shape.stages,
        val,
    ) by {
        assert(quantizes(shape.stages[s as int], val));
    }
    match stage {
        Stage::QuantQ { h, out, blocks, .. } => {
            let at = d.quant(shape, out, true);
            assert(sound(at, shape));
            if blocks > 1 && emit::reg_of(d.regs, h) is Some {
                let (qs, scales) = at.names(out, Form::Folded);
                lemma_runs_sound(
                    at,
                    shape,
                    s,
                    n,
                    "v"@ + text::decimal(emit::reg_of(d.regs, h)->0 as nat),
                    qs,
                    scales,
                    blocks,
                    blocks as nat,
                );
            }
        },
        Stage::NormQ { x, gain, out, width, .. } => {
            assert(is_activation(shape.stages, out));
        },
        Stage::ProjQ { a, w, .. } => {
            assert(is_activation(shape.stages, a));
            assert(sound(d.quant(shape, a, false), shape));
            assert(sound(d.quant(shape, a, false).weight(shape, w), shape));
        },
        Stage::ProjF { a, w, .. } => {
            assert(is_activation(shape.stages, a));
            assert(sound(d.quant(shape, a, false), shape));
            assert(sound(d.quant(shape, a, false).weight(shape, w), shape));
        },
        Stage::ProjRaw { a, w, .. } => {
            assert(is_activation(shape.stages, a));
            assert(sound(d.quant(shape, a, false), shape));
            assert(sound(d.quant(shape, a, false).raw_weight(shape, w), shape));
        },
        Stage::ProjRawF { a, w, .. } => {
            assert(is_activation(shape.stages, a));
            assert(sound(d.quant(shape, a, false), shape));
            assert(sound(d.quant(shape, a, false).raw_weight(shape, w), shape));
        },
        Stage::ProjAdd { a, w, .. } => {
            assert(is_activation(shape.stages, a));
            assert(sound(d.quant(shape, a, false), shape));
            assert(sound(d.quant(shape, a, false).weight(shape, w), shape));
        },
        Stage::ProjAddRaw { a, w, .. } => {
            assert(is_activation(shape.stages, a));
            assert(sound(d.quant(shape, a, false), shape));
            assert(sound(d.quant(shape, a, false).raw_weight(shape, w), shape));
        },
        Stage::Conv { history, taps, channels, .. } => {
            assert(walks(shape.stages, channels));
        },
        _ => {},
    }
}

proof fn lemma_sound_so_far(shape: Shape, s: nat)
    requires
        s <= shape.stages.len() <= usize::MAX,
    ensures
        emit::emitted(shape, s) matches Step::Emitted(d) ==> sound(d, shape),
    decreases s,
{
    if s == 0 {
        reveal(sound);
    } else {
        lemma_sound_so_far(shape, (s - 1) as nat);
        if let Step::Emitted(before) = emit::emitted(shape, (s - 1) as nat) {
            let at = (s - 1) as usize;
            let n = nests::nest_of(shape.stages, s - 1) as usize;
            reveal(Draft::stage);
            let d = if nests::opens(shape.stages, s - 1) {
                before.enter(shape, at)
            } else {
                before
            };
            assert(sound(d, shape)) by {
                broadcast use group_sound;

                reveal(Draft::enter);
            }
            lemma_stage_sound(d, shape, at, n);
        }
    }
}

/// Every plan is sound: no parameter is declared twice, scratch holds exactly
/// the activations that were published, each once and at its own size, and
/// shared memory those every block keeps a copy of.
pub proof fn plans_are_sound(shape: Shape)
    requires
        shape.stages.len() <= usize::MAX,
    ensures
        emit::planned(shape) matches Step::Emitted(d) ==> sound(d, shape),
{
    broadcast use group_sound;

    lemma_sound_so_far(shape, shape.stages.len());
}

/// A parameter's text but for its number: what precedes it and what follows.
spec fn name_ends(name: Name) -> (Seq<char>, Seq<char>) {
    match name {
        Name::Given(_, Form::Folded) => ("X"@, "F"@),
        Name::Given(_, Form::Flat) => ("X"@, Seq::empty()),
        Name::Given(_, Form::Grid(_)) => ("X"@, "G"@),
        Name::WeightQs(_) => ("Wq"@, Seq::empty()),
        Name::WeightScales(_) => ("Ws"@, Seq::empty()),
        Name::RawBytes(_) => ("Rq"@, Seq::empty()),
        Name::RawD(_) => ("Rd"@, Seq::empty()),
        Name::ScratchQs(_, true) => ("Vq"@, "F"@),
        Name::ScratchQs(_, false) => ("Vq"@, Seq::empty()),
        Name::ScratchScales(_, true) => ("Vs"@, "F"@),
        Name::ScratchScales(_, false) => ("Vs"@, Seq::empty()),
        Name::TileQs(_, true) => ("Aq"@, Seq::empty()),
        Name::TileQs(_, false) => ("Aq"@, "L"@),
        Name::TileScales(_, true) => ("As"@, Seq::empty()),
        Name::TileScales(_, false) => ("As"@, "L"@),
        Name::Barrier => ("BAR"@, Seq::empty()),
    }
}

spec fn name_number(name: Name) -> nat {
    match name {
        Name::Given(val, _) => val.0 as nat,
        Name::WeightQs(val) => val.0 as nat,
        Name::WeightScales(val) => val.0 as nat,
        Name::RawBytes(val) => val.0 as nat,
        Name::RawD(val) => val.0 as nat,
        Name::ScratchQs(val, _) => val.0 as nat,
        Name::ScratchScales(val, _) => val.0 as nat,
        Name::TileQs(val, _) => val.0 as nat,
        Name::TileScales(val, _) => val.0 as nat,
        Name::Barrier => 0,
    }
}

proof fn lemma_name_ends(name: Name)
    ensures
        !(name is Barrier) ==> emit::name_text(name) == name_ends(name).0 + text::decimal(
            name_number(name),
        ) + name_ends(name).1,
        1 <= name_ends(name).0.len() <= 3,
        !(name is Barrier) ==> name_ends(name).0.len() <= 2,
        name_ends(name).1.len() <= 1,
        forall|i: int|
            0 <= i < name_ends(name).0.len() ==> !text::is_digit(#[trigger] name_ends(name).0[i]),
        forall|i: int|
            0 <= i < name_ends(name).1.len() ==> !text::is_digit(#[trigger] name_ends(name).1[i]),
{
    reveal_strlit("X");
    reveal_strlit("F");
    reveal_strlit("G");
    reveal_strlit("L");
    reveal_strlit("Wq");
    reveal_strlit("Ws");
    reveal_strlit("Rq");
    reveal_strlit("Rd");
    reveal_strlit("Vq");
    reveal_strlit("Vs");
    reveal_strlit("Aq");
    reveal_strlit("As");
    reveal_strlit("BAR");
    if !(name is Barrier) {
        assert(emit::name_text(name) =~= name_ends(name).0 + text::decimal(name_number(name))
            + name_ends(name).1);
    }
}

/// A text of letters, a number and letters is taken apart in one way.
proof fn lemma_taken_apart(
    a: Seq<char>,
    n: nat,
    x: Seq<char>,
    b: Seq<char>,
    m: nat,
    y: Seq<char>,
)
    requires
        a + text::decimal(n) + x == b + text::decimal(m) + y,
        forall|i: int| 0 <= i < a.len() ==> !text::is_digit(#[trigger] a[i]),
        forall|i: int| 0 <= i < b.len() ==> !text::is_digit(#[trigger] b[i]),
        forall|i: int| 0 <= i < x.len() ==> !text::is_digit(#[trigger] x[i]),
        forall|i: int| 0 <= i < y.len() ==> !text::is_digit(#[trigger] y[i]),
        x.len() <= 1,
        y.len() <= 1,
    ensures
        a == b,
        n == m,
        x == y,
{
    let s = a + text::decimal(n) + x;
    let t = b + text::decimal(m) + y;
    text::lemma_decimal(n);
    text::lemma_decimal(m);
    if a.len() < b.len() {
        assert(s[a.len() as int] == text::decimal(n)[0]);
        assert(t[a.len() as int] == b[a.len() as int]);
    }
    if b.len() < a.len() {
        assert(t[b.len() as int] == text::decimal(m)[0]);
        assert(s[b.len() as int] == a[b.len() as int]);
    }
    assert(a.len() == b.len());
    assert(a =~= b) by {
        assert forall|i: int| 0 <= i < a.len() implies a[i] == b[i] by {
            assert(s[i] == a[i]);
            assert(t[i] == b[i]);
        }
    }
    let last = s.len() - 1;
    if x.len() == 1 {
        assert(s[last] == x[0]);
    } else {
        assert(s[last] == text::decimal(n)[text::decimal(n).len() - 1]);
    }
    if y.len() == 1 {
        assert(t[last] == y[0]);
    } else {
        assert(t[last] == text::decimal(m)[text::decimal(m).len() - 1]);
    }
    assert(x.len() == y.len());
    assert(x =~= y);
    assert(text::decimal(n) =~= text::decimal(m)) by {
        assert forall|i: int| 0 <= i < text::decimal(n).len() implies text::decimal(n)[i]
            == text::decimal(m)[i] by {
            assert(s[a.len() + i] == text::decimal(n)[i]);
            assert(t[a.len() + i] == text::decimal(m)[i]);
        }
    }
    text::lemma_decimal_tells(n, m);
}

/// Two parameters print alike only as one, or as one value in grids of two
/// widths.
proof fn lemma_names_tell(a: Name, b: Name)
    requires
        emit::name_text(a) == emit::name_text(b),
    ensures
        a == b || (a matches Name::Given(v, Form::Grid(_)) && b matches Name::Given(
            w,
            Form::Grid(_),
        ) && v == w),
{
    lemma_name_ends(a);
    lemma_name_ends(b);
    text::lemma_decimal(name_number(a));
    text::lemma_decimal(name_number(b));
    if a is Barrier || b is Barrier {
        let other = if a is Barrier {
            b
        } else {
            a
        };
        if !(other is Barrier) {
            reveal_strlit("BAR");
            let at = name_ends(other).0.len() as int;
            assert(emit::name_text(other)[at] == text::decimal(name_number(other))[0]);
            assert(!text::is_digit("BAR"@[at]));
        }
    } else {
        lemma_taken_apart(
            name_ends(a).0,
            name_number(a),
            name_ends(a).1,
            name_ends(b).0,
            name_number(b),
            name_ends(b).1,
        );
        lemma_ends_tell(a, b);
    }
}

proof fn lemma_ends_tell(a: Name, b: Name)
    requires
        !(a is Barrier),
        !(b is Barrier),
        name_ends(a) == name_ends(b),
        name_number(a) == name_number(b),
    ensures
        a == b || (a matches Name::Given(v, Form::Grid(_)) && b matches Name::Given(
            w,
            Form::Grid(_),
        ) && v == w),
{
    reveal_strlit("X");
    reveal_strlit("F");
    reveal_strlit("G");
    reveal_strlit("L");
    reveal_strlit("Wq");
    reveal_strlit("Ws");
    reveal_strlit("Rq");
    reveal_strlit("Rd");
    reveal_strlit("Vq");
    reveal_strlit("Vs");
    reveal_strlit("Aq");
    reveal_strlit("As");
    let p = name_ends(a).0;
    let q = name_ends(b).0;
    assert(p.len() == q.len());
    assert(p[0] == q[0]);
    assert(p.len() == 2 ==> p[1] == q[1]);
    let x = name_ends(a).1;
    let y = name_ends(b).1;
    assert(x.len() == y.len());
    assert(x.len() == 1 ==> x[0] == y[0]);
}

/// A kernel's parameters are told apart by the text they are declared under,
/// where its convolutions walk rows of one width.
pub proof fn parameters_are_told_apart(shape: Shape, i: int, j: int)
    requires
        shape.stages.len() <= usize::MAX,
        forall|v: usize, w: usize| walks(shape.stages, v) && walks(shape.stages, w) ==> v == w,
    ensures
        emit::planned(shape) matches Step::Emitted(d) ==> (0 <= i < j < d.params.len()
            ==> emit::name_text(d.params[i].name) != emit::name_text(d.params[j].name)),
{
    plans_are_sound(shape);
    if let Step::Emitted(d) = emit::planned(shape) {
        if 0 <= i < j < d.params.len() {
            reveal(sound);
            let a = d.params[i].name;
            let b = d.params[j].name;
            assert(a != b);
            assert(grids(a, shape.stages) && grids(b, shape.stages));
            if emit::name_text(a) == emit::name_text(b) {
                lemma_names_tell(a, b);
            }
        }
    }
}

/// What every stage of a projection's runs looks like: it contracts the
/// normalized row against a weight nothing writes, into a buffer of the
/// caller's.
proof fn lemma_run_shapes(project: FusedProject, n: nat)
    requires
        chains::project_wf(project),
        n <= project.runs@.len(),
    ensures
        ({
            let stages = chains::runs_stages(project, n);
            let e = chains::project_extents(project).len();
            &&& stages.len() >= 1
            &&& stages[0] == chains::runs_stages(project, 0)[0]
            &&& forall|t: int|
                1 <= t < stages.len() ==> {
                    let stage = #[trigger] stages[t];
                    &&& nests_units(stage)
                    &&& reads_of_run(stage, e)
                    &&& 2 <= super::writes_of(stage).0 < 2 + e
                }
        }),
    decreases n,
{
    let e = chains::project_extents(project).len();
    chains::lemma_project_extents(project);
    if n > 0 {
        lemma_run_shapes(project, (n - 1) as nat);
        let before = chains::runs_stages(project, (n - 1) as nat);
        let stages = chains::runs_stages(project, n);
        let run = project.runs@[n - 1];
        chains::lemma_extent(chains::project_extents(project), run.dst);
        assert forall|t: int| 1 <= t < stages.len() implies {
            let stage = #[trigger] stages[t];
            &&& nests_units(stage)
            &&& reads_of_run(stage, e)
            &&& 2 <= super::writes_of(stage).0 < 2 + e
        } by {
            if t < before.len() {
                assert(stages[t] == before[t]);
            } else {
                assert(stages[t] == chains::run_stages(project, run)[t - before.len()]);
            }
        }
    }
}

spec fn nests_units(stage: Stage) -> bool {
    super::part_of(stage) is Units
}

/// A stage reads all of the normalized row and all of a weight, the values
/// that follow the `e` buffers.
spec fn reads_of_run(stage: Stage, e: nat) -> bool {
    let reads = super::reads_of(stage);
    &&& reads.len() == 2
    &&& reads[0].0 == Val((2 + e) as usize)
    &&& reads[1].0.0 >= 3 + e
    &&& quantizes(stage, reads[0].0)
    &&& forall|val: Val| quantizes(stage, val) ==> val == reads[0].0
}

/// The last writer of a value no stage but the first writes.
proof fn lemma_only_the_sweep_writes(stages: Seq<Stage>, s: int, val: Val)
    requires
        0 <= s <= stages.len(),
        forall|t: int| 1 <= t < s ==> super::writes_of(#[trigger] stages[t]) != val,
    ensures
        nests::last_writer(stages, s, val) matches Some(w) ==> w == 0,
        s > 0 && super::writes_of(stages[0]) == val ==> nests::last_writer(stages, s, val) == Some(
            0int,
        ),
    decreases s,
{
    assert(nests::last_writer(stages, 0, val) is None);
    if s > 1 {
        lemma_only_the_sweep_writes(stages, s - 1, val);
    }
}

/// No run of a projection waits.
proof fn lemma_runs_never_wait(project: FusedProject, stages: Seq<Stage>, s: int)
    requires
        chains::project_wf(project),
        0 <= s < chains::runs_stages(project, project.runs@.len()).len() <= stages.len(),
        forall|t: int|
            0 <= t < chains::runs_stages(project, project.runs@.len()).len() ==> #[trigger] stages[t]
                == chains::runs_stages(project, project.runs@.len())[t],
    ensures
        !nests::waits(stages, s),
{
    let runs = chains::runs_stages(project, project.runs@.len());
    let e = chains::project_extents(project).len();
    chains::lemma_project_extents(project);
    lemma_run_shapes(project, project.runs@.len());
    if nests::waits(stages, s) {
        let i = choose|i: int|
            0 <= i < super::reads_of(stages[s]).len() && #[trigger] nests::read_waits(stages, s, i);
        let val = super::reads_of(stages[s])[i].0;
        nests::lemma_writer_bound(stages, s, val);
        assert(stages[s] == runs[s]);
        assert(s >= 1);
        assert(i == 0 || i == 1);
        assert forall|t: int| 1 <= t < s implies super::writes_of(#[trigger] stages[t]) != val by {
            assert(stages[t] == runs[t]);
        }
        lemma_only_the_sweep_writes(stages, s, val);
        assert(stages[0] == runs[0]);
        assert(nests::nest_part(stages, 0) is Whole);
    }
}

/// A mixer's projection costs no barrier: the normalization is redundant, and
/// the runs write windows nothing in the chain reads back.
pub proof fn a_projection_needs_no_barrier(project: FusedProject, blocks: u32)
    requires
        chains::project_wf(project),
        project.mix is None,
        chains::project_stages(project).len() <= usize::MAX,
    ensures
        emit::planned(
            Shape {
                vals: chains::project_vals(project),
                stages: chains::project_stages(project),
                blocks,
            },
        ) matches Step::Emitted(d) ==> d.barriers == 0,
{
    let stages = chains::project_stages(project);
    let shape = Shape { vals: chains::project_vals(project), stages, blocks };
    assert forall|n: nat| !nests::barrier_before(stages, n) by {
        if nests::barrier_before(stages, n) {
            let s = choose|s: int|
                0 <= s < stages.len() && nests::nest_of(stages, s) == n && #[trigger] nests::waits(
                    stages,
                    s,
                );
            lemma_runs_never_wait(project, stages, s);
        }
    }
    lemma_none_wait(stages, stages.len());
    barriers_are_the_waiting_nests(shape);
}

proof fn lemma_none_wait(stages: Seq<Stage>, s: nat)
    requires
        forall|n: nat| !nests::barrier_before(stages, n),
    ensures
        waiting_nests(stages, s) == 0,
    decreases s,
{
    if s > 0 {
        lemma_none_wait(stages, (s - 1) as nat);
    }
}

/// A mixer's projection publishes nothing: the one value its nests pass on is
/// the normalized row, which every block holds for itself.
pub proof fn a_projection_publishes_nothing(project: FusedProject, blocks: u32)
    requires
        chains::project_wf(project),
        project.mix is None,
        2 <= chains::project_stages(project).len() <= usize::MAX,
    ensures
        emit::planned(
            Shape {
                vals: chains::project_vals(project),
                stages: chains::project_stages(project),
                blocks,
            },
        ) matches Step::Emitted(d) ==> d.scratch.len() == 0 && d.shared.len() <= 1,
{
    let stages = chains::project_stages(project);
    let shape = Shape { vals: chains::project_vals(project), stages, blocks };
    let e = chains::project_extents(project).len();
    let act = Val((2 + e) as usize);
    chains::lemma_project_extents(project);
    lemma_run_shapes(project, project.runs@.len());
    assert(super::writes_of(stages[0]) == act);
    assert forall|t: int| 1 <= t < 1 implies super::writes_of(#[trigger] stages[t]) != act by {}
    lemma_only_the_sweep_writes(stages, 1, act);
    assert(stages[1] == chains::runs_stages(project, project.runs@.len())[1]);
    assert(nests::nest_of(stages, 0) == 0);
    assert(nests::nest_part(stages, 0) is Whole);
    assert(nests::opens(stages, 1));
    assert(nests::nest_of(stages, 1) == 1);
    assert(nests::read_shares(stages, 1, 0));
    assert(nests::shares(stages, 1, act));
    assert(nests::is_redundant(stages, act));
    assert forall|val: Val| is_activation(stages, val) implies val == act by {
        let s = choose|s: int| 0 <= s < stages.len() && quantizes(#[trigger] stages[s], val);
        if s > 0 {
            assert(stages[s] == chains::runs_stages(project, project.runs@.len())[s]);
        }
    }
    plans_are_sound(shape);
    if let Step::Emitted(d) = emit::planned(shape) {
        reveal(sound);
        if d.scratch.len() > 0 {
            assert(is_activation(stages, d.stored[0]));
        }
        if d.shared.len() > 1 {
            assert(is_activation(stages, d.shared[0]));
            assert(is_activation(stages, d.shared[1]));
        }
    }
}

/// The gates read nothing that the convolution writes.
pub open spec fn gates_apart(m: FusedMix) -> bool {
    m.packed != m.decay.0 && m.packed != m.rate && m.packed != m.dt_bias
}

/// With the convolution and the gates behind it, a projection costs at most one
/// barrier, and the gates share the convolution's.
pub proof fn a_mix_needs_at_most_one_barrier(project: FusedProject, blocks: u32)
    requires
        chains::project_wf(project),
        project.mix is Some,
        gates_apart(project.mix->0),
        chains::project_stages(project).len() <= usize::MAX,
    ensures
        emit::planned(
            Shape {
                vals: chains::project_vals(project),
                stages: chains::project_stages(project),
                blocks,
            },
        ) matches Step::Emitted(d) ==> d.barriers <= 1,
        ({
            let stages = chains::project_stages(project);
            nests::waits(stages, stages.len() - 2) ==> nests::nest_of(stages, stages.len() - 1)
                == nests::nest_of(stages, stages.len() - 2)
        }),
{
    let stages = chains::project_stages(project);
    let shape = Shape { vals: chains::project_vals(project), stages, blocks };
    lemma_mix_waits(project);
    lemma_one_nest_waits(stages, nests::nest_of(stages, stages.len() - 1), stages.len());
    barriers_are_the_waiting_nests(shape);
}

/// Only the last nest may wait, and where the convolution does it opens that
/// nest and the gates are in it.
proof fn lemma_mix_waits(project: FusedProject)
    requires
        chains::project_wf(project),
        project.mix is Some,
        gates_apart(project.mix->0),
    ensures
        ({
            let stages = chains::project_stages(project);
            let conv = chains::runs_stages(project, project.runs@.len()).len() as int;
            &&& stages.len() == conv + 2
            &&& !nests::starts_elementwise(stages)
            &&& nests::waits(stages, conv) ==> nests::opens(stages, conv) && nests::nest_of(
                stages,
                conv + 1,
            ) == nests::nest_of(stages, conv)
            &&& forall|n: nat|
                #[trigger] nests::barrier_before(stages, n) ==> n == nests::nest_of(stages, conv + 1)
        }),
{
    let stages = chains::project_stages(project);
    let runs = chains::runs_stages(project, project.runs@.len());
    let conv = runs.len() as int;
    let m = project.mix->0;
    let extents = chains::project_extents(project);
    lemma_runs_nonempty(project, project.runs@.len());
    lemma_run_shapes(project, project.runs@.len());
    assert(stages[conv] == chains::mix_stages(extents, m)[0]);
    assert(stages[conv + 1] == chains::mix_stages(extents, m)[1]);
    assert(stages[0] == runs[0]);
    assert(super::part_of(stages[conv]) == super::part_of(stages[conv + 1]));
    assert(nests::nest_part(stages, conv) == super::part_of(stages[conv]));
    assert forall|t: int| 0 <= t < runs.len() implies #[trigger] stages[t] == runs[t] by {}
    assert forall|s: int| 0 <= s < conv implies !#[trigger] nests::waits(stages, s) by {
        lemma_runs_never_wait(project, stages, s);
    }
    if nests::waits(stages, conv) {
        let found = nests::place(stages, conv - 1);
        if found.waits {
            nests::lemma_place_waits(stages, conv - 1);
        }
        nests::lemma_waits(stages, conv);
        if !nests::opens(stages, conv) {
            assert(nests::place(stages, conv).first == found.first);
            assert(nests::continues(stages, conv, found.first));
        }
        let here = nests::place(stages, conv);
        assert(here.first == conv && here.waits);
        let raw = chains::extent_val(extents, m.decay.0);
        let rate = chains::extent_val(extents, m.rate);
        let bias = chains::extent_val(extents, m.dt_bias);
        let packed = chains::extent_val(extents, m.packed);
        chains::lemma_project_extents(project);
        chains::lemma_extent(extents, m.decay.0);
        chains::lemma_extent(extents, m.rate);
        chains::lemma_extent(extents, m.dt_bias);
        chains::lemma_extent(extents, m.packed);
        assert(raw != packed && rate != packed && bias != packed);
        if nests::contracts(stages, conv + 1, conv) {
            let i = choose|i: int|
                0 <= i < super::reads_of(stages[conv + 1]).len() && (#[trigger] super::reads_of(
                    stages[conv + 1],
                )[i]).1 == Read::All && nests::within(stages, conv + 1, i, conv);
            let val = super::reads_of(stages[conv + 1])[i].0;
            assert(val != packed);
            assert(nests::last_writer(stages, conv + 1, val) == nests::last_writer(
                stages,
                conv,
                val,
            ));
            nests::lemma_writer_bound(stages, conv, val);
        }
        assert(!nests::opens(stages, conv + 1));
    }
    assert forall|n: nat| #[trigger] nests::barrier_before(stages, n) implies n == nests::nest_of(
        stages,
        conv + 1,
    ) by {
        let s = choose|s: int|
            0 <= s < stages.len() && nests::nest_of(stages, s) == n && #[trigger] nests::waits(
                stages,
                s,
            );
        assert(s >= conv);
    }
}

/// Where only one nest may wait, at most one barrier is due.
proof fn lemma_one_nest_waits(stages: Seq<Stage>, n: nat, s: nat)
    requires
        s <= stages.len(),
        !nests::starts_elementwise(stages),
        forall|k: nat| #[trigger] nests::barrier_before(stages, k) ==> k == n,
    ensures
        waiting_nests(stages, s) <= 1,
        s > 0 && nests::nest_of(stages, s - 1) < n ==> waiting_nests(stages, s) == 0,
        s == 0 ==> waiting_nests(stages, s) == 0,
    decreases s,
{
    if s > 0 {
        lemma_one_nest_waits(stages, n, (s - 1) as nat);
        if s > 1 {
            nests_are_runs(stages, s - 2, s - 1);
        }
    }
}

/// The convolution costs the one barrier wherever it reads a stream the
/// projection wrote, and the gates ride in its nest.
pub proof fn the_convolution_costs_a_barrier(project: FusedProject, blocks: u32, r: int)
    requires
        chains::project_wf(project),
        project.mix is Some,
        gates_apart(project.mix->0),
        chains::project_stages(project).len() <= usize::MAX,
        0 <= r < project.runs@.len(),
        project.runs@[r].dst == project.mix->0.history,
        chains::run_stages(project, project.runs@[r]).len() > 0,
    ensures
        emit::planned(
            Shape {
                vals: chains::project_vals(project),
                stages: chains::project_stages(project),
                blocks,
            },
        ) matches Step::Emitted(d) ==> d.barriers == 1,
        ({
            let stages = chains::project_stages(project);
            nests::nest_of(stages, stages.len() - 1) == nests::nest_of(stages, stages.len() - 2)
        }),
{
    let stages = chains::project_stages(project);
    let shape = Shape { vals: chains::project_vals(project), stages, blocks };
    let runs = chains::runs_stages(project, project.runs@.len());
    let conv = runs.len() as int;
    let m = project.mix->0;
    let extents = chains::project_extents(project);
    let history = chains::extent_val(extents, m.history);
    lemma_mix_waits(project);
    lemma_run_shapes(project, project.runs@.len());
    lemma_run_written(project, project.runs@.len(), r);
    let t = choose|t: int| 1 <= t < runs.len() && super::writes_of(#[trigger] runs[t]) == history;
    assert(stages[t] == runs[t]);
    lemma_some_writer(stages, conv, history, t);
    let w = nests::last_writer(stages, conv, history)->0;
    nests::lemma_writer_bound(stages, conv, history);
    assert(stages[conv] == chains::mix_stages(extents, m)[0]);
    assert(stages[0] == runs[0]);
    assert(w >= t);
    assert(stages[w] == runs[w]);
    assert(nests::nest_part(stages, w) is Units);
    assert(super::reads_of(stages[conv])[0] == (history, Read::All));
    all_of_a_value_is_read_in_order(stages, conv, 0);
    let n = nests::nest_of(stages, conv);
    assert(nests::waits(stages, conv)) by {
        assert(nests::read_waits(stages, conv, 0));
    }
    lemma_one_nest_waits(stages, n, stages.len());
    lemma_waits_counted(stages, conv, stages.len());
    barriers_are_the_waiting_nests(shape);
}

proof fn lemma_waits_counted(stages: Seq<Stage>, at: int, s: nat)
    requires
        0 <= at < s <= stages.len(),
        nests::opens(stages, at),
        nests::barrier_before(stages, nests::nest_of(stages, at)),
    ensures
        waiting_nests(stages, s) >= 1,
    decreases s,
{
    if at < s - 1 {
        lemma_waits_counted(stages, at, (s - 1) as nat);
    }
}

proof fn lemma_some_writer(stages: Seq<Stage>, s: int, val: Val, t: int)
    requires
        0 <= t < s <= stages.len(),
        super::writes_of(stages[t]) == val,
    ensures
        nests::last_writer(stages, s, val) is Some,
        nests::last_writer(stages, s, val)->0 >= t,
    decreases s,
{
    if s - 1 > t {
        if super::writes_of(stages[s - 1]) != val {
            lemma_some_writer(stages, s - 1, val, t);
        }
    }
}

proof fn lemma_run_written(project: FusedProject, n: nat, r: int)
    requires
        0 <= r < n <= project.runs@.len(),
        chains::run_stages(project, project.runs@[r]).len() > 0,
    ensures
        exists|t: int|
            1 <= t < chains::runs_stages(project, n).len() && super::writes_of(
                #[trigger] chains::runs_stages(project, n)[t],
            ) == chains::extent_val(chains::project_extents(project), project.runs@[r].dst),
    decreases n,
{
    let before = chains::runs_stages(project, (n - 1) as nat);
    let stages = chains::runs_stages(project, n);
    lemma_runs_nonempty(project, (n - 1) as nat);
    if r == n - 1 {
        let t = before.len() as int;
        assert(stages[t] == chains::run_stages(project, project.runs@[r])[0]);
    } else {
        lemma_run_written(project, (n - 1) as nat, r);
        let t = choose|t: int|
            1 <= t < before.len() && super::writes_of(#[trigger] before[t]) == chains::extent_val(
                chains::project_extents(project),
                project.runs@[r].dst,
            );
        assert(stages[t] == before[t]);
    }
}

proof fn lemma_runs_nonempty(project: FusedProject, n: nat)
    ensures
        chains::runs_stages(project, n).len() >= 1,
    decreases n,
{
    if n > 0 {
        lemma_runs_nonempty(project, (n - 1) as nat);
    }
}

/// Two chains recorded alike have one plan, whatever buffers they bind: what is
/// compiled for one layer serves every layer.
pub proof fn bindings_do_not_shape_a_plan(a: super::Chain, b: super::Chain, blocks: u32)
    requires
        a.vals() == b.vals(),
        a.stages() == b.stages(),
    ensures
        emit::planned(a.shape(blocks)) == emit::planned(b.shape(blocks)),
{
}

/// A read of what other blocks wrote is ordered behind the write: the writer's
/// nest comes first, and a barrier precedes the reader's.
pub proof fn a_crossing_read_is_ordered(stages: Seq<Stage>, s: int, i: int)
    requires
        0 <= s < stages.len(),
        0 <= i < super::reads_of(stages[s]).len(),
        !nests::starts_elementwise(stages),
        nests::read_waits(stages, s, i),
    ensures
        ({
            let w = nests::last_writer(stages, s, super::reads_of(stages[s])[i].0)->0;
            &&& 0 <= w < s
            &&& nests::nest_of(stages, w) < nests::nest_of(stages, s)
            &&& nests::barrier_before(stages, nests::nest_of(stages, s))
        }),
{
    let val = super::reads_of(stages[s])[i].0;
    nests::lemma_writer_bound(stages, s, val);
    nests_are_runs(stages, nests::last_writer(stages, s, val)->0, s);
    assert(nests::waits(stages, s));
}

/// A stage that reads all of a value reads it whole: every block wrote its own
/// copy, or the writer's nest comes first and a barrier precedes the reader's.
pub proof fn all_of_a_value_is_read_in_order(stages: Seq<Stage>, s: int, i: int)
    requires
        0 <= s < stages.len(),
        0 <= i < super::reads_of(stages[s]).len(),
        super::reads_of(stages[s])[i].1 == Read::All,
        !nests::starts_elementwise(stages),
    ensures
        nests::last_writer(stages, s, super::reads_of(stages[s])[i].0) matches Some(w) ==> {
            ||| nests::nest_part(stages, w) is Whole
            ||| {
                &&& nests::nest_of(stages, w) < nests::nest_of(stages, s)
                &&& nests::barrier_before(stages, nests::nest_of(stages, s))
            }
        },
{
    let val = super::reads_of(stages[s])[i].0;
    if nests::last_writer(stages, s, val) is Some {
        let w = nests::last_writer(stages, s, val)->0;
        nests::lemma_writer_bound(stages, s, val);
        nests::lemma_place(stages, s);
        if !(nests::nest_part(stages, w) is Whole) {
            let first = nests::place(stages, s).first;
            if w >= first {
                assert(nests::place(stages, s - 1).first == first);
                assert(nests::within(stages, s, i, first));
                assert(nests::contracts(stages, s, first));
                assert(nests::opens(stages, s));
            }
            nests::lemma_read_waits(stages, s, i);
            assert(nests::read_waits(stages, s, i));
            a_crossing_read_is_ordered(stages, s, i);
        }
    }
}

/// No register crosses a nest in a kernel the pass emits.
pub proof fn registers_stay_in_their_nest(shape: Shape, s: int, i: int)
    requires
        0 <= s < shape.stages.len(),
        0 <= i < super::reads_of(shape.stages[s]).len(),
        emit::planned(shape) is Emitted,
        nests::crosses(shape.stages, s, super::reads_of(shape.stages[s])[i].0),
    ensures
        !(shape.kind(super::reads_of(shape.stages[s])[i].0) is Temp),
{
    if shape.kind(super::reads_of(shape.stages[s])[i].0) is Temp {
        assert(nests::strands(shape, s));
    }
}

/// Two kernels that differ in nothing but the values of their constants.
#[verifier::opaque]
pub open spec fn alike(d: Draft, e: Draft) -> bool {
    &&& d.params == e.params
    &&& d.scratch == e.scratch
    &&& d.decls == e.decls
    &&& d.body == e.body
    &&& d.barriers == e.barriers
    &&& d.views == e.views
    &&& d.pairs == e.pairs
    &&& d.stored == e.stored
    &&& d.shared == e.shared
    &&& d.regs == e.regs
    &&& d.raw == e.raw
    &&& d.tune.len() == e.tune.len()
    &&& forall|i: int| 0 <= i < d.tune.len() ==> (#[trigger] d.tune[i]).0 == e.tune[i].0
}

broadcast proof fn lemma_tuned_alike(d: Draft, e: Draft, name: Tune, v: usize, w: usize)
    requires
        #[trigger] alike(d, e),
    ensures
        alike(#[trigger] d.tuned(name, v), #[trigger] e.tuned(name, w)),
{
    reveal(alike);
    if emit::has_tune(d.tune, name) {
        let i = choose|i: int| 0 <= i < d.tune.len() && (#[trigger] d.tune[i]).0 == name;
        assert(e.tune[i].0 == name);
    }
    if emit::has_tune(e.tune, name) {
        let i = choose|i: int| 0 <= i < e.tune.len() && (#[trigger] e.tune[i]).0 == name;
        assert(d.tune[i].0 == name);
    }
}

broadcast proof fn lemma_wrote_alike(d: Draft, e: Draft, text: Seq<char>)
    requires
        #[trigger] alike(d, e),
    ensures
        alike(#[trigger] d.wrote(text), #[trigger] e.wrote(text)),
{
    reveal(alike);
}

broadcast proof fn lemma_reg_alike(d: Draft, e: Draft, val: Val, s: usize)
    requires
        #[trigger] alike(d, e),
    ensures
        alike(#[trigger] d.reg(val, s), #[trigger] e.reg(val, s)),
{
    reveal(alike);
}

broadcast proof fn lemma_barrier_alike(d: Draft, e: Draft)
    requires
        #[trigger] alike(d, e),
    ensures
        alike(#[trigger] d.barrier(), #[trigger] e.barrier()),
{
    reveal(alike);
}

broadcast proof fn lemma_given_alike(d: Draft, e: Draft, x: Shape, y: Shape, val: Val, form: Form)
    requires
        #[trigger] alike(d, e),
        x.vals == y.vals,
    ensures
        alike(#[trigger] d.given(x, val, form), #[trigger] e.given(y, val, form)),
{
    reveal(alike);
}

broadcast proof fn lemma_weight_alike(d: Draft, e: Draft, x: Shape, y: Shape, val: Val)
    requires
        #[trigger] alike(d, e),
        x.vals == y.vals,
    ensures
        alike(#[trigger] d.weight(x, val), #[trigger] e.weight(y, val)),
{
    reveal(alike);
}

broadcast proof fn lemma_weight_fault_alike(d: Draft, e: Draft, x: Shape, y: Shape, val: Val)
    requires
        #[trigger] alike(d, e),
        x.vals == y.vals,
    ensures
        #[trigger] d.weight_fault(x, val) == #[trigger] e.weight_fault(y, val),
{
    reveal(alike);
}

broadcast proof fn lemma_raw_weight_alike(d: Draft, e: Draft, x: Shape, y: Shape, val: Val)
    requires
        #[trigger] alike(d, e),
        x.vals == y.vals,
    ensures
        alike(#[trigger] d.raw_weight(x, val), #[trigger] e.raw_weight(y, val)),
{
    reveal(alike);
}

broadcast proof fn lemma_quant_alike(d: Draft, e: Draft, x: Shape, y: Shape, val: Val, folded: bool)
    requires
        #[trigger] alike(d, e),
        x.vals == y.vals,
        x.stages == y.stages,
    ensures
        alike(#[trigger] d.quant(x, val, folded), #[trigger] e.quant(y, val, folded)),
{
    reveal(alike);
}

broadcast proof fn lemma_names_alike(d: Draft, e: Draft, val: Val, form: Form)
    requires
        #[trigger] alike(d, e),
    ensures
        #[trigger] d.names(val, form) == #[trigger] e.names(val, form),
{
    reveal(alike);
}

broadcast proof fn lemma_call_alike(
    d: Draft,
    e: Draft,
    head: Seq<char>,
    a: Val,
    w: Val,
    at: Seq<char>,
    width: Seq<char>,
)
    requires
        #[trigger] alike(d, e),
    ensures
        alike(#[trigger] d.call(head, a, w, at, width), #[trigger] e.call(head, a, w, at, width)),
{
    reveal(alike);
}

broadcast group group_alike {
    lemma_tuned_alike,
    lemma_wrote_alike,
    lemma_reg_alike,
    lemma_barrier_alike,
    lemma_given_alike,
    lemma_weight_alike,
    lemma_weight_fault_alike,
    lemma_raw_weight_alike,
    lemma_quant_alike,
    lemma_names_alike,
    lemma_call_alike,
}

proof fn lemma_runs_alike(
    d: Draft,
    e: Draft,
    s: usize,
    n: usize,
    h: Seq<char>,
    qs: Seq<char>,
    scales: Seq<char>,
    blocks: usize,
    b: nat,
)
    requires
        alike(d, e),
    ensures
        alike(
            d.quant_runs(s, n, h, qs, scales, blocks, b),
            e.quant_runs(s, n, h, qs, scales, blocks, b),
        ),
    decreases b,
{
    broadcast use group_alike;

    if b > 0 {
        lemma_runs_alike(d, e, s, n, h, qs, scales, blocks, (b - 1) as nat);
    }
}

/// Two outcomes of one kind, their kernels alike.
pub open spec fn steps_alike(a: Step, b: Step) -> bool {
    match (a, b) {
        (Step::Failed(x), Step::Failed(y)) => x == y,
        (Step::Declined, Step::Declined) => true,
        (Step::Emitted(d), Step::Emitted(e)) => alike(d, e),
        _ => false,
    }
}

proof fn lemma_norm_alike(d: Draft, e: Draft, x: Shape, y: Shape, s: usize)
    requires
        alike(d, e),
        x.vals == y.vals,
        x.stages == y.stages,
    ensures
        steps_alike(d.norm(x, s), e.norm(y, s)),
{
    broadcast use group_alike;

    reveal(Draft::norm);
}

#[verifier::rlimit(60)]
#[verifier::spinoff_prover]
proof fn lemma_unit_alike(d: Draft, e: Draft, x: Shape, y: Shape, s: usize, n: usize)
    requires
        alike(d, e),
        x.vals == y.vals,
        x.stages == y.stages,
    ensures
        steps_alike(d.unit_stage(x, s, n), e.unit_stage(y, s, n)),
{
    broadcast use group_alike;

    reveal(Draft::unit_stage);
    assert(d.regs == e.regs) by {
        reveal(alike);
    }
    if let Stage::QuantQ { h, out, blocks, .. } = x.stages[s as int] {
        lemma_quant_alike(d, e, x, y, out, true);
        let (da, ea) = (d.quant(x, out, true), e.quant(y, out, true));
        let (qs, scales) = da.names(out, Form::Folded);
        lemma_names_alike(da, ea, out, Form::Folded);
        if blocks > 1 && emit::reg_of(d.regs, h) is Some {
            lemma_runs_alike(
                da,
                ea,
                s,
                n,
                "v"@ + text::decimal(emit::reg_of(d.regs, h)->0 as nat),
                qs,
                scales,
                blocks,
                blocks as nat,
            );
        }
    }
}

proof fn lemma_alike_so_far(x: Shape, y: Shape, s: nat)
    requires
        x.vals == y.vals,
        x.stages == y.stages,
    ensures
        steps_alike(emit::emitted(x, s), emit::emitted(y, s)),
    decreases s,
{
    if s == 0 {
        reveal(alike);
    } else {
        lemma_alike_so_far(x, y, (s - 1) as nat);
        if let (Step::Emitted(d), Step::Emitted(e)) = (
            emit::emitted(x, (s - 1) as nat),
            emit::emitted(y, (s - 1) as nat),
        ) {
            let at = (s - 1) as usize;
            reveal(Draft::stage);
            let (da, ea) = if nests::opens(x.stages, at as int) {
                assert(alike(d.enter(x, at), e.enter(y, at))) by {
                    broadcast use group_alike;

                    reveal(Draft::enter);
                }
                (d.enter(x, at), e.enter(y, at))
            } else {
                (d, e)
            };
            lemma_norm_alike(da, ea, x, y, at);
            lemma_unit_alike(
                da,
                ea,
                x,
                y,
                at,
                nests::nest_of(x.stages, at as int) as usize,
            );
        }
    }
}

/// The grid a chain is compiled for changes nothing but the values of its
/// constants: not the loops, the operands, the scratch, nor the rows every
/// block holds.
pub proof fn the_grid_only_sets_constants(vals: Seq<Kind>, stages: Seq<Stage>, a: u32, b: u32)
    ensures
        steps_alike(
            emit::planned(Shape { vals, stages, blocks: a }),
            emit::planned(Shape { vals, stages, blocks: b }),
        ),
{
    let x = Shape { vals, stages, blocks: a };
    let y = Shape { vals, stages, blocks: b };
    broadcast use group_alike;

    lemma_alike_so_far(x, y, stages.len());
    assert(nests::is_stranded(x) == nests::is_stranded(y)) by {
        assert forall|s: int| #[trigger] nests::strands(x, s) == nests::strands(y, s) by {
            if nests::strands(x, s) {
                let i = choose|i: int|
                    0 <= i < super::reads_of(stages[s]).len() && nests::crosses(
                        stages,
                        s,
                        (#[trigger] super::reads_of(stages[s])[i]).0,
                    ) && x.kind(super::reads_of(stages[s])[i].0) is Temp;
                assert(y.kind(super::reads_of(y.stages[s])[i].0) is Temp);
            }
            if nests::strands(y, s) {
                let i = choose|i: int|
                    0 <= i < super::reads_of(stages[s]).len() && nests::crosses(
                        stages,
                        s,
                        (#[trigger] super::reads_of(stages[s])[i]).0,
                    ) && y.kind(super::reads_of(stages[s])[i].0) is Temp;
                assert(x.kind(super::reads_of(x.stages[s])[i].0) is Temp);
            }
        }
        if nests::is_stranded(x) {
            let s = choose|s: int| 0 <= s < stages.len() && #[trigger] nests::strands(x, s);
            assert(nests::strands(y, s));
        }
        if nests::is_stranded(y) {
            let s = choose|s: int| 0 <= s < stages.len() && #[trigger] nests::strands(y, s);
            assert(nests::strands(x, s));
        }
    }
}

} // verus!
