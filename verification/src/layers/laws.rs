//! What holds of the programs projections and feed-forwards come to.

use vstd::prelude::*;

use crate::layers::ffn::{self, FfnShape};
use crate::layers::moe::{self, MoeShape};
use crate::layers::program::{self, ActReg, Call, Prog, Reg, Shape, Shared};

verus! {

/// The buffers a program has made and not released.
pub open spec fn live(calls: Seq<Call>) -> Set<usize>
    decreases calls.len(),
{
    if calls.len() == 0 {
        Set::empty()
    } else {
        after(live(calls.drop_last()), calls.last())
    }
}

/// The live buffers once a call has run.
pub open spec fn after(live: Set<usize>, call: Call) -> Set<usize> {
    match call {
        Call::Take { to, .. } => live.insert(to),
        Call::Zeroed { to, .. } => live.insert(to),
        Call::Release { buf: Reg::Made(t), .. } => live.remove(t),
        _ => live,
    }
}

/// How many quantized activations a program makes.
pub open spec fn acts(calls: Seq<Call>) -> nat
    decreases calls.len(),
{
    if calls.len() == 0 {
        0
    } else {
        acts(calls.drop_last()) + if makes_act(calls.last()) {
            1nat
        } else {
            0
        }
    }
}

pub open spec fn makes_act(call: Call) -> bool {
    match call {
        Call::Quantize { .. } => true,
        Call::Transform { act, .. } => act is Some,
        Call::NormQuantize { .. } => true,
        Call::NormTransform { .. } => true,
        Call::SwigluQuantize { .. } => true,
        _ => false,
    }
}

/// A buffer may be read or written: the caller's, or one made and not released.
pub open spec fn held(live: Set<usize>, reg: Reg) -> bool {
    reg matches Reg::Made(t) ==> live.contains(t)
}

/// A quantized activation may be read: the caller's, or one made.
pub open spec fn known(acts: nat, act: Option<ActReg>) -> bool {
    act matches Some(ActReg::Made(a)) ==> a < acts
}

/// Whether a call reads and writes only what is there, and allocates only what
/// is not.
pub open spec fn allowed(live: Set<usize>, acts: nat, call: Call) -> bool {
    match call {
        Call::Take { to, .. } => !live.contains(to),
        Call::Zeroed { to, .. } => !live.contains(to),
        Call::Release { buf, .. } => held(live, buf),
        Call::Quantize { x, to, .. } => held(live, x) && to == acts,
        Call::Project { x, act, out, .. } => held(live, x) && held(live, out) && known(acts, act),
        Call::Accumulate { act, dest, .. } => held(live, dest) && known(acts, Some(act)),
        Call::Sum { dest, from } => held(live, dest) && held(live, from) && dest != from,
        Call::Transform { x, out, act, .. } => held(live, x) && held(live, out) && x != out && (
        act matches Some(a) ==> a == acts),
        Call::Norm { x, out, .. } => held(live, x) && held(live, out),
        Call::NormQuantize { x, out, act, .. } => held(live, x) && held(live, out) && act == acts,
        Call::NormTransform { x, normed, out, act, .. } => held(live, x) && held(live, normed)
            && held(live, out) && out != x && out != normed && act == acts,
        Call::SwigluQuantize { gate, up, out, act, .. } => held(live, gate) && held(live, up)
            && held(live, out) && out != gate && out != up && act == acts,
        Call::SwigluPlanes { gate, up, out, .. } => held(live, gate.buf) && held(live, up.buf)
            && held(live, out) && out != gate.buf && out != up.buf,
        Call::Gate { x, out, .. } => held(live, x) && held(live, out) && x != out,
        Call::Experts { x, act, logits, shared, gate, dest, .. } => held(live, x) && held(
            live,
            logits,
        ) && held(live, shared) && held(live, gate) && held(live, dest) && known(acts, act),
    }
}

/// Whether every call of a program is allowed where it stands: nothing is read
/// before it is made or after it is released, and nothing is released twice.
pub open spec fn sound(calls: Seq<Call>) -> bool
    decreases calls.len(),
{
    calls.len() > 0 ==> sound(calls.drop_last()) && allowed(
        live(calls.drop_last()),
        acts(calls.drop_last()),
        calls.last(),
    )
}

/// A sound program whose registers are numbered in the order they are made,
/// with `room` left.
pub open spec fn good(p: Prog, room: nat) -> bool {
    &&& sound(p.calls)
    &&& acts(p.calls) == p.acts
    &&& forall|t: usize| #[trigger] live(p.calls).contains(t) ==> t < p.bufs
    &&& p.bufs + room <= usize::MAX
    &&& p.acts + room <= usize::MAX
}

/// Both hold of a program and its continuation, and what is live is the same.
pub open spec fn keeps(p: Prog, q: Prog) -> bool {
    &&& sound(q.calls)
    &&& acts(q.calls) == q.acts
    &&& live(q.calls) =~= live(p.calls)
    &&& p.bufs <= q.bufs
    &&& p.acts <= q.acts
}

broadcast proof fn lemma_push(calls: Seq<Call>, call: Call)
    ensures
        live(#[trigger] calls.push(call)) == after(live(calls), call),
        acts(calls.push(call)) == acts(calls) + if makes_act(call) {
            1nat
        } else {
            0
        },
        sound(calls.push(call)) == (sound(calls) && allowed(live(calls), acts(calls), call)),
{
    assert(calls.push(call).drop_last() =~= calls);
}

/// A projection reads only what is there, and leaves what is live as it was.
pub proof fn a_projection_leaves_nothing_behind(
    p: Prog,
    s: Shape,
    weight: usize,
    x: Reg,
    act: Option<ActReg>,
    rows: usize,
    out: Reg,
)
    requires
        good(p, 8),
        held(live(p.calls), x),
        held(live(p.calls), out),
        known(p.acts, act),
    ensures
        keeps(p, program::projecting(p, s, weight, x, act, rows, out)),
{
    broadcast use lemma_push;

    assert(!live(p.calls).contains(p.bufs as usize));
}

proof fn lemma_adding_dense(
    p: Prog,
    s: Shape,
    weight: usize,
    x: Reg,
    act: Option<ActReg>,
    rows: usize,
    dest: Reg,
)
    requires
        good(p, 4),
        held(live(p.calls), x),
        held(live(p.calls), dest),
        known(p.acts, act),
    ensures
        keeps(p, program::adding_dense(p, s, weight, x, act, rows, dest)),
        program::adding_dense(p, s, weight, x, act, rows, dest).bufs <= p.bufs + 1,
        program::adding_dense(p, s, weight, x, act, rows, dest).acts == p.acts,
{
    broadcast use lemma_push;

    assert(!live(p.calls).contains(p.bufs as usize));
}

proof fn lemma_adding_plain(
    p: Prog,
    s: Shape,
    weight: usize,
    x: Reg,
    act: Option<ActReg>,
    rows: usize,
    dest: Reg,
)
    requires
        good(p, 4),
        held(live(p.calls), x),
        held(live(p.calls), dest),
        known(p.acts, act),
    ensures
        keeps(p, program::adding_plain(p, s, weight, x, act, rows, dest)),
        program::adding_plain(p, s, weight, x, act, rows, dest).bufs <= p.bufs + 1,
        program::adding_plain(p, s, weight, x, act, rows, dest).acts <= p.acts + 1,
{
    if !program::is_quantized(s) {
        lemma_adding_dense(p, s, weight, x, act, rows, dest);
    } else {
        broadcast use lemma_push;

    }
}

/// An accumulating projection reads only what is there, and leaves what is live
/// as it was.
pub proof fn an_addition_leaves_nothing_behind(
    p: Prog,
    s: Shape,
    weight: usize,
    x: Reg,
    act: Option<ActReg>,
    rows: usize,
    dest: Reg,
)
    requires
        good(p, 8),
        held(live(p.calls), x),
        held(live(p.calls), dest),
        known(p.acts, act),
    ensures
        keeps(p, program::adding(p, s, weight, x, rows, dest)),
        keeps(p, program::adding_with(p, s, weight, x, act, rows, dest)),
        program::adding(p, s, weight, x, rows, dest).bufs <= p.bufs + 2,
        program::adding(p, s, weight, x, rows, dest).acts <= p.acts + 2,
{
    if s.rotation is None {
        lemma_adding_plain(p, s, weight, x, None, rows, dest);
        if let Some(a) = act {
            if program::is_quantized(s) {
                lemma_push(
                    p.calls,
                    Call::Accumulate {
                        weight,
                        act: a,
                        rows,
                        in_dim: s.in_dim,
                        out_dim: s.out_dim,
                        dest,
                    },
                );
            } else {
                lemma_adding_dense(p, s, weight, x, None, rows, dest);
            }
        }
    } else {
        let (q, input) = program::sharing(p, s, weight, x, None, rows);
        assert(!live(p.calls).contains(p.bufs as usize));
        assert(sound(q.calls) && acts(q.calls) == q.acts && live(q.calls) =~= live(p.calls).insert(
            p.bufs as usize,
        ) && known(q.acts, input.act)) by {
            broadcast use lemma_push;

        }
        assert(good(q, 4));
        lemma_adding_plain(q, s, weight, input.x, input.act, rows, dest);
        let added = program::adding_plain(q, s, weight, input.x, input.act, rows, dest);
        lemma_push(
            added.calls,
            Call::Release { buf: input.x, guards: program::adding_calls(s, input.act) },
        );
    }
}

/// A shared input is the caller's own where the weight is not folded, and else
/// one buffer more, which giving it back releases.
pub proof fn a_shared_input_owns_one_buffer(
    p: Prog,
    s: Shape,
    weight: usize,
    x: Reg,
    act: Option<ActReg>,
    rows: usize,
    guards: usize,
)
    requires
        good(p, 8),
        held(live(p.calls), x),
        known(p.acts, act),
    ensures
        ({
            let (q, shared) = program::sharing(p, s, weight, x, act, rows);
            &&& sound(q.calls)
            &&& held(live(q.calls), shared.x)
            &&& known(acts(q.calls), shared.act)
            &&& shared.rotation == s.rotation
            &&& s.rotation is None ==> shared.x == x && q == p
            &&& keeps(p, program::unsharing(q, shared, guards))
        }),
{
    broadcast use lemma_push;

    assert(!live(p.calls).contains(p.bufs as usize));
}

/// A quantized copy of a row as it came in never reaches a folded weight: it
/// reads its own transform's.
pub proof fn a_folded_weight_reads_its_transform(
    p: Prog,
    s: Shape,
    weight: usize,
    x: Reg,
    act: Option<ActReg>,
    rows: usize,
    out: Reg,
)
    requires
        s.rotation is Some,
    ensures
        program::projecting(p, s, weight, x, act, rows, out) == program::projecting(
            p,
            s,
            weight,
            x,
            None,
            rows,
            out,
        ),
        program::adding_with(p, s, weight, x, act, rows, out) == program::adding(
            p,
            s,
            weight,
            x,
            rows,
            out,
        ),
{
}

/// The feed-forward reads only what is there, and leaves what is live as it was.
pub proof fn a_feed_forward_leaves_nothing_behind(
    p: Prog,
    f: FfnShape,
    weight: usize,
    x: Shared,
    rows: usize,
    dest: Reg,
)
    requires
        good(p, 32),
        held(live(p.calls), x.x),
        held(live(p.calls), dest),
        known(p.acts, x.act),
    ensures
        keeps(p, ffn::feeding(p, f, weight, x, rows, dest)),
        ffn::feeding(p, f, weight, x, rows, dest).bufs <= p.bufs + 8,
        ffn::feeding(p, f, weight, x, rows, dest).acts <= p.acts + 8,
{
    let width = f.down.in_dim;
    let joined = p.buf();
    let start = p.taking(rows * width);
    let (q, g, u) = ffn::gated(start, f, weight, x, rows);
    let made = if rows == 1 {
        q.acting(
            Call::SwigluQuantize {
                gate: g.buf,
                gate_at: g.offset,
                up: u.buf,
                up_at: u.offset,
                out: joined,
                len: width,
                act: q.acts as usize,
            },
        )
    } else {
        q.then_call(Call::SwigluPlanes { gate: g, up: u, out: joined, rows, width })
    };
    let ready = ffn::releasing(made, g.buf, u.buf);
    assert(!live(p.calls).contains(p.bufs as usize));
    assert(!live(p.calls).contains((p.bufs + 1) as usize));
    assert(!live(p.calls).contains((p.bufs + 2) as usize));
    assert(sound(ready.calls) && acts(ready.calls) == ready.acts && live(ready.calls) =~= live(
        p.calls,
    ).insert(p.bufs as usize)) by {
        broadcast use lemma_push;

    }
    assert(good(ready, 8));
    let act = if rows == 1 {
        Some(q.act())
    } else {
        None
    };
    an_addition_leaves_nothing_behind(
        ready,
        f.down,
        (weight + 2) as usize,
        joined,
        act,
        rows,
        dest,
    );
    let fed = if rows == 1 {
        program::adding_with(ready, f.down, (weight + 2) as usize, joined, act, rows, dest)
    } else {
        program::adding(ready, f.down, (weight + 2) as usize, joined, rows, dest)
    };
    lemma_push(fed.calls, Call::Release { buf: joined, guards: 0 });
}

/// The routed feed-forward reads only what is there, and leaves what is live as
/// it was.
pub proof fn a_routed_feed_forward_leaves_nothing_behind(
    p: Prog,
    m: MoeShape,
    x: Shared,
    rows: usize,
    dest: Reg,
    routes: Option<crate::backend::Buf>,
)
    requires
        good(p, 64),
        held(live(p.calls), x.x),
        held(live(p.calls), dest),
        known(p.acts, x.act),
    ensures
        keeps(p, moe::routing(p, m, x, rows, dest, routes)),
{
    let logits = p.buf();
    let routed = program::plain(
        p.taking(rows * m.router.out_dim),
        m.router,
        0,
        x.x,
        x.act,
        rows,
        logits,
    );
    let shared = routed.buf();
    let start = routed.zeroing(rows * m.router.in_dim);
    assert(!live(p.calls).contains(p.bufs as usize));
    assert(!live(p.calls).contains((p.bufs + 1) as usize));
    assert(sound(start.calls) && acts(start.calls) == start.acts && live(start.calls) =~= live(
        p.calls,
    ).insert(p.bufs as usize).insert((p.bufs + 1) as usize)) by {
        broadcast use lemma_push;

    }
    assert(good(start, 32));
    a_feed_forward_leaves_nothing_behind(start, m.shared, 1, x, rows, shared);
    let fed = ffn::feeding(start, m.shared, 1, x, rows, shared);
    let gate = fed.buf();
    assert(!live(fed.calls).contains(fed.bufs as usize));
    let last = fed.taking(rows as int);
    lemma_push(fed.calls, Call::Take { to: fed.bufs as usize, len: rows });
    let gated = last.then_call(
        Call::Gate { x: x.x, rows, width: m.router.in_dim, out: gate },
    );
    lemma_push(last.calls, Call::Gate { x: x.x, rows, width: m.router.in_dim, out: gate });
    let experts = Call::Experts {
        x: x.x,
        act: x.act,
        rows,
        d_model: m.router.in_dim,
        d_ff: m.d_ff,
        logits,
        n_expert: m.n_expert,
        n_used: m.n_used,
        shared,
        gate,
        dest,
        routes,
    };
    lemma_push(gated.calls, experts);
    let ran = gated.then_call(experts);
    lemma_push(ran.calls, Call::Release { buf: logits, guards: 0 });
    let first = ran.then_call(Call::Release { buf: logits, guards: 0 });
    lemma_push(first.calls, Call::Release { buf: shared, guards: 0 });
    let second = first.then_call(Call::Release { buf: shared, guards: 0 });
    lemma_push(second.calls, Call::Release { buf: gate, guards: 0 });
}

} // verus!
