//! The mixture-of-experts feed-forward: a router, the experts it chooses among,
//! and a shared expert every row goes through.

use std::sync::Arc;

use vstd::prelude::*;

use crate::backend::Buf;
use crate::experts::{self, ExpertSet, StackError};
use crate::gguf::Gguf;
use crate::hadamard::Folding;
use crate::layers::cache::{self, Gain};
use crate::layers::ffn::{self, Ffn, FfnNarrow, FfnShape, FfnValues};
use crate::layers::linear::{self, Linear, LoadError};
use crate::layers::program::{
    self, forward_shared, Call, Prog, Program, Reg, RotationError, Shape, Shared,
};
use crate::layers::{Bill, Upload, Uploads};
use crate::text::{self, Args};

verus! {

broadcast use crate::text::lemma_filled_args;

/// A block's routed feed-forward.
///
/// The router and the shared expert are ordinary weights. The experts are not:
/// they stay in the file's bytes, and the backend holds as many as it can.
pub struct MoeFfn<T> {
    pub router: Linear<T>,
    pub experts: Arc<ExpertSet>,
    pub shared: Ffn<T>,
    /// The shared expert's gate, a vector the row is dotted with.
    pub shared_gate: Gain<T>,
    /// What the expert set registers under.
    pub key: String,
    pub n_used: usize,
}

/// Where a load of a routed feed-forward fails.
pub enum MoeError {
    /// More experts are chosen than there are, or none.
    Used { prefix: String, n_used: usize, n_expert: usize },
    FoldedRouter,
    Load(LoadError),
    Experts(StackError),
}

pub const USED: &'static str = "$0 routes to $1 of $2 experts";

pub const FOLDED_ROUTER: &'static str = "a Hadamard-folded router is not supported";

impl MoeError {
    pub fn message(&self) -> (s: String)
        ensures
            match *self {
                MoeError::Used { prefix, n_used, n_expert } => s@ == text::filled(
                    USED@,
                    seq![prefix@, text::decimal(n_used as nat), text::decimal(n_expert as nat)],
                ),
                MoeError::FoldedRouter => s@ == FOLDED_ROUTER@,
                MoeError::Load(e) => s@ == linear::load_words(e),
                MoeError::Experts(e) => s@ == experts::stack_words(e),
            },
    {
        match self {
            MoeError::Used { prefix, n_used, n_expert } => Args::new().text(prefix.as_str()).num(
                *n_used,
            ).num(*n_expert).fill(USED),
            MoeError::FoldedRouter => FOLDED_ROUTER.to_owned(),
            MoeError::Load(e) => e.message(),
            MoeError::Experts(e) => e.message(),
        }
    }
}

/// What of a routed feed-forward decides its calls.
#[derive(Clone, Copy, PartialEq, Eq, Structural, Debug)]
pub struct MoeShape {
    pub router: Shape,
    pub shared: FfnShape,
    /// Width of one expert.
    pub d_ff: usize,
    pub n_expert: usize,
    pub n_used: usize,
}

/// The router's scores, in the next buffer.
pub open spec fn routed(p: Prog, m: MoeShape, x: Shared, rows: usize) -> Prog {
    program::plain(
        p.taking(rows * m.router.out_dim),
        m.router,
        0,
        x.x,
        x.act,
        rows,
        p.buf(),
    )
}

/// The whole feed-forward added into `dest`: router, chosen experts, gated
/// shared expert.
pub open spec fn routing(
    p: Prog,
    m: MoeShape,
    x: Shared,
    rows: usize,
    dest: Reg,
    routes: Option<Buf>,
) -> Prog {
    let d_model = m.router.in_dim;
    let logits = p.buf();
    let scored = routed(p, m, x, rows);
    let shared = scored.buf();
    let fed = ffn::feeding(scored.zeroing(rows * d_model), m.shared, 1, x, rows, shared);
    let gate = fed.buf();
    fed.taking(rows as int).then_call(
        Call::Gate { x: x.x, rows, width: d_model, out: gate },
    ).then_call(
        Call::Experts {
            x: x.x,
            act: x.act,
            rows,
            d_model,
            d_ff: m.d_ff,
            logits,
            n_expert: m.n_expert,
            n_used: m.n_used,
            shared,
            gate,
            dest,
            routes,
        },
    ).then_call(Call::Release { buf: logits, guards: 0 }).then_call(
        Call::Release { buf: shared, guards: 0 },
    ).then_call(Call::Release { buf: gate, guards: 0 })
}

/// The keys of a routed feed-forward's weights that read its input.
pub struct MoeKeys<'a> {
    pub router: &'a str,
    pub gate: &'a str,
    pub up: &'a str,
}

/// The whole feed-forward. The weights are the router, then the shared expert's.
pub fn forward(
    p: &mut Program,
    m: MoeShape,
    keys: MoeKeys,
    x: Shared,
    rows: usize,
    dest: Reg,
    routes: Option<Buf>,
) -> (result: Result<(), RotationError>)
    requires
        program::sized(m.router, rows),
        m.shared.sized(rows),
        old(p)@.bufs + 64 <= usize::MAX,
        old(p)@.acts + 64 <= usize::MAX,
    ensures
        result is Ok == (x.rotation == m.router.rotation && m.shared.mismatch(x) is None),
        result is Ok ==> final(p)@ == routing(old(p)@, m, x, rows, dest, routes),
        result matches Err(e) ==> e.prepared == x.rotation && if x.rotation != m.router.rotation {
            &&& e.key@ == keys.router@
            &&& e.reads == m.router.rotation
            &&& final(p)@ == old(p)@.taking(rows * m.router.out_dim)
        } else {
            let (which, s) = m.shared.mismatch(x)->Some_0;
            &&& e.reads == s.rotation
            &&& e.key@ == if which == 0 {
                keys.gate@
            } else {
                keys.up@
            }
            &&& final(p)@ == ffn::refused(
                routed(old(p)@, m, x, rows).zeroing(rows * m.router.in_dim),
                m.shared,
                1,
                x,
                rows,
            )
        },
{
    let d_model: usize = m.router.in_dim;
    let logits = match forward_shared(p, m.router, keys.router, 0, x, rows) {
        Ok(out) => out,
        Err(e) => {
            return Err(e);
        },
    };
    let shared = p.zeroed(rows * d_model);
    let ghost before = p@;
    if let Err(e) = ffn::forward(p, m.shared, 1, keys.gate, keys.up, x, rows, shared) {
        return Err(e);
    }
    proof {
        lemma_feeding_numbers(before, m.shared, 1, x, rows, shared);
    }
    let gate = p.take(rows);
    p.push(Call::Gate { x: x.x, rows, width: d_model, out: gate });
    p.push(
        Call::Experts {
            x: x.x,
            act: x.act,
            rows,
            d_model,
            d_ff: m.d_ff,
            logits,
            n_expert: m.n_expert,
            n_used: m.n_used,
            shared,
            gate,
            dest,
            routes,
        },
    );
    p.push(Call::Release { buf: logits, guards: 0 });
    p.push(Call::Release { buf: shared, guards: 0 });
    p.push(Call::Release { buf: gate, guards: 0 });
    Ok(())
}

/// A feed-forward makes few registers.
pub proof fn lemma_feeding_numbers(
    p: Prog,
    f: FfnShape,
    weight: usize,
    x: Shared,
    rows: usize,
    dest: Reg,
)
    ensures
        ffn::feeding(p, f, weight, x, rows, dest).bufs <= p.bufs + 8,
        ffn::feeding(p, f, weight, x, rows, dest).acts <= p.acts + 8,
{
}

pub const ROUTER_NAME: &'static str = "$0.ffn_gate_inp.weight";

pub const SHARED_GATE_NAME: &'static str = "$0.ffn_gate_inp_shexp.weight";

pub const EXPERTS_KEY: &'static str = "$0.experts";

/// What the tensors of a routed feed-forward decode to, and which of its
/// projections are narrow.
pub struct MoeValues<'a, T> {
    pub router: Option<&'a [T]>,
    pub router_narrow: bool,
    pub shared: FfnValues<'a, T>,
    pub shared_narrow: FfnNarrow,
    pub gate: Option<&'a [T]>,
}

/// The widths of a routed feed-forward.
#[derive(Clone, Copy, PartialEq, Eq, Structural, Debug)]
pub struct MoeDims {
    pub d_model: usize,
    pub n_expert: usize,
    pub n_used: usize,
    pub d_expert: usize,
    pub d_shared: usize,
}

pub open spec fn loads_router<T>(
    gguf: Gguf,
    folding: Option<&Folding>,
    prefix: Seq<char>,
    d: MoeDims,
    values: MoeValues<T>,
    result: Result<Linear<T>, LoadError>,
) -> bool {
    linear::loads(
        gguf,
        folding,
        text::filled(ROUTER_NAME@, seq![prefix]),
        d.d_model,
        d.n_expert,
        ffn::values_of(values.router),
        values.router_narrow,
        result,
    )
}

pub open spec fn loads_shared<T>(
    gguf: Gguf,
    folding: Option<&Folding>,
    prefix: Seq<char>,
    d: MoeDims,
    values: MoeValues<T>,
    zero: T,
    result: Result<Ffn<T>, LoadError>,
) -> bool {
    ffn::loads_ffn(
        gguf,
        folding,
        prefix,
        "_shexp"@,
        d.d_model,
        d.d_shared,
        values.shared,
        values.shared_narrow,
        zero,
        result,
    )
}

/// Whether the experts of a block load.
pub open spec fn experts_load(gguf: Gguf, prefix: Seq<char>, d: MoeDims, set: ExpertSet) -> bool {
    &&& experts::loads(
        gguf,
        text::filled(experts::GATE_EXPS@, seq![prefix]),
        d.n_expert,
        d.d_expert,
        d.d_model,
        Ok(set.gate),
    )
    &&& experts::loads(
        gguf,
        text::filled(experts::UP_EXPS@, seq![prefix]),
        d.n_expert,
        d.d_expert,
        d.d_model,
        Ok(set.up),
    )
    &&& experts::loads(
        gguf,
        text::filled(experts::DOWN_EXPS@, seq![prefix]),
        d.n_expert,
        d.d_model,
        d.d_expert,
        Ok(set.down),
    )
}

/// Whether one of the three stacks of a block's experts is what fails.
pub open spec fn experts_fail(gguf: Gguf, prefix: Seq<char>, d: MoeDims, error: StackError) -> bool {
    ||| experts::loads(
        gguf,
        text::filled(experts::GATE_EXPS@, seq![prefix]),
        d.n_expert,
        d.d_expert,
        d.d_model,
        Err(error),
    )
    ||| experts::loads(
        gguf,
        text::filled(experts::UP_EXPS@, seq![prefix]),
        d.n_expert,
        d.d_expert,
        d.d_model,
        Err(error),
    )
    ||| experts::loads(
        gguf,
        text::filled(experts::DOWN_EXPS@, seq![prefix]),
        d.n_expert,
        d.d_model,
        d.d_expert,
        Err(error),
    )
}

/// What loading a routed feed-forward comes to, the first part that fails
/// deciding: the router, the experts, the shared expert, its gate.
pub open spec fn loads_moe<T>(
    gguf: Gguf,
    folding: Option<&Folding>,
    prefix: Seq<char>,
    d: MoeDims,
    values: MoeValues<T>,
    zero: T,
    result: Result<MoeFfn<T>, MoeError>,
) -> bool {
    let gate = |r: Result<Gain<T>, LoadError>|
        cache::loads_vector(
            gguf,
            text::filled(SHARED_GATE_NAME@, seq![prefix]),
            d.d_model,
            ffn::values_of(values.gate),
            r,
        );
    let routed = |r: Result<Linear<T>, LoadError>|
        loads_router(gguf, folding, prefix, d, values, r);
    let shared = |r: Result<Ffn<T>, LoadError>|
        loads_shared(gguf, folding, prefix, d, values, zero, r);
    if !(0 < d.n_used <= d.n_expert) {
        result matches Err(MoeError::Used { prefix: at, n_used, n_expert }) && at@ == prefix
            && n_used == d.n_used && n_expert == d.n_expert
    } else {
        match result {
            Ok(m) => {
                &&& routed(Ok(m.router))
                &&& m.router.rotates() is None
                &&& experts_load(gguf, prefix, d, *m.experts)
                &&& shared(Ok(m.shared))
                &&& gate(Ok(m.shared_gate))
                &&& m.key@ == text::filled(EXPERTS_KEY@, seq![prefix])
                &&& m.n_used == d.n_used
            },
            Err(MoeError::Used { .. }) => false,
            Err(MoeError::FoldedRouter) => exists|r: Linear<T>| #[trigger]
                routed(Ok(r)) && r.rotates() is Some,
            Err(MoeError::Experts(e)) => experts_fail(gguf, prefix, d, e) && exists|r: Linear<T>|
                #[trigger] routed(Ok(r)) && r.rotates() is None,
            Err(MoeError::Load(e)) => {
                ||| routed(Err(e))
                ||| {
                    &&& exists|r: Linear<T>| #[trigger] routed(Ok(r)) && r.rotates() is None
                    &&& exists|set: ExpertSet| #[trigger] experts_load(gguf, prefix, d, set)
                    &&& {
                        ||| shared(Err(e))
                        ||| gate(Err(e)) && exists|f: Ffn<T>| #[trigger] shared(Ok(f))
                    }
                }
            },
        }
    }
}

impl<T> MoeFfn<T> {
    /// The routed feed-forward a file keeps under a prefix.
    pub fn load(
        gguf: &Gguf,
        folding: Option<&Folding>,
        prefix: &str,
        d: MoeDims,
        values: MoeValues<T>,
        zero: T,
    ) -> (result: Result<MoeFfn<T>, MoeError>) where T: Copy
        requires
            folding is Some ==> folding->Some_0.block > 0,
            2 * d.d_shared + 255 <= usize::MAX,
            ffn::all_stack(*gguf, d.d_model, d.d_shared),
        ensures
            loads_moe(*gguf, folding, prefix@, d, values, zero, result),
    {
        if d.n_used == 0 || d.n_used > d.n_expert {
            return Err(
                MoeError::Used {
                    prefix: prefix.to_owned(),
                    n_used: d.n_used,
                    n_expert: d.n_expert,
                },
            );
        }
        let ghost routed = |r: Result<Linear<T>, LoadError>|
            loads_router(*gguf, folding, prefix@, d, values, r);
        let ghost shared_ok = |r: Result<Ffn<T>, LoadError>|
            loads_shared(*gguf, folding, prefix@, d, values, zero, r);
        let name = Args::new().text(prefix).fill(ROUTER_NAME);
        let router = match Linear::load(
            gguf,
            folding,
            name.as_str(),
            d.d_model,
            d.n_expert,
            values.router,
            values.router_narrow,
        ) {
            Ok(l) => l,
            Err(e) => {
                assert(routed(Err(e)));
                return Err(MoeError::Load(e));
            },
        };
        assert(routed(Ok(router)));
        if router.folded() {
            return Err(MoeError::FoldedRouter);
        }
        let set = match ExpertSet::load(gguf, prefix, d.n_expert, d.d_model, d.d_expert) {
            Ok(set) => set,
            Err(e) => {
                assert(experts_fail(*gguf, prefix@, d, e));
                return Err(MoeError::Experts(e));
            },
        };
        assert(experts_load(*gguf, prefix@, d, *set));
        let shared = match Ffn::load(
            gguf,
            folding,
            prefix,
            "_shexp",
            d.d_model,
            d.d_shared,
            values.shared,
            values.shared_narrow,
            zero,
        ) {
            Ok(f) => f,
            Err(e) => {
                assert(shared_ok(Err(e)));
                return Err(MoeError::Load(e));
            },
        };
        assert(shared_ok(Ok(shared)));
        let name = Args::new().text(prefix).fill(SHARED_GATE_NAME);
        let shared_gate = match Gain::load(gguf, name.as_str(), d.d_model, values.gate) {
            Ok(g) => g,
            Err(e) => {
                return Err(MoeError::Load(e));
            },
        };
        Ok(
            MoeFfn {
                router,
                experts: set,
                shared,
                shared_gate,
                key: Args::new().text(prefix).fill(EXPERTS_KEY),
                n_used: d.n_used,
            },
        )
    }

    pub open spec fn shape_spec(self) -> MoeShape {
        MoeShape {
            router: program::shape_of(self.router),
            shared: ffn::ffn_shape_of(self.shared),
            d_ff: self.experts.gate@.n as usize,
            n_expert: self.experts.gate@.count as usize,
            n_used: self.n_used,
        }
    }

    pub fn shape(&self) -> (m: MoeShape)
        ensures
            m == self.shape_spec(),
    {
        MoeShape {
            router: self.router.shape(),
            shared: self.shared.shape(),
            d_ff: self.experts.gate.n(),
            n_expert: self.experts.count(),
            n_used: self.n_used,
        }
    }

    /// Bytes its experts take, as the file holds them.
    pub open spec fn expert_bytes(self) -> nat {
        self.experts.gate@.count * self.experts.gate@.stride() + self.experts.up@.count
            * self.experts.up@.stride() + self.experts.down@.count * self.experts.down@.stride()
    }

    /// Its weights counted, the experts as streamed.
    pub open spec fn billed(self, bill: Bill) -> Bill {
        self.shared.billed(bill.with(self.router.upload_key(), self.router.upload())).with(
            self.shared_gate.key@,
            self.shared_gate.upload(),
        ).with(
            self.key@,
            Upload { bytes: self.expert_bytes() as usize, dense: false, streamed: true },
        )
    }

    /// Counts what its weights will take on the backend.
    pub fn footprint(&self, into: &mut Uploads)
        requires
            self.router.wf(),
            ffn::counts(self.router),
            self.shared.wf(),
            self.shared.countable(),
            4 * self.shared_gate.data@.len() <= usize::MAX,
            self.expert_bytes() <= usize::MAX,
            old(into).wf(),
        ensures
            final(into).wf(),
            final(into)@ == self.billed(old(into)@),
    {
        self.router.footprint(into);
        self.shared.footprint(into);
        self.shared_gate.footprint(into);
        let bytes: usize = self.experts.byte_len();
        into.add_streamed(self.key.as_str(), bytes);
    }
}

} // verus!
