//! The SwiGLU feed-forward, with its gate and up either stacked or apart.

use vstd::prelude::*;

use crate::gguf::{GgmlType, Gguf};
use crate::hadamard::Folding;
use crate::layers::linear::{self, Linear, LoadError};
use crate::layers::program::{
    self, add_into, add_into_act, forward_shared, Call, Form, PlaneReg, Prog, Program, Reg,
    RotationError, Shape, Shared,
};
use crate::layers::{Bill, Uploads};
use crate::quant::{self, Quant};
use crate::text::{self, Args};

verus! {

broadcast use crate::text::lemma_filled_args;

/// Gate and up: one projection of both, or two.
pub enum GateUp<T> {
    Fused(Linear<T>),
    Split { gate: Linear<T>, up: Linear<T> },
}

pub struct Ffn<T> {
    pub gate_up: GateUp<T>,
    pub down: Linear<T>,
}

/// What of a gate and up decides their calls.
#[derive(Clone, Copy, PartialEq, Eq, Structural, Debug)]
pub enum GateUpShape {
    Fused(Shape),
    Split { gate: Shape, up: Shape },
}

/// What of a feed-forward decides its calls.
#[derive(Clone, Copy, PartialEq, Eq, Structural, Debug)]
pub struct FfnShape {
    pub gate_up: GateUpShape,
    pub down: Shape,
}

pub open spec fn ffn_shape_of<T>(f: Ffn<T>) -> FfnShape {
    FfnShape {
        gate_up: match f.gate_up {
            GateUp::Fused(both) => GateUpShape::Fused(program::shape_of(both)),
            GateUp::Split { gate, up } => GateUpShape::Split {
                gate: program::shape_of(gate),
                up: program::shape_of(up),
            },
        },
        down: program::shape_of(f.down),
    }
}

/// The kernel the whole feed-forward runs as, if the backend has one.
#[derive(Clone, Copy, PartialEq, Eq, Structural, Debug)]
pub enum FusedForm {
    /// None: the usual path.
    No,
    /// Over the planes of a stacked gate and up, and of the down projection.
    Planes,
    /// Over three weights in their blocks.
    Raw { gate: Quant, up: Quant, down: Quant },
}

impl FfnShape {
    /// Whether any of the weights has its input transformed.
    pub open spec fn folds(self) -> bool {
        ||| match self.gate_up {
            GateUpShape::Fused(both) => both.rotation is Some,
            GateUpShape::Split { gate, up } => gate.rotation is Some || up.rotation is Some,
        }
        ||| self.down.rotation is Some
    }

    pub open spec fn fused_form(self, rows: usize) -> FusedForm {
        if rows != 1 || self.folds() {
            FusedForm::No
        } else {
            match self.gate_up {
                GateUpShape::Split { gate, up } => match (gate.form, up.form, self.down.form) {
                    (Form::Raw(g), Form::Raw(u), Form::Raw(d)) => FusedForm::Raw {
                        gate: g,
                        up: u,
                        down: d,
                    },
                    _ => FusedForm::No,
                },
                GateUpShape::Fused(both) => if program::is_quantized(both)
                    && program::is_quantized(self.down) {
                    FusedForm::Planes
                } else {
                    FusedForm::No
                },
            }
        }
    }

    /// The kernel the backend is asked to run the whole of it as.
    pub fn forward_fused(self, rows: usize) -> (form: FusedForm)
        ensures
            form == self.fused_form(rows),
    {
        if rows != 1 || self.folded() {
            return FusedForm::No;
        }
        match self.gate_up {
            GateUpShape::Split { gate, up } => match (gate.form, up.form, self.down.form) {
                (Form::Raw(g), Form::Raw(u), Form::Raw(d)) => FusedForm::Raw {
                    gate: g,
                    up: u,
                    down: d,
                },
                _ => FusedForm::No,
            },
            GateUpShape::Fused(both) => match (both.form, self.down.form) {
                (Form::Planes, Form::Planes) => FusedForm::Planes,
                _ => FusedForm::No,
            },
        }
    }

    pub fn folded(self) -> (yes: bool)
        ensures
            yes == self.folds(),
    {
        let gate_up = match self.gate_up {
            GateUpShape::Fused(both) => both.rotation.is_some(),
            GateUpShape::Split { gate, up } => gate.rotation.is_some() || up.rotation.is_some(),
        };
        gate_up || self.down.rotation.is_some()
    }

    /// The weight that reads the input, or the first of the two that do.
    pub fn input(self) -> (s: Shape)
        ensures
            s == (match self.gate_up {
                GateUpShape::Fused(both) => both,
                GateUpShape::Split { gate, up } => gate,
            }),
    {
        match self.gate_up {
            GateUpShape::Fused(both) => both,
            GateUpShape::Split { gate, .. } => gate,
        }
    }

    /// Every buffer's length is a size, over so many rows.
    pub open spec fn sized(self, rows: usize) -> bool {
        &&& program::sized(self.down, rows)
        &&& match self.gate_up {
            GateUpShape::Fused(both) => program::sized(both, rows),
            GateUpShape::Split { gate, up } => program::sized(gate, rows) && program::sized(
                up,
                rows,
            ),
        }
    }

    /// The first weight a shared input was not prepared for, if any.
    pub open spec fn mismatch(self, x: Shared) -> Option<(int, Shape)> {
        match self.gate_up {
            GateUpShape::Fused(both) => if x.rotation != both.rotation {
                Some((0, both))
            } else {
                None
            },
            GateUpShape::Split { gate, up } => if x.rotation != gate.rotation {
                Some((0, gate))
            } else if x.rotation != up.rotation {
                Some((1, up))
            } else {
                None
            },
        }
    }
}

/// The window of a buffer that is just its rows.
pub open spec fn whole(buf: Reg, width: usize) -> PlaneReg {
    PlaneReg { buf, offset: 0, pitch: width }
}

/// Gate and up projected: the program, their two planes, and the buffers they
/// are in.
pub open spec fn gated(
    p: Prog,
    f: FfnShape,
    weight: usize,
    x: Shared,
    rows: usize,
) -> (Prog, PlaneReg, PlaneReg) {
    let width = f.down.in_dim;
    match f.gate_up {
        GateUpShape::Fused(both) => {
            let out = p.buf();
            let q = program::plain(
                p.taking(rows * both.out_dim),
                both,
                weight,
                x.x,
                x.act,
                rows,
                out,
            );
            (
                q,
                PlaneReg { buf: out, offset: 0, pitch: both.out_dim },
                PlaneReg { buf: out, offset: width, pitch: both.out_dim },
            )
        },
        GateUpShape::Split { gate, up } => {
            let g = p.buf();
            let q = program::plain(
                p.taking(rows * gate.out_dim),
                gate,
                weight,
                x.x,
                x.act,
                rows,
                g,
            );
            let u = q.buf();
            let r = program::plain(
                q.taking(rows * up.out_dim),
                up,
                (weight + 1) as usize,
                x.x,
                x.act,
                rows,
                u,
            );
            (r, whole(g, width), whole(u, width))
        },
    }
}

/// Two buffers released, once each even where they are one.
pub open spec fn releasing(p: Prog, a: Reg, b: Reg) -> Prog {
    let q = p.then_call(Call::Release { buf: a, guards: 0 });
    if a == b {
        q
    } else {
        q.then_call(Call::Release { buf: b, guards: 0 })
    }
}

/// The whole feed-forward: `down(silu(gate(x)) * up(x))` added into `dest`.
pub open spec fn feeding(
    p: Prog,
    f: FfnShape,
    weight: usize,
    x: Shared,
    rows: usize,
    dest: Reg,
) -> Prog {
    let width = f.down.in_dim;
    let down = (weight + 2) as usize;
    let joined = p.buf();
    let (q, g, u) = gated(p.taking(rows * width), f, weight, x, rows);
    let fed = if rows == 1 {
        let r = q.acting(
            Call::SwigluQuantize {
                gate: g.buf,
                gate_at: g.offset,
                up: u.buf,
                up_at: u.offset,
                out: joined,
                len: width,
                act: q.acts as usize,
            },
        );
        program::adding_with(
            releasing(r, g.buf, u.buf),
            f.down,
            down,
            joined,
            Some(q.act()),
            rows,
            dest,
        )
    } else {
        let r = q.then_call(Call::SwigluPlanes { gate: g, up: u, out: joined, rows, width });
        program::adding(releasing(r, g.buf, u.buf), f.down, down, joined, rows, dest)
    };
    fed.then_call(Call::Release { buf: joined, guards: 0 })
}

/// The program as far as the first weight a shared input was not prepared for:
/// the buffers taken by then, and what was projected into them.
pub open spec fn refused(p: Prog, f: FfnShape, weight: usize, x: Shared, rows: usize) -> Prog {
    let q = p.taking(rows * f.down.in_dim);
    match f.gate_up {
        GateUpShape::Fused(both) => q.taking(rows * both.out_dim),
        GateUpShape::Split { gate, up } => if x.rotation != gate.rotation {
            q.taking(rows * gate.out_dim)
        } else {
            program::plain(
                q.taking(rows * gate.out_dim),
                gate,
                weight,
                x.x,
                x.act,
                rows,
                q.buf(),
            ).taking(rows * up.out_dim)
        },
    }
}

/// Releases two buffers, once each even where they are one.
fn release_once(p: &mut Program, a: Reg, b: Reg)
    ensures
        final(p)@ == releasing(old(p)@, a, b),
{
    p.push(Call::Release { buf: a, guards: 0 });
    if a != b {
        p.push(Call::Release { buf: b, guards: 0 });
    }
}

/// SwiGLU: `down(silu(gate(x)) * up(x))`, added into `dest`. The weights are the
/// caller's from `weight` on: gate and up, or both in one and a place unused,
/// then down; `keys` are theirs.
pub fn forward(
    p: &mut Program,
    f: FfnShape,
    weight: usize,
    gate_key: &str,
    up_key: &str,
    x: Shared,
    rows: usize,
    dest: Reg,
) -> (result: Result<(), RotationError>)
    requires
        f.sized(rows),
        weight + 2 <= usize::MAX,
        old(p)@.bufs + 32 <= usize::MAX,
        old(p)@.acts + 32 <= usize::MAX,
    ensures
        result is Ok == (f.mismatch(x) is None),
        result is Ok ==> final(p)@ == feeding(old(p)@, f, weight, x, rows, dest),
        result matches Err(e) ==> {
            let (which, s) = f.mismatch(x)->Some_0;
            &&& e.key@ == (if which == 0 {
                gate_key@
            } else {
                up_key@
            })
            &&& e.reads == s.rotation
            &&& e.prepared == x.rotation
            &&& final(p)@ == refused(old(p)@, f, weight, x, rows)
        },
{
    let width: usize = f.down.in_dim;
    let joined = p.take(rows * width);
    let (g, u) = match f.gate_up {
        GateUpShape::Fused(both) => {
            let out = match forward_shared(p, both, gate_key, weight, x, rows) {
                Ok(out) => out,
                Err(e) => {
                    return Err(e);
                },
            };
            (
                PlaneReg { buf: out, offset: 0, pitch: both.out_dim },
                PlaneReg { buf: out, offset: width, pitch: both.out_dim },
            )
        },
        GateUpShape::Split { gate, up } => {
            let g = match forward_shared(p, gate, gate_key, weight, x, rows) {
                Ok(out) => out,
                Err(e) => {
                    return Err(e);
                },
            };
            let u = match forward_shared(p, up, up_key, weight + 1, x, rows) {
                Ok(out) => out,
                Err(e) => {
                    return Err(e);
                },
            };
            (
                PlaneReg { buf: g, offset: 0, pitch: width },
                PlaneReg { buf: u, offset: 0, pitch: width },
            )
        },
    };
    assert((p@, g, u) == gated(old(p)@.taking(rows * width), f, weight, x, rows));
    if rows == 1 {
        let to: usize = p.acts;
        let act = p.act(
            Call::SwigluQuantize {
                gate: g.buf,
                gate_at: g.offset,
                up: u.buf,
                up_at: u.offset,
                out: joined,
                len: width,
                act: to,
            },
        );
        release_once(p, g.buf, u.buf);
        add_into_act(p, f.down, weight + 2, joined, Some(act), rows, dest);
    } else {
        p.push(Call::SwigluPlanes { gate: g, up: u, out: joined, rows, width });
        release_once(p, g.buf, u.buf);
        add_into(p, f.down, weight + 2, joined, rows, dest);
    }
    p.push(Call::Release { buf: joined, guards: 0 });
    Ok(())
}

impl<T> Ffn<T> {
    pub open spec fn wf(self) -> bool {
        &&& self.down.wf()
        &&& match self.gate_up {
            GateUp::Fused(both) => both.wf(),
            GateUp::Split { gate, up } => gate.wf() && up.wf(),
        }
    }

    pub fn shape(&self) -> (f: FfnShape)
        ensures
            f == ffn_shape_of(*self),
    {
        FfnShape {
            gate_up: match &self.gate_up {
                GateUp::Fused(both) => GateUpShape::Fused(both.shape()),
                GateUp::Split { gate, up } => GateUpShape::Split {
                    gate: gate.shape(),
                    up: up.shape(),
                },
            },
            down: self.down.shape(),
        }
    }

    /// A feed-forward of three projections just loaded, gate and up stacked
    /// where that is worth it. `decoded` is unused there: parts worth stacking
    /// are dense already, or stay in their blocks.
    pub fn stacked(gate: Linear<T>, up: Linear<T>, down: Linear<T>, zero: T, narrow: bool) -> (f:
        Ffn<T>) where T: Copy
        requires
            gate.wf(),
            up.wf(),
            down.wf(),
            gate.in_dim == up.in_dim,
            gate.out_dim + up.out_dim + 255 <= usize::MAX,
            gate.weight matches linear::Weights::Quant(p) ==> stack_fits(
                p.quant,
                gate.in_dim,
                gate.out_dim,
                up.out_dim,
            ),
        ensures
            f.wf(),
            f.down == down,
            stacks(gate, up, zero, narrow, f.gate_up),
    {
        let fused: Option<Linear<T>> = {
            let parts: Vec<&Linear<T>> = vec![&gate, &up];
            assert(parts@ =~= seq![&gate, &up]);
            let ghost widths = linear::widths_of(parts@);
            assert(widths =~= seq![gate.out_dim as nat, up.out_dim as nat]);
            assert(linear::total(widths) == gate.out_dim + up.out_dim) by {
                reveal_with_fuel(linear::total, 3);
                assert(widths.drop_last() =~= seq![gate.out_dim as nat]);
                assert(widths.drop_last().drop_last() =~= Seq::empty());
            }
            if linear::should_fuse(parts.as_slice()) {
                assert(parts@[0] == &gate && parts@[1] == &up);
                let none: Vec<Vec<T>> = Vec::new();
                let decoded: Vec<Vec<T>> = if linear::is_uniform(parts.as_slice()) {
                    none
                } else {
                    vec![Vec::new(), Vec::new()]
                };
                match linear::fuse(parts.as_slice(), decoded.as_slice(), zero, narrow) {
                    Ok(both) => {
                        if !linear::is_uniform(parts.as_slice()) {
                            assert(parts@[0].weight is Dense && parts@[1].weight is Dense);
                            assert(linear::dense_parts(parts@, decoded@) =~= linear::dense_parts(
                                parts@,
                                Seq::empty(),
                            ));
                        }
                        assert(linear::fuses(parts@, Seq::empty(), zero, narrow, Ok(both)));
                        Some(both)
                    },
                    Err(_) => None,
                }
            } else {
                None
            }
        };
        match fused {
            Some(both) => Ffn { gate_up: GateUp::Fused(both), down },
            None => Ffn { gate_up: GateUp::Split { gate, up }, down },
        }
    }

    /// Bytes its weights take, each a size.
    pub open spec fn countable(self) -> bool {
        &&& counts(self.down)
        &&& match self.gate_up {
            GateUp::Fused(both) => counts(both),
            GateUp::Split { gate, up } => counts(gate) && counts(up),
        }
    }

    /// Its weights counted, those that read the input first.
    pub open spec fn billed(self, bill: Bill) -> Bill {
        let both = match self.gate_up {
            GateUp::Fused(both) => bill.with(both.upload_key(), both.upload()),
            GateUp::Split { gate, up } => bill.with(gate.upload_key(), gate.upload()).with(
                up.upload_key(),
                up.upload(),
            ),
        };
        both.with(self.down.upload_key(), self.down.upload())
    }

    /// Counts what its weights will take on the backend.
    pub fn footprint(&self, into: &mut Uploads)
        requires
            self.wf(),
            self.countable(),
            old(into).wf(),
        ensures
            final(into).wf(),
            final(into)@ == self.billed(old(into)@),
    {
        match &self.gate_up {
            GateUp::Fused(both) => both.footprint(into),
            GateUp::Split { gate, up } => {
                gate.footprint(into);
                up.footprint(into);
            },
        }
        self.down.footprint(into);
    }
}

pub open spec fn counts<T>(l: Linear<T>) -> bool {
    l.upload_bytes() <= usize::MAX && l.in_dim * l.out_dim <= usize::MAX
}

/// What each tensor of a feed-forward decodes to, for one that is not left in
/// its blocks.
pub struct FfnValues<'a, T> {
    pub gate: Option<&'a [T]>,
    pub up: Option<&'a [T]>,
    pub down: Option<&'a [T]>,
}

/// Whether each projection, dense, is narrow enough to be read by rows: gate or
/// up, both stacked, and down.
#[derive(Clone, Copy, PartialEq, Eq, Structural, Debug)]
pub struct FfnNarrow {
    pub one: bool,
    pub both: bool,
    pub down: bool,
}

pub const GATE_NAME: &'static str = "$0.ffn_gate$1.weight";

pub const UP_NAME: &'static str = "$0.ffn_up$1.weight";

pub const DOWN_NAME: &'static str = "$0.ffn_down$1.weight";

pub open spec fn values_of<T>(decoded: Option<&[T]>) -> Option<Seq<T>> {
    match decoded {
        Some(d) => Some(d@),
        None => None,
    }
}

/// A load of one of a feed-forward's tensors.
pub open spec fn loads_one<T>(
    gguf: Gguf,
    folding: Option<&Folding>,
    name: Seq<char>,
    prefix: Seq<char>,
    suffix: Seq<char>,
    in_dim: usize,
    out_dim: usize,
    decoded: Option<&[T]>,
    narrow: bool,
    result: Result<Linear<T>, LoadError>,
) -> bool {
    linear::loads(
        gguf,
        folding,
        text::filled(name, seq![prefix, suffix]),
        in_dim,
        out_dim,
        values_of(decoded),
        narrow,
        result,
    )
}

/// Gate and up stacked where that is worth it, or apart.
pub open spec fn stacks<T>(gate: Linear<T>, up: Linear<T>, zero: T, narrow: bool, both: GateUp<T>) -> bool {
    if linear::fusible(seq![&gate, &up]) {
        both matches GateUp::Fused(both) && linear::fuses(
            seq![&gate, &up],
            Seq::empty(),
            zero,
            narrow,
            Ok(both),
        )
    } else {
        both == (GateUp::Split { gate, up })
    }
}

/// What loading a feed-forward comes to: the first tensor that fails decides.
pub open spec fn loads_ffn<T>(
    gguf: Gguf,
    folding: Option<&Folding>,
    prefix: Seq<char>,
    suffix: Seq<char>,
    d_model: usize,
    d_ff: usize,
    values: FfnValues<T>,
    narrow: FfnNarrow,
    zero: T,
    result: Result<Ffn<T>, LoadError>,
) -> bool {
    let gate = |r: Result<Linear<T>, LoadError>|
        loads_one(gguf, folding, GATE_NAME@, prefix, suffix, d_model, d_ff, values.gate, narrow.one, r);
    let up = |r: Result<Linear<T>, LoadError>|
        loads_one(gguf, folding, UP_NAME@, prefix, suffix, d_model, d_ff, values.up, narrow.one, r);
    let down = |r: Result<Linear<T>, LoadError>|
        loads_one(gguf, folding, DOWN_NAME@, prefix, suffix, d_ff, d_model, values.down, narrow.down, r);
    match result {
        Ok(f) => exists|g: Linear<T>, u: Linear<T>| #[trigger]
            gate(Ok(g)) && #[trigger] up(Ok(u)) && down(Ok(f.down)) && stacks(
                g,
                u,
                zero,
                narrow.both,
                f.gate_up,
            ),
        Err(e) => {
            ||| gate(Err(e))
            ||| exists|g: Linear<T>| #[trigger] gate(Ok(g)) && up(Err(e))
            ||| exists|g: Linear<T>, u: Linear<T>| #[trigger]
                gate(Ok(g)) && #[trigger] up(Ok(u)) && down(Err(e))
        },
    }
}

/// Whether two weights of a format can be stacked in their blocks, where weights
/// of the format are, on this machine.
pub open spec fn stack_fits(q: Quant, in_dim: usize, one: usize, two: usize) -> bool {
    quant::stacks(q) ==> linear::fused_width(seq![one as nat, two as nat])
        * quant::packed::row_bytes(q, in_dim as nat) <= usize::MAX
}

/// Whether a gate and up can be, in every format a file's tensors have.
pub open spec fn all_stack(gguf: Gguf, d_model: usize, d_ff: usize) -> bool {
    forall|i: int|
        0 <= i < gguf.tensors@.len() ==> ((#[trigger] gguf.tensors@[i]).ggml_type matches GgmlType::Quantized(
            q,
        ) ==> stack_fits(q, d_model, d_ff, d_ff))
}

impl<T> Ffn<T> {
    /// The feed-forward a file keeps under a prefix, its tensors' names ending
    /// in a suffix.
    pub fn load(
        gguf: &Gguf,
        folding: Option<&Folding>,
        prefix: &str,
        suffix: &str,
        d_model: usize,
        d_ff: usize,
        values: FfnValues<T>,
        narrow: FfnNarrow,
        zero: T,
    ) -> (result: Result<Ffn<T>, LoadError>) where T: Copy
        requires
            folding is Some ==> folding->Some_0.block > 0,
            2 * d_ff + 255 <= usize::MAX,
            all_stack(*gguf, d_model, d_ff),
        ensures
            loads_ffn(*gguf, folding, prefix@, suffix@, d_model, d_ff, values, narrow, zero, result),
    {
        let gate_name = Args::new().text(prefix).text(suffix).fill(GATE_NAME);
        let up_name = Args::new().text(prefix).text(suffix).fill(UP_NAME);
        let down_name = Args::new().text(prefix).text(suffix).fill(DOWN_NAME);
        let ghost g_ok = |r: Result<Linear<T>, LoadError>|
            loads_one(*gguf, folding, GATE_NAME@, prefix@, suffix@, d_model, d_ff, values.gate, narrow.one, r);
        let ghost u_ok = |r: Result<Linear<T>, LoadError>|
            loads_one(*gguf, folding, UP_NAME@, prefix@, suffix@, d_model, d_ff, values.up, narrow.one, r);
        let gate = match Linear::load(
            gguf,
            folding,
            gate_name.as_str(),
            d_model,
            d_ff,
            values.gate,
            narrow.one,
        ) {
            Ok(l) => l,
            Err(e) => {
                return Err(e);
            },
        };
        assert(g_ok(Ok(gate)));
        let up = match Linear::load(
            gguf,
            folding,
            up_name.as_str(),
            d_model,
            d_ff,
            values.up,
            narrow.one,
        ) {
            Ok(l) => l,
            Err(e) => {
                return Err(e);
            },
        };
        assert(u_ok(Ok(up)));
        let down = match Linear::load(
            gguf,
            folding,
            down_name.as_str(),
            d_ff,
            d_model,
            values.down,
            narrow.down,
        ) {
            Ok(l) => l,
            Err(e) => {
                return Err(e);
            },
        };
        Ok(Ffn::stacked(gate, up, down, zero, narrow.both))
    }
}

} // verus!
