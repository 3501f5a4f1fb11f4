//! The backend calls a projection comes to, in order, over registers for the
//! buffers and quantized activations they make.

use vstd::prelude::*;

use crate::backend::{Buf, HeadPerm, QAct};
use crate::layers::linear::{Linear, Rotation, Weights};
use crate::quant::{self, Quant};
use crate::text::{self, Args};

verus! {

broadcast use crate::text::lemma_filled_args;

/// A buffer: one the caller has, or one a call of the program makes.
#[derive(Clone, Copy, PartialEq, Eq, Structural, Debug)]
pub enum Reg {
    Given(Buf),
    Made(usize),
}

/// A quantized activation: one the caller has, or one a call makes.
#[derive(Clone, Copy, PartialEq, Eq, Structural, Debug)]
pub enum ActReg {
    Given(QAct),
    Made(usize),
}

/// A window of rows of a buffer.
#[derive(Clone, Copy, PartialEq, Eq, Structural, Debug)]
pub struct PlaneReg {
    pub buf: Reg,
    pub offset: usize,
    pub pitch: usize,
}

/// How a weight is uploaded, and with it the contraction that reads it.
#[derive(Clone, Copy, PartialEq, Eq, Structural, Debug)]
pub enum Form {
    /// In the planes a kernel unpacked it to, against a quantized activation.
    Planes,
    /// In its own blocks.
    Raw(Quant),
    /// Dense, in the file's order, read by rows.
    Rows,
    /// Dense.
    Dense,
    /// Dense, decoded from blocks no kernel reads when it goes up.
    Decoded,
}

/// A call of the backend. `weight` is which of the caller's weights it reads.
#[derive(Clone, Copy, PartialEq, Eq, Debug)]
pub enum Call {
    /// Allocates a buffer.
    Take { to: usize, len: usize },
    /// Allocates a buffer of zeros.
    Zeroed { to: usize, len: usize },
    /// Releases a buffer. It follows even where one of the `guards` calls just
    /// before it failed.
    Release { buf: Reg, guards: usize },
    /// Quantizes an activation.
    Quantize { x: Reg, rows: usize, width: usize, to: usize },
    /// Projects, against the quantized copy where there is one.
    Project {
        weight: usize,
        form: Form,
        x: Reg,
        act: Option<ActReg>,
        rows: usize,
        in_dim: usize,
        out_dim: usize,
        out: Reg,
    },
    /// Projects a quantized activation and adds.
    Accumulate {
        weight: usize,
        act: ActReg,
        rows: usize,
        in_dim: usize,
        out_dim: usize,
        dest: Reg,
    },
    /// Adds a buffer into another.
    Sum { dest: Reg, from: Reg },
    /// The transform ahead of a folded weight, quantizing too where `act` is
    /// asked for.
    Transform {
        weight: usize,
        x: Reg,
        rows: usize,
        width: usize,
        perm: Option<HeadPerm>,
        out: Reg,
        act: Option<usize>,
    },
    /// Normalizes.
    Norm { x: Reg, rows: usize, width: usize, out: Reg },
    /// Normalizes and quantizes.
    NormQuantize { x: Reg, rows: usize, width: usize, out: Reg, act: usize },
    /// Normalizes, transforms and quantizes; the normalized row is left too.
    NormTransform {
        weight: usize,
        x: Reg,
        rows: usize,
        width: usize,
        normed: Reg,
        out: Reg,
        act: usize,
    },
    /// `silu(gate) * up`, quantized too.
    SwigluQuantize {
        gate: Reg,
        gate_at: usize,
        up: Reg,
        up_at: usize,
        out: Reg,
        len: usize,
        act: usize,
    },
    /// `silu(gate) * up` over two planes.
    SwigluPlanes { gate: PlaneReg, up: PlaneReg, out: Reg, rows: usize, width: usize },
    /// The shared expert's gate: each row dotted with its vector.
    Gate { x: Reg, rows: usize, width: usize, out: Reg },
    /// The routed experts, combined with the gated shared one.
    Experts {
        x: Reg,
        act: Option<ActReg>,
        rows: usize,
        d_model: usize,
        d_ff: usize,
        logits: Reg,
        n_expert: usize,
        n_used: usize,
        shared: Reg,
        gate: Reg,
        dest: Reg,
        routes: Option<Buf>,
    },
}

/// A program so far: its calls, and how many buffers and quantized activations
/// they make.
#[verifier::ext_equal]
pub ghost struct Prog {
    pub calls: Seq<Call>,
    pub bufs: nat,
    pub acts: nat,
}

impl Prog {
    pub open spec fn then_call(self, call: Call) -> Prog {
        Prog { calls: self.calls.push(call), bufs: self.bufs, acts: self.acts }
    }

    /// One more buffer allocated.
    pub open spec fn taking(self, len: int) -> Prog {
        Prog {
            calls: self.calls.push(Call::Take { to: self.bufs as usize, len: len as usize }),
            bufs: self.bufs + 1,
            acts: self.acts,
        }
    }

    /// One more buffer of zeros.
    pub open spec fn zeroing(self, len: int) -> Prog {
        Prog {
            calls: self.calls.push(Call::Zeroed { to: self.bufs as usize, len: len as usize }),
            bufs: self.bufs + 1,
            acts: self.acts,
        }
    }

    /// A call that makes one more quantized activation.
    pub open spec fn acting(self, call: Call) -> Prog {
        Prog { calls: self.calls.push(call), bufs: self.bufs, acts: self.acts + 1 }
    }

    /// The buffer the next allocation makes.
    pub open spec fn buf(self) -> Reg {
        Reg::Made(self.bufs as usize)
    }

    /// The quantized activation the next call makes.
    pub open spec fn act(self) -> ActReg {
        ActReg::Made(self.acts as usize)
    }

    /// Its registers are numbered within the machine.
    pub open spec fn fits(self) -> bool {
        self.bufs + 16 <= usize::MAX && self.acts + 16 <= usize::MAX
    }
}

pub struct Program {
    pub calls: Vec<Call>,
    pub bufs: usize,
    pub acts: usize,
}

impl View for Program {
    type V = Prog;

    open spec fn view(&self) -> Prog {
        Prog { calls: self.calls@, bufs: self.bufs as nat, acts: self.acts as nat }
    }
}

impl Program {
    pub fn new() -> (p: Program)
        ensures
            p@ == (Prog { calls: Seq::empty(), bufs: 0, acts: 0 }),
    {
        Program { calls: Vec::new(), bufs: 0, acts: 0 }
    }

    pub fn push(&mut self, call: Call)
        ensures
            final(self)@ == old(self)@.then_call(call),
    {
        self.calls.push(call);
    }

    pub fn take(&mut self, len: usize) -> (to: Reg)
        requires
            old(self)@.bufs < usize::MAX,
        ensures
            final(self)@ == old(self)@.taking(len as int),
            to == old(self)@.buf(),
    {
        let to: usize = self.bufs;
        self.calls.push(Call::Take { to, len });
        self.bufs = to + 1;
        Reg::Made(to)
    }

    pub fn zeroed(&mut self, len: usize) -> (to: Reg)
        requires
            old(self)@.bufs < usize::MAX,
        ensures
            final(self)@ == old(self)@.zeroing(len as int),
            to == old(self)@.buf(),
    {
        let to: usize = self.bufs;
        self.calls.push(Call::Zeroed { to, len });
        self.bufs = to + 1;
        Reg::Made(to)
    }

    /// Pushes a call that makes a quantized activation, the next.
    pub fn act(&mut self, call: Call) -> (act: ActReg)
        requires
            old(self)@.acts < usize::MAX,
        ensures
            final(self)@ == old(self)@.acting(call),
            act == old(self)@.act(),
    {
        let to: usize = self.acts;
        self.calls.push(call);
        self.acts = to + 1;
        ActReg::Made(to)
    }
}

/// What of a projection decides its calls.
#[derive(Clone, Copy, PartialEq, Eq, Structural, Debug)]
pub struct Shape {
    pub in_dim: usize,
    pub out_dim: usize,
    pub form: Form,
    pub rotation: Option<Rotation>,
    /// Whether the weight is folded at all.
    pub folded: bool,
}

/// The form a weight goes up in.
pub open spec fn form_of<T>(l: Linear<T>) -> Form {
    match l.weight {
        Weights::Quant(p) if quant::has_planes(p.quant) => Form::Planes,
        Weights::Quant(p) if quant::has_raw_scales(p.quant) => Form::Raw(p.quant),
        Weights::Quant(_) => Form::Decoded,
        Weights::Dense(_) if l.narrow => Form::Rows,
        Weights::Dense(_) => Form::Dense,
    }
}

pub open spec fn shape_of<T>(l: Linear<T>) -> Shape {
    Shape {
        in_dim: l.in_dim,
        out_dim: l.out_dim,
        form: form_of(l),
        rotation: l.rotates(),
        folded: l.fold is Some,
    }
}

impl<T> Linear<T> {
    pub fn form(&self) -> (form: Form)
        ensures
            form == form_of(*self),
    {
        match &self.weight {
            Weights::Quant(p) => if p.quant.has_planes() {
                Form::Planes
            } else if p.quant.has_raw_scales() {
                Form::Raw(p.quant)
            } else {
                Form::Decoded
            },
            Weights::Dense(_) => if self.narrow {
                Form::Rows
            } else {
                Form::Dense
            },
        }
    }

    pub fn shape(&self) -> (s: Shape)
        ensures
            s == shape_of(*self),
    {
        Shape {
            in_dim: self.in_dim,
            out_dim: self.out_dim,
            form: self.form(),
            rotation: self.rotation(),
            folded: self.fold.is_some(),
        }
    }

    /// The dense weight as the backend holds it for an ordinary contraction, or
    /// nothing for one held any other way.
    pub fn dense_plain(&self) -> (plain: bool)
        ensures
            plain == (form_of(*self) == Form::Dense && self.fold is None),
    {
        match &self.weight {
            Weights::Dense(_) => self.fold.is_none() && !self.narrow,
            Weights::Quant(_) => false,
        }
    }
}

/// An input several projections read: the activation and its quantized copy,
/// both after the transform where the weights are folded.
#[derive(Clone, Copy, PartialEq, Eq, Structural, Debug)]
pub struct Shared {
    pub x: Reg,
    pub act: Option<ActReg>,
    pub rotation: Option<Rotation>,
}

impl Shared {
    /// The quantized copy, if it is of the row as it came in rather than of its
    /// transform.
    pub fn plain_act(&self) -> (act: Option<ActReg>)
        ensures
            act == (if self.rotation is None {
                self.act
            } else {
                None
            }),
    {
        if self.rotation.is_none() {
            self.act
        } else {
            None
        }
    }
}

pub open spec fn is_quantized(s: Shape) -> bool {
    s.form == Form::Planes
}

pub open spec fn is_raw(s: Shape) -> bool {
    s.form is Raw
}

/// The projection of an input already carried through any transform. A dense
/// weight has no use for a quantized copy.
pub open spec fn plain(
    p: Prog,
    s: Shape,
    weight: usize,
    x: Reg,
    act: Option<ActReg>,
    rows: usize,
    out: Reg,
) -> Prog {
    p.then_call(
        Call::Project {
            weight,
            form: s.form,
            x,
            act: if is_quantized(s) || is_raw(s) {
                act
            } else {
                None
            },
            rows,
            in_dim: s.in_dim,
            out_dim: s.out_dim,
            out,
        },
    )
}

/// An input made ready for a weight: transformed, and quantized where the
/// contraction can use it, if the weight is folded.
pub open spec fn sharing(
    p: Prog,
    s: Shape,
    weight: usize,
    x: Reg,
    act: Option<ActReg>,
    rows: usize,
) -> (Prog, Shared) {
    match s.rotation {
        None => (p, Shared { x, act, rotation: None }),
        Some(r) => {
            let t = p.taking(rows * r.width);
            let q = is_quantized(s) || is_raw(s);
            let call = Call::Transform {
                weight,
                x,
                rows,
                width: r.width,
                perm: r.perm,
                out: p.buf(),
                act: if q {
                    Some(p.acts as usize)
                } else {
                    None
                },
            };
            if q {
                (t.acting(call), Shared { x: p.buf(), act: Some(p.act()), rotation: s.rotation })
            } else {
                (t.then_call(call), Shared { x: p.buf(), act: None, rotation: s.rotation })
            }
        },
    }
}

/// Gives the transformed copy back, the only buffer a shared input owns.
pub open spec fn unsharing(p: Prog, shared: Shared, guards: usize) -> Prog {
    if shared.rotation is Some {
        p.then_call(Call::Release { buf: shared.x, guards })
    } else {
        p
    }
}

/// The projection of an input as it is. A folded weight transforms its own, and
/// quantizes that: the caller's copy is of the row as it came in.
pub open spec fn projecting(
    p: Prog,
    s: Shape,
    weight: usize,
    x: Reg,
    act: Option<ActReg>,
    rows: usize,
    out: Reg,
) -> Prog {
    if s.rotation is Some {
        let (q, input) = sharing(p, s, weight, x, None, rows);
        unsharing(plain(q, s, weight, input.x, input.act, rows, out), input, 1)
    } else {
        plain(p, s, weight, x, act, rows, out)
    }
}

/// The accumulating projection as a separate pass.
pub open spec fn adding_dense(
    p: Prog,
    s: Shape,
    weight: usize,
    x: Reg,
    act: Option<ActReg>,
    rows: usize,
    dest: Reg,
) -> Prog {
    let out = p.buf();
    plain(p.taking(rows * s.out_dim), s, weight, x, act, rows, out).then_call(
        Call::Sum { dest, from: out },
    ).then_call(Call::Release { buf: out, guards: 0 })
}

/// The accumulating projection of a quantized activation.
pub open spec fn adding_act(
    p: Prog,
    s: Shape,
    weight: usize,
    x: Reg,
    act: ActReg,
    rows: usize,
    dest: Reg,
) -> Prog {
    if is_quantized(s) {
        p.then_call(
            Call::Accumulate {
                weight,
                act,
                rows,
                in_dim: s.in_dim,
                out_dim: s.out_dim,
                dest,
            },
        )
    } else {
        adding_dense(p, s, weight, x, None, rows, dest)
    }
}

/// The accumulating projection of an input already carried through any
/// transform.
pub open spec fn adding_plain(
    p: Prog,
    s: Shape,
    weight: usize,
    x: Reg,
    act: Option<ActReg>,
    rows: usize,
    dest: Reg,
) -> Prog {
    if is_quantized(s) {
        match act {
            Some(act) => adding_act(p, s, weight, x, act, rows, dest),
            None => adding_act(
                p.acting(
                    Call::Quantize { x, rows, width: s.in_dim, to: p.acts as usize },
                ),
                s,
                weight,
                x,
                p.act(),
                rows,
                dest,
            ),
        }
    } else {
        adding_dense(p, s, weight, x, act, rows, dest)
    }
}

/// Calls of the accumulating projection of an input that is ready.
pub open spec fn adding_calls(s: Shape, act: Option<ActReg>) -> usize {
    if is_quantized(s) {
        if act is Some {
            1
        } else {
            2
        }
    } else {
        4
    }
}

/// The accumulating projection of an input as it is.
pub open spec fn adding(
    p: Prog,
    s: Shape,
    weight: usize,
    x: Reg,
    rows: usize,
    dest: Reg,
) -> Prog {
    if s.rotation is Some {
        let (q, input) = sharing(p, s, weight, x, None, rows);
        unsharing(
            adding_plain(q, s, weight, input.x, input.act, rows, dest),
            input,
            adding_calls(s, input.act),
        )
    } else {
        adding_plain(p, s, weight, x, None, rows, dest)
    }
}

/// The accumulating projection with a quantized copy of the input at hand,
/// which a folded weight cannot read.
pub open spec fn adding_with(
    p: Prog,
    s: Shape,
    weight: usize,
    x: Reg,
    act: Option<ActReg>,
    rows: usize,
    dest: Reg,
) -> Prog {
    match act {
        Some(act) if s.rotation is None => adding_act(p, s, weight, x, act, rows, dest),
        _ => adding(p, s, weight, x, rows, dest),
    }
}

/// The normalization ahead of a weight and every other one reading the same
/// row.
pub open spec fn sharing_norm(
    p: Prog,
    s: Shape,
    weight: usize,
    x: Reg,
    rows: usize,
    normed: Reg,
) -> (Prog, Shared) {
    match s.rotation {
        None => (
            p.acting(
                Call::NormQuantize {
                    x,
                    rows,
                    width: s.in_dim,
                    out: normed,
                    act: p.acts as usize,
                },
            ),
            Shared { x: normed, act: Some(p.act()), rotation: None },
        ),
        Some(r) if r.perm is None => (
            p.taking(rows * s.in_dim).acting(
                Call::NormTransform {
                    weight,
                    x,
                    rows,
                    width: s.in_dim,
                    normed,
                    out: p.buf(),
                    act: p.acts as usize,
                },
            ),
            Shared {
                x: p.buf(),
                act: Some(p.act()),
                rotation: Some(Rotation { width: s.in_dim, perm: None }),
            },
        ),
        Some(_) => sharing(
            p.then_call(Call::Norm { x, rows, width: s.in_dim, out: normed }),
            s,
            weight,
            normed,
            None,
            rows,
        ),
    }
}

/// The extents of a shape's buffers are sizes, over so many rows.
pub open spec fn sized(s: Shape, rows: usize) -> bool {
    &&& rows * s.in_dim <= usize::MAX
    &&& rows * s.out_dim <= usize::MAX
    &&& s.rotation is Some ==> s.rotation->Some_0.width == s.in_dim
}

pub fn project_plain(
    p: &mut Program,
    s: Shape,
    weight: usize,
    x: Reg,
    act: Option<ActReg>,
    rows: usize,
    out: Reg,
)
    ensures
        final(p)@ == plain(old(p)@, s, weight, x, act, rows, out),
{
    let act = match s.form {
        Form::Planes | Form::Raw(_) => act,
        _ => None,
    };
    p.push(
        Call::Project {
            weight,
            form: s.form,
            x,
            act,
            rows,
            in_dim: s.in_dim,
            out_dim: s.out_dim,
            out,
        },
    );
}

/// An input, and its quantized copy where the caller has one, made ready once
/// for a weight and every other one reading it through the same transform.
pub fn share(
    p: &mut Program,
    s: Shape,
    weight: usize,
    x: Reg,
    act: Option<ActReg>,
    rows: usize,
) -> (shared: Shared)
    requires
        sized(s, rows),
        old(p)@.bufs < usize::MAX,
        old(p)@.acts < usize::MAX,
    ensures
        (final(p)@, shared) == sharing(old(p)@, s, weight, x, act, rows),
{
    let r = match s.rotation {
        None => {
            return Shared { x, act, rotation: None };
        },
        Some(r) => r,
    };
    let out = p.take(rows * r.width);
    let to: usize = p.acts;
    let quantizes = match s.form {
        Form::Planes | Form::Raw(_) => true,
        _ => false,
    };
    if quantizes {
        let act = p.act(
            Call::Transform { weight, x, rows, width: r.width, perm: r.perm, out, act: Some(to) },
        );
        Shared { x: out, act: Some(act), rotation: s.rotation }
    } else {
        p.push(Call::Transform { weight, x, rows, width: r.width, perm: r.perm, out, act: None });
        Shared { x: out, act: None, rotation: s.rotation }
    }
}

pub fn release(p: &mut Program, shared: Shared, guards: usize)
    ensures
        final(p)@ == unsharing(old(p)@, shared, guards),
{
    if shared.rotation.is_some() {
        p.push(Call::Release { buf: shared.x, guards });
    }
}

/// Projects an input as it is into a buffer.
pub fn project_shared(
    p: &mut Program,
    s: Shape,
    weight: usize,
    x: Reg,
    act: Option<ActReg>,
    rows: usize,
    out: Reg,
)
    requires
        sized(s, rows),
        old(p)@.bufs < usize::MAX,
        old(p)@.acts < usize::MAX,
    ensures
        final(p)@ == projecting(old(p)@, s, weight, x, act, rows, out),
{
    if s.rotation.is_some() {
        let input = share(p, s, weight, x, None, rows);
        project_plain(p, s, weight, input.x, input.act, rows, out);
        release(p, input, 1);
    } else {
        project_plain(p, s, weight, x, act, rows, out);
    }
}

/// Projects into a buffer of its own.
pub fn forward_act(
    p: &mut Program,
    s: Shape,
    weight: usize,
    x: Reg,
    act: Option<ActReg>,
    rows: usize,
) -> (out: Reg)
    requires
        sized(s, rows),
        old(p)@.fits(),
    ensures
        out == old(p)@.buf(),
        final(p)@ == projecting(
            old(p)@.taking(rows * s.out_dim),
            s,
            weight,
            x,
            act,
            rows,
            old(p)@.buf(),
        ),
{
    let out = p.take(rows * s.out_dim);
    project_shared(p, s, weight, x, act, rows, out);
    out
}

fn add_dense(
    p: &mut Program,
    s: Shape,
    weight: usize,
    x: Reg,
    act: Option<ActReg>,
    rows: usize,
    dest: Reg,
)
    requires
        sized(s, rows),
        old(p)@.bufs < usize::MAX,
    ensures
        final(p)@ == adding_dense(old(p)@, s, weight, x, act, rows, dest),
{
    let out = p.take(rows * s.out_dim);
    project_plain(p, s, weight, x, act, rows, out);
    p.push(Call::Sum { dest, from: out });
    p.push(Call::Release { buf: out, guards: 0 });
}

fn add_act_plain(
    p: &mut Program,
    s: Shape,
    weight: usize,
    x: Reg,
    act: ActReg,
    rows: usize,
    dest: Reg,
)
    requires
        sized(s, rows),
        old(p)@.bufs < usize::MAX,
    ensures
        final(p)@ == adding_act(old(p)@, s, weight, x, act, rows, dest),
{
    match s.form {
        Form::Planes => p.push(
            Call::Accumulate { weight, act, rows, in_dim: s.in_dim, out_dim: s.out_dim, dest },
        ),
        _ => add_dense(p, s, weight, x, None, rows, dest),
    }
}

fn add_plain(
    p: &mut Program,
    s: Shape,
    weight: usize,
    x: Reg,
    act: Option<ActReg>,
    rows: usize,
    dest: Reg,
)
    requires
        sized(s, rows),
        old(p)@.bufs < usize::MAX,
        old(p)@.acts < usize::MAX,
    ensures
        final(p)@ == adding_plain(old(p)@, s, weight, x, act, rows, dest),
{
    match s.form {
        Form::Planes => {
            let act = match act {
                Some(act) => act,
                None => {
                    let to: usize = p.acts;
                    p.act(Call::Quantize { x, rows, width: s.in_dim, to })
                },
            };
            add_act_plain(p, s, weight, x, act, rows, dest);
        },
        _ => add_dense(p, s, weight, x, act, rows, dest),
    }
}

/// Projects and adds into a buffer, the residual connection's epilogue.
pub fn add_into(p: &mut Program, s: Shape, weight: usize, x: Reg, rows: usize, dest: Reg)
    requires
        sized(s, rows),
        old(p)@.fits(),
    ensures
        final(p)@ == adding(old(p)@, s, weight, x, rows, dest),
{
    if s.rotation.is_some() {
        let input = share(p, s, weight, x, None, rows);
        let guards: usize = match s.form {
            Form::Planes => if input.act.is_some() {
                1
            } else {
                2
            },
            _ => 4,
        };
        add_plain(p, s, weight, input.x, input.act, rows, dest);
        release(p, input, guards);
    } else {
        add_plain(p, s, weight, x, None, rows, dest);
    }
}

/// The same with a quantized copy of the input at hand.
pub fn add_into_act(
    p: &mut Program,
    s: Shape,
    weight: usize,
    x: Reg,
    act: Option<ActReg>,
    rows: usize,
    dest: Reg,
)
    requires
        sized(s, rows),
        old(p)@.fits(),
    ensures
        final(p)@ == adding_with(old(p)@, s, weight, x, act, rows, dest),
{
    match act {
        Some(act) => if s.rotation.is_none() {
            add_act_plain(p, s, weight, x, act, rows, dest);
        } else {
            add_into(p, s, weight, x, rows, dest);
        },
        None => add_into(p, s, weight, x, rows, dest),
    }
}

/// Normalizes an input ahead of a weight and every other one reading the same
/// row, made ready for them.
pub fn share_norm(
    p: &mut Program,
    s: Shape,
    weight: usize,
    x: Reg,
    rows: usize,
    normed: Reg,
) -> (shared: Shared)
    requires
        sized(s, rows),
        old(p)@.bufs < usize::MAX,
        old(p)@.acts < usize::MAX,
    ensures
        (final(p)@, shared) == sharing_norm(old(p)@, s, weight, x, rows, normed),
{
    let to: usize = p.acts;
    match s.rotation {
        None => {
            let act = p.act(
                Call::NormQuantize { x, rows, width: s.in_dim, out: normed, act: to },
            );
            Shared { x: normed, act: Some(act), rotation: None }
        },
        Some(r) => if r.perm.is_none() {
            let out = p.take(rows * s.in_dim);
            let act = p.act(
                Call::NormTransform { weight, x, rows, width: s.in_dim, normed, out, act: to },
            );
            Shared {
                x: out,
                act: Some(act),
                rotation: Some(Rotation { width: s.in_dim, perm: None }),
            }
        } else {
            p.push(Call::Norm { x, rows, width: s.in_dim, out: normed });
            share(p, s, weight, normed, None, rows)
        },
    }
}

/// An input prepared for another transform than the weight reads through.
pub struct RotationError {
    pub key: String,
    pub reads: Option<Rotation>,
    pub prepared: Option<Rotation>,
}

pub const ROTATION: &'static str =
    "'$0' reads its input through $1, but it was prepared for $2";

pub const SOME_PERM: &'static str =
    "Some(($0, Some(HeadPerm { head_dim: $1, groups: $2, repeat: $3 })))";

pub const NO_PERM: &'static str = "Some(($0, None))";

/// A transform in words.
pub open spec fn rotation_text(r: Option<Rotation>) -> Seq<char> {
    match r {
        None => "None"@,
        Some(r) => match r.perm {
            None => text::filled(NO_PERM@, seq![text::decimal(r.width as nat)]),
            Some(perm) => text::filled(
                SOME_PERM@,
                seq![
                    text::decimal(r.width as nat),
                    text::decimal(perm.head_dim as nat),
                    text::decimal(perm.groups as nat),
                    text::decimal(perm.repeat as nat),
                ],
            ),
        },
    }
}

fn rotation_words(r: Option<Rotation>) -> (s: String)
    ensures
        s@ == rotation_text(r),
{
    match r {
        None => "None".to_owned(),
        Some(r) => match r.perm {
            None => Args::new().num(r.width).fill(NO_PERM),
            Some(perm) => Args::new().num(r.width).num(perm.head_dim).num(perm.groups).num(
                perm.repeat,
            ).fill(SOME_PERM),
        },
    }
}

impl RotationError {
    pub fn message(&self) -> (s: String)
        ensures
            s@ == text::filled(
                ROTATION@,
                seq![self.key@, rotation_text(self.reads), rotation_text(self.prepared)],
            ),
    {
        let reads = rotation_words(self.reads);
        let prepared = rotation_words(self.prepared);
        Args::new().text(self.key.as_str()).text(reads.as_str()).text(prepared.as_str()).fill(
            ROTATION,
        )
    }
}

/// Projects a shared input into a buffer. An input rotated for another weight,
/// or not at all, still projects to plausible output, so it is refused.
pub fn project_into_shared(
    p: &mut Program,
    s: Shape,
    key: &str,
    weight: usize,
    input: Shared,
    rows: usize,
    out: Reg,
) -> (result: Result<(), RotationError>)
    ensures
        match result {
            Ok(()) => input.rotation == s.rotation && final(p)@ == plain(
                old(p)@,
                s,
                weight,
                input.x,
                input.act,
                rows,
                out,
            ),
            Err(e) => input.rotation != s.rotation && final(p)@ == old(p)@ && e.key@ == key@
                && e.reads == s.rotation && e.prepared == input.rotation,
        },
{
    if input.rotation != s.rotation {
        return Err(
            RotationError { key: key.to_owned(), reads: s.rotation, prepared: input.rotation },
        );
    }
    project_plain(p, s, weight, input.x, input.act, rows, out);
    Ok(())
}

/// Projects a shared input into a buffer of its own.
pub fn forward_shared(
    p: &mut Program,
    s: Shape,
    key: &str,
    weight: usize,
    input: Shared,
    rows: usize,
) -> (result: Result<Reg, RotationError>)
    requires
        sized(s, rows),
        old(p)@.bufs < usize::MAX,
    ensures
        match result {
            Ok(out) => input.rotation == s.rotation && out == old(p)@.buf() && final(p)@ == plain(
                old(p)@.taking(rows * s.out_dim),
                s,
                weight,
                input.x,
                input.act,
                rows,
                old(p)@.buf(),
            ),
            Err(e) => input.rotation != s.rotation && e.key@ == key@ && e.reads == s.rotation
                && e.prepared == input.rotation && final(p)@ == old(p)@.taking(rows * s.out_dim),
        },
{
    let out = p.take(rows * s.out_dim);
    match project_into_shared(p, s, key, weight, input, rows, out) {
        Ok(()) => Ok(out),
        Err(e) => Err(e),
    }
}

/// Whether the backend is asked to quantize a mixer's output and project it in
/// one kernel.
pub fn offers_attn_out(s: Shape, rows: usize) -> (yes: bool)
    ensures
        yes == (rows == 1 && is_quantized(s) && !s.folded),
{
    match s.form {
        Form::Planes => rows == 1 && !s.folded,
        _ => false,
    }
}

/// The form a fused projection contracts against, or nothing for a weight it
/// does not take: one held densely, or folded.
pub fn proj_weight(s: Shape) -> (form: Option<Form>)
    ensures
        form == (if !s.folded && (is_quantized(s) || is_raw(s)) {
            Some(s.form)
        } else {
            None
        }),
{
    match s.form {
        Form::Planes | Form::Raw(_) => if s.folded {
            None
        } else {
            Some(s.form)
        },
        _ => None,
    }
}

/// Whether the backend is asked to normalize and project in one kernel.
pub fn offers_project(s: Shape, rows: usize) -> (yes: bool)
    ensures
        yes == (rows == 1 && !s.folded && (is_quantized(s) || is_raw(s))),
{
    rows == 1 && proj_weight(s).is_some()
}

pub const MATMUL: &'static str = "matmul for '$0'";

pub const RESIDUAL: &'static str = "residual matmul for '$0'";

pub const AHEAD: &'static str = "Hadamard transform ahead of '$0'";

/// What a failed call was for.
pub open spec fn purpose(call: Call, keys: Seq<Seq<char>>) -> Option<Seq<char>> {
    match call {
        Call::Project { weight, .. } => Some(text::filled(MATMUL@, seq![keys[weight as int]])),
        Call::Accumulate { weight, .. } => Some(
            text::filled(RESIDUAL@, seq![keys[weight as int]]),
        ),
        Call::Transform { weight, .. } => Some(text::filled(AHEAD@, seq![keys[weight as int]])),
        Call::NormTransform { weight, .. } => Some(
            text::filled(AHEAD@, seq![keys[weight as int]]),
        ),
        _ => None,
    }
}

/// Which of the caller's weights a call reads.
pub open spec fn reads_weight(call: Call) -> Option<usize> {
    match call {
        Call::Project { weight, .. } => Some(weight),
        Call::Accumulate { weight, .. } => Some(weight),
        Call::Transform { weight, .. } => Some(weight),
        Call::NormTransform { weight, .. } => Some(weight),
        _ => None,
    }
}

/// What a failed call was for, given the keys of the caller's weights.
pub fn context(call: Call, keys: &[String]) -> (words: Option<String>)
    requires
        reads_weight(call) matches Some(w) ==> w < keys@.len(),
    ensures
        match words {
            Some(words) => purpose(call, Seq::new(keys@.len(), |i: int| keys@[i]@)) == Some(words@),
            None => purpose(call, Seq::new(keys@.len(), |i: int| keys@[i]@)) is None,
        },
{
    match call {
        Call::Project { weight, .. } => Some(Args::new().text(keys[weight].as_str()).fill(MATMUL)),
        Call::Accumulate { weight, .. } => Some(
            Args::new().text(keys[weight].as_str()).fill(RESIDUAL),
        ),
        Call::Transform { weight, .. } => Some(Args::new().text(keys[weight].as_str()).fill(AHEAD)),
        Call::NormTransform { weight, .. } => Some(
            Args::new().text(keys[weight].as_str()).fill(AHEAD),
        ),
        _ => None,
    }
}

} // verus!
