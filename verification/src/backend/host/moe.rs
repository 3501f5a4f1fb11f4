//! The host's mixture-of-experts feed-forward: the router's choice for each row,
//! the chosen experts applied to it, and the gated shared expert.

use vstd::prelude::*;

use crate::backend::host::attention;
use crate::backend::host::contract;
use crate::backend::host::ops;
use crate::backend::moe::{self, rank};
use crate::text::{self, Args};

verus! {

broadcast use crate::text::lemma_filled_args;

/// The arithmetic routing needs. `bits` places a number in the total order.
pub struct Router<P, X, S, E, D, B> {
    pub plus: P,
    pub max: X,
    pub minus: S,
    pub exp: E,
    pub over: D,
    pub bits: B,
}

pub open spec fn is_router<
    T,
    P: Fn(T, T) -> T,
    X: Fn(T, T) -> T,
    S: Fn(T, T) -> T,
    E: Fn(T) -> T,
    D: Fn(T, T) -> T,
    B: Fn(T) -> u32,
>(o: Router<P, X, S, E, D, B>) -> bool {
    ops::is_op2(o.plus) && ops::is_op2(o.max) && ops::is_op2(o.minus) && ops::is_op1(o.exp) && ops::is_op2(o.over) && ops::is_op1(
        o.bits,
    )
}

/// An expert chosen for a row, and its weight.
#[derive(Clone, Copy, PartialEq, Debug)]
pub struct Pick<T> {
    pub expert: usize,
    pub weight: T,
}

/// The exponentials of the logits, shifted by the largest.
pub open spec fn exponentials<
    T,
    P: Fn(T, T) -> T,
    X: Fn(T, T) -> T,
    S: Fn(T, T) -> T,
    E: Fn(T) -> T,
    D: Fn(T, T) -> T,
    B: Fn(T) -> u32,
>(o: Router<P, X, S, E, D, B>, low: T, logits: Seq<T>) -> Seq<T> {
    let top = attention::topped(o.max, low, logits, logits.len());
    Seq::new(logits.len(), |i: int| ops::of1(o.exp, ops::of2(o.minus, logits[i], top)))
}

/// The probabilities of the logits.
pub open spec fn probabilities<
    T,
    P: Fn(T, T) -> T,
    X: Fn(T, T) -> T,
    S: Fn(T, T) -> T,
    E: Fn(T) -> T,
    D: Fn(T, T) -> T,
    B: Fn(T) -> u32,
>(o: Router<P, X, S, E, D, B>, low: T, start: T, logits: Seq<T>) -> Seq<T> {
    let up = exponentials(o, low, logits);
    let sum = attention::summed(o.plus, start, up, logits.len());
    Seq::new(logits.len(), |i: int| ops::of2(o.over, up[i], sum))
}

pub open spec fn experts_of<T>(picks: Seq<Pick<T>>) -> Seq<usize> {
    Seq::new(picks.len(), |i: int| picks[i].expert)
}

/// Whether picks are a row's: the largest probabilities of all, in order, over
/// their sum.
pub open spec fn is_route<
    T,
    P: Fn(T, T) -> T,
    X: Fn(T, T) -> T,
    S: Fn(T, T) -> T,
    E: Fn(T) -> T,
    D: Fn(T, T) -> T,
    B: Fn(T) -> u32,
>(
    o: Router<P, X, S, E, D, B>,
    low: T,
    start: T,
    logits: Seq<T>,
    n: nat,
    picks: Seq<Pick<T>>,
) -> bool {
    let probs = probabilities(o, low, start, logits);
    let chosen = Seq::new(n, |i: int| probs[picks[i].expert as int]);
    &&& moe::is_top(
        Seq::new(logits.len(), |i: int| ops::of1(o.bits, probs[i])),
        n,
        experts_of(picks),
    )
    &&& picks.len() == n
    &&& forall|i: int|
        0 <= i < n ==> (#[trigger] picks[i]).weight == ops::of2(
            o.over,
            chosen[i],
            attention::summed(o.plus, start, chosen, n),
        )
}

/// The router's choice for one row: softmax over all logits first, then the
/// `n_used` largest probabilities, then those over their sum. A tie keeps the
/// lower index.
pub fn route<
    T: Copy,
    P: Fn(T, T) -> T,
    X: Fn(T, T) -> T,
    S: Fn(T, T) -> T,
    E: Fn(T) -> T,
    D: Fn(T, T) -> T,
    B: Fn(T) -> u32,
>(
    o: &Router<P, X, S, E, D, B>,
    low: T,
    start: T,
    logits: &[T],
    from: usize,
    n: usize,
    n_used: usize,
) -> (picks: Vec<Pick<T>>)
    requires
        is_router(*o),
        from + n <= logits@.len(),
        n_used <= n,
    ensures
        is_route(
            *o,
            low,
            start,
            logits@.subrange(from as int, from + n),
            n_used as nat,
            picks@,
        ),
{
    let held: usize = logits.len();
    let ghost row = logits@.subrange(from as int, from + n);
    let mut top: T = low;
    let mut i: usize = 0;
    while i < n
        invariant
            i <= n,
            is_router(*o),
            held == logits@.len(),
            from + n <= held,
            row == logits@.subrange(from as int, from + n),
            top == attention::topped(o.max, low, row, i as nat),
        decreases n - i,
    {
        top = (o.max)(top, logits[from + i]);
        i = i + 1;
    }
    let ghost up = exponentials(*o, low, row);
    let mut probs: Vec<T> = Vec::new();
    let mut sum: T = start;
    let mut i: usize = 0;
    while i < n
        invariant
            i <= n,
            is_router(*o),
            held == logits@.len(),
            from + n <= held,
            row == logits@.subrange(from as int, from + n),
            top == attention::topped(o.max, low, row, n as nat),
            up == exponentials(*o, low, row),
            probs@ == up.take(i as int),
            sum == attention::summed(o.plus, start, up, i as nat),
        decreases n - i,
    {
        let shifted = (o.minus)(logits[from + i], top);
        let e = (o.exp)(shifted);
        assert(e == up[i as int]);
        probs.push(e);
        sum = (o.plus)(sum, e);
        i = i + 1;
        assert(probs@ =~= up.take(i as int));
    }
    let ghost shares = probabilities(*o, low, start, row);
    let ghost places = Seq::new(n as nat, |i: int| ops::of1(o.bits, shares[i]));
    let mut bits: Vec<u32> = Vec::new();
    let mut i: usize = 0;
    while i < n
        invariant
            i <= n,
            n == row.len(),
            is_router(*o),
            probs@.len() == n,
            up == exponentials(*o, low, row),
            shares == probabilities(*o, low, start, row),
            places == Seq::new(n as nat, |i: int| ops::of1(o.bits, shares[i])),
            sum == attention::summed(o.plus, start, up, n as nat),
            forall|j: int|
                0 <= j < n ==> #[trigger] probs@[j] == (if j < i {
                    shares[j]
                } else {
                    up[j]
                }),
            bits@ == places.take(i as int),
        decreases n - i,
    {
        let p = (o.over)(probs[i], sum);
        assert(p == shares[i as int]);
        probs.set(i, p);
        let b: u32 = (o.bits)(p);
        bits.push(b);
        i = i + 1;
        assert(bits@ =~= places.take(i as int));
    }
    assert(bits@ =~= places);
    assert(probs@ =~= shares);
    let chosen = rank(bits.as_slice(), n_used);
    let ghost picked = Seq::new(n_used as nat, |i: int| shares[chosen@[i] as int]);
    let mut sum: T = start;
    let mut i: usize = 0;
    while i < n_used
        invariant
            i <= n_used,
            is_router(*o),
            probs@ == shares,
            chosen@.len() == n_used,
            forall|j: int| 0 <= j < n_used ==> #[trigger] chosen@[j] < probs@.len(),
            picked == Seq::new(n_used as nat, |i: int| shares[chosen@[i] as int]),
            sum == attention::summed(o.plus, start, picked, i as nat),
        decreases n_used - i,
    {
        assert(chosen@[i as int] < probs@.len());
        sum = (o.plus)(sum, probs[chosen[i]]);
        i = i + 1;
    }
    let mut picks: Vec<Pick<T>> = Vec::new();
    let mut i: usize = 0;
    while i < n_used
        invariant
            i <= n_used,
            is_router(*o),
            probs@ == shares,
            chosen@.len() == n_used,
            forall|j: int| 0 <= j < n_used ==> #[trigger] chosen@[j] < probs@.len(),
            picks@.len() == i,
            forall|j: int|
                0 <= j < i ==> (#[trigger] picks@[j]).expert == chosen@[j] && picks@[j].weight
                    == ops::of2(o.over, shares[chosen@[j] as int], sum),
        decreases n_used - i,
    {
        assert(chosen@[i as int] < probs@.len());
        let weight = (o.over)(probs[chosen[i]], sum);
        picks.push(Pick { expert: chosen[i], weight });
        i = i + 1;
    }
    assert(experts_of(picks@) =~= chosen@);
    assert(Seq::new(n_used as nat, |i: int| shares[picks@[i].expert as int]) =~= picked);
    picks
}

/// One of the three stacks of a block's experts.
#[derive(Clone, Copy, PartialEq, Eq, Structural, Debug)]
pub enum Stack {
    Gate,
    Up,
    Down,
}

/// The matrices of a stack.
#[derive(Clone, Copy, PartialEq, Eq, Structural, Debug)]
pub struct Matrices {
    pub n: usize,
    pub k: usize,
}

/// What a set of experts holds.
#[derive(Clone, Copy, PartialEq, Eq, Structural, Debug)]
pub struct SetShape {
    pub gate: Matrices,
    pub up: Matrices,
    pub down: Matrices,
    pub count: usize,
}

/// What is asked of a set of experts.
#[derive(Clone, Copy, PartialEq, Eq, Structural, Debug)]
pub struct MoeCall {
    pub rows: usize,
    pub d_model: usize,
    pub d_ff: usize,
    pub n_expert: usize,
    pub n_used: usize,
}

/// An operand of a routed feed-forward.
#[derive(Clone, Copy, PartialEq, Eq, Structural, Debug)]
pub enum Operand {
    SharedOutput,
    SharedGate,
    Input,
    Logits,
}

/// What a routed feed-forward refuses.
#[derive(Clone, Copy, PartialEq, Eq, Structural, Debug)]
pub enum MoeRefusal {
    Unknown,
    GateUp { n: usize, k: usize, d_ff: usize, d_model: usize },
    Down { n: usize, k: usize, d_model: usize, d_ff: usize },
    Count { held: usize, n_used: usize, n_expert: usize },
    Short { what: Operand, held: usize, wanted: usize },
    Dest,
    Routes,
}

pub const UNKNOWN: &'static str = "use of an unknown expert set handle";

pub const GATE_UP: &'static str =
    "gate and up experts are [$0, $1], the request wants [$2, $3]";

pub const DOWN: &'static str = "down experts are [$0, $1], the request wants [$2, $3]";

pub const COUNT: &'static str = "$0 experts held, the request routes $1 of $2";

pub const SHORT: &'static str = "$0 holds $1 elements, $2 wanted";

pub const DEST: &'static str = "moe destination is too small";

pub const ROUTES: &'static str = "moe routes buffer is too small";

pub open spec fn operand_name(what: Operand) -> Seq<char> {
    match what {
        Operand::SharedOutput => "shared expert output"@,
        Operand::SharedGate => "shared gate"@,
        Operand::Input => "input"@,
        Operand::Logits => "router logits"@,
    }
}

/// The words of each refusal.
pub open spec fn refusal_words(r: MoeRefusal) -> Seq<char> {
    match r {
        MoeRefusal::Unknown => UNKNOWN@,
        MoeRefusal::GateUp { n, k, d_ff, d_model } => text::filled(
            GATE_UP@,
            seq![
                text::decimal(n as nat),
                text::decimal(k as nat),
                text::decimal(d_ff as nat),
                text::decimal(d_model as nat),
            ],
        ),
        MoeRefusal::Down { n, k, d_model, d_ff } => text::filled(
            DOWN@,
            seq![
                text::decimal(n as nat),
                text::decimal(k as nat),
                text::decimal(d_model as nat),
                text::decimal(d_ff as nat),
            ],
        ),
        MoeRefusal::Count { held, n_used, n_expert } => text::filled(
            COUNT@,
            seq![
                text::decimal(held as nat),
                text::decimal(n_used as nat),
                text::decimal(n_expert as nat),
            ],
        ),
        MoeRefusal::Short { what, held, wanted } => text::filled(
            SHORT@,
            seq![operand_name(what), text::decimal(held as nat), text::decimal(wanted as nat)],
        ),
        MoeRefusal::Dest => DEST@,
        MoeRefusal::Routes => ROUTES@,
    }
}

impl MoeRefusal {
    pub fn message(self) -> (s: String)
        ensures
            s@ == refusal_words(self),
    {
        match self {
            MoeRefusal::Unknown => UNKNOWN.to_owned(),
            MoeRefusal::GateUp { n, k, d_ff, d_model } => Args::new().num(n).num(k).num(d_ff).num(
                d_model,
            ).fill(GATE_UP),
            MoeRefusal::Down { n, k, d_model, d_ff } => Args::new().num(n).num(k).num(d_model).num(
                d_ff,
            ).fill(DOWN),
            MoeRefusal::Count { held, n_used, n_expert } => Args::new().num(held).num(n_used).num(
                n_expert,
            ).fill(COUNT),
            MoeRefusal::Short { what, held, wanted } => {
                let name = match what {
                    Operand::SharedOutput => "shared expert output",
                    Operand::SharedGate => "shared gate",
                    Operand::Input => "input",
                    Operand::Logits => "router logits",
                };
                Args::new().text(name).num(held).num(wanted).fill(SHORT)
            },
            MoeRefusal::Dest => DEST.to_owned(),
            MoeRefusal::Routes => ROUTES.to_owned(),
        }
    }
}

/// What refuses a call before anything is computed: the set, its shapes, its
/// count, then the operands.
pub open spec fn refusal(
    set: Option<SetShape>,
    c: MoeCall,
    shared: Option<(nat, nat)>,
    x: nat,
    logits: nat,
) -> Option<MoeRefusal> {
    let short = |what: Operand, held: nat, wanted: int|
        Some(MoeRefusal::Short { what, held: held as usize, wanted: wanted as usize });
    match set {
        None => Some(MoeRefusal::Unknown),
        Some(s) => if !(s.gate == (Matrices { n: c.d_ff, k: c.d_model }) && s.up == (Matrices {
            n: c.d_ff,
            k: c.d_model,
        })) {
            Some(
                MoeRefusal::GateUp {
                    n: s.gate.n,
                    k: s.gate.k,
                    d_ff: c.d_ff,
                    d_model: c.d_model,
                },
            )
        } else if s.down != (Matrices { n: c.d_model, k: c.d_ff }) {
            Some(
                MoeRefusal::Down { n: s.down.n, k: s.down.k, d_model: c.d_model, d_ff: c.d_ff },
            )
        } else if !(s.count == c.n_expert && c.n_used <= c.n_expert) {
            Some(MoeRefusal::Count { held: s.count, n_used: c.n_used, n_expert: c.n_expert })
        } else if shared is Some && shared->Some_0.0 < c.rows * c.d_model {
            short(Operand::SharedOutput, shared->Some_0.0, c.rows * c.d_model)
        } else if shared is Some && shared->Some_0.1 < c.rows {
            short(Operand::SharedGate, shared->Some_0.1, c.rows as int)
        } else if x < c.rows * c.d_model {
            short(Operand::Input, x, c.rows * c.d_model)
        } else if logits < c.rows * c.n_expert {
            short(Operand::Logits, logits, c.rows * c.n_expert)
        } else {
            None
        },
    }
}

/// What a stack's matrix of an expert decodes to.
pub open spec fn decoded<T, F: Fn(Stack, usize) -> Vec<T>>(f: F, which: Stack, e: usize) -> Seq<T> {
    (choose|r: Vec<T>| call_ensures(f, (which, e), r))@
}

/// A decoder of every expert's matrices, each of `len` elements.
pub open spec fn is_decoder<T, F: Fn(Stack, usize) -> Vec<T>>(f: F, count: usize, len: int) -> bool {
    &&& forall|which: Stack, e: usize| e < count ==> #[trigger] call_requires(f, (which, e))
    &&& forall|which: Stack, e: usize, r: Vec<T>|
        e < count && #[trigger] call_ensures(f, (which, e), r) ==> r@ == decoded(f, which, e)
            && r@.len() == len
}

/// The arithmetic an expert needs.
pub struct Feed<P, M, A, G> {
    pub plus: P,
    pub times: M,
    pub silu: A,
    pub sigmoid: G,
}

pub open spec fn is_feed<
    T,
    P: Fn(T, T) -> T,
    M: Fn(T, T) -> T,
    A: Fn(T) -> T,
    G: Fn(T) -> T,
>(o: Feed<P, M, A, G>) -> bool {
    ops::is_op2(o.plus) && ops::is_op2(o.times) && ops::is_op1(o.silu) && ops::is_op1(o.sigmoid)
}

/// A matrix applied to a row.
pub open spec fn applied<T, P: Fn(T, T) -> T, M: Fn(T, T) -> T, A: Fn(T) -> T, G: Fn(T) -> T>(
    o: Feed<P, M, A, G>,
    start: T,
    w: Seq<T>,
    n: nat,
    x: Seq<T>,
) -> Seq<T> {
    Seq::new(
        n,
        |j: int|
            ops::dotted(
                o.plus,
                o.times,
                start,
                w.subrange(j * x.len(), j * x.len() + x.len()),
                x,
                x.len(),
            ),
    )
}

/// An expert applied to a row: `down(silu(gate(x)) * up(x))`.
pub open spec fn fed<
    T,
    P: Fn(T, T) -> T,
    M: Fn(T, T) -> T,
    A: Fn(T) -> T,
    G: Fn(T) -> T,
    F: Fn(Stack, usize) -> Vec<T>,
>(o: Feed<P, M, A, G>, decode: F, start: T, d_ff: nat, e: usize, x: Seq<T>) -> Seq<T> {
    let g = applied(o, start, decoded(decode, Stack::Gate, e), d_ff, x);
    let u = applied(o, start, decoded(decode, Stack::Up, e), d_ff, x);
    let h = Seq::new(d_ff, |j: int| ops::of2(o.times, ops::of1(o.silu, g[j]), u[j]));
    applied(o, start, decoded(decode, Stack::Down, e), x.len(), h)
}

/// A row's output after its first `n` experts.
pub open spec fn combined<
    T,
    P: Fn(T, T) -> T,
    M: Fn(T, T) -> T,
    A: Fn(T) -> T,
    G: Fn(T) -> T,
    F: Fn(Stack, usize) -> Vec<T>,
>(
    o: Feed<P, M, A, G>,
    decode: F,
    start: T,
    zero: T,
    d_ff: nat,
    x: Seq<T>,
    picks: Seq<Pick<T>>,
    n: nat,
) -> Seq<T>
    decreases n,
{
    if n == 0 {
        Seq::new(x.len(), |i: int| zero)
    } else {
        let before = combined(o, decode, start, zero, d_ff, x, picks, (n - 1) as nat);
        let one = picks[n - 1];
        let out = fed(o, decode, start, d_ff, one.expert, x);
        Seq::new(
            x.len(),
            |i: int| ops::of2(o.plus, before[i], ops::of2(o.times, one.weight, out[i])),
        )
    }
}

/// A row's output: its experts', and the shared expert's by its gate.
pub open spec fn row_output<
    T,
    P: Fn(T, T) -> T,
    M: Fn(T, T) -> T,
    A: Fn(T) -> T,
    G: Fn(T) -> T,
    F: Fn(Stack, usize) -> Vec<T>,
>(
    o: Feed<P, M, A, G>,
    decode: F,
    start: T,
    zero: T,
    d_ff: nat,
    x: Seq<T>,
    picks: Seq<Pick<T>>,
    shared: Option<(Seq<T>, T)>,
) -> Seq<T> {
    let own = combined(o, decode, start, zero, d_ff, x, picks, picks.len());
    match shared {
        None => own,
        Some((out, gate)) => {
            let scale = ops::of1(o.sigmoid, gate);
            Seq::new(x.len(), |i: int| ops::of2(o.plus, own[i], ops::of2(o.times, scale, out[i])))
        },
    }
}

fn apply<T: Copy, P: Fn(T, T) -> T, M: Fn(T, T) -> T, A: Fn(T) -> T, G: Fn(T) -> T>(
    o: &Feed<P, M, A, G>,
    start: T,
    w: &[T],
    n: usize,
    x: &[T],
) -> (out: Vec<T>)
    requires
        is_feed(*o),
        n * x@.len() <= w@.len(),
    ensures
        out@ == applied(*o, start, w@, n as nat, x@),
{
    let (k, held): (usize, usize) = (x.len(), w.len());
    let ghost whole = applied(*o, start, w@, n as nat, x@);
    let mut out: Vec<T> = Vec::new();
    let mut j: usize = 0;
    while j < n
        invariant
            j <= n,
            is_feed(*o),
            k == x@.len(),
            held == w@.len(),
            n * k <= held,
            whole == applied(*o, start, w@, n as nat, x@),
            out@ == whole.take(j as int),
        decreases n - j,
    {
        proof {
            contract::lemma_row(j as int, n as int, k as int);
            assert(x@.subrange(0, k as int) =~= x@);
        }
        let v = ops::dot(&o.plus, &o.times, start, w, j * k, x, 0, k);
        assert(v == whole[j as int]);
        out.push(v);
        j = j + 1;
        assert(out@ =~= whole.take(j as int));
    }
    assert(whole.take(j as int) =~= whole);
    out
}

fn feed<
    T: Copy,
    P: Fn(T, T) -> T,
    M: Fn(T, T) -> T,
    A: Fn(T) -> T,
    G: Fn(T) -> T,
    F: Fn(Stack, usize) -> Vec<T>,
>(
    o: &Feed<P, M, A, G>,
    decode: &F,
    start: T,
    count: usize,
    d_ff: usize,
    e: usize,
    x: &[T],
) -> (out: Vec<T>)
    requires
        is_feed(*o),
        is_decoder(*decode, count, d_ff * x@.len()),
        e < count,
    ensures
        out@ == fed(*o, *decode, start, d_ff as nat, e, x@),
        out@.len() == x@.len(),
{
    let gate = decode(Stack::Gate, e);
    let g = apply(o, start, gate.as_slice(), d_ff, x);
    let up = decode(Stack::Up, e);
    let u = apply(o, start, up.as_slice(), d_ff, x);
    let ghost whole = Seq::new(d_ff as nat, |j: int| ops::of2(o.times, ops::of1(o.silu, g@[j]), u@[j]));
    let mut h: Vec<T> = Vec::new();
    let mut j: usize = 0;
    while j < d_ff
        invariant
            j <= d_ff,
            is_feed(*o),
            g@.len() == d_ff,
            u@.len() == d_ff,
            whole == Seq::new(d_ff as nat, |j: int| ops::of2(o.times, ops::of1(o.silu, g@[j]), u@[j])),
            h@ == whole.take(j as int),
        decreases d_ff - j,
    {
        let open_by = (o.silu)(g[j]);
        let v = (o.times)(open_by, u[j]);
        assert(v == whole[j as int]);
        h.push(v);
        j = j + 1;
        assert(h@ =~= whole.take(j as int));
    }
    assert(h@ =~= whole);
    let down = decode(Stack::Down, e);
    assert(x@.len() * h@.len() == d_ff * x@.len()) by (nonlinear_arith)
        requires
            h@.len() == d_ff,
    ;
    apply(o, start, down.as_slice(), x.len(), h.as_slice())
}

/// One row's output.
fn run_row<
    T: Copy,
    P: Fn(T, T) -> T,
    M: Fn(T, T) -> T,
    A: Fn(T) -> T,
    G: Fn(T) -> T,
    F: Fn(Stack, usize) -> Vec<T>,
>(
    o: &Feed<P, M, A, G>,
    decode: &F,
    start: T,
    zero: T,
    count: usize,
    d_ff: usize,
    x: &[T],
    picks: &[Pick<T>],
    shared: Option<(&[T], T)>,
) -> (y: Vec<T>)
    requires
        is_feed(*o),
        is_decoder(*decode, count, d_ff * x@.len()),
        forall|i: int| 0 <= i < picks@.len() ==> (#[trigger] picks@[i]).expert < count,
        shared matches Some(s) ==> s.0@.len() == x@.len(),
    ensures
        y@ == row_output(
            *o,
            *decode,
            start,
            zero,
            d_ff as nat,
            x@,
            picks@,
            match shared {
                Some(s) => Some((s.0@, s.1)),
                None => None,
            },
        ),
        y@.len() == x@.len(),
{
    let d: usize = x.len();
    let mut y: Vec<T> = Vec::new();
    let mut i: usize = 0;
    while i < d
        invariant
            i <= d,
            y@ == Seq::new(i as nat, |j: int| zero),
        decreases d - i,
    {
        y.push(zero);
        i = i + 1;
        assert(y@ =~= Seq::new(i as nat, |j: int| zero));
    }
    let mut s: usize = 0;
    while s < picks.len()
        invariant
            s <= picks@.len(),
            is_feed(*o),
            is_decoder(*decode, count, d_ff * x@.len()),
            d == x@.len(),
            y@.len() == d,
            forall|i: int| 0 <= i < picks@.len() ==> (#[trigger] picks@[i]).expert < count,
            y@ == combined(*o, *decode, start, zero, d_ff as nat, x@, picks@, s as nat),
        decreases picks@.len() - s,
    {
        let one = picks[s];
        assert(picks@[s as int].expert < count);
        let out = feed(o, decode, start, count, d_ff, one.expert, x);
        let ghost before = y@;
        let mut i: usize = 0;
        while i < d
            invariant
                i <= d,
                is_feed(*o),
                y@.len() == d,
                before.len() == d,
                out@.len() == d,
                forall|j: int|
                    0 <= j < d ==> #[trigger] y@[j] == (if j < i {
                        ops::of2(o.plus, before[j], ops::of2(o.times, one.weight, out@[j]))
                    } else {
                        before[j]
                    }),
            decreases d - i,
        {
            let term = (o.times)(one.weight, out[i]);
            let v = (o.plus)(y[i], term);
            y.set(i, v);
            i = i + 1;
        }
        assert(y@ =~= combined(*o, *decode, start, zero, d_ff as nat, x@, picks@, (s + 1) as nat));
        s = s + 1;
    }
    let ghost own = y@;
    if let Some((shared_out, gate)) = shared {
        let scale = (o.sigmoid)(gate);
        let mut i: usize = 0;
        while i < d
            invariant
                i <= d,
                is_feed(*o),
                y@.len() == d,
                own.len() == d,
                shared_out@.len() == d,
                forall|j: int|
                    0 <= j < d ==> #[trigger] y@[j] == (if j < i {
                        ops::of2(o.plus, own[j], ops::of2(o.times, scale, shared_out@[j]))
                    } else {
                        own[j]
                    }),
            decreases d - i,
        {
            let term = (o.times)(scale, shared_out[i]);
            let v = (o.plus)(y[i], term);
            y.set(i, v);
            i = i + 1;
        }
        assert(y@ =~= Seq::new(
            x@.len(),
            |j: int| ops::of2(o.plus, own[j], ops::of2(o.times, scale, shared_out@[j])),
        ));
    }
    y
}

/// The numbers a routed feed-forward starts from.
pub struct MoeStart<T> {
    /// What sums of products start from.
    pub dot: T,
    pub zero: T,
    /// The least number.
    pub low: T,
}

/// Row `r` of an operand.
pub open spec fn row_of<T>(x: Seq<T>, r: int, width: int) -> Seq<T> {
    x.subrange(r * width, r * width + width)
}

/// Whether every row's picks are its route.
pub open spec fn are_routes<
    T,
    P: Fn(T, T) -> T,
    X: Fn(T, T) -> T,
    S: Fn(T, T) -> T,
    E: Fn(T) -> T,
    D: Fn(T, T) -> T,
    B: Fn(T) -> u32,
>(
    o: Router<P, X, S, E, D, B>,
    at: MoeStart<T>,
    c: MoeCall,
    logits: Seq<T>,
    routes: Seq<Seq<Pick<T>>>,
) -> bool {
    &&& routes.len() == c.rows
    &&& forall|r: int|
        0 <= r < c.rows ==> is_route(
            o,
            at.low,
            at.dot,
            row_of(logits, r, c.n_expert as int),
            c.n_used as nat,
            #[trigger] routes[r],
        )
}

/// What a routed feed-forward adds into its destination.
pub open spec fn moe_output<
    T,
    P: Fn(T, T) -> T,
    M: Fn(T, T) -> T,
    A: Fn(T) -> T,
    G: Fn(T) -> T,
    F: Fn(Stack, usize) -> Vec<T>,
>(
    o: Feed<P, M, A, G>,
    decode: F,
    at: MoeStart<T>,
    c: MoeCall,
    x: Seq<T>,
    shared: Option<(Seq<T>, Seq<T>)>,
    routes: Seq<Seq<Pick<T>>>,
    p: int,
) -> T {
    let d = c.d_model as int;
    let r = p / d;
    row_output(
        o,
        decode,
        at.dot,
        at.zero,
        c.d_ff as nat,
        row_of(x, r, d),
        routes[r],
        match shared {
            Some((out, gate)) => Some((row_of(out, r, d), gate[r])),
            None => None,
        },
    )[p % d]
}

/// The experts of every row's picks, row after row.
pub open spec fn listed<T>(routes: Seq<Seq<Pick<T>>>, n_used: int) -> Seq<usize> {
    Seq::new((routes.len() * n_used) as nat, |p: int| routes[p / n_used][p % n_used].expert)
}

fn check(
    set: Option<SetShape>,
    c: MoeCall,
    shared: Option<(usize, usize)>,
    x: usize,
    logits: usize,
) -> (result: Result<SetShape, MoeRefusal>)
    requires
        c.rows * c.d_model <= usize::MAX,
        c.rows * c.n_expert <= usize::MAX,
    ensures
        ({
            let r = refusal(
                set,
                c,
                match shared {
                    Some(s) => Some((s.0 as nat, s.1 as nat)),
                    None => None,
                },
                x as nat,
                logits as nat,
            );
            match result {
                Ok(s) => r is None && set == Some(s),
                Err(e) => r == Some(e),
            }
        }),
{
    let s = match set {
        Some(s) => s,
        None => {
            return Err(MoeRefusal::Unknown);
        },
    };
    let (d, d_ff): (usize, usize) = (c.d_model, c.d_ff);
    if s.gate.n != d_ff || s.gate.k != d || s.up.n != d_ff || s.up.k != d {
        return Err(MoeRefusal::GateUp { n: s.gate.n, k: s.gate.k, d_ff, d_model: d });
    }
    if s.down.n != d || s.down.k != d_ff {
        return Err(MoeRefusal::Down { n: s.down.n, k: s.down.k, d_model: d, d_ff });
    }
    if s.count != c.n_expert || c.n_used > c.n_expert {
        return Err(
            MoeRefusal::Count { held: s.count, n_used: c.n_used, n_expert: c.n_expert },
        );
    }
    let rows_d: usize = c.rows * d;
    if let Some((out, gate)) = shared {
        if out < rows_d {
            return Err(
                MoeRefusal::Short { what: Operand::SharedOutput, held: out, wanted: rows_d },
            );
        }
        if gate < c.rows {
            return Err(
                MoeRefusal::Short { what: Operand::SharedGate, held: gate, wanted: c.rows },
            );
        }
    }
    if x < rows_d {
        return Err(MoeRefusal::Short { what: Operand::Input, held: x, wanted: rows_d });
    }
    let all: usize = c.rows * c.n_expert;
    if logits < all {
        return Err(MoeRefusal::Short { what: Operand::Logits, held: logits, wanted: all });
    }
    Ok(s)
}

/// A block's routed feed-forward: each row's experts applied to it, their
/// outputs summed by their weights, the gated shared expert's added, and the
/// whole added into the destination. Hands back each row's experts.
pub fn run_moe<
    T: Copy,
    P: Fn(T, T) -> T,
    X: Fn(T, T) -> T,
    S: Fn(T, T) -> T,
    E: Fn(T) -> T,
    D: Fn(T, T) -> T,
    B: Fn(T) -> u32,
    M: Fn(T, T) -> T,
    A: Fn(T) -> T,
    G: Fn(T) -> T,
    F: Fn(Stack, usize) -> Vec<T>,
>(
    router: &Router<P, X, S, E, D, B>,
    o: &Feed<P, M, A, G>,
    decode: &F,
    at: &MoeStart<T>,
    set: Option<SetShape>,
    c: MoeCall,
    x: &[T],
    logits: &[T],
    shared: Option<(&[T], &[T])>,
    dest: &mut Vec<T>,
) -> (result: Result<Vec<usize>, MoeRefusal>)
    requires
        is_router(*router),
        is_feed(*o),
        set matches Some(s) ==> is_decoder(*decode, s.count, c.d_ff * c.d_model),
        c.rows * c.d_model <= usize::MAX,
        c.rows * c.n_expert <= usize::MAX,
    ensures
        ({
            let pair: Option<(Seq<T>, Seq<T>)> = match shared {
                Some(s) => Some((s.0@, s.1@)),
                None => None,
            };
            let refused = refusal(
                set,
                c,
                match pair {
                    Some(s) => Some((s.0.len(), s.1.len())),
                    None => None,
                },
                x@.len(),
                logits@.len(),
            );
            match result {
                Err(e) => final(dest)@ == old(dest)@ && if refused is Some {
                    refused == Some(e)
                } else {
                    e == MoeRefusal::Dest && old(dest)@.len() < c.rows * c.d_model
                },
                Ok(list) => {
                    &&& refused is None
                    &&& old(dest)@.len() >= c.rows * c.d_model
                    &&& exists|routes: Seq<Seq<Pick<T>>>| #[trigger]
                        are_routes(*router, *at, c, logits@, routes) && list@ == listed(
                            routes,
                            c.n_used as int,
                        ) && final(dest)@ == contract::written(
                            old(dest)@,
                            c.rows * c.d_model,
                            |p: int|
                                ops::of2(
                                    o.plus,
                                    old(dest)@[p],
                                    moe_output(*o, *decode, *at, c, x@, pair, routes, p),
                                ),
                        )
                },
            }
        }),
{
    let lens: Option<(usize, usize)> = match shared {
        Some(s) => Some((s.0.len(), s.1.len())),
        None => None,
    };
    let ghost pair: Option<(Seq<T>, Seq<T>)> = match shared {
        Some(s) => Some((s.0@, s.1@)),
        None => None,
    };
    let s = match check(set, c, lens, x.len(), logits.len()) {
        Ok(s) => s,
        Err(e) => {
            return Err(e);
        },
    };
    let d: usize = c.d_model;
    let all: usize = c.rows * d;
    let (x_held, l_held): (usize, usize) = (x.len(), logits.len());
    let mut y: Vec<T> = Vec::new();
    let mut list: Vec<usize> = Vec::new();
    let ghost mut routes: Seq<Seq<Pick<T>>> = Seq::empty();
    let mut r: usize = 0;
    proof {
        assert(0 * d == 0) by (nonlinear_arith);
        assert(0 * c.n_used == 0) by (nonlinear_arith);
    }
    while r < c.rows
        invariant
            r <= c.rows,
            is_router(*router),
            is_feed(*o),
            s.count == c.n_expert,
            c.n_used <= c.n_expert,
            is_decoder(*decode, s.count, c.d_ff * d),
            d == c.d_model,
            all == c.rows * d,
            x_held == x@.len(),
            l_held == logits@.len(),
            all <= x_held,
            c.rows * c.n_expert <= l_held,
            shared matches Some(s) ==> s.0@.len() >= all && s.1@.len() >= c.rows,
            pair == (match shared {
                Some(s) => Some((s.0@, s.1@)),
                None => None::<(Seq<T>, Seq<T>)>,
            }),
            routes.len() == r,
            forall|q: int|
                0 <= q < r ==> is_route(
                    *router,
                    at.low,
                    at.dot,
                    row_of(logits@, q, c.n_expert as int),
                    c.n_used as nat,
                    #[trigger] routes[q],
                ),
            y@.len() == r * d,
            forall|p: int|
                0 <= p < r * d ==> #[trigger] y@[p] == moe_output(
                    *o,
                    *decode,
                    *at,
                    c,
                    x@,
                    pair,
                    routes,
                    p,
                ),
            list@.len() == r * c.n_used,
            forall|p: int|
                0 <= p < r * c.n_used ==> #[trigger] list@[p] == routes[p / c.n_used as int][p
                    % c.n_used as int].expert,
        decreases c.rows - r,
    {
        proof {
            contract::lemma_row(r as int, c.rows as int, d as int);
            contract::lemma_row(r as int, c.rows as int, c.n_expert as int);
        }
        let picks = route(
            router,
            at.low,
            at.dot,
            logits,
            r * c.n_expert,
            c.n_expert,
            c.n_used,
        );
        let from: usize = r * d;
        let xr = vstd::slice::slice_subrange(x, from, from + d);
        let row_shared: Option<(&[T], T)> = match shared {
            Some((out, gate)) => {
                let held: usize = out.len();
                Some((vstd::slice::slice_subrange(out, from, from + d), gate[r]))
            },
            None => None,
        };
        proof {
            assert forall|i: int| 0 <= i < picks@.len() implies (#[trigger] picks@[i]).expert
                < s.count by {
                assert(experts_of(picks@)[i] == picks@[i].expert);
            }
        }
        let yr = run_row(
            o,
            decode,
            at.dot,
            at.zero,
            s.count,
            c.d_ff,
            xr,
            picks.as_slice(),
            row_shared,
        );
        let ghost before = routes;
        let ghost (y_before, list_before) = (y@, list@);
        proof {
            routes = routes.push(picks@);
        }
        let mut i: usize = 0;
        while i < d
            invariant
                i <= d,
                yr@.len() == d,
                y@ == y_before + yr@.take(i as int),
            decreases d - i,
        {
            y.push(yr[i]);
            i = i + 1;
            assert(y@ =~= y_before + yr@.take(i as int));
        }
        let mut i: usize = 0;
        assert(list@ =~= list_before + experts_of(picks@).take(0));
        while i < picks.len()
            invariant
                i <= picks@.len(),
                list@ == list_before + experts_of(picks@).take(i as int),
            decreases picks@.len() - i,
        {
            list.push(picks[i].expert);
            i = i + 1;
            assert(list@ =~= list_before + experts_of(picks@).take(i as int));
        }
        proof {
            assert((r + 1) * d == r * d + d) by (nonlinear_arith);
            assert((r + 1) * c.n_used == r * c.n_used + c.n_used) by (nonlinear_arith);
            assert forall|p: int| 0 <= p < (r + 1) * d implies #[trigger] y@[p] == moe_output(
                *o,
                *decode,
                *at,
                c,
                x@,
                pair,
                routes,
                p,
            ) by {
                if p < r * d {
                    contract::lemma_position(p, r as int, d as int);
                    assert(routes[p / d as int] == before[p / d as int]);
                    assert(y@[p] == y_before[p]);
                    assert(y_before[p] == moe_output(*o, *decode, *at, c, x@, pair, before, p));
                } else {
                    vstd::arithmetic::div_mod::lemma_fundamental_div_mod_converse(
                        p,
                        d as int,
                        r as int,
                        p - r * d,
                    );
                    assert(y@[p] == yr@[p - r * d]);
                }
            }
            assert forall|p: int| 0 <= p < (r + 1) * c.n_used implies #[trigger] list@[p]
                == routes[p / c.n_used as int][p % c.n_used as int].expert by {
                if p < r * c.n_used {
                    contract::lemma_position(p, r as int, c.n_used as int);
                    assert(routes[p / c.n_used as int] == before[p / c.n_used as int]);
                    assert(list@[p] == list_before[p]);
                } else {
                    vstd::arithmetic::div_mod::lemma_fundamental_div_mod_converse(
                        p,
                        c.n_used as int,
                        r as int,
                        p - r * c.n_used,
                    );
                    assert(list@[p] == experts_of(picks@)[p - r * c.n_used]);
                }
            }
        }
        r = r + 1;
    }
    if dest.len() < all {
        return Err(MoeRefusal::Dest);
    }
    let room: usize = dest.len();
    let ghost first = dest@;
    let mut i: usize = 0;
    while i < all
        invariant
            i <= all,
            all <= room,
            y@.len() == all,
            room == dest@.len(),
            room == first.len(),
            is_feed(*o),
            forall|p: int|
                0 <= p < room ==> #[trigger] dest@[p] == (if p < i {
                    ops::of2(o.plus, first[p], y@[p])
                } else {
                    first[p]
                }),
        decreases all - i,
    {
        let v = (o.plus)(dest[i], y[i]);
        dest.set(i, v);
        i = i + 1;
    }
    proof {
        assert(are_routes(*router, *at, c, logits@, routes));
        assert(list@ =~= listed(routes, c.n_used as int));
        assert(dest@ =~= contract::written(
            first,
            c.rows * c.d_model,
            |p: int|
                ops::of2(o.plus, first[p], moe_output(*o, *decode, *at, c, x@, pair, routes, p)),
        ));
    }
    Ok(list)
}

/// Leaves each row's experts in a buffer, as numbers.
pub fn write_routes<T: Copy, N: Fn(usize) -> T>(number: &N, list: &[usize], dst: &mut Vec<T>) -> (result:
    Result<(), MoeRefusal>)
    requires
        ops::is_op1(*number),
    ensures
        match result {
            Err(e) => e == MoeRefusal::Routes && old(dst)@.len() < list@.len() && final(dst)@
                == old(dst)@,
            Ok(()) => old(dst)@.len() >= list@.len() && final(dst)@ == contract::written(
                old(dst)@,
                list@.len() as int,
                |p: int| ops::of1(*number, list@[p]),
            ),
        },
{
    if dst.len() < list.len() {
        return Err(MoeRefusal::Routes);
    }
    let (n, room): (usize, usize) = (list.len(), dst.len());
    let ghost first = dst@;
    let mut i: usize = 0;
    while i < n
        invariant
            i <= n,
            n == list@.len(),
            n <= room,
            room == dst@.len(),
            room == first.len(),
            ops::is_op1(*number),
            forall|p: int|
                0 <= p < room ==> #[trigger] dst@[p] == (if p < i {
                    ops::of1(*number, list@[p])
                } else {
                    first[p]
                }),
        decreases n - i,
    {
        let v = number(list[i]);
        dst.set(i, v);
        i = i + 1;
    }
    assert(dst@ =~= contract::written(first, n as int, |p: int| ops::of1(*number, list@[p])));
    Ok(())
}

/// A row's experts are decided by its logits alone: two routes of one row choose
/// the same, in the same order.
pub proof fn a_row_has_one_choice<
    T,
    P: Fn(T, T) -> T,
    X: Fn(T, T) -> T,
    S: Fn(T, T) -> T,
    E: Fn(T) -> T,
    D: Fn(T, T) -> T,
    B: Fn(T) -> u32,
>(
    o: Router<P, X, S, E, D, B>,
    low: T,
    start: T,
    logits: Seq<T>,
    n: nat,
    a: Seq<Pick<T>>,
    b: Seq<Pick<T>>,
    i: int,
)
    requires
        is_route(o, low, start, logits, n, a),
        is_route(o, low, start, logits, n, b),
        logits.len() <= usize::MAX,
        0 <= i < n,
    ensures
        a[i].expert == b[i].expert,
{
    let probs = probabilities(o, low, start, logits);
    let bits = Seq::new(logits.len(), |i: int| ops::of1(o.bits, probs[i]));
    moe::the_route_is_unique(bits, n, experts_of(a), experts_of(b), i);
    assert(experts_of(a)[i] == experts_of(b)[i]);
}

} // verus!
