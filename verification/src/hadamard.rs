//! Hadamard folding. A folded weight stores `W H S` for a blockwise normalized
//! Walsh-Hadamard `H` over its input axis and a fixed sign vector `S`, so its
//! activation is carried through `H S` first. A lookup table is the other way
//! round: its rows are restored after the lookup.
//!
//! Nothing about a folded weight looks wrong, and a projection that skips the
//! transform still produces fluent-looking garbage, so a file whose folding is
//! not understood is refused.

use vstd::arithmetic::{div_mod, power2};
use vstd::prelude::*;

use crate::backend::HeadPerm;
use crate::meta::{self, MetaError, Metadata, Value};
use crate::text::{self, joined, same, Args};

verus! {

broadcast use crate::text::lemma_filled_args;

pub const PREFIX: &'static str = "prism.hadamard.";

/// The sign vector of one input width.
pub struct Signs {
    pub width: usize,
    /// One or minus one for each element.
    pub values: Vec<i64>,
}

/// The folding a file declares, validated.
pub struct Folding {
    pub block: usize,
    /// One sign vector per input width.
    pub signs: Vec<Signs>,
    /// The weights stored folded, each once.
    pub weights: Vec<String>,
    /// The tables restored after a lookup, each once.
    pub inverse: Vec<String>,
    /// The delta net's output projection reads its heads regrouped.
    pub gdn_v_grouped: bool,
}

/// Why a file's folding is refused.
pub enum FoldingError {
    Meta(MetaError),
    Version(i64),
    Block(usize),
    /// A setting that is not the one implemented.
    Transform(String),
    Axis(String),
    Mode(String),
    NoWidths,
    /// A sign width that is not a whole number of blocks.
    Width(i64),
    /// The sign values end inside a width.
    Short(usize),
    /// A sign value that is neither one nor minus one.
    Sign,
    Repeat(usize),
    LeftOver(usize),
    NoWeights,
    /// A table that is not restored after its lookup.
    Table(String),
    /// A width that is not a whole number of blocks, and the block.
    Ragged(usize, usize),
    /// A width without a sign vector.
    NoSigns(usize),
}

pub const E_VERSION: &'static str = "unsupported prism.hadamard.version $0$1";

pub const E_BLOCK: &'static str =
    "prism.hadamard.block_size $0 is not a power of two of at least 32";

pub const E_TRANSFORM: &'static str = "unsupported prism.hadamard.transform '$0'";

pub const E_AXIS: &'static str = "unsupported prism.hadamard.axis '$0'";

pub const E_MODE: &'static str = "unsupported prism.hadamard.sign_mode '$0'";

pub const E_NO_WIDTHS: &'static str = "prism.hadamard.sign_widths is empty";

pub const E_WIDTH: &'static str =
    "prism.hadamard sign width $0$1 is not a whole number of blocks";

pub const E_SHORT: &'static str = "prism.hadamard.sign_values ends inside width $0";

pub const E_SIGN: &'static str = "prism.hadamard sign values must be +-1";

pub const E_REPEAT: &'static str = "prism.hadamard repeats sign width $0";

pub const E_LEFT_OVER: &'static str = "prism.hadamard.sign_values has $0 left over";

pub const E_NO_WEIGHTS: &'static str = "prism.hadamard.weight_names is empty";

pub const E_TABLE: &'static str =
    "prism.hadamard: '$0' is not a table this loader restores after lookup";

pub const E_RAGGED: &'static str =
    "a $0-wide input is not a whole number of $1-element Hadamard blocks";

pub const E_NO_SIGNS: &'static str = "prism.hadamard has no sign vector for width $0";

/// The sign a number is written with.
pub open spec fn minus(v: int) -> Seq<char> {
    if v < 0 {
        "-"@
    } else {
        Seq::empty()
    }
}

pub open spec fn magnitude(v: int) -> nat {
    if v < 0 {
        (-v) as nat
    } else {
        v as nat
    }
}

/// The words of each refusal.
pub open spec fn words(error: FoldingError) -> Seq<char> {
    match error {
        FoldingError::Meta(e) => text::filled(
            if e.missing {
                meta::MISSING_KEY@
            } else {
                meta::WRONG_KIND@
            },
            seq![e.key@],
        ),
        FoldingError::Version(v) => text::filled(
            E_VERSION@,
            seq![minus(v as int), text::decimal(magnitude(v as int))],
        ),
        FoldingError::Block(b) => text::filled(E_BLOCK@, seq![text::decimal(b as nat)]),
        FoldingError::Transform(got) => text::filled(E_TRANSFORM@, seq![got@]),
        FoldingError::Axis(got) => text::filled(E_AXIS@, seq![got@]),
        FoldingError::Mode(got) => text::filled(E_MODE@, seq![got@]),
        FoldingError::NoWidths => text::filled(E_NO_WIDTHS@, Seq::empty()),
        FoldingError::Width(v) => text::filled(
            E_WIDTH@,
            seq![minus(v as int), text::decimal(magnitude(v as int))],
        ),
        FoldingError::Short(w) => text::filled(E_SHORT@, seq![text::decimal(w as nat)]),
        FoldingError::Sign => text::filled(E_SIGN@, Seq::empty()),
        FoldingError::Repeat(w) => text::filled(E_REPEAT@, seq![text::decimal(w as nat)]),
        FoldingError::LeftOver(n) => text::filled(E_LEFT_OVER@, seq![text::decimal(n as nat)]),
        FoldingError::NoWeights => text::filled(E_NO_WEIGHTS@, Seq::empty()),
        FoldingError::Table(name) => text::filled(E_TABLE@, seq![name@]),
        FoldingError::Ragged(w, b) => text::filled(
            E_RAGGED@,
            seq![text::decimal(w as nat), text::decimal(b as nat)],
        ),
        FoldingError::NoSigns(w) => text::filled(E_NO_SIGNS@, seq![text::decimal(w as nat)]),
    }
}

fn signed(template: &str, v: i64) -> (s: String)
    ensures
        s@ == text::filled(
            template@,
            seq![minus(v as int), text::decimal(magnitude(v as int))],
        ),
{
    let size: u128 = if v < 0 {
        (-(v as i128)) as u128
    } else {
        v as u128
    };
    let digits = text::decimal_text(size);
    let sign = if v < 0 {
        "-"
    } else {
        proof {
            reveal_strlit("");
        }
        assert(""@ =~= Seq::empty());
        ""
    };
    Args::new().text(sign).text(digits.as_str()).fill(template)
}

impl FoldingError {
    /// What is wrong, in words.
    pub fn message(&self) -> (s: String)
        ensures
            s@ == words(*self),
    {
        match self {
            FoldingError::Meta(e) => e.message(),
            FoldingError::Version(v) => signed(E_VERSION, *v),
            FoldingError::Block(b) => Args::new().num(*b).fill(E_BLOCK),
            FoldingError::Transform(got) => Args::new().text(got.as_str()).fill(E_TRANSFORM),
            FoldingError::Axis(got) => Args::new().text(got.as_str()).fill(E_AXIS),
            FoldingError::Mode(got) => Args::new().text(got.as_str()).fill(E_MODE),
            FoldingError::NoWidths => Args::new().fill(E_NO_WIDTHS),
            FoldingError::Width(v) => signed(E_WIDTH, *v),
            FoldingError::Short(w) => Args::new().num(*w).fill(E_SHORT),
            FoldingError::Sign => Args::new().fill(E_SIGN),
            FoldingError::Repeat(w) => Args::new().num(*w).fill(E_REPEAT),
            FoldingError::LeftOver(n) => Args::new().num(*n).fill(E_LEFT_OVER),
            FoldingError::NoWeights => Args::new().fill(E_NO_WEIGHTS),
            FoldingError::Table(name) => Args::new().text(name.as_str()).fill(E_TABLE),
            FoldingError::Ragged(w, b) => Args::new().num(*w).num(*b).fill(E_RAGGED),
            FoldingError::NoSigns(w) => Args::new().num(*w).fill(E_NO_SIGNS),
        }
    }
}

pub open spec fn is_power(n: nat) -> bool {
    exists|e: nat| n == #[trigger] power2::pow2(e)
}

/// Whether a number is a power of two.
fn power_of_two(n: usize) -> (yes: bool)
    ensures
        yes == is_power(n as nat),
{
    if n == 0 {
        assert forall|e: nat| 0 != #[trigger] power2::pow2(e) by {
            power2::lemma_pow2_pos(e);
        }
        return false;
    }
    let mut rest: usize = n;
    let ghost mut halved: nat = 0;
    proof {
        power2::lemma2_to64();
    }
    while rest % 2 == 0
        invariant
            0 < rest,
            n == rest * power2::pow2(halved),
        decreases rest,
    {
        proof {
            power2::lemma_pow2_unfold(halved + 1);
            let half = rest / 2;
            assert(rest * power2::pow2(halved) == half * (2 * power2::pow2(halved)))
                by (nonlinear_arith)
                requires
                    rest == 2 * half,
            ;
            halved = halved + 1;
        }
        rest = rest / 2;
    }
    if rest == 1 {
        assert(n as nat == power2::pow2(halved));
        true
    } else {
        proof {
            if is_power(n as nat) {
                let e = choose|e: nat| n as nat == #[trigger] power2::pow2(e);
                if e <= halved {
                    if e < halved {
                        power2::lemma_pow2_strictly_increases(e, halved);
                    }
                    power2::lemma_pow2_pos(halved);
                    assert(rest * power2::pow2(halved) >= 2 * power2::pow2(halved))
                        by (nonlinear_arith)
                        requires
                            rest >= 2,
                            power2::pow2(halved) > 0,
                    ;
                } else {
                    let d = (e - halved) as nat;
                    power2::lemma_pow2_adds(halved, d);
                    power2::lemma_pow2_pos(halved);
                    power2::lemma_pow2_unfold(d);
                    let half = power2::pow2((d - 1) as nat);
                    let p = power2::pow2(halved);
                    assert(rest == 2 * half) by (nonlinear_arith)
                        requires
                            rest * p == p * (2 * half),
                            p > 0,
                    ;
                }
            }
        }
        false
    }
}

pub open spec fn key(suffix: Seq<char>) -> Seq<char> {
    PREFIX@ + suffix
}

/// Where the signs of a width start: after those of the widths before.
pub open spec fn start_of(widths: Seq<i64>, i: int) -> int
    decreases i,
{
    if i <= 0 {
        0
    } else {
        start_of(widths, i - 1) + widths[i - 1]
    }
}

/// A width that is a whole number of blocks.
pub open spec fn is_whole(width: i64, block: usize) -> bool {
    0 < width <= usize::MAX && width % (block as i64) == 0
}

pub open spec fn is_sign(v: i64) -> bool {
    v == 1 || v == -1
}

/// What is wrong with the signs of width `i`, those before it being right.
pub open spec fn sign_fault(
    widths: Seq<i64>,
    values: Seq<i64>,
    block: usize,
    i: int,
) -> Option<FoldingError> {
    let at = start_of(widths, i);
    let width = widths[i];
    if !is_whole(width, block) {
        Some(FoldingError::Width(width))
    } else if at + width > values.len() {
        Some(FoldingError::Short(width as usize))
    } else if exists|p: int| at <= p < at + width && !is_sign(#[trigger] values[p]) {
        Some(FoldingError::Sign)
    } else if exists|j: int| 0 <= j < i && #[trigger] widths[j] == width {
        Some(FoldingError::Repeat(width as usize))
    } else {
        None
    }
}

/// What the sign values come to, the first fault deciding.
pub open spec fn signs_fault(widths: Seq<i64>, values: Seq<i64>, block: usize) -> Option<
    FoldingError,
> {
    if widths.len() == 0 {
        Some(FoldingError::NoWidths)
    } else if exists|i: int| first_fault(widths, values, block, i) {
        sign_fault(
            widths,
            values,
            block,
            choose|i: int| first_fault(widths, values, block, i),
        )
    } else if start_of(widths, widths.len() as int) != values.len() {
        Some(
            FoldingError::LeftOver(
                (values.len() - start_of(widths, widths.len() as int)) as usize,
            ),
        )
    } else {
        None
    }
}

pub open spec fn first_fault(widths: Seq<i64>, values: Seq<i64>, block: usize, i: int) -> bool {
    &&& 0 <= i < widths.len()
    &&& sign_fault(widths, values, block, i) is Some
    &&& forall|j: int|
        0 <= j < i ==> (#[trigger] sign_fault(widths, values, block, j)) is None
}

/// Whether a list holds the signs of each width.
pub open spec fn holds_signs(signs: Seq<Signs>, widths: Seq<i64>, values: Seq<i64>) -> bool {
    &&& signs.len() == widths.len()
    &&& forall|i: int|
        0 <= i < signs.len() ==> (#[trigger] signs[i]).width == widths[i] && signs[i].values@
            == values.subrange(start_of(widths, i), start_of(widths, i) + widths[i])
}

/// Whether a list of names has a name.
pub open spec fn lists(names: Seq<String>, name: Seq<char>) -> bool {
    exists|i: int| 0 <= i < names.len() && (#[trigger] names[i])@ == name
}

/// Whether a list has each name of another once, and no other.
pub open spec fn is_set_of(set: Seq<String>, names: Seq<String>) -> bool {
    &&& forall|name: Seq<char>| #[trigger] lists(set, name) == lists(names, name)
    &&& forall|i: int, j: int| 0 <= i < j < set.len() ==> (#[trigger] set[i])@ != (#[trigger] set[j])@
}

/// A table the loader restores: the token embedding, where no weight has its
/// name.
pub open spec fn is_restored(name: Seq<char>, weights: Seq<String>) -> bool {
    name == "token_embd.weight"@ && !lists(weights, name)
}

/// The names under the optional key of restored tables.
pub open spec fn inverse_at(meta: Metadata) -> Result<Seq<String>, bool> {
    match meta::value_at(meta.entries@, key("inverse_weight_names"@)) {
        None => Ok(Seq::empty()),
        Some(_) => meta::texts_at(meta, key("inverse_weight_names"@)),
    }
}

pub open spec fn grouped_at(meta: Metadata) -> bool {
    match meta::value_at(meta.entries@, key("gdn_v_grouped"@)) {
        Some(Value::Bool(v)) => v,
        _ => false,
    }
}

pub open spec fn blamed(
    result: Result<Option<Folding>, FoldingError>,
    suffix: Seq<char>,
    missing: bool,
) -> bool {
    result matches Err(FoldingError::Meta(e)) && meta::blames(e, key(suffix), missing)
}

/// What a file's declaration comes to, the first thing that is wrong deciding.
pub open spec fn declares(meta: Metadata, result: Result<Option<Folding>, FoldingError>) -> bool {
    if meta::value_at(meta.entries@, key("version"@)) is None {
        result matches Ok(None)
    } else {
        match meta::int_at(meta, key("version"@)) {
            Err(missing) => blamed(result, "version"@, missing),
            Ok(version) => if version != 1 {
                result matches Err(FoldingError::Version(v)) && v == version
            } else {
                declares_block(meta, result)
            },
        }
    }
}

pub open spec fn declares_block(
    meta: Metadata,
    result: Result<Option<Folding>, FoldingError>,
) -> bool {
    match meta::count_at(meta, key("block_size"@)) {
        Err(missing) => blamed(result, "block_size"@, missing),
        Ok(block) => if !is_power(block as nat) || block < 32 {
            result matches Err(FoldingError::Block(b)) && b == block
        } else {
            declares_settings(meta, block, result)
        },
    }
}

pub open spec fn declares_settings(
    meta: Metadata,
    block: usize,
    result: Result<Option<Folding>, FoldingError>,
) -> bool {
    match meta::text_at(meta, key("transform"@)) {
        Err(missing) => blamed(result, "transform"@, missing),
        Ok(got) => if got != "normalized-sylvester-walsh-hadamard"@ {
            result matches Err(FoldingError::Transform(g)) && g@ == got
        } else {
            match meta::text_at(meta, key("axis"@)) {
                Err(missing) => blamed(result, "axis"@, missing),
                Ok(got) => if got != "input-last-dimension"@ {
                    result matches Err(FoldingError::Axis(g)) && g@ == got
                } else {
                    declares_signs(meta, block, result)
                },
            }
        },
    }
}

pub open spec fn declares_signs(
    meta: Metadata,
    block: usize,
    result: Result<Option<Folding>, FoldingError>,
) -> bool {
    match meta::text_at(meta, key("sign_mode"@)) {
        Err(missing) => blamed(result, "sign_mode"@, missing),
        Ok(mode) => if mode == "identity"@ {
            declares_names(meta, block, Seq::empty(), Seq::empty(), result)
        } else if mode == "explicit"@ {
            match meta::ints_at(meta, key("sign_widths"@)) {
                Err(missing) => blamed(result, "sign_widths"@, missing),
                Ok(widths) => match meta::ints_at(meta, key("sign_values"@)) {
                    Err(missing) => blamed(result, "sign_values"@, missing),
                    Ok(values) => match signs_fault(widths, values, block) {
                        Some(fault) => result matches Err(e) && e == fault,
                        None => declares_names(meta, block, widths, values, result),
                    },
                },
            }
        } else {
            result matches Err(FoldingError::Mode(g)) && g@ == mode
        },
    }
}

pub open spec fn declares_names(
    meta: Metadata,
    block: usize,
    widths: Seq<i64>,
    values: Seq<i64>,
    result: Result<Option<Folding>, FoldingError>,
) -> bool {
    match meta::texts_at(meta, key("weight_names"@)) {
        Err(missing) => blamed(result, "weight_names"@, missing),
        Ok(weights) => match inverse_at(meta) {
            Err(missing) => blamed(result, "inverse_weight_names"@, missing),
            Ok(inverse) => if weights.len() == 0 {
                result matches Err(FoldingError::NoWeights)
            } else if exists|i: int|
                0 <= i < inverse.len() && !is_restored((#[trigger] inverse[i])@, weights) {
                result matches Err(FoldingError::Table(name)) && lists(inverse, name@)
                    && !is_restored(name@, weights)
            } else {
                result matches Ok(Some(folding)) && folding.block == block && holds_signs(
                    folding.signs@,
                    widths,
                    values,
                ) && is_set_of(folding.weights@, weights) && is_set_of(
                    folding.inverse@,
                    inverse,
                ) && folding.gdn_v_grouped == grouped_at(meta)
            },
        },
    }
}

/// Whether a list of names has a name.
fn has_text(names: &[String], name: &str) -> (yes: bool)
    ensures
        yes == lists(names@, name@),
{
    let mut i: usize = 0;
    while i < names.len()
        invariant
            i <= names@.len(),
            forall|j: int| 0 <= j < i ==> (#[trigger] names@[j])@ != name@,
        decreases names@.len() - i,
    {
        if same(names[i].as_str(), name) {
            assert(names@[i as int]@ == name@);
            return true;
        }
        i = i + 1;
    }
    false
}

/// Each name of a list once, in the order they first occur.
fn distinct(names: &[String]) -> (set: Vec<String>)
    ensures
        is_set_of(set@, names@),
{
    let mut set: Vec<String> = Vec::new();
    let mut i: usize = 0;
    proof {
        assert(names@.take(0) =~= Seq::empty());
    }
    while i < names.len()
        invariant
            i <= names@.len(),
            is_set_of(set@, names@.take(i as int)),
        decreases names@.len() - i,
    {
        let ghost before = set@;
        let ghost head = names@.take(i as int);
        let ghost next = names@.take(i as int + 1);
        let known = has_text(set.as_slice(), names[i].as_str());
        proof {
            assert forall|name: Seq<char>| #[trigger]
                lists(next, name) == (lists(head, name) || names@[i as int]@ == name) by {
                if lists(head, name) {
                    let j = choose|j: int| 0 <= j < head.len() && (#[trigger] head[j])@ == name;
                    assert(next[j]@ == name);
                }
                if names@[i as int]@ == name {
                    assert(next[i as int]@ == name);
                }
                if lists(next, name) {
                    let j = choose|j: int| 0 <= j < next.len() && (#[trigger] next[j])@ == name;
                    if j < i {
                        assert(head[j]@ == name);
                    }
                }
            }
        }
        if !known {
            set.push(names[i].clone());
            proof {
                let added = names@[i as int]@;
                assert forall|name: Seq<char>| #[trigger]
                    lists(set@, name) == (lists(before, name) || added == name) by {
                    if lists(before, name) {
                        let j = choose|j: int|
                            0 <= j < before.len() && (#[trigger] before[j])@ == name;
                        assert(set@[j]@ == name);
                    }
                    if added == name {
                        assert(set@[before.len() as int]@ == name);
                    }
                    if lists(set@, name) {
                        let j = choose|j: int| 0 <= j < set@.len() && (#[trigger] set@[j])@ == name;
                        if j < before.len() {
                            assert(before[j]@ == name);
                        }
                    }
                }
                assert forall|a: int, b: int| 0 <= a < b < set@.len() implies (
                #[trigger] set@[a])@ != (#[trigger] set@[b])@ by {
                    assert(set@[a] == before[a]);
                    if b < before.len() {
                        assert(set@[b] == before[b]);
                    } else if set@[a]@ == added {
                        assert(lists(before, added));
                    }
                }
            }
        }
        i = i + 1;
    }
    assert(names@.take(i as int) =~= names@);
    set
}

/// A width as a count of elements, where it is whole blocks.
fn whole_width(width: i64, block: usize) -> (w: Option<usize>)
    requires
        0 < block <= i64::MAX,
    ensures
        w == (if is_whole(width, block) {
            Some(width as usize)
        } else {
            None
        }),
{
    if width > 0 && width as u64 <= usize::MAX as u64 && width % (block as i64) == 0 {
        Some(width as usize)
    } else {
        None
    }
}

proof fn lemma_fault(widths: Seq<i64>, values: Seq<i64>, block: usize, i: int)
    requires
        first_fault(widths, values, block, i),
    ensures
        signs_fault(widths, values, block) == sign_fault(widths, values, block, i),
{
    let j = choose|j: int| first_fault(widths, values, block, j);
    assert(first_fault(widths, values, block, j));
    if j < i {
        assert(sign_fault(widths, values, block, j) is None);
    } else if i < j {
        assert(sign_fault(widths, values, block, i) is None);
    }
}

/// The sign vectors a file carries.
fn read_signs(widths: &[i64], values: &[i64], block: usize) -> (signs: Result<
    Vec<Signs>,
    FoldingError,
>)
    requires
        0 < block <= i64::MAX,
    ensures
        match signs {
            Ok(s) => signs_fault(widths@, values@, block) is None && holds_signs(
                s@,
                widths@,
                values@,
            ),
            Err(e) => signs_fault(widths@, values@, block) == Some(e),
        },
{
    let room: usize = values.len();
    let mut signs: Vec<Signs> = Vec::new();
    if widths.len() == 0 {
        return Err(FoldingError::NoWidths);
    }
    let mut at: usize = 0;
    let mut i: usize = 0;
    while i < widths.len()
        invariant
            i <= widths@.len(),
            0 < widths@.len(),
            0 < block <= i64::MAX,
            room == values@.len(),
            at == start_of(widths@, i as int),
            at <= values@.len(),
            forall|j: int|
                0 <= j < i ==> (#[trigger] sign_fault(widths@, values@, block, j)) is None,
            forall|j: int|
                0 <= j < i ==> 0 <= start_of(widths@, j) <= start_of(widths@, j) + (
                #[trigger] widths@[j]) <= values@.len(),
            holds_signs(signs@, widths@.take(i as int), values@),
        decreases widths@.len() - i,
    {
        let ghost seen = widths@.take(i as int);
        let width: usize = match whole_width(widths[i], block) {
            Some(width) => width,
            None => {
                proof {
                    assert(first_fault(widths@, values@, block, i as int));
                    lemma_fault(widths@, values@, block, i as int);
                }
                return Err(FoldingError::Width(widths[i]));
            },
        };
        if width > room - at {
            proof {
                assert(first_fault(widths@, values@, block, i as int));
                lemma_fault(widths@, values@, block, i as int);
            }
            return Err(FoldingError::Short(width));
        }
        let mut run: Vec<i64> = Vec::new();
        let mut p: usize = 0;
        while p < width
            invariant
                p <= width,
                at + width <= values@.len() == room,
                run@ == values@.subrange(at as int, at + p),
                forall|q: int| at <= q < at + p ==> is_sign(#[trigger] values@[q]),
                i < widths@.len(),
                0 < widths@.len(),
                at == start_of(widths@, i as int),
                width == widths@[i as int],
                is_whole(widths@[i as int], block),
                forall|j: int|
                    0 <= j < i ==> (#[trigger] sign_fault(widths@, values@, block, j)) is None,
            decreases width - p,
        {
            let v = values[at + p];
            if v != 1 && v != -1 {
                proof {
                    assert(!is_sign(values@[at + p]));
                    assert(first_fault(widths@, values@, block, i as int));
                    lemma_fault(widths@, values@, block, i as int);
                }
                return Err(FoldingError::Sign);
            }
            run.push(v);
            p = p + 1;
            assert(run@ =~= values@.subrange(at as int, at + p));
        }
        let mut j: usize = 0;
        while j < signs.len()
            invariant
                j <= signs@.len(),
                signs@.len() == i < widths@.len(),
                0 < widths@.len(),
                at == start_of(widths@, i as int),
                at + width <= values@.len(),
                width == widths@[i as int],
                is_whole(widths@[i as int], block),
                holds_signs(signs@, widths@.take(i as int), values@),
                forall|q: int| at <= q < at + width ==> is_sign(#[trigger] values@[q]),
                forall|q: int| 0 <= q < j ==> #[trigger] widths@[q] != width,
                forall|q: int|
                    0 <= q < i ==> (#[trigger] sign_fault(widths@, values@, block, q)) is None,
            decreases signs@.len() - j,
        {
            assert(signs@[j as int].width == widths@.take(i as int)[j as int]);
            if signs[j].width == width {
                proof {
                    assert(widths@[j as int] == widths@[i as int]);
                    assert(first_fault(widths@, values@, block, i as int));
                    lemma_fault(widths@, values@, block, i as int);
                }
                return Err(FoldingError::Repeat(width));
            }
            j = j + 1;
        }
        let ghost before = signs@;
        signs.push(Signs { width, values: run });
        proof {
            let next = widths@.take(i as int + 1);
            assert forall|q: int| 0 <= q <= i + 1 implies #[trigger] start_of(next, q) == start_of(
                widths@,
                q,
            ) by {
                lemma_start(next, widths@, q);
            }
            assert forall|q: int| 0 <= q < signs@.len() implies (#[trigger] signs@[q]).width
                == next[q] && signs@[q].values@ == values@.subrange(
                start_of(next, q),
                start_of(next, q) + next[q],
            ) by {
                lemma_start(next, widths@, q);
                lemma_start(seen, widths@, q);
                if q < i {
                    assert(signs@[q] == before[q]);
                    assert(seen[q] == next[q]);
                }
            }
            assert(sign_fault(widths@, values@, block, i as int) is None);
            assert(start_of(widths@, i as int + 1) == at + width);
        }
        at = at + width;
        i = i + 1;
    }
    proof {
        assert(widths@.take(i as int) =~= widths@);
        assert(!exists|i: int| first_fault(widths@, values@, block, i));
    }
    if at != room {
        return Err(FoldingError::LeftOver(room - at));
    }
    Ok(signs)
}

proof fn lemma_start(head: Seq<i64>, all: Seq<i64>, i: int)
    requires
        i <= head.len() <= all.len(),
        head == all.take(head.len() as int),
    ensures
        start_of(head, i) == start_of(all, i),
    decreases i,
{
    if i > 0 {
        lemma_start(head, all, i - 1);
    }
}

fn named(suffix: &str) -> (s: String)
    ensures
        s@ == key(suffix@),
{
    joined(PREFIX, suffix)
}

impl Folding {
    /// The file's folding, or none for a file without one.
    pub fn from_metadata(meta: &Metadata) -> (result: Result<Option<Folding>, FoldingError>)
        ensures
            declares(*meta, result),
    {
        let version_key = named("version");
        if !meta.contains(version_key.as_str()) {
            return Ok(None);
        }
        let version: i64 = match meta.integer(version_key.as_str()) {
            Ok(v) => v,
            Err(e) => {
                return Err(FoldingError::Meta(e));
            },
        };
        if version != 1 {
            return Err(FoldingError::Version(version));
        }
        let block: usize = match meta.count(named("block_size").as_str()) {
            Ok(v) => v,
            Err(e) => {
                return Err(FoldingError::Meta(e));
            },
        };
        if !power_of_two(block) || block < 32 {
            return Err(FoldingError::Block(block));
        }
        match meta.string(named("transform").as_str()) {
            Ok(got) => {
                if !same(got, "normalized-sylvester-walsh-hadamard") {
                    return Err(FoldingError::Transform(got.to_owned()));
                }
            },
            Err(e) => {
                return Err(FoldingError::Meta(e));
            },
        }
        match meta.string(named("axis").as_str()) {
            Ok(got) => {
                if !same(got, "input-last-dimension") {
                    return Err(FoldingError::Axis(got.to_owned()));
                }
            },
            Err(e) => {
                return Err(FoldingError::Meta(e));
            },
        }
        let mode = match meta.string(named("sign_mode").as_str()) {
            Ok(mode) => mode,
            Err(e) => {
                return Err(FoldingError::Meta(e));
            },
        };
        if same(mode, "identity") {
            let result = Folding::read_names(meta, block, Vec::new(), Ghost(Seq::empty()), Ghost(Seq::empty()));
            return result;
        }
        if !same(mode, "explicit") {
            return Err(FoldingError::Mode(mode.to_owned()));
        }
        let widths = match meta.ints(named("sign_widths").as_str()) {
            Ok(v) => v,
            Err(e) => {
                return Err(FoldingError::Meta(e));
            },
        };
        let values = match meta.ints(named("sign_values").as_str()) {
            Ok(v) => v,
            Err(e) => {
                return Err(FoldingError::Meta(e));
            },
        };
        match read_signs(widths, values, block) {
            Ok(signs) => Folding::read_names(meta, block, signs, Ghost(widths@), Ghost(values@)),
            Err(e) => Err(e),
        }
    }

    /// The rest of a declaration whose signs are read.
    fn read_names(
        meta: &Metadata,
        block: usize,
        signs: Vec<Signs>,
        widths: Ghost<Seq<i64>>,
        values: Ghost<Seq<i64>>,
    ) -> (result: Result<Option<Folding>, FoldingError>)
        requires
            holds_signs(signs@, widths@, values@),
        ensures
            declares_names(*meta, block, widths@, values@, result),
    {
        let weights = match meta.strings(named("weight_names").as_str()) {
            Ok(v) => v,
            Err(e) => {
                return Err(FoldingError::Meta(e));
            },
        };
        let inverse_key = named("inverse_weight_names");
        let inverse: Vec<String> = if meta.contains(inverse_key.as_str()) {
            match meta.strings(inverse_key.as_str()) {
                Ok(v) => distinct(v),
                Err(e) => {
                    return Err(FoldingError::Meta(e));
                },
            }
        } else {
            let none: Vec<String> = Vec::new();
            none
        };
        let ghost listed = inverse_at(*meta)->Ok_0;
        assert(is_set_of(inverse@, listed));
        if weights.len() == 0 {
            return Err(FoldingError::NoWeights);
        }
        let mut i: usize = 0;
        while i < inverse.len()
            invariant
                i <= inverse@.len(),
                is_set_of(inverse@, listed),
                meta::texts_at(*meta, key("weight_names"@)) == Ok::<Seq<String>, bool>(weights@),
                inverse_at(*meta) == Ok::<Seq<String>, bool>(listed),
                weights@.len() > 0,
                forall|j: int|
                    0 <= j < i ==> is_restored((#[trigger] inverse@[j])@, weights@),
            decreases inverse@.len() - i,
        {
            let name = inverse[i].as_str();
            if !same(name, "token_embd.weight") || has_text(weights, name) {
                proof {
                    assert(inverse@[i as int]@ == name@);
                    assert(lists(inverse@, name@));
                    assert(lists(listed, name@));
                    let j = choose|j: int| 0 <= j < listed.len() && (#[trigger] listed[j])@ == name@;
                    assert(!is_restored(listed[j]@, weights@));
                }
                let refused = inverse[i].clone();
                assert(exists|k: int|
                    0 <= k < listed.len() && !is_restored((#[trigger] listed[k])@, weights@));
                let result = Err(FoldingError::Table(refused));
                assert(declares_names(*meta, block, widths@, values@, result));
                return result;
            }
            i = i + 1;
        }
        proof {
            assert forall|j: int| 0 <= j < listed.len() implies is_restored(
                (#[trigger] listed[j])@,
                weights@,
            ) by {
                assert(lists(listed, listed[j]@));
                assert(lists(inverse@, listed[j]@));
            }
        }
        let gdn_v_grouped = match meta.get(named("gdn_v_grouped").as_str()) {
            Some(Value::Bool(v)) => *v,
            _ => false,
        };
        Ok(
            Some(
                Folding { block, signs, weights: distinct(weights), inverse, gdn_v_grouped },
            ),
        )
    }

    /// Whether a weight is stored folded, so its activation needs the
    /// transform.
    pub fn folds(&self, name: &str) -> (yes: bool)
        ensures
            yes == lists(self.weights@, name@),
    {
        has_text(self.weights.as_slice(), name)
    }

    /// Whether a table's looked-up rows need the inverse.
    pub fn restores(&self, name: &str) -> (yes: bool)
        ensures
            yes == lists(self.inverse@, name@),
    {
        has_text(self.inverse.as_slice(), name)
    }

    /// Every name the file declares, the folded ones first.
    pub fn names(&self) -> (names: Vec<String>)
        ensures
            names@.len() == self.weights@.len() + self.inverse@.len(),
            forall|i: int|
                0 <= i < names@.len() ==> (#[trigger] names@[i])@ == (self.weights@
                    + self.inverse@)[i]@,
    {
        let mut names: Vec<String> = Vec::new();
        let mut i: usize = 0;
        while i < self.weights.len()
            invariant
                i <= self.weights@.len(),
                names@.len() == i,
                forall|j: int| 0 <= j < i ==> (#[trigger] names@[j])@ == self.weights@[j]@,
            decreases self.weights@.len() - i,
        {
            names.push(self.weights[i].clone());
            i = i + 1;
        }
        let mut i: usize = 0;
        while i < self.inverse.len()
            invariant
                i <= self.inverse@.len(),
                names@.len() == self.weights@.len() + i,
                forall|j: int|
                    0 <= j < names@.len() ==> (#[trigger] names@[j])@ == (self.weights@
                        + self.inverse@)[j]@,
            decreases self.inverse@.len() - i,
        {
            names.push(self.inverse[i].clone());
            i = i + 1;
        }
        names
    }

    /// The sign vector for an input width: all ones where the file carries
    /// none.
    pub fn signs(&self, width: usize) -> (result: Result<Vec<i64>, FoldingError>)
        requires
            self.block > 0,
        ensures
            match result {
                Ok(signs) => width % self.block == 0 && if self.signs@.len() == 0 {
                    signs@ == Seq::new(width as nat, |i: int| 1i64)
                } else {
                    exists|i: int|
                        0 <= i < self.signs@.len() && (#[trigger] self.signs@[i]).width == width
                            && signs@ == self.signs@[i].values@
                },
                Err(FoldingError::Ragged(w, b)) => width % self.block != 0 && w == width && b
                    == self.block,
                Err(FoldingError::NoSigns(w)) => width % self.block == 0 && self.signs@.len() > 0
                    && w == width && forall|i: int|
                    0 <= i < self.signs@.len() ==> (#[trigger] self.signs@[i]).width != width,
                Err(_) => false,
            },
    {
        if width % self.block != 0 {
            return Err(FoldingError::Ragged(width, self.block));
        }
        if self.signs.len() == 0 {
            let mut ones: Vec<i64> = Vec::new();
            let mut i: usize = 0;
            while i < width
                invariant
                    i <= width,
                    ones@ == Seq::new(i as nat, |j: int| 1i64),
                decreases width - i,
            {
                ones.push(1);
                i = i + 1;
                assert(ones@ =~= Seq::new(i as nat, |j: int| 1i64));
            }
            return Ok(ones);
        }
        let mut i: usize = 0;
        while i < self.signs.len()
            invariant
                i <= self.signs@.len(),
                forall|j: int| 0 <= j < i ==> (#[trigger] self.signs@[j]).width != width,
                width % self.block == 0,
                self.signs@.len() > 0,
            decreases self.signs@.len() - i,
        {
            if self.signs[i].width == width {
                let values = self.signs[i].values.clone();
                assert(values@ =~= self.signs@[i as int].values@);
                return Ok(values);
            }
            i = i + 1;
        }
        Err(FoldingError::NoSigns(width))
    }
}

/// A declared folding has a whole-block width for each of its sign vectors, no
/// width twice, and signs that are one or minus one.
pub proof fn declared_signs_are_signs(
    meta: Metadata,
    result: Result<Option<Folding>, FoldingError>,
    i: int,
)
    requires
        declares(meta, result),
        result matches Ok(Some(folding)) && 0 <= i < folding.signs@.len(),
    ensures
        ({
            let folding = result->Ok_0->Some_0;
            let signs = folding.signs@[i];
            &&& is_power(folding.block as nat) && folding.block >= 32
            &&& signs.width > 0 && signs.width as int % folding.block as int == 0
            &&& signs.values@.len() == signs.width
            &&& forall|p: int| 0 <= p < signs.values@.len() ==> is_sign(#[trigger] signs.values@[p])
            &&& forall|j: int| 0 <= j < i ==> (#[trigger] folding.signs@[j]).width != signs.width
        }),
{
    let folding = result->Ok_0->Some_0;
    let block = folding.block;
    let widths = meta::ints_at(meta, key("sign_widths"@))->Ok_0;
    let values = meta::ints_at(meta, key("sign_values"@))->Ok_0;
    if meta::text_at(meta, key("sign_mode"@))->Ok_0 == "identity"@ {
        assert(holds_signs(folding.signs@, Seq::empty(), Seq::empty()));
    } else {
        assert(signs_fault(widths, values, block) is None);
        lemma_no_fault(widths, values, block, i);
        assert(!first_fault(widths, values, block, i));
        let signs = folding.signs@[i];
        let at = start_of(widths, i);
        lemma_start_grows(widths, values, block, i);
        assert forall|p: int| 0 <= p < signs.values@.len() implies is_sign(
            #[trigger] signs.values@[p],
        ) by {
            assert(signs.values@[p] == values[at + p]);
        }
        assert forall|j: int| 0 <= j < i implies (#[trigger] folding.signs@[j]).width
            != signs.width by {
            assert(folding.signs@[j].width == widths[j]);
        }
    }
}

proof fn lemma_no_fault(widths: Seq<i64>, values: Seq<i64>, block: usize, i: int)
    requires
        signs_fault(widths, values, block) is None,
        0 <= i < widths.len(),
    ensures
        sign_fault(widths, values, block, i) is None,
    decreases i,
{
    assert forall|j: int| 0 <= j < i implies (#[trigger] sign_fault(
        widths,
        values,
        block,
        j,
    )) is None by {
        lemma_no_fault(widths, values, block, j);
    }
    if sign_fault(widths, values, block, i) is Some {
        assert(first_fault(widths, values, block, i));
        lemma_fault(widths, values, block, i);
    }
}

proof fn lemma_start_grows(widths: Seq<i64>, values: Seq<i64>, block: usize, i: int)
    requires
        signs_fault(widths, values, block) is None,
        0 <= i < widths.len(),
    ensures
        0 <= start_of(widths, i),
    decreases i,
{
    if i > 0 {
        lemma_start_grows(widths, values, block, i - 1);
        lemma_no_fault(widths, values, block, i - 1);
    }
}

/// Where element `j` of a regrouped row comes from: grouped head `k * repeat +
/// r` is tiled head `r * groups + k`.
pub open spec fn source_of(perm: HeadPerm, j: int) -> int {
    let head = j / (perm.head_dim as int);
    let within = j % (perm.head_dim as int);
    let k = head / (perm.repeat as int);
    let r = head % (perm.repeat as int);
    (r * perm.groups + k) * perm.head_dim + within
}

/// Elements of a row of heads.
pub open spec fn row_len(perm: HeadPerm) -> int {
    perm.head_dim * perm.groups * perm.repeat
}

/// The source of an element of a row.
pub fn perm_source(perm: HeadPerm, j: usize) -> (source: usize)
    requires
        perm.head_dim > 0,
        perm.repeat > 0,
        source_of(perm, j as int) <= usize::MAX,
    ensures
        source == source_of(perm, j as int),
{
    let head: usize = j / perm.head_dim;
    let within: usize = j % perm.head_dim;
    let k: usize = head / perm.repeat;
    let r: usize = head % perm.repeat;
    assert(0 <= r * perm.groups + k <= (r * perm.groups + k) * perm.head_dim) by (nonlinear_arith)
        requires
            0 <= r,
            0 <= k,
            0 <= perm.groups,
            perm.head_dim >= 1,
    ;
    assert(0 <= r * perm.groups) by (nonlinear_arith)
        requires
            0 <= r,
            0 <= perm.groups,
    ;
    (r * perm.groups + k) * perm.head_dim + within
}

/// The permutation that undoes a regrouping.
pub open spec fn undone(perm: HeadPerm) -> HeadPerm {
    HeadPerm { head_dim: perm.head_dim, groups: perm.repeat, repeat: perm.groups }
}

/// Regrouping is a permutation of a row: every element comes from inside it,
/// and regrouping back finds it again.
pub proof fn regrouping_is_undone(perm: HeadPerm, j: int)
    requires
        0 <= j < row_len(perm),
    ensures
        0 <= source_of(perm, j) < row_len(perm),
        source_of(undone(perm), source_of(perm, j)) == j,
{
    let d = perm.head_dim as int;
    let g = perm.groups as int;
    let n = perm.repeat as int;
    assert(d > 0 && g > 0 && n > 0) by (nonlinear_arith)
        requires
            0 < d * g * n,
            0 <= d,
            0 <= g,
            0 <= n,
    ;
    let head = j / d;
    let within = j % d;
    let k = head / n;
    let r = head % n;
    div_mod::lemma_fundamental_div_mod(j, d);
    div_mod::lemma_fundamental_div_mod(head, n);
    assert(0 <= head < g * n) by (nonlinear_arith)
        requires
            0 <= j < d * g * n,
            j == d * head + within,
            0 <= within < d,
    ;
    assert(0 <= k < g) by (nonlinear_arith)
        requires
            0 <= head < g * n,
            head == n * k + r,
            0 <= r < n,
    ;
    let tiled = r * g + k;
    assert(0 <= tiled < n * g) by (nonlinear_arith)
        requires
            tiled == r * g + k,
            0 <= k < g,
            0 <= r,
            r + 1 <= n,
    ;
    let source = tiled * d + within;
    assert(0 <= source < d * g * n) by (nonlinear_arith)
        requires
            source == tiled * d + within,
            0 <= tiled,
            tiled + 1 <= n * g,
            0 <= within < d,
    ;
    assert(source == d * tiled + within) by (nonlinear_arith)
        requires
            source == tiled * d + within,
    ;
    div_mod::lemma_fundamental_div_mod_converse(source, d, tiled, within);
    assert(tiled == g * r + k) by (nonlinear_arith)
        requires
            tiled == r * g + k,
    ;
    div_mod::lemma_fundamental_div_mod_converse(tiled, g, r, k);
    assert((k * n + r) * d + within == j) by (nonlinear_arith)
        requires
            j == d * head + within,
            head == n * k + r,
    ;
}

/// Element `d` of the head in column `b` of row `a`, `width` heads to a row.
pub open spec fn placed(head_dim: usize, width: usize, a: int, b: int, d: int) -> int {
    (a * width + b) * head_dim + d
}

/// Grouped head `k * repeat + r` of a regrouped row is tiled head `r * groups + k` of
/// the row it comes from, element for element.
pub proof fn a_grouped_head_is_its_tiled_one(perm: HeadPerm, k: int, r: int, d: int)
    requires
        0 <= k < perm.groups,
        0 <= r < perm.repeat,
        0 <= d < perm.head_dim,
    ensures
        source_of(perm, placed(perm.head_dim, perm.repeat, k, r, d)) == placed(
            perm.head_dim,
            perm.groups,
            r,
            k,
            d,
        ),
{
    let (n, dim) = (perm.repeat as int, perm.head_dim as int);
    let head = k * n + r;
    div_mod::lemma_fundamental_div_mod_converse(head * dim + d, dim, head, d);
    div_mod::lemma_fundamental_div_mod_converse(head, n, k, r);
}

} // verus!
