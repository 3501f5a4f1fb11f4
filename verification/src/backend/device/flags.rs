//! What the environment's switches ask for.

use vstd::prelude::*;

use crate::backend::device::kernels::iq1s::{IQ1S_QMMA_CTA, IQ1S_QMMA_TM, IQ1S_QMMA_TN};
use crate::backend::device::raw::QmmaTile;
use crate::quant::{self, Quant};
use crate::text;

verus! {

/// Whether a switch that is off unless it is turned on is on, given what it was
/// set to.
pub fn env_flag(value: Option<&str>) -> (on: bool)
    ensures
        on == (value is Some && (value->Some_0@ == "1"@ || value->Some_0@ == "on"@
            || value->Some_0@ == "yes"@ || value->Some_0@ == "true"@)),
{
    match value {
        Some(value) => text::same(value, "1") || text::same(value, "on") || text::same(
            value,
            "yes",
        ) || text::same(value, "true"),
        None => false,
    }
}

/// The same for a switch that is on unless it is turned off.
pub fn env_flag_on(value: Option<&str>) -> (on: bool)
    ensures
        on == !(value is Some && (value->Some_0@ == "0"@ || value->Some_0@ == "off"@
            || value->Some_0@ == "no"@ || value->Some_0@ == "false"@)),
{
    match value {
        Some(value) => !(text::same(value, "0") || text::same(value, "off") || text::same(
            value,
            "no",
        ) || text::same(value, "false")),
        None => true,
    }
}

/// The parts of a text between separators.
pub open spec fn parts(s: Seq<char>, sep: char) -> Seq<Seq<char>>
    decreases s.len(),
{
    if s.len() == 0 {
        seq![s]
    } else {
        let before = parts(s.drop_last(), sep);
        if s.last() == sep {
            before.push(Seq::empty())
        } else {
            before.drop_last().push(before.last().push(s.last()))
        }
    }
}

/// White space, as the Unicode property has it.
pub open spec fn is_space(c: char) -> bool {
    let n = c as u32;
    9 <= n <= 13 || n == 32 || n == 0x85 || n == 0xa0 || n == 0x1680 || 0x2000 <= n <= 0x200a || n
        == 0x2028 || n == 0x2029 || n == 0x202f || n == 0x205f || n == 0x3000
}

/// A text without the white space around it.
pub open spec fn trimmed(s: Seq<char>) -> Seq<char>
    decreases s.len(),
{
    if s.len() == 0 {
        s
    } else if is_space(s[0]) {
        trimmed(s.skip(1))
    } else if is_space(s.last()) {
        trimmed(s.drop_last())
    } else {
        s
    }
}

/// A letter in lower case, where it is an ASCII one.
pub open spec fn lower(c: char) -> char {
    if 65 <= c as u32 <= 90 {
        (c as u32 + 32) as char
    } else {
        c
    }
}

/// Whether two texts are the same but for the case of their ASCII letters.
pub open spec fn same_letters(a: Seq<char>, b: Seq<char>) -> bool {
    a.len() == b.len() && forall|i: int|
        0 <= i < a.len() ==> lower(#[trigger] a[i]) == lower(b[i])
}

/// What a format's kernels are called by.
pub open spec fn stem_of(quant: Quant) -> Seq<char> {
    match quant {
        Quant::IQ1_S => "iq1s"@,
        Quant::IQ2_XXS => "iq2xxs"@,
        Quant::IQ2_S => "iq2s"@,
        Quant::IQ2_XS => "iq2xs"@,
        Quant::IQ3_XXS => "iq3xxs"@,
        _ => "iq3s"@,
    }
}

/// The formats with a kernel that contracts while it decodes.
pub open spec fn contracting() -> Seq<Quant> {
    seq![
        Quant::IQ1_S,
        Quant::IQ2_XXS,
        Quant::IQ2_S,
        Quant::IQ2_XS,
        Quant::IQ3_XXS,
        Quant::IQ3_S,
    ]
}

/// Whether a text calls a format, by its name or its kernels'.
pub open spec fn calls(want: Seq<char>, quant: Quant) -> bool {
    same_letters(want, quant::name_of(quant)) || same_letters(want, stem_of(quant))
}

/// The first of the formats that a text calls.
pub open spec fn called(want: Seq<char>, among: Seq<Quant>) -> Option<Quant>
    decreases among.len(),
{
    if among.len() == 0 {
        None
    } else if calls(want, among[0]) {
        Some(among[0])
    } else {
        called(want, among.skip(1))
    }
}

/// The formats that the parts of a list call, in its order.
pub open spec fn all_called(list: Seq<Seq<char>>) -> Seq<Quant>
    decreases list.len(),
{
    if list.len() == 0 {
        Seq::empty()
    } else {
        let before = all_called(list.drop_last());
        match called(trimmed(list.last()), contracting()) {
            Some(quant) => before.push(quant),
            None => before,
        }
    }
}

/// The formats a setting asks for: those it lists, or all of them where it is
/// absent or just a flag.
pub open spec fn formats_for(value: Option<Seq<char>>) -> Seq<Quant> {
    match value {
        Some(value) if value.contains(',') || called(value, contracting()) is Some => all_called(
            parts(value, ','),
        ),
        _ => contracting(),
    }
}

fn chars_of(s: &str) -> (chars: Vec<char>)
    ensures
        chars@ == s@,
{
    let mut chars: Vec<char> = Vec::new();
    for c in it: s.chars()
        invariant
            it.seq() == s@,
            chars@ == s@.take(it.index()),
    {
        chars.push(c);
        assert(chars@ =~= s@.take(it.index() + 1));
    }
    assert(s@.take(s@.len() as int) =~= s@);
    chars
}

fn lower_of(c: char) -> (l: char)
    ensures
        l == lower(c),
{
    if 'A' <= c && c <= 'Z' {
        (c as u8 + 32) as char
    } else {
        c
    }
}

fn space(c: char) -> (yes: bool)
    ensures
        yes == is_space(c),
{
    let n: u32 = c as u32;
    (9 <= n && n <= 13) || n == 32 || n == 0x85 || n == 0xa0 || n == 0x1680 || (0x2000 <= n && n
        <= 0x200a) || n == 0x2028 || n == 0x2029 || n == 0x202f || n == 0x205f || n == 0x3000
}

fn letters_match(a: &[char], b: &str) -> (yes: bool)
    ensures
        yes == same_letters(a@, b@),
{
    let chars = chars_of(b);
    if a.len() != chars.len() {
        return false;
    }
    let mut i: usize = 0;
    while i < a.len()
        invariant
            i <= a@.len(),
            a@.len() == b@.len(),
            chars@ == b@,
            forall|j: int| 0 <= j < i ==> lower(#[trigger] a@[j]) == lower(b@[j]),
        decreases a@.len() - i,
    {
        if lower_of(a[i]) != lower_of(chars[i]) {
            assert(lower(a@[i as int]) != lower(b@[i as int]));
            return false;
        }
        i = i + 1;
    }
    true
}

fn stem(quant: Quant) -> (s: &'static str)
    ensures
        s@ == stem_of(quant),
{
    match quant {
        Quant::IQ1_S => "iq1s",
        Quant::IQ2_XXS => "iq2xxs",
        Quant::IQ2_S => "iq2s",
        Quant::IQ2_XS => "iq2xs",
        Quant::IQ3_XXS => "iq3xxs",
        _ => "iq3s",
    }
}

fn contracting_list() -> (list: Vec<Quant>)
    ensures
        list@ == contracting(),
{
    let list: Vec<Quant> = vec![
        Quant::IQ1_S,
        Quant::IQ2_XXS,
        Quant::IQ2_S,
        Quant::IQ2_XS,
        Quant::IQ3_XXS,
        Quant::IQ3_S,
    ];
    assert(list@ =~= contracting());
    list
}

fn find(want: &[char], among: &[Quant]) -> (found: Option<Quant>)
    ensures
        found == called(want@, among@),
{
    let mut i: usize = 0;
    assert(among@.skip(0) =~= among@);
    while i < among.len()
        invariant
            i <= among@.len(),
            called(want@, among@) == called(want@, among@.skip(i as int)),
        decreases among@.len() - i,
    {
        let quant = among[i];
        assert(among@.skip(i as int).skip(1) =~= among@.skip(i as int + 1));
        if letters_match(want, quant.name().as_str()) || letters_match(want, stem(quant)) {
            return Some(quant);
        }
        i = i + 1;
    }
    None
}

/// A text without the white space around it.
fn trim(s: &[char]) -> (t: Vec<char>)
    ensures
        t@ == trimmed(s@),
{
    let mut from: usize = 0;
    let mut to: usize = s.len();
    assert(s@.subrange(0, to as int) =~= s@);
    while from < to && space(s[from])
        invariant
            from <= to <= s@.len(),
            trimmed(s@) == trimmed(s@.subrange(from as int, to as int)),
        decreases to - from,
    {
        let ghost rest = s@.subrange(from as int, to as int);
        assert(rest.skip(1) =~= s@.subrange(from as int + 1, to as int));
        from = from + 1;
    }
    while from < to && space(s[to - 1])
        invariant
            from <= to <= s@.len(),
            from < to ==> !is_space(s@[from as int]),
            trimmed(s@) == trimmed(s@.subrange(from as int, to as int)),
        decreases to - from,
    {
        let ghost rest = s@.subrange(from as int, to as int);
        assert(rest.drop_last() =~= s@.subrange(from as int, to - 1));
        to = to - 1;
    }
    let mut t: Vec<char> = Vec::new();
    let mut i: usize = from;
    while i < to
        invariant
            from <= i <= to <= s@.len(),
            t@ == s@.subrange(from as int, i as int),
        decreases to - i,
    {
        t.push(s[i]);
        i = i + 1;
        assert(t@ =~= s@.subrange(from as int, i as int));
    }
    t
}

/// The parts of a text between separators.
fn split(s: &str, sep: char) -> (list: Vec<Vec<char>>)
    ensures
        list@.len() > 0,
        list@.map_values(|part: Vec<char>| part@) == parts(s@, sep),
{
    let mut list: Vec<Vec<char>> = Vec::new();
    let mut part: Vec<char> = Vec::new();
    let ghost texts = |list: Seq<Vec<char>>| list.map_values(|part: Vec<char>| part@);
    assert(part@ =~= s@.take(0));
    assert(texts(list@) =~= Seq::empty());
    assert(texts(list@).push(part@) =~= parts(s@.take(0), sep));
    for c in it: s.chars()
        invariant
            it.seq() == s@,
            texts == (|list: Seq<Vec<char>>| list.map_values(|part: Vec<char>| part@)),
            texts(list@).push(part@) == parts(s@.take(it.index()), sep),
    {
        let ghost head = s@.take(it.index() + 1);
        let ghost before = texts(list@).push(part@);
        assert(head.drop_last() =~= s@.take(it.index()));
        assert(head.last() == c);
        if c == sep {
            list.push(part);
            part = Vec::new();
            assert(texts(list@) =~= before);
            assert(texts(list@).push(part@) =~= before.push(Seq::empty()));
        } else {
            part.push(c);
            assert(before.drop_last() =~= texts(list@));
            assert(texts(list@).push(part@) =~= before.drop_last().push(before.last().push(c)));
        }
    }
    assert(s@.take(s@.len() as int) =~= s@);
    let ghost all = texts(list@).push(part@);
    list.push(part);
    assert(list@.map_values(|part: Vec<char>| part@) =~= all);
    list
}

/// The formats whose prompt projection contracts while it decodes, given what
/// the switch for it was set to.
pub fn qmma_formats(value: Option<&str>) -> (formats: Vec<Quant>)
    ensures
        formats@ == formats_for(
            match value {
                Some(value) => Some(value@),
                None => None,
            },
        ),
{
    let all = contracting_list();
    let value = match value {
        Some(value) => value,
        None => {
            return all;
        },
    };
    let chars = chars_of(value);
    let mut listed = false;
    let mut i: usize = 0;
    while i < chars.len()
        invariant
            i <= chars@.len(),
            listed == exists|j: int| 0 <= j < i && #[trigger] chars@[j] == ',',
        decreases chars@.len() - i,
    {
        if chars[i] == ',' {
            listed = true;
        }
        i = i + 1;
    }
    assert(listed == value@.contains(','));
    if !listed && find(chars.as_slice(), all.as_slice()).is_none() {
        return all;
    }
    let list = split(value, ',');
    let ghost texts = list@.map_values(|part: Vec<char>| part@);
    let mut formats: Vec<Quant> = Vec::new();
    let mut i: usize = 0;
    assert(texts.take(0) =~= Seq::empty());
    while i < list.len()
        invariant
            i <= list@.len(),
            all@ == contracting(),
            texts == list@.map_values(|part: Vec<char>| part@),
            formats@ == all_called(texts.take(i as int)),
        decreases list@.len() - i,
    {
        let ghost head = texts.take(i as int + 1);
        assert(head.drop_last() =~= texts.take(i as int));
        assert(head.last() == list@[i as int]@);
        let want = trim(list[i].as_slice());
        if let Some(quant) = find(want.as_slice(), all.as_slice()) {
            formats.push(quant);
        }
        i = i + 1;
    }
    assert(texts.take(i as int) =~= texts);
    formats
}

/// Whether a text is decimal digits, one at least.
pub open spec fn is_digits(s: Seq<char>) -> bool {
    s.len() > 0 && forall|i: int| 0 <= i < s.len() ==> '0' <= #[trigger] s[i] <= '9'
}

/// The number that digits write.
pub open spec fn number(s: Seq<char>) -> nat
    decreases s.len(),
{
    if s.len() == 0 {
        0
    } else {
        10 * number(s.drop_last()) + (s.last() as u32 - 48) as nat
    }
}

/// The size a text writes: digits, a plus before them or none.
pub open spec fn size_of_text(s: Seq<char>) -> Option<usize> {
    let digits = if s.len() > 1 && s[0] == '+' {
        s.skip(1)
    } else {
        s
    };
    if is_digits(digits) && number(digits) <= usize::MAX {
        Some(number(digits) as usize)
    } else {
        None
    }
}

proof fn lemma_number_grows(s: Seq<char>, i: int)
    requires
        is_digits(s),
        0 <= i <= s.len(),
    ensures
        number(s.take(i)) <= number(s),
    decreases s.len() - i,
{
    if i < s.len() {
        assert(s.take(i + 1).drop_last() =~= s.take(i));
        lemma_number_grows(s, i + 1);
    } else {
        assert(s.take(i) =~= s);
    }
}

fn parse_size(s: &[char]) -> (size: Option<usize>)
    ensures
        size == size_of_text(s@),
{
    let from: usize = if s.len() > 1 && s[0] == '+' {
        1
    } else {
        0
    };
    let ghost digits = if s@.len() > 1 && s@[0] == '+' {
        s@.skip(1)
    } else {
        s@
    };
    assert(digits =~= s@.skip(from as int));
    if from == s.len() {
        return None;
    }
    let mut i: usize = from;
    while i < s.len()
        invariant
            from <= i <= s@.len(),
            digits == s@.skip(from as int),
            !is_digits(digits) ==> size_of_text(s@) is None,
            forall|j: int| 0 <= j < i - from ==> '0' <= #[trigger] digits[j] <= '9',
        decreases s@.len() - i,
    {
        let c = s[i];
        assert(digits[i - from] == c);
        if c < '0' || c > '9' {
            assert(!is_digits(digits));
            return None;
        }
        i = i + 1;
    }
    assert(is_digits(digits));
    let mut n: usize = 0;
    let mut i: usize = from;
    assert(digits.take(0) =~= Seq::empty());
    while i < s.len()
        invariant
            from <= i <= s@.len(),
            digits == s@.skip(from as int),
            is_digits(digits),
            n == number(digits.take(i - from)),
            size_of_text(s@) == (if number(digits) <= usize::MAX {
                Some(number(digits) as usize)
            } else {
                None
            }),
        decreases s@.len() - i,
    {
        let c = s[i];
        let ghost head = digits.take(i - from + 1);
        assert(digits[i - from] == c);
        assert(head.drop_last() =~= digits.take(i - from));
        assert(head.last() == c);
        proof {
            lemma_number_grows(digits, i - from + 1);
        }
        let next: u128 = 10 * n as u128 + (c as u32 - 48) as u128;
        if next > usize::MAX as u128 {
            return None;
        }
        n = next as usize;
        i = i + 1;
    }
    assert(digits.take(i - from) =~= digits);
    Some(n)
}

pub open spec fn default_tile() -> QmmaTile {
    QmmaTile { tm: IQ1S_QMMA_TM, tn: IQ1S_QMMA_TN, cta: IQ1S_QMMA_CTA }
}

/// The tile a setting asks for: its first three parts between crosses, where
/// each is a size.
pub open spec fn tile_for(value: Option<Seq<char>>) -> QmmaTile {
    match value {
        Some(value) => {
            let list = parts(value, 'x');
            if list.len() >= 3 && size_of_text(list[0]) is Some && size_of_text(list[1]) is Some
                && size_of_text(list[2]) is Some {
                QmmaTile {
                    tm: size_of_text(list[0])->Some_0,
                    tn: size_of_text(list[1])->Some_0,
                    cta: size_of_text(list[2])->Some_0,
                }
            } else {
                default_tile()
            }
        },
        None => default_tile(),
    }
}

/// The fused prompt projection's tile and the threads that carry it, given what
/// the setting for them was set to.
pub fn qmma_tile(value: Option<&str>) -> (tile: QmmaTile)
    ensures
        tile == tile_for(
            match value {
                Some(value) => Some(value@),
                None => None,
            },
        ),
{
    let usual = QmmaTile { tm: IQ1S_QMMA_TM, tn: IQ1S_QMMA_TN, cta: IQ1S_QMMA_CTA };
    let value = match value {
        Some(value) => value,
        None => {
            return usual;
        },
    };
    let list = split(value, 'x');
    let ghost texts = list@.map_values(|part: Vec<char>| part@);
    if list.len() < 3 {
        return usual;
    }
    assert(texts[0] == list@[0]@ && texts[1] == list@[1]@ && texts[2] == list@[2]@);
    match (
        parse_size(list[0].as_slice()),
        parse_size(list[1].as_slice()),
        parse_size(list[2].as_slice()),
    ) {
        (Some(tm), Some(tn), Some(cta)) => QmmaTile { tm, tn, cta },
        _ => usual,
    }
}

/// A switch that is just a flag asks for every format.
pub proof fn a_flag_asks_for_all(value: Seq<char>)
    requires
        !value.contains(','),
        called(value, contracting()) is None,
    ensures
        formats_for(Some(value)) == formats_for(None),
{
}

/// Nothing but the formats with such a kernel is ever asked for.
pub proof fn only_contracting_formats_are_asked_for(value: Option<Seq<char>>, i: int)
    requires
        0 <= i < formats_for(value).len(),
    ensures
        contracting().contains(formats_for(value)[i]),
{
    if formats_for(value) != contracting() {
        lemma_all_called(parts(value->Some_0, ','), i);
    }
}

proof fn lemma_all_called(list: Seq<Seq<char>>, i: int)
    requires
        0 <= i < all_called(list).len(),
    ensures
        contracting().contains(all_called(list)[i]),
    decreases list.len(),
{
    let before = all_called(list.drop_last());
    if i < before.len() {
        lemma_all_called(list.drop_last(), i);
    } else {
        lemma_called(trimmed(list.last()), contracting());
    }
}

proof fn lemma_called(want: Seq<char>, among: Seq<Quant>)
    ensures
        called(want, among) is Some ==> among.contains(called(want, among)->Some_0),
    decreases among.len(),
{
    if among.len() > 0 && !calls(want, among[0]) {
        lemma_called(want, among.skip(1));
        if called(want, among) is Some {
            let j = among.skip(1).index_of(called(want, among)->Some_0);
            assert(among[j + 1] == called(want, among)->Some_0);
        }
    }
}

/// What of the device's paths is on.
#[derive(Clone, Copy, PartialEq, Eq, Structural, Debug)]
pub struct Switches {
    pub fused_mlp: bool,
    pub fused_project: bool,
    /// Whether the delta net's convolution and gates join the projection.
    pub fused_mix: bool,
    pub fused_attn_out: bool,
    /// Whether attention's writes into the cache land in one launch.
    pub fused_store2d: bool,
    /// Whether a decode row's raw contraction is in integers.
    pub iq_dp4a: bool,
    /// Whether a prompt's raw contraction is fused with its decode.
    pub raw_qmma: bool,
}

impl Switches {
    /// Turns the integer contraction on or off.
    pub fn set_iq_dp4a(&mut self, on: bool)
        ensures
            *final(self) == (Switches { iq_dp4a: on, ..*old(self) }),
    {
        self.iq_dp4a = on;
    }

    /// Turns the fused prompt projection on or off.
    pub fn set_raw_qmma(&mut self, on: bool)
        ensures
            *final(self) == (Switches { raw_qmma: on, ..*old(self) }),
    {
        self.raw_qmma = on;
    }

    /// Turns every fused stage on or off.
    pub fn set_fused(&mut self, on: bool)
        ensures
            *final(self) == (Switches {
                fused_mlp: on,
                fused_project: on,
                fused_mix: on,
                fused_attn_out: on,
                fused_store2d: on,
                ..*old(self)
            }),
    {
        self.fused_mlp = on;
        self.fused_project = on;
        self.fused_mix = on;
        self.fused_attn_out = on;
        self.fused_store2d = on;
    }
}

} // verus!
