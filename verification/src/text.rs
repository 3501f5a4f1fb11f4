//! Kernel source text: decimal numbers and templates with numbered holes.

use vstd::prelude::*;

verus! {

/// `String::push` of std: the character lands at the end of the string.
pub assume_specification[ String::push ](s: &mut String, c: char)
    ensures
        final(s)@ == old(s)@.push(c),
;

/// The character of a digit below ten.
pub open spec fn digit(d: nat) -> char {
    (d + 48) as char
}

/// `n` in decimal, without leading zeros.
pub open spec fn decimal(n: nat) -> Seq<char>
    decreases n,
{
    if n < 10 {
        seq![digit(n)]
    } else {
        decimal(n / 10).push(digit(n % 10))
    }
}

/// The argument a hole's letter names: `0` to `9`, then `a` to `z`.
pub open spec fn hole(c: char) -> int {
    if '0' <= c <= '9' {
        c as int - '0' as int
    } else if 'a' <= c <= 'z' {
        c as int - 'a' as int + 10
    } else {
        -1
    }
}

/// The text a hole stands for, which is none where no argument has its number.
pub open spec fn hole_text(c: char, args: Seq<Seq<char>>) -> Seq<char> {
    if 0 <= hole(c) < args.len() {
        args[hole(c)]
    } else {
        Seq::empty()
    }
}

/// A template with every hole, a dollar sign and a letter, replaced by its
/// argument. Everything else stands for itself.
pub open spec fn filled(template: Seq<char>, args: Seq<Seq<char>>) -> Seq<char>
    decreases template.len(),
{
    if template.len() == 0 {
        Seq::empty()
    } else if template[0] == '$' && template.len() >= 2 {
        hole_text(template[1], args) + filled(template.skip(2), args)
    } else {
        seq![template[0]] + filled(template.skip(1), args)
    }
}

/// A template filled with equal arguments comes out equal.
pub broadcast proof fn lemma_filled_args(
    template: Seq<char>,
    a: Seq<Seq<char>>,
    b: Seq<Seq<char>>,
)
    ensures
        #![trigger filled(template, a), filled(template, b)]
        a =~= b ==> filled(template, a) == filled(template, b),
{
}

fn digit_char(d: u8) -> (c: char)
    requires
        d < 10,
    ensures
        c == digit(d as nat),
{
    (d + 48) as char
}

/// The argument a hole's letter names, or one past every argument.
fn hole_number(c: char) -> (at: usize)
    ensures
        hole(c) >= 0 ==> at == hole(c),
        hole(c) < 0 ==> at == usize::MAX,
{
    if '0' <= c && c <= '9' {
        (c as u32 - 48) as usize
    } else if 'a' <= c && c <= 'z' {
        (c as u32 - 87) as usize
    } else {
        usize::MAX
    }
}

/// `n` in decimal.
pub fn decimal_text(n: u128) -> (s: String)
    ensures
        s@ == decimal(n as nat),
    decreases n,
{
    let mut s = if n < 10 { String::new() } else { decimal_text(n / 10) };
    s.push(digit_char((n % 10) as u8));
    s
}

/// The arguments of a template, in the order their holes number them.
pub struct Args {
    texts: Vec<String>,
}

impl View for Args {
    type V = Seq<Seq<char>>;

    closed spec fn view(&self) -> Seq<Seq<char>> {
        Seq::new(self.texts@.len(), |i: int| self.texts@[i]@)
    }
}

impl Args {
    pub fn new() -> (args: Args)
        ensures
            args@ == Seq::<Seq<char>>::empty(),
    {
        Args { texts: Vec::new() }
    }

    /// One more argument.
    pub fn text(self, s: &str) -> (args: Args)
        ensures
            args@ == self@.push(s@),
    {
        let ghost before = self@;
        let mut texts = self.texts;
        texts.push(s.to_owned());
        let args = Args { texts };
        assert(args@ =~= before.push(s@));
        args
    }

    /// One more argument, a number in decimal.
    pub fn num(self, n: usize) -> (args: Args)
        ensures
            args@ == self@.push(decimal(n as nat)),
    {
        let s = decimal_text(n as u128);
        self.text(s.as_str())
    }

    /// The template with these arguments in its holes.
    pub fn fill(&self, template: &str) -> (s: String)
        ensures
            s@ == filled(template@, self@),
    {
        let mut out = String::new();
        let mut open = false;
        assert(template@.skip(0) =~= template@);
        assert(out@ + filled(template@, self@) =~= filled(template@, self@));
        for c in it: template.chars()
            invariant
                it.seq() == template@,
                !open ==> filled(template@, self@) == out@ + filled(
                    template@.skip(it.index()),
                    self@,
                ),
                open ==> it.index() > 0 && template@[it.index() - 1] == '$' && filled(
                    template@,
                    self@,
                ) == out@ + filled(template@.skip(it.index() - 1), self@),
        {
            let ghost rest = template@.skip(it.index());
            assert(rest.skip(1) =~= template@.skip(it.index() + 1));
            if open {
                let ghost from = template@.skip(it.index() - 1);
                assert(from[0] == '$' && from[1] == c);
                assert(from.skip(2) =~= template@.skip(it.index() + 1));
                let ghost before = out@;
                let at = hole_number(c);
                if at < self.texts.len() {
                    out.append(self.texts[at].as_str());
                }
                assert(out@ =~= before + hole_text(c, self@));
                assert(out@ + filled(from.skip(2), self@) =~= before + filled(from, self@));
                open = false;
            } else if c == '$' {
                open = true;
            } else {
                let ghost before = out@;
                out.push(c);
                assert(out@ + filled(rest.skip(1), self@) =~= before + filled(rest, self@));
            }
        }
        let ghost all = template@.len() as int;
        assert(template@.skip(all) =~= Seq::<char>::empty());
        if open {
            let ghost last = template@.skip(all - 1);
            assert(last.skip(1) =~= Seq::<char>::empty());
            assert(last.len() == 1 && last[0] == '$');
            assert(filled(last, self@) =~= seq!['$'] + filled(last.skip(1), self@));
            let ghost before = out@;
            out.push('$');
            assert(out@ =~= before + filled(last, self@));
        } else {
            assert(out@ + filled(template@.skip(all), self@) =~= out@);
        }
        out
    }
}

/// Whether two texts are the same.
pub fn same(a: &str, b: &str) -> (yes: bool)
    ensures
        yes == (a@ == b@),
{
    a.to_owned() == b.to_owned()
}

pub open spec fn is_digit(c: char) -> bool {
    '0' <= c <= '9'
}

/// A number's text is digits, at least one.
pub proof fn lemma_decimal(n: nat)
    ensures
        decimal(n).len() > 0,
        forall|i: int| 0 <= i < decimal(n).len() ==> is_digit(#[trigger] decimal(n)[i]),
    decreases n,
{
    if n >= 10 {
        lemma_decimal(n / 10);
    }
}

/// Numbers are told apart by their texts.
pub proof fn lemma_decimal_tells(n: nat, m: nat)
    requires
        decimal(n) == decimal(m),
    ensures
        n == m,
    decreases n,
{
    lemma_decimal(n);
    lemma_decimal(m);
    let a = decimal(n);
    let b = decimal(m);
    assert(a[a.len() - 1] == b[b.len() - 1]);
    if n >= 10 {
        lemma_decimal(n / 10);
    }
    if m >= 10 {
        lemma_decimal(m / 10);
    }
    if n >= 10 && m >= 10 {
        assert(decimal(n / 10) =~= a.drop_last());
        assert(decimal(m / 10) =~= b.drop_last());
        lemma_decimal_tells(n / 10, m / 10);
    }
}

/// A text with another put in place of each occurrence of a third, leftmost
/// first and without overlaps.
pub open spec fn replaced(s: Seq<char>, from: Seq<char>, to: Seq<char>) -> Seq<char>
    decreases s.len(),
{
    if from.len() == 0 || s.len() < from.len() {
        s
    } else if s.take(from.len() as int) == from {
        to + replaced(s.skip(from.len() as int), from, to)
    } else {
        seq![s[0]] + replaced(s.skip(1), from, to)
    }
}

fn chars_of(s: &str) -> (list: Vec<char>)
    ensures
        list@ == s@,
{
    let mut list: Vec<char> = Vec::new();
    for c in it: s.chars()
        invariant
            it.seq() == s@,
            list@ == s@.take(it.index()),
    {
        list.push(c);
        assert(list@ =~= s@.take(it.index() + 1));
    }
    assert(list@ =~= s@);
    list
}

/// Whether one list of characters stands in another from `at` on.
fn stands_at(list: &[char], at: usize, part: &[char]) -> (yes: bool)
    requires
        at + part@.len() <= list@.len(),
    ensures
        yes == (list@.skip(at as int).take(part@.len() as int) == part@),
{
    let held: usize = list.len();
    let mut i: usize = 0;
    while i < part.len()
        invariant
            i <= part@.len(),
            held == list@.len(),
            at + part@.len() <= held,
            forall|j: int| 0 <= j < i ==> list@[at + j] == part@[j],
        decreases part@.len() - i,
    {
        if list[at + i] != part[i] {
            assert(list@.skip(at as int).take(part@.len() as int)[i as int] == list@[at + i]);
            return false;
        }
        i = i + 1;
    }
    assert(list@.skip(at as int).take(part@.len() as int) =~= part@);
    true
}

pub fn replace_text(s: &str, from: &str, to: &str) -> (out: String)
    requires
        from@.len() > 0,
    ensures
        out@ == replaced(s@, from@, to@),
{
    let list = chars_of(s);
    let part = chars_of(from);
    let mut out = String::new();
    let mut at: usize = 0;
    assert(list@.skip(0) =~= s@);
    assert(out@ + replaced(s@, from@, to@) =~= replaced(s@, from@, to@));
    while at < list.len()
        invariant
            at <= list@.len(),
            list@ == s@,
            part@ == from@,
            from@.len() > 0,
            replaced(s@, from@, to@) == out@ + replaced(list@.skip(at as int), from@, to@),
        decreases list@.len() - at,
    {
        let ghost rest = list@.skip(at as int);
        let ghost before = out@;
        if part.len() <= list.len() - at && stands_at(list.as_slice(), at, part.as_slice()) {
            out.append(to);
            at = at + part.len();
            assert(list@.skip(at as int) =~= rest.skip(from@.len() as int));
            assert(before + replaced(rest, from@, to@) =~= out@ + replaced(
                list@.skip(at as int),
                from@,
                to@,
            ));
        } else {
            out.push(list[at]);
            at = at + 1;
            assert(list@.skip(at as int) =~= rest.skip(1));
            assert(rest =~= seq![rest[0]] + rest.skip(1));
            assert(before + replaced(rest, from@, to@) =~= out@ + replaced(
                list@.skip(at as int),
                from@,
                to@,
            ));
        }
    }
    assert(list@.skip(at as int) =~= Seq::<char>::empty());
    assert(out@ + replaced(list@.skip(at as int), from@, to@) =~= out@);
    out
}

/// Two texts end to end.
pub fn joined(a: &str, b: &str) -> (s: String)
    ensures
        s@ == a@ + b@,
{
    let mut s = a.to_owned();
    s.append(b);
    s
}

/// The numbers of a list in decimal, a comma and a blank between them.
pub open spec fn commas(items: Seq<u64>) -> Seq<char>
    decreases items.len(),
{
    if items.len() == 0 {
        Seq::empty()
    } else if items.len() == 1 {
        decimal(items[0] as nat)
    } else {
        commas(items.drop_last()) + ", "@ + decimal(items.last() as nat)
    }
}

/// A list of numbers in brackets.
pub open spec fn listed(items: Seq<u64>) -> Seq<char> {
    "["@ + commas(items) + "]"@
}

pub fn list_text(items: &[u64]) -> (s: String)
    ensures
        s@ == listed(items@),
{
    let mut s = "[".to_owned();
    let mut i: usize = 0;
    while i < items.len()
        invariant
            i <= items@.len(),
            s@ == "["@ + commas(items@.take(i as int)),
        decreases items@.len() - i,
    {
        if i > 0 {
            s.append(", ");
        }
        s.append(decimal_text(items[i] as u128).as_str());
        let ghost head = items@.take(i as int + 1);
        assert(head.drop_last() =~= items@.take(i as int));
        assert(head.last() == items@[i as int]);
        if i == 0 {
            assert(items@.take(0) =~= Seq::empty());
            assert(head[0] == items@[0]);
        }
        assert(s@ =~= "["@ + commas(head));
        i = i + 1;
    }
    assert(items@.take(i as int) =~= items@);
    s.append("]");
    s
}

} // verus!
