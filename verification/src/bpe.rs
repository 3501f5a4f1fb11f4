//! What a file's vocabulary adds to byte-level BPE: the ids of its tokens, its
//! control tokens, and which of them end a turn.

use vstd::prelude::*;

use crate::text::{self, same, Args};

verus! {

broadcast use crate::text::lemma_filled_args;

/// A control token, matched literally.
pub struct Special {
    pub id: u32,
    pub text: String,
}

/// A file's vocabulary.
pub struct Vocab {
    pub model: String,
    pub tokens: Vec<String>,
    pub specials: Vec<Special>,
    pub merges: Vec<(String, String)>,
    pub bos: Option<u32>,
    pub eos: Option<u32>,
}

pub enum VocabError {
    /// A model that is not byte-level BPE.
    Model(String),
    NoMerges,
}

pub const E_MODEL: &'static str =
    "tokenizer model '$0' is not byte-level BPE; only 'gpt2' vocabularies are supported";

pub const E_NO_MERGES: &'static str = "vocabulary carries no BPE merges";

impl VocabError {
    /// What is wrong, in words.
    pub fn message(&self) -> (s: String)
        ensures
            s@ == (match *self {
                VocabError::Model(model) => text::filled(E_MODEL@, seq![model@]),
                VocabError::NoMerges => text::filled(E_NO_MERGES@, Seq::empty()),
            }),
    {
        match self {
            VocabError::Model(model) => Args::new().text(model.as_str()).fill(E_MODEL),
            VocabError::NoMerges => Args::new().fill(E_NO_MERGES),
        }
    }
}

/// The tokens of a vocabulary and those that end a turn.
pub struct Bpe {
    decoder: Vec<String>,
    eos: Option<u32>,
    bos: Option<u32>,
    eog: Vec<u32>,
}

/// Whether a list has a text.
pub open spec fn among(texts: Seq<&str>, text: Seq<char>) -> bool {
    exists|i: int| 0 <= i < texts.len() && (#[trigger] texts[i])@ == text
}

/// Whether a token ends a turn: it is the declared end of sequence, or a
/// control token with a turn-ending text.
pub open spec fn ends_turn(vocab: Vocab, endings: Seq<&str>, id: u32) -> bool {
    ||| vocab.eos == Some(id)
    ||| exists|i: int|
        0 <= i < vocab.specials@.len() && (#[trigger] vocab.specials@[i]).id == id && among(
            endings,
            vocab.specials@[i].text@,
        )
}

pub open spec fn ascends(ids: Seq<u32>) -> bool {
    forall|i: int, j: int| 0 <= i < j < ids.len() ==> ids[i] < ids[j]
}

/// The last token with a text, whose id is the text's.
pub open spec fn is_last(tokens: Seq<String>, text: Seq<char>, at: int) -> bool {
    &&& 0 <= at < tokens.len()
    &&& tokens[at]@ == text
    &&& forall|i: int| at < i < tokens.len() ==> (#[trigger] tokens[i])@ != text
}

fn is_among(texts: &[&str], text: &str) -> (yes: bool)
    ensures
        yes == among(texts@, text@),
{
    let mut i: usize = 0;
    while i < texts.len()
        invariant
            i <= texts@.len(),
            forall|j: int| 0 <= j < i ==> (#[trigger] texts@[j])@ != text@,
        decreases texts@.len() - i,
    {
        if same(texts[i], text) {
            assert(texts@[i as int]@ == text@);
            return true;
        }
        i = i + 1;
    }
    false
}

/// Where an id is, or belongs, in an ascending list.
fn find(ids: &[u32], id: u32) -> (at: usize)
    requires
        ascends(ids@),
    ensures
        at <= ids@.len(),
        forall|i: int| 0 <= i < at ==> ids@[i] < id,
        forall|i: int| at <= i < ids@.len() ==> ids@[i] >= id,
{
    let mut low: usize = 0;
    let mut high: usize = ids.len();
    while low < high
        invariant
            low <= high <= ids@.len(),
            ascends(ids@),
            forall|i: int| 0 <= i < low ==> ids@[i] < id,
            forall|i: int| high <= i < ids@.len() ==> ids@[i] >= id,
        decreases high - low,
    {
        let mid: usize = low + (high - low) / 2;
        if ids[mid] < id {
            low = mid + 1;
        } else {
            high = mid;
        }
    }
    low
}

/// Adds an id to an ascending list that may have it.
fn insert(ids: &mut Vec<u32>, id: u32)
    requires
        ascends(old(ids)@),
    ensures
        ascends(final(ids)@),
        forall|x: u32| #[trigger] final(ids)@.contains(x) == (old(ids)@.contains(x) || x == id),
{
    let ghost before = ids@;
    let at = find(ids.as_slice(), id);
    if at < ids.len() && ids[at] == id {
        assert(before[at as int] == id);
        return ;
    }
    ids.insert(at, id);
    proof {
        assert forall|x: u32| #[trigger]
            ids@.contains(x) == (before.contains(x) || x == id) by {
            if before.contains(x) {
                let i = before.index_of(x);
                if i < at {
                    assert(ids@[i] == x);
                } else {
                    assert(ids@[i + 1] == x);
                }
            }
            assert(ids@[at as int] == id);
            if ids@.contains(x) {
                let i = ids@.index_of(x);
                if i < at {
                    assert(before[i] == x);
                } else if i > at {
                    assert(before[i - 1] == x);
                }
            }
        }
    }
}

impl Bpe {
    pub closed spec fn tokens(self) -> Seq<String> {
        self.decoder@
    }

    pub closed spec fn endings(self) -> Seq<u32> {
        self.eog@
    }

    pub closed spec fn start(self) -> Option<u32> {
        self.bos
    }

    pub closed spec fn end(self) -> Option<u32> {
        self.eos
    }

    #[verifier::type_invariant]
    spec fn wf(self) -> bool {
        ascends(self.eog@)
    }

    /// The tokens of a vocabulary; `end_of_turn` are the texts of control
    /// tokens that end a turn.
    pub fn from_vocab(vocab: &Vocab, end_of_turn: &[&str]) -> (bpe: Result<Bpe, VocabError>)
        ensures
            match bpe {
                Ok(bpe) => {
                    &&& vocab.model@ == "gpt2"@ && vocab.merges@.len() > 0
                    &&& bpe.tokens().len() == vocab.tokens@.len()
                    &&& forall|i: int|
                        0 <= i < vocab.tokens@.len() ==> (#[trigger] bpe.tokens()[i])@
                            == vocab.tokens@[i]@
                    &&& bpe.start() == vocab.bos
                    &&& bpe.end() == vocab.eos
                    &&& ascends(bpe.endings())
                    &&& forall|id: u32| #[trigger]
                        bpe.endings().contains(id) == ends_turn(*vocab, end_of_turn@, id)
                },
                Err(VocabError::Model(model)) => vocab.model@ != "gpt2"@ && model@ == vocab.model@,
                Err(VocabError::NoMerges) => vocab.model@ == "gpt2"@ && vocab.merges@.len() == 0,
            },
    {
        if !same(vocab.model.as_str(), "gpt2") {
            return Err(VocabError::Model(vocab.model.clone()));
        }
        if vocab.merges.len() == 0 {
            return Err(VocabError::NoMerges);
        }
        let mut decoder: Vec<String> = Vec::new();
        let mut i: usize = 0;
        while i < vocab.tokens.len()
            invariant
                i <= vocab.tokens@.len(),
                decoder@.len() == i,
                forall|j: int| 0 <= j < i ==> (#[trigger] decoder@[j])@ == vocab.tokens@[j]@,
            decreases vocab.tokens@.len() - i,
        {
            decoder.push(vocab.tokens[i].clone());
            i = i + 1;
        }
        let mut eog: Vec<u32> = Vec::new();
        if let Some(id) = vocab.eos {
            insert(&mut eog, id);
        }
        let mut i: usize = 0;
        while i < vocab.specials.len()
            invariant
                i <= vocab.specials@.len(),
                ascends(eog@),
                forall|id: u32| #[trigger]
                    eog@.contains(id) == (vocab.eos == Some(id) || exists|j: int|
                        0 <= j < i && (#[trigger] vocab.specials@[j]).id == id && among(
                            end_of_turn@,
                            vocab.specials@[j].text@,
                        )),
            decreases vocab.specials@.len() - i,
        {
            if is_among(end_of_turn, vocab.specials[i].text.as_str()) {
                insert(&mut eog, vocab.specials[i].id);
            }
            i = i + 1;
        }
        Ok(Bpe { decoder, eos: vocab.eos, bos: vocab.bos, eog })
    }

    pub fn eos(&self) -> (eos: Option<u32>)
        ensures
            eos == self.end(),
    {
        self.eos
    }

    pub fn bos(&self) -> (bos: Option<u32>)
        ensures
            bos == self.start(),
    {
        self.bos
    }

    /// Whether a token ends the turn.
    pub fn is_eog(&self, id: u32) -> (yes: bool)
        ensures
            yes == self.endings().contains(id),
    {
        proof {
            use_type_invariant(self);
        }
        let at = find(self.eog.as_slice(), id);
        let yes = at < self.eog.len() && self.eog[at] == id;
        proof {
            if self.eog@.contains(id) {
                let i = self.eog@.index_of(id);
                assert(self.eog@[i] == id);
                if at < i {
                    assert(self.eog@[at as int] < self.eog@[i]);
                }
            }
        }
        yes
    }

    /// Every turn-ending token, ascending.
    pub fn eog(&self) -> (ids: &[u32])
        ensures
            ids@ == self.endings(),
            ascends(ids@),
    {
        proof {
            use_type_invariant(self);
        }
        self.eog.as_slice()
    }

    /// The vocabulary's text for one token, as stored.
    pub fn token(&self, id: u32) -> (text: Option<&str>)
        ensures
            match text {
                Some(text) => id < self.tokens().len() && text@ == self.tokens()[id as int]@,
                None => id >= self.tokens().len(),
            },
    {
        if (id as u64) < self.decoder.len() as u64 {
            Some(self.decoder[id as usize].as_str())
        } else {
            None
        }
    }

    pub fn vocab_size(&self) -> (size: usize)
        ensures
            size == self.tokens().len(),
    {
        self.decoder.len()
    }

    /// The id of a text: that of the last token with it.
    pub fn id_of(&self, text: &str) -> (id: Option<u32>)
        ensures
            match id {
                Some(id) => exists|at: int| #[trigger]
                    is_last(self.tokens(), text@, at) && id == at as u32,
                None => forall|i: int|
                    0 <= i < self.tokens().len() ==> (#[trigger] self.tokens()[i])@ != text@,
            },
    {
        let mut i: usize = self.decoder.len();
        while i > 0
            invariant
                i <= self.decoder@.len(),
                forall|j: int|
                    i <= j < self.decoder@.len() ==> (#[trigger] self.decoder@[j])@ != text@,
            decreases i,
        {
            i = i - 1;
            if same(self.decoder[i].as_str(), text) {
                assert(is_last(self.tokens(), text@, i as int));
                return Some(#[verifier::truncate] (i as u32));
            }
        }
        None
    }

    /// The texts of a run of tokens; an id outside the vocabulary has none.
    pub fn pieces(&self, ids: &[u32]) -> (pieces: Vec<&str>)
        ensures
            pieces@.map_values(|piece: &str| piece@) == known_texts(self.tokens(), ids@),
    {
        let mut pieces: Vec<&str> = Vec::new();
        let mut i: usize = 0;
        assert(ids@.take(0) =~= Seq::empty());
        assert(pieces@.map_values(|piece: &str| piece@) =~= Seq::empty());
        while i < ids.len()
            invariant
                i <= ids@.len(),
                pieces@.map_values(|piece: &str| piece@) == known_texts(
                    self.tokens(),
                    ids@.take(i as int),
                ),
            decreases ids@.len() - i,
        {
            let ghost head = ids@.take(i as int + 1);
            assert(head.drop_last() =~= ids@.take(i as int));
            assert(head.last() == ids@[i as int]);
            let ghost before = pieces@;
            if let Some(text) = self.token(ids[i]) {
                pieces.push(text);
                assert(pieces@.map_values(|piece: &str| piece@) =~= before.map_values(
                    |piece: &str| piece@,
                ).push(text@));
            }
            i = i + 1;
        }
        assert(ids@.take(i as int) =~= ids@);
        pieces
    }
}

/// The texts of the tokens a vocabulary has.
pub open spec fn known_texts(tokens: Seq<String>, ids: Seq<u32>) -> Seq<Seq<char>>
    decreases ids.len(),
{
    if ids.len() == 0 {
        Seq::empty()
    } else if ids.last() < tokens.len() {
        known_texts(tokens, ids.drop_last()).push(tokens[ids.last() as int]@)
    } else {
        known_texts(tokens, ids.drop_last())
    }
}

/// Texts of one run of tokens after another are those of both together, so a
/// stream decodes as the whole does.
pub proof fn pieces_of_a_stream(tokens: Seq<String>, a: Seq<u32>, b: Seq<u32>)
    ensures
        known_texts(tokens, a + b) == known_texts(tokens, a) + known_texts(tokens, b),
    decreases b.len(),
{
    if b.len() == 0 {
        assert(a + b =~= a);
        assert(known_texts(tokens, a) + Seq::<Seq<char>>::empty() =~= known_texts(tokens, a));
    } else {
        pieces_of_a_stream(tokens, a, b.drop_last());
        assert((a + b).drop_last() =~= a + b.drop_last());
        assert((a + b).last() == b.last());
        assert(known_texts(tokens, a + b) =~= known_texts(tokens, a) + known_texts(tokens, b));
    }
}

/// The text of a token whose text no later token repeats leads back to its id.
pub proof fn a_token_is_its_last_text(tokens: Seq<String>, at: int, other: int)
    requires
        is_last(tokens, tokens[at]@, at),
        is_last(tokens, tokens[at]@, other),
    ensures
        at == other,
{
    if at < other {
        assert(tokens[other]@ != tokens[at]@);
    } else if other < at {
        assert(tokens[at]@ != tokens[at]@);
    }
}

} // verus!
