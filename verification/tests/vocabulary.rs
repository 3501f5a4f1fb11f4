//! A vocabulary's tokens, and the router's ranking.

use phobos_gguf::backend::moe::rank;
use phobos_gguf::bpe::{Bpe, Special, Vocab, VocabError};

/// Every byte, a couple of merges and one control token.
fn toy_vocab() -> Vocab {
    let mut tokens: Vec<String> = (0u8..=255).map(|b| (b as char).to_string()).collect();
    tokens.push("hi".into());
    tokens.push("\u{0120}th".into());
    tokens.push("<|im_end|>".into());
    let eos = (tokens.len() - 1) as u32;
    Vocab {
        model: "gpt2".into(),
        tokens,
        specials: vec![Special { id: eos, text: "<|im_end|>".into() }],
        merges: vec![("h".into(), "i".into()), ("\u{0120}".into(), "th".into())],
        bos: None,
        eos: Some(eos),
    }
}

const ENDINGS: [&str; 2] = ["<|im_end|>", "<|endoftext|>"];

#[test]
fn rejects_non_bpe_vocabularies() {
    let mut vocab = toy_vocab();
    vocab.model = "llama".into();
    let err = Bpe::from_vocab(&vocab, &ENDINGS).err().unwrap();
    assert!(matches!(err, VocabError::Model(_)));
    assert_eq!(
        err.message(),
        "tokenizer model 'llama' is not byte-level BPE; only 'gpt2' vocabularies are supported"
    );
}

#[test]
fn a_vocabulary_without_merges_is_rejected() {
    let mut vocab = toy_vocab();
    vocab.merges.clear();
    let err = Bpe::from_vocab(&vocab, &ENDINGS).err().unwrap();
    assert!(matches!(err, VocabError::NoMerges));
    assert_eq!(err.message(), "vocabulary carries no BPE merges");
}

#[test]
fn a_vocabulary_answers_for_its_tokens() {
    let bpe = Bpe::from_vocab(&toy_vocab(), &ENDINGS).ok().unwrap();
    assert_eq!(bpe.vocab_size(), 259);
    assert_eq!(bpe.eos(), Some(258));
    assert_eq!(bpe.bos(), None);
    assert_eq!(bpe.token(256), Some("hi"));
    assert_eq!(bpe.token(259), None);
    assert_eq!(bpe.id_of("hi"), Some(256));
    assert_eq!(bpe.id_of("ho"), None);
    assert_eq!(bpe.pieces(&[256, 999, 258]), ["hi", "<|im_end|>"]);
}

#[test]
fn the_last_of_equal_tokens_has_their_text() {
    let mut vocab = toy_vocab();
    vocab.tokens.push("hi".into());
    let bpe = Bpe::from_vocab(&vocab, &ENDINGS).ok().unwrap();
    assert_eq!(bpe.id_of("hi"), Some(259));
}

#[test]
fn turn_ending_tokens_ascend_without_repeats() {
    let mut vocab = toy_vocab();
    vocab.specials = vec![
        Special { id: 7, text: "<|endoftext|>".into() },
        Special { id: 5, text: "<|pad|>".into() },
        Special { id: 258, text: "<|im_end|>".into() },
        Special { id: 2, text: "<|im_end|>".into() },
        Special { id: 7, text: "<|endoftext|>".into() },
    ];
    let bpe = Bpe::from_vocab(&vocab, &ENDINGS).ok().unwrap();
    assert_eq!(bpe.eog(), [2, 7, 258]);
    assert!(bpe.is_eog(7) && bpe.is_eog(258) && !bpe.is_eog(5) && !bpe.is_eog(0));
}

#[test]
fn a_stream_of_tokens_decodes_as_the_whole_does() {
    let bpe = Bpe::from_vocab(&toy_vocab(), &ENDINGS).ok().unwrap();
    let whole = bpe.pieces(&[104, 256, 1000, 257]);
    let mut parts = bpe.pieces(&[104, 256]);
    parts.extend(bpe.pieces(&[1000, 257]));
    assert_eq!(whole, parts);
}

fn ranked(probs: &[f32], n: usize) -> Vec<usize> {
    let bits: Vec<u32> = probs.iter().map(|p| p.to_bits()).collect();
    rank(&bits, n)
}

#[test]
fn ranking_descends_and_breaks_a_tie_toward_the_lower_index() {
    assert_eq!(ranked(&[1.0, 2.0, 4.0, 8.0], 2), [3, 2]);
    assert_eq!(ranked(&[0.5, 0.0, 0.5], 2), [0, 2]);
    assert_eq!(ranked(&[-1.0, -0.0, 0.0, f32::NEG_INFINITY], 4), [2, 1, 0, 3]);
    assert_eq!(ranked(&[0.25; 4], 4), [0, 1, 2, 3]);
    assert!(ranked(&[0.25; 4], 0).is_empty());
}

#[test]
fn ranking_agrees_with_the_total_order_of_floats() {
    let probs = [0.1, f32::NAN, -3.5, 0.1, 7.0, f32::INFINITY, -0.0, 1e-40];
    let mut want: Vec<usize> = (0..probs.len()).collect();
    want.sort_by(|&a, &b| probs[b].total_cmp(&probs[a]).then(a.cmp(&b)));
    assert_eq!(ranked(&probs, probs.len()), want);
}
