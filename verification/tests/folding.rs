//! Hadamard folding: what a file declares, and the regrouping of heads.

use phobos_gguf::backend::device::kernels::hadamard::{hadamard_matrix, hadamard_src, HadamardForm};
use phobos_gguf::backend::HeadPerm;
use phobos_gguf::hadamard::{perm_source, Folding, FoldingError};
use phobos_gguf::meta::{Entry, Metadata, Value};

#[test]
fn regrouping_transposes_the_tiled_heads() {
    let perm = HeadPerm { head_dim: 2, groups: 3, repeat: 2 };
    // Tiled heads r * 3 + k: [k0r0, k1r0, k2r0, k0r1, k1r1, k2r1].
    let sources: Vec<usize> = (0..6).map(|h| perm_source(perm, 2 * h) / 2).collect();
    assert_eq!(sources, [0, 3, 1, 4, 2, 5]);
}

#[test]
fn regrouping_back_finds_every_element_again() {
    let perm = HeadPerm { head_dim: 4, groups: 3, repeat: 5 };
    let back = HeadPerm { head_dim: 4, groups: 5, repeat: 3 };
    for j in 0..60 {
        assert_eq!(perm_source(back, perm_source(perm, j)), j);
    }
}

fn entry(key: &str, value: Value) -> Entry {
    Entry { key: format!("prism.hadamard.{key}"), value }
}

fn texts(names: &[&str]) -> Value {
    Value::Texts(names.iter().map(|n| n.to_string()).collect())
}

/// A declaration with explicit signs, which `change` may alter.
fn declared(change: impl Fn(&mut Vec<Entry>)) -> Result<Option<Folding>, FoldingError> {
    let mut values = vec![1i64; 96];
    values[3] = -1;
    let mut entries = vec![
        entry("version", Value::Int(1)),
        entry("block_size", Value::Int(32)),
        entry("transform", Value::Text("normalized-sylvester-walsh-hadamard".into())),
        entry("axis", Value::Text("input-last-dimension".into())),
        entry("sign_mode", Value::Text("explicit".into())),
        entry("sign_widths", Value::Ints(vec![32, 64])),
        entry("sign_values", Value::Ints(values)),
        entry("weight_names", texts(&["a", "b", "a"])),
        entry("inverse_weight_names", texts(&["token_embd.weight"])),
        entry("gdn_v_grouped", Value::Bool(true)),
    ];
    change(&mut entries);
    Folding::from_metadata(&Metadata { entries })
}

fn set(entries: &mut Vec<Entry>, key: &str, value: Value) {
    let key = format!("prism.hadamard.{key}");
    entries.retain(|e| e.key != key);
    entries.push(Entry { key, value });
}

fn refusal(key: &str, value: Value) -> String {
    let kept = std::cell::RefCell::new(Some(value));
    declared(|entries| set(entries, key, kept.borrow_mut().take().unwrap()))
        .err()
        .unwrap()
        .message()
}

#[test]
fn a_declared_folding_reads_as_the_file_has_it() {
    let folding = declared(|_| ()).ok().unwrap().unwrap();
    assert_eq!(folding.block, 32);
    assert!(folding.gdn_v_grouped);
    assert!(folding.folds("a") && folding.folds("b") && !folding.folds("c"));
    assert!(folding.restores("token_embd.weight") && !folding.restores("a"));
    assert_eq!(folding.names(), ["a", "b", "token_embd.weight"]);
    let signs = folding.signs(32).ok().unwrap();
    assert_eq!((signs.len(), signs[3], signs[4]), (32, -1, 1));
    assert!(folding.signs(64).ok().unwrap().iter().all(|&s| s == 1));
    assert_eq!(
        folding.signs(96).err().unwrap().message(),
        "prism.hadamard has no sign vector for width 96"
    );
    assert_eq!(
        folding.signs(33).err().unwrap().message(),
        "a 33-wide input is not a whole number of 32-element Hadamard blocks"
    );
}

#[test]
fn a_file_without_a_folding_has_none() {
    let folding = declared(|entries| entries.clear()).ok().unwrap();
    assert!(folding.is_none());
}

#[test]
fn an_identity_folding_has_no_signs() {
    let folding = declared(|entries| set(entries, "sign_mode", Value::Text("identity".into())))
        .ok()
        .unwrap()
        .unwrap();
    assert_eq!(folding.signs(64).ok().unwrap(), vec![1; 64]);
}

#[test]
fn every_refusal_of_a_folding_says_why() {
    let cases = [
        ("version", Value::Int(-2), "unsupported prism.hadamard.version -2"),
        (
            "version",
            Value::Bool(true),
            "metadata key 'prism.hadamard.version' holds another kind of value",
        ),
        (
            "block_size",
            Value::Int(48),
            "prism.hadamard.block_size 48 is not a power of two of at least 32",
        ),
        (
            "block_size",
            Value::Int(16),
            "prism.hadamard.block_size 16 is not a power of two of at least 32",
        ),
        ("transform", Value::Text("haar".into()), "unsupported prism.hadamard.transform 'haar'"),
        ("axis", Value::Text("rows".into()), "unsupported prism.hadamard.axis 'rows'"),
        ("sign_mode", Value::Text("random".into()), "unsupported prism.hadamard.sign_mode 'random'"),
        ("sign_widths", Value::Ints(vec![]), "prism.hadamard.sign_widths is empty"),
        (
            "sign_widths",
            Value::Ints(vec![-32]),
            "prism.hadamard sign width -32 is not a whole number of blocks",
        ),
        (
            "sign_widths",
            Value::Ints(vec![40]),
            "prism.hadamard sign width 40 is not a whole number of blocks",
        ),
        (
            "sign_widths",
            Value::Ints(vec![32, 128]),
            "prism.hadamard.sign_values ends inside width 128",
        ),
        ("sign_widths", Value::Ints(vec![32, 32]), "prism.hadamard repeats sign width 32"),
        ("sign_widths", Value::Ints(vec![32]), "prism.hadamard.sign_values has 64 left over"),
        ("sign_values", Value::Ints(vec![2; 96]), "prism.hadamard sign values must be +-1"),
        ("weight_names", texts(&[]), "prism.hadamard.weight_names is empty"),
        (
            "inverse_weight_names",
            texts(&["output.weight"]),
            "prism.hadamard: 'output.weight' is not a table this loader restores after lookup",
        ),
        (
            "weight_names",
            texts(&["token_embd.weight"]),
            "prism.hadamard: 'token_embd.weight' is not a table this loader restores after lookup",
        ),
    ];
    for (key, value, want) in cases {
        assert_eq!(refusal(key, value), want);
    }
    let gone = declared(|entries| entries.retain(|e| !e.key.ends_with("axis")));
    assert_eq!(gone.err().unwrap().message(), "missing metadata key 'prism.hadamard.axis'");
}

#[test]
fn the_matrix_is_the_sylvester_one() {
    let h = hadamard_matrix();
    let scale = 32f32.sqrt().recip();
    assert_eq!(h.len(), 1024);
    for (i, bits) in h.iter().enumerate() {
        let (r, c) = (i / 32, i % 32);
        let want = if (r & c).count_ones() % 2 == 1 { -scale } else { scale };
        assert_eq!(f32::from_bits(*bits), want);
    }
}

#[test]
fn a_regrouped_row_is_gathered_a_head_at_a_time() {
    let perm = HeadPerm { head_dim: 128, groups: 16, repeat: 2 };
    let src = hadamard_src(4096, Some(perm), HadamardForm::Plain);
    assert!(src.contains("let row = p / 4"));
    assert!(src.contains("for i in range(0, 8) {"));
    assert!(src.contains("let src = row * 128 + ((c % 2) * 16 + c / 2) * 4"));
    assert!(src.contains("kernel hadamard(X: tensor<f32>[R, 32]"));
    assert!(!src.contains("Q: tensor<i8>"));

    let normed = hadamard_src(2048, None, HadamardForm::Normed(1e-6f32.to_bits()));
    assert!(normed.contains("tot / 2048.0 + 0.000001000000"));
    assert!(normed.contains("kernel rms_norm_hadamard_q("));
    assert!(normed.contains("D[p * 32 :+ 32, 0 :+ 1] = mx / 127.0"));
}
