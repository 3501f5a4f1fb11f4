//! Numbers as text, singles by their bits, metadata and the formats.

use phobos_gguf::backend::DeltaMix;
use phobos_gguf::meta::{Entry, Metadata, Value};
use phobos_gguf::quant::Quant;
use phobos_gguf::single::{fixed_text, inverse_root_bits, nearest_to};
use phobos_gguf::text::{decimal_text, joined, list_text, same, Args};

#[test]
fn a_single_prints_to_a_fixed_number_of_digits() {
    for x in [0.0f32, 1.0, 1e-6, 1e-12, 0.1, 0.5, 1.5, 2.5, 123456.78, 0.088388346, 3e38, 1e-45, -0.25] {
        for digits in [1usize, 6, 9, 12] {
            assert_eq!(fixed_text(x.to_bits(), digits), format!("{x:.digits$}"), "{x} to {digits}");
        }
    }
}

#[test]
fn an_inverse_root_is_the_one_singles_give() {
    for n in [1usize, 2, 3, 32, 64, 80, 96, 128, 192, 256, 1000, 1024, 4096, 65_537] {
        assert_eq!(inverse_root_bits(n), (n as f32).sqrt().recip().to_bits(), "{n}");
    }
    assert_eq!(inverse_root_bits(0), f32::INFINITY.to_bits());
}

#[test]
fn a_quotient_rounds_to_even() {
    assert_eq!([nearest_to(5, 2), nearest_to(7, 2), nearest_to(8, 3), nearest_to(7, 3)], [2, 4, 3, 2]);
}

#[test]
fn text_is_filled_in_order() {
    assert_eq!(decimal_text(0), "0");
    assert_eq!(decimal_text(u128::MAX), u128::MAX.to_string());
    let args = Args::new().num(12).text("ab");
    assert_eq!(args.fill("$1-$0-$1"), "ab-12-ab");
    assert_eq!(args.fill(""), "");
    assert_eq!(list_text(&[]), "[]");
    assert_eq!(list_text(&[1, 20, 300]), "[1, 20, 300]");
    assert_eq!(joined("a", "bc"), "abc");
    assert!(same("a\u{e9}", "a\u{e9}") && !same("a", "ab"));
}

#[test]
fn metadata_is_read_by_kind() {
    let entry = |key: &str, value: Value| Entry { key: key.to_string(), value };
    let meta = Metadata {
        entries: vec![
            entry("i", Value::Int(-3)),
            entry("s", Value::Text("x".to_string())),
            entry("is", Value::Ints(vec![1, 2])),
            entry("ss", Value::Texts(vec!["a".to_string()])),
        ],
    };
    assert_eq!(meta.integer("i").ok(), Some(-3));
    assert_eq!(meta.string("s").ok(), Some("x"));
    assert_eq!(meta.ints("is").ok(), Some(&[1, 2][..]));
    assert_eq!(meta.strings("ss").ok().map(|s| s.len()), Some(1));
    assert!(meta.contains("i") && !meta.contains("j"));
    assert_eq!(meta.integer("j").err().unwrap().message(), "missing metadata key 'j'");
    assert_eq!(meta.ints("i").err().unwrap().message(), "metadata key 'i' holds another kind of value");
    assert!(meta.count("i").is_err());
}

#[test]
fn every_format_says_how_it_lies() {
    let all = [
        (Quant::Q8_0, "Q8_0", 32, 34),
        (Quant::Q2_K, "Q2_K", 256, 84),
        (Quant::Q3_K, "Q3_K", 256, 110),
        (Quant::Q4_K, "Q4_K", 256, 144),
        (Quant::Q5_K, "Q5_K", 256, 176),
        (Quant::Q6_K, "Q6_K", 256, 210),
        (Quant::IQ1_S, "IQ1_S", 256, 50),
        (Quant::IQ1_M, "IQ1_M", 256, 56),
        (Quant::IQ2_XXS, "IQ2_XXS", 256, 66),
        (Quant::IQ2_XS, "IQ2_XS", 256, 74),
        (Quant::IQ2_S, "IQ2_S", 256, 82),
        (Quant::IQ3_XXS, "IQ3_XXS", 256, 98),
        (Quant::IQ3_S, "IQ3_S", 256, 110),
        (Quant::IQ4_XS, "IQ4_XS", 256, 136),
    ];
    for (quant, name, block, bytes) in all {
        assert_eq!((quant.name().as_str(), quant.block(), quant.block_bytes()), (name, block, bytes));
        let (from, len) = quant.device_block();
        assert!(from + len <= bytes, "{name}");
        assert!(quant.device_block_bytes() >= len, "{name}");
        assert_eq!(quant.has_planes(), quant == Quant::Q8_0, "{name}");
        let with_min = matches!(quant, Quant::Q2_K | Quant::Q4_K | Quant::Q5_K);
        assert_eq!((quant.has_min(), quant.has_raw_scales()), (with_min, !quant.has_planes()), "{name}");
        assert_eq!(
            quant.grouped_rows(),
            matches!(quant, Quant::Q4_K | Quant::Q5_K | Quant::Q6_K),
            "{name}"
        );
    }
}

#[test]
fn a_mix_lays_its_planes_end_to_end() {
    let mix = DeltaMix {
        rows: 3,
        heads: 4,
        head_dim: 8,
        kv_heads: 2,
        kernel: 4,
        planes: [0, 16, 32],
        head_stride: 8,
        normalize: true,
        query_scale_bits: 0,
    };
    assert_eq!((mix.span(), mix.gates(), mix.channels(), mix.pad()), (96, 12, 64, 3));
    assert_eq!(mix.packed_len(), 3 * 96 + 2 * 12);
    assert_eq!(mix.history_len(), (3 + 3) * 64);
}
