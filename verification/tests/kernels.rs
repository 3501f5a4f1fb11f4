//! The kernel sources the device compiles, and the shapes they are cut for.

use phobos_gguf::backend::device::kernels::argmax::{
    argmax_chunk_width, argmax_finish_src, argmax_reduce_src,
};
use phobos_gguf::backend::device::kernels::attn::{
    attention_block_src, attention_block_tile, attention_persist_src, attention_qgroup,
    attention_split_src, attention_src, attention_tile, attn_gemm_fits, attn_gemm_src, rope_src,
};
use phobos_gguf::backend::device::kernels::delta::{
    delta_conv_batch, delta_conv_src, delta_gates_src, delta_scan_src, delta_wy_src, ConvShape,
};
use phobos_gguf::backend::device::kernels::elem::{
    copy_2d_src, store_2d_pair_src, swiglu_2d_src, swiglu_2d_tile, Strided,
};
use phobos_gguf::backend::device::kernels::hadamard::{
    hadamard_matrix, hadamard_src, HadamardForm,
};
use phobos_gguf::backend::device::kernels::iq1m::{
    iq1m_dequant_src, iq1m_matvec_src, iq1m_qdecode_src, iq1m_qdot_i8_matvec_src,
    iq1m_qdot_matvec_src,
};
use phobos_gguf::backend::device::kernels::iq1s::{
    iq1s_dequant_src, iq1s_matvec_src, iq1s_qdecode_src, iq1s_qdot_i8_matvec_src,
    iq1s_qdot_matvec_src, iq1s_qmma_src,
};
use phobos_gguf::backend::device::kernels::iq2s::{
    iq2s_dequant_src, iq2s_matvec_src, iq2s_qdecode_src, iq2s_qdot_i8_matvec_src,
    iq2s_qdot_matvec_src, iq2s_qmma_src,
};
use phobos_gguf::backend::device::kernels::iq2xs::{
    iq2xs_dequant_src, iq2xs_matvec_src, iq2xs_qdecode_src, iq2xs_qdot_matvec_src,
};
use phobos_gguf::backend::device::kernels::iq2xxs::{
    iq2xxs_dequant_src, iq2xxs_matvec_src, iq2xxs_qdecode_src, iq2xxs_qdot_matvec_src,
};
use phobos_gguf::backend::device::kernels::iq3s::{
    iq3s_dequant_src, iq3s_matvec_src, iq3s_qdecode_src, iq3s_qdot_matvec_src,
};
use phobos_gguf::backend::device::kernels::iq3xxs::{
    iq3xxs_dequant_src, iq3xxs_matvec_src, iq3xxs_qdecode_src, iq3xxs_qdot_matvec_src,
};
use phobos_gguf::backend::device::kernels::iq4xs::{
    iq4xs_dequant_src, iq4xs_matvec_src, iq4xs_qdot_matvec_src,
};
use phobos_gguf::backend::device::kernels::kquant::{
    kquant_qdot_i8_matvec_src, q4k_qdot_i8_matvec_src, q5k_qdot_i8_matvec_src,
    q6k_qdot_i8_matvec_src,
};
use phobos_gguf::backend::device::kernels::matmul::{
    matmul_f16w_src, matmul_rows_split_src, matmul_rows_src, matmul_tc_f16w_src,
    matvec_blocks_src, mv_splits,
};
use phobos_gguf::backend::device::kernels::moe::{
    moe_combine_src, moe_gateup_src, moe_qdot_src, moe_topk_src,
};
use phobos_gguf::backend::device::kernels::norm::{
    norm_cta, norm_q_cta, rms_norm_src, swiglu_q_src, NormForm,
};
use phobos_gguf::backend::device::kernels::q2k::{
    q2k_dequant_src, q2k_matvec_src, q2k_qdot_matvec_src,
};
use phobos_gguf::backend::device::kernels::q3k::{q3k_matvec_src, q3k_qdot_matvec_src};
use phobos_gguf::backend::device::kernels::qgemm::{
    qgemm_kernel, qgemm_name, qgemm_src, qgemm_tables,
};
use phobos_gguf::backend::device::kernels::quant::{
    q8_qdot_persist_src, q8_qmma_reduce_src, q8_qmma_split_src, q8_qmma_splits, q8_qmma_src,
    q8_splits, qmma_width,
};
use phobos_gguf::backend::device::kernels::{halved, raise, resident_blocks};
use phobos_gguf::backend::{Attn, HeadPerm};
use phobos_gguf::quant::Quant;

/// A source is one kernel of that name, every hole filled and every brace
/// closed.
fn check(src: &str, kernel: &str, head: &str) {
    assert!(src.starts_with(head), "{kernel}: {src}");
    assert!(src.contains(&format!("\nkernel {kernel}(")), "{kernel}: {src}");
    assert_eq!(src.matches("\nkernel ").count(), 1, "{kernel}");
    assert!(!src.contains('$'), "{kernel}: {src}");
    assert_eq!(src.matches('{').count(), src.matches('}').count(), "{kernel}");
    assert_eq!(src.matches('(').count(), src.matches(')').count(), "{kernel}");
    assert!(src.ends_with("}\n"), "{kernel}");
}

#[test]
fn every_raw_format_decodes_in_its_own_kernels() {
    let by_row: Vec<(&str, fn(usize) -> String, fn(usize) -> String)> = vec![
        ("q2k", q2k_matvec_src, q2k_qdot_matvec_src),
        ("q3k", q3k_matvec_src, q3k_qdot_matvec_src),
        ("iq1s", iq1s_matvec_src, iq1s_qdot_matvec_src),
        ("iq1m", iq1m_matvec_src, iq1m_qdot_matvec_src),
        ("iq2xxs", iq2xxs_matvec_src, iq2xxs_qdot_matvec_src),
        ("iq2xs", iq2xs_matvec_src, iq2xs_qdot_matvec_src),
        ("iq2s", iq2s_matvec_src, iq2s_qdot_matvec_src),
        ("iq3xxs", iq3xxs_matvec_src, iq3xxs_qdot_matvec_src),
        ("iq3s", iq3s_matvec_src, iq3s_qdot_matvec_src),
        ("iq4xs", iq4xs_matvec_src, iq4xs_qdot_matvec_src),
    ];
    for (name, matvec, qdot) in by_row {
        check(&matvec(8), &format!("{name}_matvec"), "@launch(256)\n@autotune(TN in [8])\nkernel ");
        let head = "@launch(256)\n@autotune(TN in [16])\n@aligned(N = TN)\nkernel ";
        check(&qdot(16), &format!("{name}_qdot_matvec"), head);
        assert!(matvec(8).contains("dot_t("), "{name}");
    }
    let whole: Vec<(&str, fn(usize) -> String)> = vec![
        ("q2k", q2k_dequant_src),
        ("iq1s", iq1s_dequant_src),
        ("iq1m", iq1m_dequant_src),
        ("iq2xxs", iq2xxs_dequant_src),
        ("iq2xs", iq2xs_dequant_src),
        ("iq2s", iq2s_dequant_src),
        ("iq3xxs", iq3xxs_dequant_src),
        ("iq3s", iq3s_dequant_src),
        ("iq4xs", iq4xs_dequant_src),
    ];
    for (name, dequant) in whole {
        check(&dequant(32), &format!("{name}_dequant"), "@launch(256)\n@autotune(TN in [32])\nkernel ");
        // Every one of a block's 256 columns is written, a run at a time.
        let src = dequant(32);
        let runs: Vec<usize> = src
            .split("SCRATCH[kb * 256 + ")
            .skip(1)
            .map(|rest| rest.split(' ').next().unwrap().parse().unwrap())
            .collect();
        let step = 256 / runs.len();
        let mut sorted = runs.clone();
        sorted.sort_unstable();
        assert_eq!(sorted, (0..runs.len()).map(|i| i * step).collect::<Vec<_>>(), "{name}");
    }
    let expanded: Vec<(&str, fn(usize) -> String)> = vec![
        ("iq1s", iq1s_qdecode_src),
        ("iq1m", iq1m_qdecode_src),
        ("iq2xxs", iq2xxs_qdecode_src),
        ("iq2xs", iq2xs_qdecode_src),
        ("iq2s", iq2s_qdecode_src),
        ("iq3xxs", iq3xxs_qdecode_src),
        ("iq3s", iq3s_qdecode_src),
    ];
    for (name, qdecode) in expanded {
        let head = "@launch(256)\n@autotune(TN in [16])\n@aligned(N = TN)\nkernel ";
        check(&qdecode(16), &format!("{name}_qdecode"), head);
    }
}

#[test]
fn the_integer_matvecs_say_how_many_blocks_stay_resident() {
    check(&iq1m_qdot_i8_matvec_src(64), "iq1m_qdot_i8_matvec", "@launch(256)\n@autotune(TN in [64])\n");
    let s = iq1s_qdot_i8_matvec_src(64, 256);
    check(&s, "iq1s_qdot_i8_matvec", "@launch(256, 4)\n@autotune(TN in [64])\n@aligned(N = TN)\n");
    let s = iq2s_qdot_i8_matvec_src(64);
    check(&s, "iq2s_qdot_i8_matvec", "@launch(256");
    check(&q4k_qdot_i8_matvec_src(64, 256), "q4k_qdot_i8_matvec", "@launch(256, ");
    check(&q5k_qdot_i8_matvec_src(64, 256), "q5k_qdot_i8_matvec", "@launch(256, ");
    check(&q6k_qdot_i8_matvec_src(64, 256), "q6k_qdot_i8_matvec", "@launch(256, ");
    assert_eq!(
        kquant_qdot_i8_matvec_src("q4k", 16, 128, 2),
        "@launch(128, 4)
@autotune(TN in [16])
@aligned(N = TN)
kernel q4k_qdot_i8_matvec(AQ: tensor<i8>[M, K], AS: tensor<f32>[M, KB],
                          QB: tensor<i8>[N, RB], D: tensor<f16>[N, NB],
                          C: tensor<f32>[M, N]) {
  let pn = program_id(0)
  C[0 :+ 1, pn * TN :+ TN] = q4k_qdot_i8_t(AQ[0 :+ 1, :], AS[0 :+ 1, :],
                                           QB[pn * TN :+ TN, :], D[pn * TN :+ TN, :])
}
"
    );
}

#[test]
fn contractions_name_their_tables() {
    check(&iq1s_qmma_src(64, 128, 64, true), "iq1s_qmma", "@launch(64)\n@autotune(TM in [128], TN in [64])\n");
    check(&iq2s_qmma_src(64, 128, 64), "iq2s_qmma", "@launch(64)\n@autotune(TM in [128], TN in [64])\n");
    assert_ne!(iq1s_qmma_src(64, 128, 64, true), iq1s_qmma_src(64, 128, 64, false));
    for quant in [Quant::Q8_0, Quant::Q2_K, Quant::Q3_K, Quant::IQ2_XS] {
        let kernel = qgemm_kernel(quant);
        assert_eq!(kernel.is_some(), qgemm_src(quant).is_some(), "{quant:?}");
        assert_eq!(kernel.is_some(), qgemm_tables(quant).is_some(), "{quant:?}");
        assert_eq!(kernel.is_some(), qgemm_name(quant).is_some(), "{quant:?}");
    }
    assert_eq!(qgemm_src(Quant::Q8_0), None);
    let src = qgemm_src(Quant::IQ1_S).unwrap();
    check(&src, "iq1s_qgemm", "@launch(256, 2)\n@autotune(TM in [128], TN in [64])\n@aligned(M = TM, N = TN, K = 256)\n");
    let tables = qgemm_tables(Quant::IQ1_S).unwrap();
    for (t, len) in tables.iter().enumerate() {
        assert!(src.contains(&format!("T{t}: tensor<i8>[1, {len}], ")));
        assert!(src.contains(&format!("T{t}[0 :+ 1, :]")));
    }
    assert_eq!(src.matches("tensor<i8>[1, ").count(), tables.len());
}

#[test]
fn a_strided_copy_converts_on_the_way() {
    assert_eq!(
        copy_2d_src(Strided::Dense, 64, true),
        "@launch(256)
@autotune(W in [64])
@aligned(SW = W, DW = W)
kernel copy_2d(S: tensor<f32>[R, SW], D: tensor<f32>[R, DW]) {
  let r = program_id(0)
  D[r :+ 1, 0 :+ W] = S[r :+ 1, 0 :+ W]
}
"
    );
    assert_eq!(
        copy_2d_src(Strided::Store, 7, false),
        "@launch(256)
@autotune(W in [7])

kernel store_2d(S: tensor<f32>[R, SW], D: tensor<f16>[R, DW]) {
  let r = program_id(0)
  D[r :+ 1, 0 :+ W] = f16(S[r :+ 1, 0 :+ W])
}
"
    );
    let load = copy_2d_src(Strided::Load, 7, false);
    assert!(load.contains("kernel load_2d(S: tensor<f16>[R, SW], D: tensor<f32>[R, DW])"), "{load}");
    assert!(load.contains("= f32(S[r :+ 1, 0 :+ W])"));
    assert_eq!(Strided::Store.kernel(), "store_2d");
    assert_eq!(Strided::Load.types().0, "f16");
    check(&store_2d_pair_src(64, true), "store_2d_pair", "@launch(256)\n@autotune(W in [64])\n@aligned(SW0 = W,");
    assert_eq!(
        swiglu_2d_src(1024),
        "@launch(256)
@autotune(T in [1024])
@aligned(GW = T, UW = T, OW = T)
kernel swiglu_2d(G: tensor<f32>[R, GW], U: tensor<f32>[R, UW], O: tensor<f32>[R, OW]) {
  let r = program_id(0)
  let c = program_id(1) * T
  var g = G[r :+ 1, c :+ T]
  O[r :+ 1, c :+ T] = (g / (1.0 + exp(-g))) * U[r :+ 1, c :+ T]
}
"
    );
}

#[test]
fn rotary_embeddings_pair_the_halves() {
    assert_eq!(
        rope_src(8, 32),
        "@launch(256)
@autotune(H in [8])
kernel rope(X: tensor<f32>[R, D], T: tensor<f32>[P, RD]) {
  let r = program_id(0)
  let p = r / H
  var a = X[r :+ 1, 0 :+ 32]
  var b = X[r :+ 1, 32 :+ 32]
  var c = T[p :+ 1, 0 :+ 32]
  var s = T[p :+ 1, 32 :+ 32]
  X[r :+ 1, 0 :+ 32] = a * c - b * s
  X[r :+ 1, 32 :+ 32] = a * s + b * c
}
"
    );
}

#[test]
fn attention_sources_write_the_scale_out() {
    let src = attention_src(8, 4, 64, 16);
    check(&src, "attention", "@launch(256)\n@autotune(NH in [8], G in [4], D in [64], BC in [16])\n@aligned(KW = D)\n");
    assert!(src.contains("0.125000000"), "{src}");
    let src = attention_block_src(8, 4, 128, 8);
    check(&src, "attention_block", "@launch(256)\n@autotune(NH in [8], G in [4], D in [128], BR in [8])\n");
    assert!(src.contains("0.088388346"), "{src}");
    let src = attn_gemm_src(256, 64);
    assert!(src.starts_with("@launch(256)\n@autotune(TM in [64], TN in [64], TK in [32], TB in ["), "{src}");
    assert!(!src.contains('$'));
    let src = attention_split_src(8, 4, 64, 2, 8, 8);
    assert!(src.starts_with("@launch(256)\n@autotune(NH in [8], G in [4], QG in [2], D in [64], S in [8],"), "{src}");
    assert!(src.contains("WCT in [8]") && src.contains("QW in [16]"), "{src}");
    assert!(!src.contains('$'));
    // One combination a query head the program carries.
    assert!(src.contains("var mv1 = ") && !src.contains("var mv2 = "));
    let src = attention_persist_src(8, 4, 64, 2, 8, 8, 48);
    assert!(src.starts_with("@launch(256)\n@persistent\n@dynshared\n"), "{src}");
    assert!(!src.contains('$'));
}

#[test]
fn attention_tiles_stay_in_shared_memory() {
    assert_eq!([64, 256, 512, 8192].map(attention_tile), [16, 16, 8, 1]);
    assert_eq!([64, 128, 256, 2048].map(attention_block_tile), [16, 8, 4, 1]);
    assert_eq!([1, 2, 3, 4, 8].map(attention_qgroup), [1, 2, 1, 2, 2]);
    let fits = Attn { rows: 128, start_pos: 64, n_head: 8, n_kv: 2, head_dim: 128 };
    assert!(attn_gemm_fits(fits));
    assert!(!attn_gemm_fits(Attn { rows: 32, ..fits }));
    assert!(!attn_gemm_fits(Attn { rows: 100, ..fits }));
    assert!(!attn_gemm_fits(Attn { start_pos: 32, ..fits }));
    assert!(!attn_gemm_fits(Attn { head_dim: 96, ..fits }));
    assert_eq!((fits.total(), fits.group(), fits.kv_width()), (192, 4, 256));
}

#[test]
fn an_argmax_chunk_divides_its_row() {
    assert_eq!([0, 1, 7, 96, 512, 151_936, 248_320].map(argmax_chunk_width), [1, 1, 1, 32, 512, 128, 512]);
    check(&argmax_reduce_src(512), "argmax_reduce", "@launch(256)\n@autotune(W in [512])\n");
    check(&argmax_finish_src(), "argmax_finish", "@launch(256)\n@autotune(S in [128])\n");
}

#[test]
fn splits_leave_whole_steps() {
    assert_eq!(mv_splits(128, 4096), 64);
    assert_eq!(mv_splits(256, 4096), 32);
    assert_eq!(mv_splits(1280, 5120), 8);
    assert_eq!(mv_splits(128 * 96, 4096), 1);
    assert_eq!(mv_splits(1, 32), 1);
    assert_eq!(q8_splits(1024, 4096), 8);
    assert_eq!(q8_splits(32, 4096), 16);
    assert_eq!(q8_splits(32, 96), 1);
    assert_eq!(q8_splits(0, 96), 1);
    assert_eq!(q8_splits(8192, 4096), 1);
    assert_eq!(q8_qmma_splits(128, 1024, 4096, 128), 8);
    assert_eq!(q8_qmma_splits(128, 2560, 4096, 128), 1);
    assert_eq!(q8_qmma_splits(128, 8192, 4096, 128), 1);
    assert_eq!(q8_qmma_splits(64, 1024, 4096, 128), 1);
    assert_eq!((qmma_width(1024), qmma_width(192), qmma_width(7)), (128, 64, 64));
    assert_eq!([12, 8, 6, 7, 1].map(delta_conv_batch), [4, 8, 2, 1, 1]);
    assert_eq!(halved(16, 12), 4);
    assert_eq!(halved(5, 7), 1);
    assert_eq!((raise(8, 0), raise(8, 3), raise(3, 4)), (1, 512, 81));
    assert_eq!((resident_blocks(256, 2), resident_blocks(64, 4)), (2, 16));
}

#[test]
fn a_normalization_takes_a_thread_a_value() {
    assert_eq!([0, 1, 4, 8, 160].map(norm_cta), [32, 32, 128, 256, 256]);
    assert_eq!(norm_q_cta(1024), Some(256));
    assert_eq!(norm_q_cta(5120), Some(256));
    assert_eq!(norm_q_cta(2560), Some(160));
    assert_eq!(norm_q_cta(128), Some(32));
    assert_eq!(norm_q_cta(96), None);

    let eps = 1e-6f32.to_bits();
    let plain = rms_norm_src(64, eps, NormForm::Plain);
    check(&plain, "rms_norm", "@launch(64)\n@autotune(NB in [2])\n@dynshared\n");
    assert!(plain.contains("1.0 / sqrt(tot / 64.0 + 0.000001000000)"), "{plain}");
    assert!(!plain.contains("tensor<i8>"));
    let q = rms_norm_src(1024, eps, NormForm::Quantized);
    check(&q, "rms_norm_q", "@launch(256)\n@autotune(NB in [32])\n@aligned(RB = NB, MB = NB, D1 = 1)\n");
    // A width no thread count divides takes the tile passes instead.
    let q = rms_norm_src(96, eps, NormForm::Quantized);
    check(&q, "rms_norm_q", "@launch(96)\n@autotune(NB in [3])\n@dynshared\n");
    assert!(q.contains("Q: tensor<i8>[RB, 32], S: tensor<f32>[RB, D1]"), "{q}");
    let gated = rms_norm_src(1024, eps, NormForm::GatedQuantized);
    assert!(gated.contains("Z: tensor<f32>[RB, 32]"), "{gated}");
    assert_eq!(gated.matches(NormForm::GatedQuantized.kernel()).count(), 1);
    assert!(NormForm::GatedQuantized.gated() && NormForm::GatedQuantized.quantized());
    assert!(!NormForm::Quantized.gated() && !NormForm::Plain.quantized());
    check(&swiglu_q_src(4), "swiglu_q", "@launch(256)\n@autotune(NB in [4])\n");
}

#[test]
fn a_row_wider_than_shared_memory_splits_evenly() {
    assert_eq!([1, 1024, 4096, 8192, 5120, 12_288].map(swiglu_2d_tile), [1, 1024, 4096, 4096, 2560, 4096]);
    assert_eq!(swiglu_2d_tile(0), 0);
    assert_eq!(swiglu_2d_tile(9973), 1);
}

#[test]
fn dense_sources_carry_their_tiles() {
    check(&matmul_rows_src(16, 16), "matmul_rows", "@launch(256)\n@autotune(TM in [16], TN in [16], TK in [16])\n");
    check(&matmul_rows_split_src(16, 8), "matmul_rows_split", "@launch(256)\n@autotune(TM in [16], TN in [8], TK in [16])\n");
    check(&matvec_blocks_src(5120, 16), "matvec_blocks", "@launch(256)\n@autotune(TN in [16], KB in [");
    check(&q8_qmma_src(128), "q8_qmma", "@launch(128)\n@autotune(TM in [64], TN in [64])\n");
}

#[test]
fn a_persistent_projection_writes_or_adds() {
    let write = q8_qdot_persist_src(3, 48, false);
    check(&write, "q8_qdot_persist", "@launch(256)\n@persistent\n@autotune(TN in [8], BLOCKS in [48], ITERS in [3])\n");
    assert!(write.contains("C[0 :+ 1, t :+ TN] = qdot_t("), "{write}");
    let add = q8_qdot_persist_src(3, 48, true);
    assert!(add.contains("C[0 :+ 1, t :+ TN] += qdot_t("), "{add}");
}

#[test]
fn a_split_contraction_has_an_arm_a_slice() {
    let src = q8_qmma_split_src(128, 1024, 4);
    check(&src, "q8_qmma_split", "@launch(128)\n@autotune(TM in [64], TN in [64])\n@aligned(M = TM, N = TN, K = 256, KB = 8)\n");
    for s in 0..4 {
        assert!(src.contains(&format!(", P{s}: tensor<f32>[M, N]")));
        assert!(src.contains(&format!("  if ps == {s} {{\n    P{s}[pm * TM :+ TM, pn * TN :+ TN] = qmma_t(A[pm * TM :+ TM, {} :+ 256], AS[pm * TM :+ TM, {} :+ 8],", s * 256, s * 8)), "{src}");
    }
    assert_eq!(src.matches("if ps == ").count(), 4);
    assert_eq!(
        q8_qmma_reduce_src(256, 3),
        "@launch(256)
@autotune(TN in [64])
@aligned(N = TN)
kernel q8_qmma_reduce(P0: tensor<f32>[M, N], P1: tensor<f32>[M, N], P2: tensor<f32>[M, N], C: tensor<f32>[M, N]) {
  let pm = program_id(0)
  let pn = program_id(1)
  C[pm :+ 1, pn * TN :+ TN] = P0[pm :+ 1, pn * TN :+ TN] + P1[pm :+ 1, pn * TN :+ TN] + P2[pm :+ 1, pn * TN :+ TN]
}
"
    );
}

#[test]
fn a_chunk_inverts_by_doubling() {
    let src = delta_wy_src(16, 128, 16);
    check(&src, "delta_wy", "@launch(256)\n@autotune(H in [16], D in [128], C in [16])\n@aligned(N = C, QW = D, WW = C)\n");
    let steps = "  var p0: tile<f32>[C, C] = dot(nn, nn)
  t = t + dot(t, p0)
  var p1: tile<f32>[C, C] = dot(p0, p0)
  t = t + dot(t, p1)
  p0 = dot(p1, p1)
  t = t + dot(t, p0)
";
    assert!(src.contains(steps), "{src}");
    check(&delta_scan_src(16, 128, 64, 16), "delta_scan", "@launch(256)\n@autotune(H in [16], D in [128], TN in [64], C in [16])\n");
    check(&delta_gates_src(16, 4), "delta_gates", "@launch(256)\n@autotune(H in [16], TR in [4])\n");
}

#[test]
fn a_convolution_scales_the_query_and_normalizes_both() {
    let shape = ConvShape {
        heads: 32,
        kv_heads: 16,
        head_dim: 128,
        kernel: 4,
        stride: 128,
        plane_stride: 2048,
        rows: 64,
        batch: 8,
        normalize: true,
        query_scale_bits: 0.125f32.to_bits(),
    };
    let src = delta_conv_src(shape);
    check(&src, "delta_conv", "@launch(256)\n@autotune(H in [32], D in [128], KS in [4], ST in [128], PS in [2048], R in [64], TB in [8])\n");
    assert!(src.contains("var hs: i32 = h % 16\n"), "{src}");
    assert!(src.contains("g = 0.125000000 / sqrt(rowsum(s * s) + 0.000000000001)"), "{src}");
    assert!(src.contains("if p == 1 {"), "{src}");
    let src = delta_conv_src(ConvShape { normalize: false, ..shape });
    assert!(src.contains("g = 0.125000000\n") && !src.contains("sqrt"), "{src}");
    assert!(!src.contains("if p == 1 {"), "{src}");
}

#[test]
fn a_transform_is_two_products_by_one_matrix() {
    let h = hadamard_matrix();
    assert_eq!(h.len(), 32 * 32);
    let unit = 32f32.sqrt().recip();
    for (at, bits) in h.iter().enumerate() {
        let (row, col) = (at / 32, at % 32);
        let want = if (row & col).count_ones() % 2 == 1 { -unit } else { unit };
        assert_eq!(*bits, want.to_bits(), "{row}, {col}");
    }
    assert_eq!(
        hadamard_src(2048, None, HadamardForm::Plain),
        "@launch(256)
@aligned(R = 32, SR = 32, D1 = 1)
kernel hadamard(X: tensor<f32>[R, 32], S: tensor<f32>[SR, 32],
                H: tensor<f32>[32, 32], Y: tensor<f32>[R, 32]) {
  let p = program_id(0)
  let b = p % 2
  var x = X[p * 32 :+ 32, :]
  var s = S[b * 32 :+ 32, :]
  var h = H[:, :]
  var t = dot(x * s, h)
  var y = dot(h, t)
  Y[p * 32 :+ 32, :] = y
}
"
    );
    let q = hadamard_src(2048, None, HadamardForm::Quantized);
    check(&q, HadamardForm::Quantized.kernel(), "@launch(256)\n@aligned(R = 32, SR = 32, D1 = 1)\n");
    assert!(q.contains("Q: tensor<i8>[R, 32], D: tensor<f32>[R, D1]"), "{q}");
    let n = hadamard_src(2048, None, HadamardForm::Normed(1e-6f32.to_bits()));
    check(&n, HadamardForm::Normed(0).kernel(), "@launch(256)\n");
    assert!(n.contains("0.000001000000") && n.contains("G: tensor<f32>[SR, 32]"), "{n}");
    let perm = HeadPerm { head_dim: 128, groups: 8, repeat: 2 };
    let regrouped = hadamard_src(2048, Some(perm), HadamardForm::Plain);
    check(&regrouped, "hadamard", "@launch(256)\n");
    assert!(regrouped.contains("for i in range(0, 8)"), "{regrouped}");
    let perm = HeadPerm { head_dim: 128, groups: 16, repeat: 3 };
    let both = hadamard_src(6144, Some(perm), HadamardForm::Normed(1e-6f32.to_bits()));
    check(&both, "rms_norm_hadamard_q", "@launch(256)\n");
    let load = "  let row = p / 6
  var xr = X[row * 192 :+ 192, :]
  var sq: tile<f32>[192, 1] = rowsum(xr * xr)
  var tot: tile<f32>[1, 1] = rowsum(transpose(sq))
  var inv: tile<f32>[1, 1] = 1.0 / sqrt(tot / 6144.0 + 0.000001000000)
  var g = G[b * 32 :+ 32, :]
  var n: tile<f32>[32, 32] = X[p * 32 :+ 32, :] * inv * g
  N[p * 32 :+ 32, :] = n
  var x: tile<f32>[32, 32] = 0.0
  for i in range(0, 8) {
    let c = b * 8 + i
    let src = ((c % 3) * 16 + c / 3) * 4
    x[i * 4 :+ 4, :] = X[row * 192 + src :+ 4, :] * inv * G[src :+ 4, :]
  }
";
    assert!(both.contains(load), "{both}");
}

#[test]
fn the_lanes_of_a_group_take_its_high_bits_in_turn() {
    let src = iq1m_matvec_src(8);
    let bytes: Vec<&str> = (0..8)
        .map(|is| {
            let line = src.lines().find(|l| l.contains(&format!("let decoded{is} ="))).unwrap();
            let high = line.split("% 256) + ((((i32(qb[:, ").nth(1).unwrap();
            high.split(' ').next().unwrap()
        })
        .collect();
    assert_eq!(bytes, ["32", "33", "32", "33", "34", "35", "34", "35"]);
    for (is, index, sign) in [(0, 1, 8), (1, 16, 128), (2, 1, 8), (3, 16, 128)] {
        let line = src.lines().find(|l| l.contains(&format!("let decoded{is} ="))).unwrap();
        assert!(line.contains(&format!(" / {index}) % 8) * 256)")), "{line}");
        assert!(line.contains(&format!(" / {sign}) % 2)")), "{line}");
    }
}

#[test]
fn routing_folds_a_tree() {
    let src = moe_topk_src(8);
    check(&src, "moe_topk", "@launch(256)\n@autotune(NE in [8], U in [8])\n@aligned(E = NE)\n");
    let steps: Vec<&str> = src.lines().filter(|l| l.contains("tmax(")).collect();
    assert_eq!(
        steps,
        [
            "    v[0 :+ 1, 0 :+ 4] = tmax(v[0 :+ 1, 4 :+ 4], v[0 :+ 1, 0 :+ 4])",
            "    v[0 :+ 1, 0 :+ 2] = tmax(v[0 :+ 1, 2 :+ 2], v[0 :+ 1, 0 :+ 2])",
            "    v[0 :+ 1, 0 :+ 1] = tmax(v[0 :+ 1, 1 :+ 1], v[0 :+ 1, 0 :+ 1])",
        ]
    );
    check(&moe_qdot_src("q4k", 8, "j", 256, 2), "q4k_moe_qdot", "@launch(256, 2)\n@autotune(TN in [64], NE in [8])\n");
    check(&moe_gateup_src("q4k", 8, 256, 2), "q4k_moe_gateup", "@launch(256, 2)\n@autotune(TN in [64], NE in [8])\n");
    check(&moe_combine_src(), "moe_combine", "@launch(256)\n@autotune(TN in [256], U in [8])\n@aligned(N = TN)\n");
}

#[test]
fn a_half_weight_changes_only_its_declaration() {
    let template = "kernel m(A: tensor<f32>[M, K], B: tensor<f32>[K, N]) {\n  B: tensor<f32>[K\n}";
    let half = "kernel m(A: tensor<f32>[M, K], B: tensor<f16>[K, N]) {\n  B: tensor<f32>[K\n}";
    assert_eq!(matmul_f16w_src(template), half);
    assert_eq!(matmul_tc_f16w_src(template), template.replace("B: tensor<f32>[K, N]", "B: tensor<f16>[K, N]"));
    assert_eq!(matmul_f16w_src("BB: tensor<f32>[K, N]B: tensor<f32>[K, N]"), "BB: tensor<f16>[K, N]B: tensor<f16>[K, N]");
    assert_eq!(matmul_f16w_src(""), "");
}
