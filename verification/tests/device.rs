//! What the device launches, keeps and reports.

use phobos_gguf::backend::device::dense::{
    matmul_dense, matmul_rows_dense, quantize_act, rms_norm_rows, DenseCall, DenseTiles,
};
use phobos_gguf::backend::device::flags::{
    env_flag, env_flag_on, qmma_formats, qmma_tile, Switches,
};
use phobos_gguf::backend::device::launch::{Call, Descriptor, Grid, Kernels, Recorder};
use phobos_gguf::backend::device::memory::{
    alloc_written_now, attn_grow, check_distinct, dense_scratch, grow_scratch, identity, partials_grow, ActSize,
    ActSlots, DenseScratch, Grow, HandleError, Slot, SlotKind, Slots,
    Source,
};
use phobos_gguf::backend::device::plan::{div_up, Kernel, Place, Step, Steps, Table};
use phobos_gguf::backend::device::q8::{project_q8, ProjectError, Q8Call};
use phobos_gguf::backend::device::raw::{
    project_raw, project_raw_qmma, raw_qmma_eligible, QmmaTile, RawCall, RawError,
};
use phobos_gguf::backend::device::residency::{
    mark_buffers, mark_pass_vram, mib_tenths_text, mib_text, note_big_alloc, note_big_const,
    note_dense_pass,
    trim_after_dense, trim_after_prompt, vram_mark, Accounts, AllocHist, ArenaUse, OwnedQuant, Trim,
};
use phobos_gguf::backend::device::upload::{
    keep_raw, raw_payload, raw_quant_is, upload_raw, DeviceRaw, RawPlanes, RawUpload,
};
use phobos_gguf::backend::fuse::Scratch;
use phobos_gguf::backend::named::Named;
use phobos_gguf::backend::{Buf, HBuf, QAct, RawBuf};
use phobos_gguf::quant::grouped::group_rows;
use phobos_gguf::quant::Quant;

/// A step in a line: the kernel and its grid, then what it reads and writes.
fn told(steps: &Steps) -> Vec<String> {
    steps
        .list
        .iter()
        .map(|step| match step {
            Step::Launch { kernel, operands, grid } => {
                let places: Vec<String> = operands
                    .iter()
                    .map(|o| format!("{:?}+{}[{}x{}]", o.place, o.skip, o.rows, o.cols))
                    .collect();
                format!("{} {grid:?} {}", kernel.name(), places.join(" "))
            }
            Step::Quantize { rows, k, transient } => format!("quantize {rows} {k} {transient}"),
            Step::Partials { len } => format!("partials {len}"),
            Step::Pad { len } => format!("pad {len}"),
            Step::Unpad { padded, width } => format!("unpad {padded} {width}"),
            Step::Expand => "expand".to_string(),
            Step::GiveBack => "give back".to_string(),
        })
        .collect()
}

fn kernels(steps: &Steps) -> Vec<Kernel> {
    steps
        .list
        .iter()
        .filter_map(|step| match step {
            Step::Launch { kernel, .. } => Some(*kernel),
            _ => None,
        })
        .collect()
}

const Q8: Q8Call = Q8Call {
    m: 1,
    k: 4096,
    n: 1024,
    stored: Some(1024),
    accumulate: false,
    fused: true,
    persist: false,
    split: false,
    narrow: None,
};

#[test]
fn a_decode_row_is_one_launch_of_a_warp_an_output() {
    let steps = project_q8(Q8).unwrap();
    assert_eq!(
        told(&steps),
        ["q8_qdot (128, 1, 1) Act+0[1x4096] ActScales+0[1x128] Weight+0[1024x4096] RowScales+0[1024x128] Out+0[1x1024]"]
    );
    let add = project_q8(Q8Call { accumulate: true, ..Q8 }).unwrap();
    assert_eq!(kernels(&add), [Kernel::Q8Qdot { accumulate: true }]);
    let persist = project_q8(Q8Call { persist: true, ..Q8 }).unwrap();
    assert_eq!(kernels(&persist), [Kernel::Q8QdotPersist { accumulate: false }]);
}

#[test]
fn a_prompt_is_cut_in_bands_of_ever_smaller_tiles() {
    let steps = project_q8(Q8Call { m: 128 + 64 + 8 + 2, ..Q8 }).unwrap();
    assert_eq!(
        kernels(&steps),
        [
            Kernel::Q8QmmaDeep { wide: 128 },
            Kernel::Q8Qmma,
            Kernel::Q8Mma { even: true },
            Kernel::Q8Qdot { accumulate: false },
            Kernel::Q8Qdot { accumulate: false },
        ]
    );
    let told = told(&steps);
    assert!(told[0].starts_with("q8_qmma (1, 8, 1) Act+0[128x4096]"), "{told:?}");
    assert!(told[1].starts_with("q8_qmma (1, 16, 1) Act+524288[64x4096]"), "{told:?}");
    assert!(told[2].starts_with("q8_mma (1, 16, 1) Act+786432[8x4096]"), "{told:?}");
    assert!(told[4].contains(&format!("Out+{}[1x1024]", 201 * 1024)), "{told:?}");
    // Without the fused kernels the tile of eight takes every whole eight rows.
    let plain = project_q8(Q8Call { m: 16, fused: false, ..Q8 }).unwrap();
    assert_eq!(kernels(&plain), [Kernel::Q8Mma { even: true }]);
}

#[test]
fn a_starved_grid_splits_its_contraction() {
    let steps = project_q8(Q8Call { m: 128, split: true, ..Q8 }).unwrap();
    assert_eq!(
        kernels(&steps),
        [
            Kernel::Q8QmmaSplit { wide: 128, k: 4096, splits: 8 },
            Kernel::Q8QmmaReduce { wide: 128, k: 4096, splits: 8 },
        ]
    );
    assert!(told(&steps).contains(&format!("partials {}", 8 * 128 * 1024)));
    let narrow = project_q8(Q8Call { m: 128, split: true, narrow: Some(32), ..Q8 }).unwrap();
    assert_eq!(kernels(&narrow), [Kernel::Q8QmmaNarrow { tn: 32 }]);
}

#[test]
fn a_row_whose_outputs_are_no_whole_warps_splits_or_walks() {
    let call = Q8Call { n: 36, stored: Some(36), ..Q8 };
    let steps = project_q8(call).unwrap();
    assert_eq!(kernels(&steps), [Kernel::Q8Split { even: false }, Kernel::Q8Reduce { even: false }]);
    let steps = project_q8(Q8Call { k: 32, ..call }).unwrap();
    assert_eq!(kernels(&steps), [Kernel::Q8Dp4a { even: false }]);
}

#[test]
fn a_quantized_projection_names_what_is_wrong() {
    let e = project_q8(Q8Call { k: 33, ..Q8 }).err().unwrap();
    assert_eq!(e, ProjectError::Ragged { k: 33 });
    assert_eq!(e.message(), "matmul_quant needs k (33) to be a multiple of 32");
    let e = project_q8(Q8Call { stored: None, ..Q8 }).err().unwrap();
    assert_eq!(e.message(), "use of an unknown quantized weight handle");
    let e = project_q8(Q8Call { stored: Some(7), ..Q8 }).err().unwrap();
    assert_eq!(e.message(), "quantized weight was uploaded with n = 7, used with n = 1024");
}

const RAW: RawCall = RawCall {
    m: 1,
    k: 512,
    n: 64,
    quant: Quant::IQ2_XS,
    stored: Some(64),
    blocks: 2,
    minima: false,
    quantized: false,
    dp4a: true,
    wide_tn: 64,
    max_k: 1 << 20,
};

#[test]
fn a_raw_decode_row_runs_in_integers() {
    let steps = project_raw(RAW).unwrap();
    assert_eq!(told(&steps)[0], "quantize 1 512 false");
    assert_eq!(kernels(&steps), [Kernel::RawI8 { quant: Quant::IQ2_XS, narrow: false }]);
    let steps = project_raw(RawCall { quantized: true, n: 16, stored: Some(16), ..RAW }).unwrap();
    assert_eq!(kernels(&steps), [Kernel::RawI8 { quant: Quant::IQ2_XS, narrow: true }]);
    assert_eq!(steps.list.len(), 1);
    // A ragged K-quant row is padded to whole tiles, and its head copied out.
    let ragged = RawCall { quant: Quant::Q4_K, n: 50, stored: Some(50), quantized: true, ..RAW };
    let told = told(&project_raw(ragged).unwrap());
    assert_eq!((told[0].as_str(), told[2].as_str()), ("pad 64", "unpad 64 50"));
    assert!(told[1].starts_with("q4k_qdot_i8_matvec (4, 1, 1) "), "{told:?}");
    assert!(told[1].ends_with("Padded+0[1x64]"), "{told:?}");
}

#[test]
fn a_raw_prompt_decodes_as_it_goes() {
    let steps = project_raw(RawCall { m: 3, ..RAW }).unwrap();
    assert_eq!(kernels(&steps), [Kernel::RawMatvec { quant: Quant::IQ2_XS }]);
    let steps = project_raw(RawCall { dp4a: false, ..RAW }).unwrap();
    assert_eq!(kernels(&steps), [Kernel::RawQdot { quant: Quant::IQ2_XS }]);
    let q2 = RawCall { quant: Quant::Q2_K, minima: true, m: 3, ..RAW };
    assert!(told(&project_raw(q2).unwrap())[0].contains("Minima+0[64x2]"));
    let q4 = RawCall { quant: Quant::Q4_K, m: 3, ..RAW };
    assert_eq!(told(&project_raw(q4).unwrap()), ["expand"]);
}

#[test]
fn a_raw_projection_names_what_is_wrong() {
    let message = |call: RawCall| project_raw(call).err().unwrap().message();
    assert_eq!(message(RawCall { stored: None, ..RAW }), "use of an unknown raw weight handle");
    assert_eq!(
        message(RawCall { stored: Some(9), ..RAW }),
        "raw weight was uploaded with n = 9, used with n = 64"
    );
    assert_eq!(
        message(RawCall { quant: Quant::Q5_K, max_k: 256, ..RAW }),
        "a Q5_K decode matvec holds at most k = 256, got 512"
    );
    assert_eq!(message(RawCall { quant: Quant::Q8_0, ..RAW }), "no raw kernel launches Q8_0");
    let tile = QmmaTile { tm: 128, tn: 64, cta: 64 };
    let e = project_raw_qmma(RawCall { quant: Quant::IQ3_S, m: 128, ..RAW }, tile).err().unwrap();
    assert_eq!(e, RawError::Unfused { quant: Quant::IQ3_S });
    assert_eq!(e.message(), "project_raw_qmma has no fused kernel for IQ3_S");
}

#[test]
fn a_fused_prompt_takes_whole_tiles() {
    let tile = QmmaTile { tm: 128, tn: 64, cta: 64 };
    let steps = project_raw_qmma(RawCall { m: 256, n: 128, stored: Some(128), ..RAW }, tile).unwrap();
    let told = told(&steps);
    assert_eq!(told[..2], ["give back", "quantize 256 512 true"]);
    assert!(told[2].starts_with("iq2xs_qmma (2, 2, 1) Act+0[256x512] ActScales+0[256x16] Bytes+0[128x"), "{told:?}");
    assert!(told[2].contains(&format!("{:?}", Place::Table(Table::Iq2xsGridPacked))), "{told:?}");

    let on = [Quant::IQ1_S, Quant::IQ2_XS];
    let fits = |quant: Quant, m: usize, k: usize, n: usize| raw_qmma_eligible(&on, quant, tile, m, k, n);
    assert!(fits(Quant::IQ2_XS, 128, 512, 64));
    assert!(!fits(Quant::IQ2_S, 128, 512, 64));
    assert!(!fits(Quant::IQ2_XS, 127, 512, 64));
    assert!(!fits(Quant::IQ2_XS, 128, 500, 64));
    assert!(!fits(Quant::IQ2_XS, 128, 512, 63));
    assert!(!raw_qmma_eligible(&on, Quant::IQ2_XS, QmmaTile { tm: 0, ..tile }, 128, 512, 64));
}

#[test]
fn a_dense_projection_takes_the_tensor_cores_first() {
    let tiles = DenseTiles { tc_m: 64, tc_n: 64, tc_k: 32, tile_m: 16, tile_n: 32 };
    let steps = matmul_dense(DenseCall { m: 80, k: 64, n: 128 }, tiles);
    assert_eq!(
        told(&steps),
        [
            "matmul_tc (1, 2, 1) Input+0[64x64] Dense+0[64x128] Out+0[64x128]",
            "matmul (1, 4, 1) Input+4096[16x64] Dense+0[64x128] Out+8192[16x128]",
        ]
    );
    assert_eq!(kernels(&steps)[1], Kernel::Matmul { even: true });
    let steps = matmul_dense(DenseCall { m: 1, k: 4096, n: 256 }, tiles);
    assert_eq!(
        told(&steps),
        [
            "partials 8192",
            "matvec_split (2, 32, 1) Input+0[1x4096] Dense+0[4096x256] Partials+0[32x256]",
            "q8_reduce (2, 1, 1) Partials+0[32x256] Out+0[1x256]",
        ]
    );
    let steps = matmul_dense(DenseCall { m: 1, k: 32, n: 100 }, tiles);
    assert_eq!(kernels(&steps), [Kernel::Matvec { even: false }]);
}

#[test]
fn a_row_major_weight_is_contracted_where_it_lies() {
    let steps = matmul_rows_dense(DenseCall { m: 1, k: 64, n: 10 }, true).unwrap();
    assert_eq!(told(&steps), ["matvec_blocks (5, 1, 1) Input+0[2x32] Dense+0[20x32] Out+0[10x1]"]);
    let steps = matmul_rows_dense(DenseCall { m: 18, k: 256, n: 32 }, true).unwrap();
    assert_eq!(
        told(&steps),
        [
            "partials 4096",
            "matmul_rows_split (1, 2, 8) Input+0[16x256] Dense+0[32x256] Partials+0[128x32]",
            "q8_reduce (4, 1, 1) Partials+0[8x512] Out+0[1x512]",
            "matmul_rows (2, 2, 1) Input+4096[2x256] Dense+0[32x256] Out+512[2x32]",
        ]
    );
    let steps = matmul_rows_dense(DenseCall { m: 1, k: 64, n: 0 }, true).unwrap();
    assert_eq!(told(&steps), ["matvec_blocks (0, 1, 1) Input+0[2x32] Dense+0[0x32] Out+0[0x1]"]);
    assert!(matmul_rows_dense(DenseCall { m: 18, k: 64, n: 0 }, false).is_err());
    let e = matmul_rows_dense(DenseCall { m: 1, k: 64, n: 10 }, false).err().unwrap();
    assert_eq!(e.message(), "a [64, 10] weight is not one the row-major contraction takes");
}

#[test]
fn an_activation_is_quantized_and_normalized_in_blocks() {
    let steps = quantize_act(2, 64);
    assert_eq!(steps.list.len(), 1);
    assert!(matches!(kernels(&steps)[0], Kernel::Quantize { .. }));
    let eps = 1e-6f32.to_bits();
    let steps = rms_norm_rows(3, 64, eps, false).unwrap();
    assert_eq!(kernels(&steps), [Kernel::Norm { width: 64, eps_bits: eps }]);
    let steps = rms_norm_rows(3, 64, eps, true).unwrap();
    assert_eq!(kernels(&steps), [Kernel::NormQ { width: 64, eps_bits: eps }]);
    assert!(told(&steps)[0].contains(" (3, 1, 1) Input+0[6x32] Gain+0[2x32] Out+0[6x32]"), "{:?}", told(&steps));
    let e = rms_norm_rows(3, 65, eps, false).err().unwrap();
    assert_eq!(e.message(), "a normalization needs a width (65) that is a multiple of 32");
    assert_eq!((div_up(0, 8), div_up(8, 8), div_up(9, 8)), (0, 1, 2));
    assert_eq!(Place::Act.element_bytes(), 1);
    assert_eq!(Place::Input.element_bytes(), 4);
    assert_eq!(Place::Headers.element_bytes(), 2);
}

#[test]
fn a_handle_is_reused_once_it_is_given_up() {
    let mut slots = Slots::new();
    let slot = |base: u64, len: usize| Slot { kind: SlotKind::Owned, base, len };
    let a = slots.store_slot(slot(0x1000, 8));
    let b = slots.store_slot(slot(0x2000, 4));
    assert_eq!((a, b), (Buf(0), Buf(1)));
    assert_eq!(slots.ptr(a, 8), Ok(0x1020));
    assert_eq!(slots.ptr(a, 9), Err(HandleError::Past { elements: 9 }));
    assert_eq!(slots.hptr(HBuf(1), 8), Ok(0x2010));
    assert_eq!(slots.hptr(HBuf(1), 9), Err(HandleError::Past { elements: 9 }));
    assert_eq!(slots.len_of(b), Ok(4));
    assert_eq!(slots.discard(a), Some(slot(0x1000, 8)));
    assert_eq!(slots.discard(a), None);
    assert_eq!(slots.ptr(a, 0), Err(HandleError::Released));
    assert_eq!(slots.store_slot(slot(0x3000, 2)), a);
    assert_eq!(slots.ptr(b, 0), Ok(0x2000));
    assert_eq!(HandleError::Released.message(), "use of a released buffer handle");
    assert_eq!(HandleError::Past { elements: 9 }.message(), "offset 9 is past the buffer");
}

#[test]
fn transient_activations_turn_in_a_ring() {
    let mut acts = ActSlots::new();
    let size = |bytes: usize, scales: usize| ActSize { bytes, scales };
    let grown = |gap: usize, bytes: usize, scales: usize| Ok(Some(Grow { gap, size: size(bytes, scales) }));
    assert_eq!(acts.act_slot_transient(2, 64), (QAct(0), grown(0, 128, 4)));
    // The exclusive slots come after the ring, whose gaps get a byte apiece.
    assert_eq!(acts.act_slot(1, 32), (QAct(4), grown(3, 32, 1)));
    assert_eq!(acts.sizes, [size(128, 4), size(1, 1), size(1, 1), size(1, 1), size(32, 1)]);
    for at in 1..4 {
        assert_eq!(acts.act_slot_transient(1, 32).0, QAct(at));
    }
    assert_eq!(acts.act_slot_transient(1, 64), (QAct(0), Ok(None)));
    assert_eq!(acts.act_slot(1, 32).0, QAct(5));
    let e = acts.act_slot(1, 33).1.unwrap_err();
    assert_eq!(e.message(), "a quantized activation needs k (33) to be a multiple of 32");
    assert_eq!(acts.act_slot_at(0, 3, 64), grown(0, 192, 6));
}

#[test]
fn scratch_grows_where_it_is_short() {
    let pool = [ActSize { bytes: 10, scales: 2 }, ActSize { bytes: 10, scales: 2 }];
    let need = [
        Scratch { bytes: 10, scales: 2 },
        Scratch { bytes: 10, scales: 3 },
        Scratch { bytes: 1, scales: 1 },
    ];
    assert_eq!(grow_scratch(&pool, &need), [1, 2]);
    assert!(partials_grow(None, 0) && partials_grow(Some(3), 4) && !partials_grow(Some(4), 4));
    assert!(attn_grow(None, 1, 1));
    assert!(!attn_grow(Some(ActSize { bytes: 64, scales: 8 }), 4, 16));
    assert!(attn_grow(Some(ActSize { bytes: 63, scales: 8 }), 4, 16));
    assert!(attn_grow(Some(ActSize { bytes: 64, scales: 7 }), 4, 16));
    assert!(matches!(dense_scratch(false, Some(9), 9), DenseScratch::Own));
    assert!(matches!(dense_scratch(true, None, 9), DenseScratch::First));
    assert!(matches!(dense_scratch(true, Some(9), 9), DenseScratch::Reuse));
    assert!(matches!(dense_scratch(true, Some(8), 9), DenseScratch::Replace));
    assert_eq!(alloc_written_now(true), Source::Fresh);
    assert_eq!(alloc_written_now(false), Source::Pool);
    assert!(check_distinct(Buf(3), &[Buf(1), Buf(2)]));
    assert!(!check_distinct(Buf(2), &[Buf(1), Buf(2)]));
    let one = 1f32.to_bits();
    assert_eq!(identity(2), [one, 0, 0, one]);
}

#[test]
fn flags_read_as_the_environment_spells_them() {
    for on in ["1", "on", "yes", "true"] {
        assert!(env_flag(Some(on)) && env_flag_on(Some(on)));
    }
    for off in ["0", "off", "no", "false"] {
        assert!(!env_flag(Some(off)) && !env_flag_on(Some(off)));
    }
    // Anything else leaves a switch as it was.
    assert!(!env_flag(None) && !env_flag(Some("")) && env_flag_on(None) && env_flag_on(Some("")));
    let all = [
        Quant::IQ1_S,
        Quant::IQ2_XXS,
        Quant::IQ2_S,
        Quant::IQ2_XS,
        Quant::IQ3_XXS,
        Quant::IQ3_S,
    ];
    for value in [None, Some("1"), Some("")] {
        assert_eq!(qmma_formats(value), all);
    }
    assert_eq!(qmma_formats(Some(",")), []);
    assert_eq!(qmma_formats(Some("iq1s")), [Quant::IQ1_S]);
    assert_eq!(qmma_formats(Some("IQ2_XS,iq2s,nonsense")).len(), 2);
    let default = QmmaTile { tm: 128, tn: 64, cta: 64 };
    assert_eq!(qmma_tile(None), default);
    assert_eq!(qmma_tile(Some("64x32x128")), QmmaTile { tm: 64, tn: 32, cta: 128 });
    assert_eq!(qmma_tile(Some("64x32")), default);
    assert_eq!(qmma_tile(Some("64xyx128")), default);
    let mut s = Switches {
        fused_mlp: true,
        fused_project: false,
        fused_mix: true,
        fused_attn_out: false,
        fused_store2d: true,
        iq_dp4a: true,
        raw_qmma: true,
    };
    s.set_iq_dp4a(false);
    s.set_raw_qmma(false);
    assert!(!s.iq_dp4a && !s.raw_qmma && s.fused_mlp);
    s.set_fused(false);
    assert!(!s.fused_mlp && !s.fused_project && !s.fused_mix && !s.fused_attn_out && !s.fused_store2d);
    s.set_fused(true);
    assert!(s.fused_mlp && s.fused_project && s.fused_mix && s.fused_attn_out && s.fused_store2d);
}

const MIB: u64 = 1 << 20;

#[test]
fn sizes_round_as_a_float_would_print() {
    for bytes in [0, 1, MIB / 2, MIB / 2 + 1, MIB, 3 * MIB / 2, 5 * MIB / 2, 7 * MIB + 12345, (1 << 40) + 777] {
        assert_eq!(mib_text(bytes), format!("{:.0}", bytes as f64 / MIB as f64), "{bytes}");
        assert_eq!(mib_tenths_text(bytes), format!("{:.1}", bytes as f64 / MIB as f64), "{bytes}");
    }
}

#[test]
fn the_residency_report_adds_up() {
    let usage = |held: u64, used: u64, slabs: usize| ArenaUse { held: held * MIB, used: used * MIB, slabs };
    let a = Accounts {
        slots: vec![None, Some(1 << 20), Some(4 << 20), Some(10), Some(256 << 10)],
        constants: 3,
        quants: 4,
        raws: 5,
        arena: usage(100, 90, 2),
        hot: usage(10, 9, 1),
        state: usage(20, 19, 3),
        act: vec![ActSize { bytes: 1 << 20, scales: 256 << 10 }],
        fused: vec![ActSize { bytes: 2 << 20, scales: 0 }],
        owned: vec![OwnedQuant { bytes: 3 << 20, scales: 0, row_scales: 256 << 10 }],
    };
    assert_eq!(
        mark_buffers(&a),
        [
            "[vram]   live buffers over 1 MiB: 3 of them, 21 MiB; largest [16, 4, 1] MiB",
            "[vram]   slots over 8 MiB: [\"#2 4194304 f32 = 16 MiB\"]",
            "[vram]   handles: 3 constants, 4 quants, 5 raw, 2 slabs, 1 hot slabs",
            "[vram]   state 20 MiB (19 used) in 3 slabs | hot 10 (9) | owned quants 4 MiB | accounted 159 MiB",
            "[vram]   live 4 bufs 21 MiB | arena 100 MiB (90 used) in 2 slabs (+1 hot) | act 2 | fused 2 MiB",
        ]
    );
}

#[test]
fn a_pass_is_marked_now_and_then() {
    let mut marks = 0;
    let marked: Vec<usize> = (0..70).filter_map(|_| mark_pass_vram(&mut marks)).collect();
    assert_eq!(marked, [0, 1, 2, 3, 32, 64]);
    let mut last = 0;
    let trims: Vec<bool> = [64, 64, 1, 1, 8].map(|rows| trim_after_prompt(&mut last, rows)).to_vec();
    assert_eq!(trims, [false, false, true, false, false]);
    let mut filled = true;
    assert!(matches!(trim_after_dense(&mut filled, true), Trim::All));
    assert!(matches!(trim_after_dense(&mut filled, true), Trim::Nothing));
    note_dense_pass(&mut filled);
    assert!(matches!(trim_after_dense(&mut filled, false), Trim::Slots));
    assert!(!filled);
}

#[test]
fn the_free_list_is_told_by_what_it_holds() {
    let mut hist = AllocHist::new();
    hist.note_alloc(1 << 20, 1);
    hist.note_alloc(1 << 20, -1);
    hist.note_alloc(1 << 20, -2);
    hist.note_alloc(1 << 10, 1);
    hist.note_alloc(1 << 10, -1);
    hist.note_alloc(5 << 20, 3);
    hist.note_alloc(3 << 20, -1);
    let lines = hist.mark_alloc_hist();
    assert_eq!(lines[0], "[vram]   free list: 2 distinct lengths, 20 MiB");
    assert_eq!(lines[1], "[vram]     1 x 3145728 elements = 12.0 MiB");
    assert_eq!(lines[2], "[vram]     2 x 1048576 elements = 8.0 MiB");
    assert_eq!(lines.len(), 3);
    assert_eq!(note_big_const("\"w\"", 1 << 20), None);
    assert_eq!(note_big_const("\"w\"", 4 << 20).unwrap(), "[vram] constant \"w\" 16 MiB (4194304 f32)");
    assert_eq!(note_big_alloc(4 << 20, "src/a.rs:3").unwrap(), "[vram] alloc 16 MiB (4194304 f32) at src/a.rs:3");
    assert_eq!(vram_mark("load", 100 * MIB, 200 * MIB, None), "[vram] load: 100 of 200 MiB free");
    assert_eq!(
        vram_mark("load", 100 * MIB, 200 * MIB, Some(160 * MIB)),
        "[vram] load: 100 of 200 MiB free, -60 MiB since the last mark"
    );
}

#[test]
fn a_raw_weight_is_sent_once() {
    let planes = || RawPlanes { bytes: vec![7; 2 * 66], d: vec![1, 2], dmin: vec![] };
    let mut known: Named<DeviceRaw> = Named::new();
    let upload = upload_raw(&known, "w", planes(), Quant::IQ2_XXS, 256, 2);
    let RawUpload::Send { planes: sent, nb, minimums } = upload else {
        panic!("an unknown weight is sent")
    };
    assert_eq!((nb, minimums), (1, false));
    assert_eq!(sent.d, [1, 2]);
    let at = DeviceRaw { bytes: 0x10, d: 0x20, dmin: None, n: 2, nb: 1, quant: Quant::IQ2_XXS };
    let w = keep_raw(&mut known, "w", at);
    assert_eq!(w, RawBuf(0));
    assert!(matches!(upload_raw(&known, "w", planes(), Quant::IQ2_XXS, 256, 2), RawUpload::Known(RawBuf(0))));
    assert!(raw_quant_is(&known, w, Quant::IQ2_XXS));
    assert!(!raw_quant_is(&known, w, Quant::IQ2_XS));
    assert!(!raw_quant_is(&known, RawBuf(1), Quant::IQ2_XXS));
}

#[test]
fn a_grouped_format_is_sent_in_row_tiles() {
    let unit = Quant::Q4_K.device_block_bytes();
    let bytes: Vec<u8> = (0..3 * 2 * unit).map(|i| i as u8).collect();
    let d: Vec<u16> = (0..6).collect();
    let planes = RawPlanes { bytes: bytes.clone(), d: d.clone(), dmin: vec![] };
    let sent = raw_payload(planes, Quant::Q4_K, 3, 2);
    assert!(Quant::Q4_K.grouped_rows());
    assert_eq!(sent.bytes, group_rows(&bytes, 3, 2, unit));
    assert_eq!(sent.d, group_rows(&d, 3, 2, 1));
    let planes = RawPlanes { bytes: bytes.clone(), d: d.clone(), dmin: vec![9] };
    let same = raw_payload(planes, Quant::IQ2_S, 3, 2);
    assert_eq!((same.bytes, same.d, same.dmin), (bytes, d, vec![9]));
}

#[test]
fn a_recorded_pass_replays_its_launches_in_order() {
    let mut r = Recorder::new();
    let operands = [Descriptor { ptr: 0x1000, rows: 2, cols: 3 }];
    let grid = Grid { x: 2, y: 3, z: 4 };
    let call = |func: u64| Call { name: "k", func, grid, shared: 5, threads: 256, operands: &operands };
    let now = r.launch(call(1)).unwrap();
    assert_eq!((now.func, now.shared, now.threads, now.operands.len()), (1, 5, 256, 1));
    r.recording = true;
    r.reporting = true;
    assert!(r.launch(call(2)).is_none() && r.launch(call(3)).is_none());
    assert_eq!(r.pending[..r.recorded].iter().map(|l| l.func).collect::<Vec<_>>(), [2, 3]);
    assert_eq!((r.report[1].func, r.report[1].blocks, r.report[1].name.as_str()), (3, 24, "k"));
    // A pass over again writes where the last one did.
    r.recorded = 0;
    assert!(r.launch(call(9)).is_none());
    assert_eq!(r.pending.iter().map(|l| l.func).collect::<Vec<_>>(), [9, 3]);
}

#[test]
fn a_kernel_keeps_what_was_found_of_it() {
    let mut k = Kernels::new();
    assert_eq!((k.shared_of(7), k.threads_of(7)), (0, None));
    assert!(!k.note_shared(7, 48, 48));
    assert!(k.note_shared(8, 49, 48));
    assert_eq!((k.shared_of(7), k.shared_of(8)), (48, 49));
    assert_eq!(k.note_threads(7, 256, 128), 128);
    assert_eq!(k.note_threads(8, 256, 1024), 256);
    assert_eq!((k.threads_of(7), k.threads_of(8)), (Some(128), Some(256)));
}
