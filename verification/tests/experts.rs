//! Expert stacks read out of a file's data.

use std::sync::Arc;

use phobos_gguf::experts::{ExpertSet, ExpertStack, StackError};
use phobos_gguf::gguf::{GgmlType, Gguf, TensorInfo};
use phobos_gguf::quant::grouped::{group_rows, group_rows_into, grouped_len};
use phobos_gguf::quant::Quant;

fn xorshift(seed: u64) -> impl FnMut() -> u64 {
    let mut state = seed.wrapping_mul(0x9e37_79b9_7f4a_7c15) | 1;
    move || {
        state ^= state << 13;
        state ^= state >> 7;
        state ^= state << 17;
        state
    }
}

/// A normal number in half precision, the nearest, ties to even.
fn f32_to_f16(v: f32) -> u16 {
    let bits = v.to_bits();
    let (exponent, mantissa) = ((bits >> 23) - 127 + 15, bits & 0x7f_ffff);
    let half = (exponent << 10) | (mantissa >> 13);
    let rest = mantissa & 0x1fff;
    (half + u32::from(rest > 0x1000 || (rest == 0x1000 && half & 1 == 1))) as u16
}

/// `count` experts of `[n, k]` Q4_K blocks with deterministic contents:
/// small finite headers, pseudo-random scales and quants.
fn q4k_stack(count: usize, n: usize, k: usize, seed: u64) -> Vec<u8> {
    let mut words = xorshift(seed);
    let mut next = move || (words() >> 56) as u8;
    let blocks = count * n * k / 256;
    let mut out = Vec::with_capacity(blocks * 144);
    for _ in 0..blocks {
        let d = f32_to_f16(0.001 + f32::from(next()) / 4096.0);
        let dmin = f32_to_f16(0.0005 + f32::from(next()) / 8192.0);
        out.extend(d.to_le_bytes());
        out.extend(dmin.to_le_bytes());
        out.extend((0..140).map(|_| next()));
    }
    out
}

/// A file of tensors given by name, extents, type and bytes.
fn file(tensors: &[(&str, &[u64], GgmlType, &[u8])]) -> Gguf {
    let mut data = Vec::new();
    let mut infos = Vec::new();
    for (name, dims, ggml_type, bytes) in tensors {
        infos.push(TensorInfo {
            name: name.to_string(),
            dims: dims.to_vec(),
            ggml_type: *ggml_type,
            offset: data.len(),
        });
        data.extend_from_slice(bytes);
    }
    Gguf { tensors: infos, data: Arc::new(data) }
}

const Q4_K: GgmlType = GgmlType::Quantized(Quant::Q4_K);

/// A file holding one `[count, n, k]` Q4_K stack under `name`.
fn stack_file(name: &str, count: usize, n: usize, k: usize, seed: u64) -> (Gguf, Vec<u8>) {
    let bytes = q4k_stack(count, n, k, seed);
    (file(&[(name, &[k as u64, n as u64, count as u64], Q4_K, &bytes)]), bytes)
}

#[test]
fn a_stack_addresses_experts_by_stride() {
    let (count, n, k) = (3, 16, 512);
    let (gguf, bytes) = stack_file("blk.0.ffn_gate_exps.weight", count, n, k, 7);
    let stack = ExpertStack::load(&gguf, "blk.0.ffn_gate_exps.weight", count, n, k)
        .ok()
        .unwrap();
    assert_eq!(stack.quant(), Quant::Q4_K);
    assert_eq!(stack.blocks_per_row(), 2);
    assert_eq!(stack.expert_bytes(), n * 2 * 144);
    assert_eq!(stack.byte_len(), bytes.len());
    for e in 0..count {
        let stride = stack.expert_bytes();
        assert_eq!(stack.expert(e), &bytes[e * stride..(e + 1) * stride]);
    }
}

#[test]
fn a_stack_outlives_the_file_it_came_from() {
    let (gguf, bytes) = stack_file("w", 2, 8, 256, 11);
    let stack = ExpertStack::load(&gguf, "w", 2, 8, 256).ok().unwrap();
    drop(gguf);
    assert_eq!(stack.expert(1), &bytes[8 * 144..]);
}

#[test]
fn a_stack_groups_an_expert_as_the_upload_does() {
    let (count, n, k) = (2, 24, 512);
    let (gguf, _) = stack_file("w", count, n, k, 5);
    let stack = ExpertStack::load(&gguf, "w", count, n, k).ok().unwrap();
    let mut got = vec![0u8; stack.grouped_bytes()];
    stack.grouped_into(1, &mut got);
    // Q4_K keeps its whole block on the device, so the reference regroups
    // the file bytes as they are.
    assert_eq!(got, group_rows(stack.expert(1), n, 2, 144));
    // 24 rows pad to 64: the grouped buffer is 64 rows of 2 blocks.
    assert_eq!(got.len(), 64 * 2 * 144);
}

#[test]
fn a_stack_refuses_the_wrong_extents_and_a_dense_type() {
    let (gguf, _) = stack_file("w", 2, 8, 256, 1);
    let err = ExpertStack::load(&gguf, "w", 2, 16, 256).err().unwrap();
    assert!(err.message().contains("expected [256, 16, 2]"), "{}", err.message());

    let gguf = file(&[("w", &[4, 2, 1], GgmlType::F32, &[0u8; 32])]);
    let err = ExpertStack::load(&gguf, "w", 1, 2, 4).err().unwrap();
    assert!(err.message().contains("not a quantized format"), "{}", err.message());
}

#[test]
fn a_set_loads_its_three_stacks() {
    let (count, d_model, d_ff) = (2, 256, 512);
    let (wide, tall) = (
        [d_model as u64, d_ff as u64, count as u64],
        [d_ff as u64, d_model as u64, count as u64],
    );
    let gguf = file(&[
        ("blk.0.ffn_gate_exps.weight", &wide, Q4_K, &q4k_stack(count, d_ff, d_model, 1)),
        ("blk.0.ffn_up_exps.weight", &wide, Q4_K, &q4k_stack(count, d_ff, d_model, 2)),
        ("blk.0.ffn_down_exps.weight", &tall, Q4_K, &q4k_stack(count, d_model, d_ff, 3)),
    ]);
    let set = ExpertSet::load(&gguf, "blk.0", count, d_model, d_ff).ok().unwrap();
    assert_eq!(set.count(), count);
    assert_eq!((set.gate.n(), set.gate.k()), (d_ff, d_model));
    assert_eq!((set.down.n(), set.down.k()), (d_model, d_ff));
    assert_eq!(set.expert_bytes(), 3 * (d_ff * d_model / 256) * 144);
    assert_eq!(set.byte_len(), count * set.expert_bytes());
}

#[test]
fn every_refusal_of_a_stack_is_told_apart() {
    let (gguf, _) = stack_file("w", 2, 8, 256, 1);
    let missing = ExpertStack::load(&gguf, "v", 2, 8, 256).err().unwrap();
    assert!(matches!(missing, StackError::Missing { .. }));
    assert_eq!(missing.message(), "missing tensor 'v'");

    let extents = ExpertStack::load(&gguf, "w", 2, 16, 256).err().unwrap();
    assert_eq!(
        extents.message(),
        "tensor 'w' has ggml extents [256, 8, 2], expected [256, 16, 2]"
    );

    let gguf = file(&[("w", &[100, 8, 2], Q4_K, &[])]);
    let ragged = ExpertStack::load(&gguf, "w", 2, 8, 100).err().unwrap();
    assert_eq!(ragged.message(), "'w': a Q4_K block of 256 does not divide k = 100");

    let gguf = file(&[("w", &[256, 8, 2], Q4_K, &[0u8; 100])]);
    let short = ExpertStack::load(&gguf, "w", 2, 8, 256).err().unwrap();
    assert!(matches!(short, StackError::OutOfFile { .. }));
    assert_eq!(short.message(), "tensor 'w' runs past the end of the file");

    let gguf = file(&[("w", &[4, 2, 1], GgmlType::F16, &[0u8; 16])]);
    let dense = ExpertStack::load(&gguf, "w", 1, 2, 4).err().unwrap();
    assert_eq!(
        dense.message(),
        "'w' is F16, which is not a quantized format experts are held in"
    );
}

#[test]
fn a_set_refuses_the_first_stack_that_does_not_load() {
    let (gguf, _) = stack_file("b.ffn_gate_exps.weight", 2, 512, 256, 1);
    let err = ExpertSet::load(&gguf, "b", 2, 256, 512).err().unwrap();
    assert_eq!(err.message(), "missing tensor 'b.ffn_up_exps.weight'");
}

#[test]
fn an_extent_past_any_file_is_refused_rather_than_wrapped() {
    let gguf = file(&[("w", &[u64::MAX, u64::MAX, u64::MAX], GgmlType::F32, &[0u8; 4])]);
    let info = gguf.tensor("w").unwrap();
    assert!(gguf.tensor_window(info).is_none());
    let empty = file(&[("w", &[u64::MAX, u64::MAX, 0], GgmlType::F32, &[0u8; 4])]);
    let info = empty.tensor("w").unwrap();
    assert_eq!(empty.tensor_window(info).unwrap().len(), 0);
}

#[test]
fn a_trimmed_block_keeps_its_window() {
    // Q6_K drops the two bytes of its header on the device: 208 of 210.
    let bytes: Vec<u8> = (0..8 * 210).map(|i| (i % 251) as u8).collect();
    let gguf = file(&[("w", &[256, 8, 1], GgmlType::Quantized(Quant::Q6_K), &bytes)]);
    let stack = ExpertStack::load(&gguf, "w", 1, 8, 256).ok().unwrap();
    let mut got = vec![0u8; stack.grouped_bytes()];
    assert_eq!(got.len(), 64 * 208);
    stack.grouped_into(0, &mut got);
    for row in 0..8 {
        assert_eq!(&got[row * 208..(row + 1) * 208], &bytes[row * 210..row * 210 + 208]);
    }
}

#[test]
fn grouping_puts_eight_rows_of_a_block_side_by_side() {
    // Three rows of two blocks of two.
    let rows: Vec<u16> = (1..=12).collect();
    let out = group_rows(&rows, 3, 2, 2);
    assert_eq!(out.len(), grouped_len(3, 2, 2));
    assert_eq!(out.len(), 64 * 2 * 2);
    assert_eq!(&out[..6], &[1, 2, 5, 6, 9, 10]);
    assert_eq!(&out[16..22], &[3, 4, 7, 8, 11, 12]);
    assert!(out[6..16].iter().all(|&v| v == 0));
    assert!(out[22..].iter().all(|&v| v == 0));
}

#[test]
fn padding_rows_are_left_as_they_are() {
    let rows = [1u8, 2];
    let mut out = vec![9u8; grouped_len(1, 2, 1)];
    group_rows_into(&rows, 1, 2, 1, &mut out);
    assert_eq!(&out[..10], &[1, 9, 9, 9, 9, 9, 9, 9, 2, 9]);
    assert!(out[9..].iter().all(|&v| v == 9));
}

#[test]
fn the_experts_of_a_stack_tile_it() {
    let (gguf, bytes) = stack_file("w", 4, 8, 256, 2);
    let stack = ExpertStack::load(&gguf, "w", 4, 8, 256).ok().unwrap();
    let joined: Vec<u8> = (0..4).flat_map(|e| stack.expert(e).to_vec()).collect();
    assert_eq!(joined, bytes);
}

/// A run of Q4_K blocks as numbers.
fn q4k_decode(bytes: &[u8]) -> Vec<f32> {
    let half = |at: &[u8]| {
        let h = u16::from_le_bytes([at[0], at[1]]);
        let (e, m) = (i32::from(h >> 10 & 31), f32::from(h & 1023));
        let v = match e {
            0 => m * 2f32.powi(-24),
            _ => (1.0 + m / 1024.0) * 2f32.powi(e - 15),
        };
        if h >> 15 == 1 { -v } else { v }
    };
    let mut out = Vec::new();
    for block in bytes.chunks_exact(144) {
        let (d, dmin, s, q) = (half(&block[..2]), half(&block[2..4]), &block[4..16], &block[16..]);
        for j in 0..8 {
            let (scale, min) = if j < 4 {
                (s[j] & 63, s[j + 4] & 63)
            } else {
                ((s[j + 4] & 15) | ((s[j - 4] >> 6) << 4), (s[j + 4] >> 4) | ((s[j] >> 6) << 4))
            };
            for i in 0..32 {
                let v = q[j / 2 * 32 + i] >> (4 * (j % 2)) & 15;
                out.push(d * f32::from(scale) * f32::from(v) - dmin * f32::from(min));
            }
        }
    }
    out
}

#[test]
fn a_stack_decodes_an_expert_as_the_file_reader_does() {
    let (count, n, k) = (2, 8, 256);
    let (gguf, bytes) = stack_file("w", count, n, k, 3);
    let stack = ExpertStack::load(&gguf, "w", count, n, k).ok().unwrap();
    let got = stack.dequantize(&q4k_decode, 1, n * k).ok().unwrap();
    let whole = q4k_decode(&bytes);
    assert_eq!(got, whole[n * k..]);
    assert!(got.iter().all(|v| v.is_finite()));
    let e = stack.dequantize(&q4k_decode, 1, n * k - 1).err().unwrap();
    assert_eq!(e.message(), "a [8, 256] expert does not fit a 2047-element slice");
}
