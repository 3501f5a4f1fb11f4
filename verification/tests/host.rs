//! The host's operations in single precision.

use std::sync::Arc;

use phobos_gguf::backend::compose::{self, Op, Place};
use phobos_gguf::backend::host::acts::Acts;
use phobos_gguf::backend::host::attention::{attention, rope, softmax, AttnStart, Soft};
use phobos_gguf::backend::host::contract::{
    block_dot, matmul, matmul_quant_act, HostError, QuantRows, QuantWeight,
};
use phobos_gguf::backend::host::delta::{
    delta_conv, delta_gates, delta_rule, Conv, ConvStart, Gates, Ring,
};
use phobos_gguf::backend::host::elem::{add_into, gate_into, rms_norm, rms_norm_rows, swiglu};
use phobos_gguf::backend::host::halves::{read_widened, store_rows};
use phobos_gguf::backend::host::moe::{
    route, run_moe, write_routes, Feed, Matrices, MoeCall, MoeRefusal, MoeStart, Operand, Pick,
    Router, SetShape, Stack,
};
use phobos_gguf::backend::host::slabs::{lay_rows, ReadError, Rows, Slabs};
use phobos_gguf::backend::named::Named;
use phobos_gguf::backend::{Attn, Buf, DeltaMix, HBuf, HPlane, HeadPerm, Plane, QAct, QBuf, Rope};
use phobos_gguf::experts::ExpertSet;
use phobos_gguf::gguf::{GgmlType, Gguf, TensorInfo};
use phobos_gguf::hadamard::perm_source;
use phobos_gguf::quant::packed::{PackError, Packed};
use phobos_gguf::quant::Quant;
use phobos_gguf::transform::{fwht, restore_row, rotate_row};

const Q8_BLOCK: usize = 32;

type F1 = fn(f32) -> f32;

type F2 = fn(f32, f32) -> f32;

fn plus(a: f32, b: f32) -> f32 {
    a + b
}

fn times(a: f32, b: f32) -> f32 {
    a * b
}

fn minus(a: f32, b: f32) -> f32 {
    a - b
}

fn sigmoid(x: f32) -> f32 {
    1.0 / (1.0 + (-x).exp())
}

fn silu(x: f32) -> f32 {
    x * sigmoid(x)
}

fn softplus(x: f32) -> f32 {
    if x > 20.0 {
        x
    } else {
        x.exp().ln_1p()
    }
}

fn is_zero(x: f32) -> bool {
    x == 0.0
}

fn largest(a: f32, b: f32) -> f32 {
    a.max(b)
}

fn exp(x: f32) -> f32 {
    x.exp()
}

fn invert(sum: f32) -> f32 {
    if sum > 0.0 {
        sum.recip()
    } else {
        0.0
    }
}

fn over(a: f32, b: f32) -> f32 {
    a / b
}

fn bits(x: f32) -> u32 {
    x.to_bits()
}

fn dense(left: &[f32], right: &[f32], m: usize, k: usize, n: usize, dst: &mut Vec<f32>) -> Result<(), HostError> {
    matmul(&plus, &times, &is_zero, 0.0, left, right, m, k, n, dst)
}

fn read_vec(slabs: &Slabs<f32>, buf: usize, len: usize) -> Vec<f32> {
    let mut out = vec![0.0; len];
    slabs.read(buf, &mut out).unwrap();
    out
}

fn f16_to_f32(h: u16) -> f32 {
    let (sign, e, m) = (h >> 15, (h >> 10) & 31, h & 1023);
    let v = match e {
        0 => f32::from(m) * 2f32.powi(-24),
        31 => f32::INFINITY,
        _ => (1.0 + f32::from(m) / 1024.0) * 2f32.powi(i32::from(e) - 15),
    };
    if sign == 1 {
        -v
    } else {
        v
    }
}

/// The nearest half of a number in the normal range.
fn f32_to_f16(v: f32) -> u16 {
    let b = v.to_bits();
    let e = ((b >> 23) & 255) as i32 - 127 + 15;
    let rounded = (b & 0x7f_ffff) + 0xfff + ((b >> 13) & 1);
    let (e, m) = if rounded >= 0x80_0000 { (e + 1, 0) } else { (e, rounded >> 13) };
    assert!(0 < e && e < 31);
    ((b >> 31) as u16) << 15 | (e as u16) << 10 | m as u16
}

fn quantize_row(block: &[f32], out: &mut [i8]) -> f32 {
    let top = block.iter().fold(0.0f32, |a, &v| a.max(v.abs()));
    let d = top / 127.0;
    for (q, &v) in out.iter_mut().zip(block) {
        *q = if d > 0.0 { (v / d).round() as i8 } else { 0 };
    }
    d
}

fn uniform(seed: u64) -> impl FnMut() -> f32 {
    let mut seed = seed;
    move || {
        seed ^= seed << 13;
        seed ^= seed >> 7;
        seed ^= seed << 17;
        (seed >> 40) as f32 / 8388608.0 - 1.0
    }
}

#[test]
fn host_matmul_matches_by_hand() {
    let a = [1.0, 2.0, 3.0, 4.0, 5.0, 6.0];
    let b = [1.0, 0.0, 0.0, 1.0, 1.0, 1.0];
    let mut c = vec![0.0; 4];
    dense(&a, &b, 2, 3, 2, &mut c).unwrap();
    assert_eq!(c, vec![4.0, 5.0, 10.0, 11.0]);
}

#[test]
fn a_matmul_refuses_what_is_too_small() {
    let (a, b) = ([1.0; 6], [1.0; 6]);
    let mut c = vec![7.0; 4];
    assert_eq!(dense(&a[..5], &b, 2, 3, 2, &mut c), Err(HostError::MatmulOperands));
    assert_eq!(dense(&a, &b[..5], 2, 3, 2, &mut c), Err(HostError::MatmulOperands));
    let mut short = vec![7.0; 3];
    assert_eq!(dense(&a, &b, 2, 3, 2, &mut short), Err(HostError::MatmulDest));
    assert_eq!((c, short), (vec![7.0; 4], vec![7.0; 3]));
    assert_eq!(HostError::MatmulOperands.message(), "matmul operands are too small");
    assert_eq!(HostError::MatmulDest.message(), "matmul destination is too small");
}

#[test]
fn a_zero_activation_skips_its_row() {
    // A zero activation never meets the weight it would make a NaN of.
    let mut c = vec![0.0; 1];
    dense(&[0.0, 2.0], &[f32::INFINITY, 3.0], 1, 2, 1, &mut c).unwrap();
    assert_eq!(c, [6.0]);
}

#[test]
fn q8_matmul_matches_the_dequantized_matmul() {
    let (k, n) = (Q8_BLOCK * 3, 5usize);
    let mut next = uniform(0x2545_f491_4f6c_dd1d);

    let qs: Vec<i8> = (0..k * n).map(|_| (next() * 127.0) as i8).collect();
    // Rounded through a half, which is how a scale is stored.
    let scales: Vec<f32> =
        (0..(k / Q8_BLOCK) * n).map(|_| f16_to_f32(f32_to_f16(next().abs() + 0.01))).collect();
    // qs is [n, k]; the dense equivalent is [k, n], so this transposes.
    let mut weight = vec![0.0f32; k * n];
    for j in 0..n {
        for p in 0..k {
            weight[p * n + j] = qs[j * k + p] as f32 * scales[(p / Q8_BLOCK) * n + j];
        }
    }
    let mut a: Vec<f32> = (0..2 * k).map(|_| next()).collect();
    let mut quants = vec![0i8; 2 * k];
    let mut row_scales = vec![0.0f32; 2 * k / Q8_BLOCK];
    for (b, block) in a.chunks_exact_mut(Q8_BLOCK).enumerate() {
        let into = &mut quants[b * Q8_BLOCK..(b + 1) * Q8_BLOCK];
        let d = quantize_row(block, into);
        row_scales[b] = d;
        for (v, &q) in block.iter_mut().zip(into.iter()) {
            *v = q as f32 * d;
        }
    }

    let mut want = vec![0.0; 2 * n];
    dense(&a, &weight, 2, k, n, &mut want).unwrap();
    let w = QuantWeight { qs, scales, n };
    let act = QuantRows { qs: quants, scales: row_scales };
    let mut got = vec![0.0; 2 * n];
    let convert = |v: i32| v as f32;
    matmul_quant_act(&plus, &times, &convert, 0.0, Some(&w), Some(&act), 0, 2, k, n, &mut got).unwrap();
    for (w, g) in want.iter().zip(&got) {
        assert!((w - g).abs() / w.abs().max(1.0) < 1e-5, "{w} vs {g}");
    }
}

#[test]
fn a_quantized_matmul_names_what_is_wrong() {
    let convert = |v: i32| v as f32;
    let w = QuantWeight { qs: vec![1; 64], scales: vec![1.0; 2], n: 2 };
    let act = QuantRows { qs: vec![1; 32], scales: vec![1.0; 1] };
    let mut dst = vec![0.0; 2];
    let mut run = |w: Option<&QuantWeight<f32>>, act: Option<&QuantRows<f32>>, m: usize, k: usize, n: usize| {
        matmul_quant_act(&plus, &times, &convert, 0.0, w, act, 3, m, k, n, &mut dst)
            .map_err(|e| e.message())
    };
    assert_eq!(run(None, Some(&act), 1, 32, 2).unwrap_err(), "use of an unknown quantized weight handle");
    assert_eq!(
        run(Some(&w), Some(&act), 1, 32, 3).unwrap_err(),
        "quantized weight was uploaded with n = 2, used with n = 3"
    );
    assert_eq!(
        run(Some(&w), Some(&act), 1, 64, 2).unwrap_err(),
        "a [64, 2] quantized weight was uploaded with 64 quants and 2 scales"
    );
    assert_eq!(run(Some(&w), None, 1, 32, 2).unwrap_err(), "use of an unknown quantized activation handle");
    assert_eq!(
        run(Some(&w), Some(&act), 2, 32, 2).unwrap_err(),
        "quantized activation 3 holds 32 values, used as 2 x 32"
    );
    assert_eq!(run(Some(&w), Some(&act), 1, 32, 2), Ok(()));
    assert_eq!(dst, [32.0, 32.0]);
    let mut none: Vec<f32> = Vec::new();
    assert_eq!(
        matmul_quant_act(&plus, &times, &convert, 0.0, Some(&w), Some(&act), 3, 1, 32, 2, &mut none),
        Err(HostError::QuantDest)
    );
    assert_eq!(HostError::QuantDest.message(), "matmul_quant destination is too small");
}

#[test]
fn a_block_dots_in_integers() {
    let a: Vec<i8> = (0..40).map(|i| i as i8 - 20).collect();
    let b = vec![-128i8; 40];
    assert_eq!(block_dot(&a, 8, &b, 0), (8..40).map(|i| (i - 20) * -128).sum::<i32>());
    assert_eq!(block_dot(&b, 0, &b, 0), 32 * 128 * 128);
}

/// A Q8_0 weight's blocks: a scale and 32 quants each.
fn pack_q8_0(qs: &[i8], scales: &[f32], k: usize, n: usize) -> Result<Packed, PackError> {
    let mut bytes = Vec::new();
    for (block, &d) in qs.chunks(Q8_BLOCK).zip(scales) {
        bytes.extend(f32_to_f16(d).to_le_bytes());
        bytes.extend(block.iter().map(|&q| q as u8));
    }
    Packed::from_bytes(Quant::Q8_0, &bytes, k, n)
}

#[test]
fn q8_constants_upload_once_and_check_their_shape() {
    let qs = vec![1i8; Q8_BLOCK * 2];
    let scales = vec![0.5f32; 2];
    let packed = pack_q8_0(&qs, &scales, Q8_BLOCK, 2).unwrap();
    let mut quants: Named<usize> = Named::new();
    let mut constant_quant = |key: &str, packed: &Packed| match quants.find(key) {
        Some(at) => at,
        None => quants.put(key, packed.byte_len()),
    };
    let a = constant_quant("w", &packed);
    let b = constant_quant("w", &packed);
    assert_eq!(a, b);

    // k must tile into whole blocks, and the scale count follows from it.
    assert!(pack_q8_0(&qs, &scales, 7, 2).is_err());
    assert!(pack_q8_0(&qs, &[0.5], Q8_BLOCK, 2).is_err());
}

#[test]
fn released_handles_are_reused() {
    let mut backend: Slabs<f32> = Slabs::new();
    let first = backend.zeroed(8, 0.0);
    backend.release(first);
    let second = backend.zeroed(8, 0.0);
    assert_eq!(first, second);
}

#[test]
fn constants_upload_once() {
    let mut backend: Slabs<f32> = Slabs::new();
    let mut names: Named<usize> = Named::new();
    let a = backend.constant(&mut names, "w", &[1.0, 2.0]);
    let b = backend.constant(&mut names, "w", &[9.9, 9.9]);
    assert_eq!(a, b);
    assert_eq!(read_vec(&backend, a, 2), vec![1.0, 2.0]);
}

#[test]
fn a_name_keeps_its_handle_as_others_come() {
    let mut names: Named<u8> = Named::new();
    let (a, b) = (names.put("a", 1), names.put("b", 2));
    assert_eq!((names.find("a"), names.find("b"), names.find("c")), (Some(a), Some(b), None));
    assert_eq!((names.get(a), names.get(b), names.get(2)), (Some(&1), Some(&2), None));
}

#[test]
fn a_reused_buffer_starts_from_zeros_and_keeps_no_old_length() {
    let mut backend: Slabs<f32> = Slabs::new();
    let a = backend.upload(&[1.0, 2.0, 3.0]);
    let b = backend.upload(&[4.0]);
    backend.release(a);
    assert_eq!(backend.zeroed(2, 0.0), a);
    assert_eq!(read_vec(&backend, a, 2), [0.0, 0.0]);
    assert_eq!(read_vec(&backend, b, 1), [4.0]);
    let mut out = vec![9.0; 3];
    let error = backend.read(a, &mut out).unwrap_err();
    assert_eq!(error, ReadError { asked: 3, held: 2 });
    assert_eq!(error.message(), "reading 3 elements from a 2-element buffer");
    assert_eq!(out, [9.0; 3]);
}

#[test]
fn rms_norm_scales_rows_independently() {
    let x = [3.0, 4.0, 30.0, 40.0];
    let mut out = vec![0.0; 4];
    let inverse = |square: f32| (square / 2.0).sqrt().recip();
    rms_norm_rows(&plus, &times, &inverse, 0.0, &x, 2, 2, &[1.0, 1.0], &mut out).unwrap();
    let expected = 3.0 / (12.5f32).sqrt();
    assert!((out[0] - expected).abs() < 1e-6);
    assert!((out[2] - expected).abs() < 1e-6);
    assert_eq!(
        rms_norm_rows(&plus, &times, &inverse, 0.0, &x, 2, 2, &[1.0], &mut out),
        Err(HostError::Norm)
    );
    assert_eq!(HostError::Norm.message(), "rms_norm operands are too small");

    // In place, with a ragged end that is no row.
    let mut y = vec![3.0, 4.0, 30.0, 40.0, 5.0];
    rms_norm(&plus, &times, &inverse, 0.0, &mut y, 2, &[1.0, 2.0]);
    assert_eq!(y[0], out[0]);
    assert_eq!(y[3], 2.0 * out[3]);
    assert_eq!(y[4], 5.0);
}

#[test]
fn swiglu_and_residual() {
    // A gate half and an up half as one buffer, as a fused projection
    // hands them over.
    let both = [0.0, 1.0, 2.0, 3.0];
    let mut out = vec![0.0; 2];
    swiglu(&times, &silu, &both, 0, &both, 2, &mut out, 2);
    assert_eq!(out[0], 0.0);
    assert!((out[1] - silu(1.0) * 3.0).abs() < 1e-6);

    add_into(&plus, &mut out, &[2.0, 3.0]);
    assert_eq!(out[0], 2.0);

    let mut x = vec![2.0, 4.0, 6.0];
    gate_into(&times, &sigmoid, &mut x, &[0.0, 0.0]);
    assert_eq!(x, [1.0, 2.0, 6.0]);
}

#[test]
fn copy_moves_a_window() {
    let mut backend: Slabs<f32> = Slabs::new();
    let src = backend.upload(&[1.0, 2.0, 3.0, 4.0]);
    let dst = backend.zeroed(4, 0.0);
    backend.copy(src, 1, dst, 2, 2);
    assert_eq!(read_vec(&backend, dst, 4), vec![0.0, 0.0, 2.0, 3.0]);
}

#[test]
fn a_copy_of_halves_refuses_itself() {
    let mut halves: Slabs<u16> = Slabs::new();
    let a = halves.upload(&[1, 2, 3]);
    let b = halves.zeroed(3, 0);
    assert_eq!(halves.copy_h(a, 0, a, 1, 1).unwrap_err().message(), "copy_h aliases its source");
    halves.copy_h(a, 1, b, 0, 2).unwrap();
    let mut out = vec![0; 3];
    halves.read(b, &mut out).unwrap();
    assert_eq!(out, [2, 3, 0]);
}

#[test]
fn a_block_is_copied_between_planes() {
    let mut backend: Slabs<f32> = Slabs::new();
    let src = backend.upload(&[1.0, 2.0, 3.0, 4.0, 5.0, 6.0]);
    let dst = backend.zeroed(5, 0.0);
    let from = Plane { buf: Buf(src), offset: 1, pitch: 3 };
    let to = Plane { buf: Buf(dst), offset: 0, pitch: 2 };
    assert!(backend.copy_2d(from, to, 2, 2));
    assert_eq!(read_vec(&backend, dst, 5), [2.0, 3.0, 5.0, 6.0, 0.0]);
    assert!(!backend.copy_2d(from, to, 3, 2));
    assert!(!backend.copy_2d(from, from, 1, 1));
    assert_eq!(read_vec(&backend, src, 6), [1.0, 2.0, 3.0, 4.0, 5.0, 6.0]);

    // Rows that overlap are laid in order.
    let mut into = vec![0u16; 3];
    assert!(lay_rows(&[1, 2, 3, 4], Rows { offset: 0, pitch: 2 }, &mut into, Rows { offset: 0, pitch: 1 }, 2, 2));
    assert_eq!(into, [1, 3, 4]);
}

fn conv() -> Conv<F2, F2, F1, F2> {
    Conv { plus, times, silu, norm: |scale: f32, square: f32| scale / (square + 1e-12).sqrt() }
}

const START: ConvStart<f32> = ConvStart { zero: 0.0, square: 0.0, query: 1.0, rest: 1.0 };

#[test]
fn delta_conv_leaves_an_all_zero_head_at_zero() {
    // One position and one tap, so the convolution is a multiply by one and
    // the query plane is its input through SiLU and the normalization. A
    // silent head has no norm to divide by.
    let mix = DeltaMix {
        rows: 1,
        heads: 2,
        head_dim: 2,
        kv_heads: 2,
        kernel: 1,
        planes: [0, 4, 8],
        head_stride: 2,
        normalize: true,
        query_scale_bits: 1.0f32.to_bits(),
    };
    let mut stream = vec![0.0f32; mix.channels()];
    stream[0..2].copy_from_slice(&[3.0, 4.0]);
    let taps = vec![1.0; mix.channels()];
    let mut out = vec![0.0; mix.packed_len()];
    delta_conv(&conv(), &START, mix, &stream, &taps, &mut out).unwrap();

    let norm = (out[0] * out[0] + out[1] * out[1]).sqrt();
    assert!((norm - 1.0).abs() < 1e-6, "loud head normalized to {norm}");
    assert_eq!(&out[2..4], &[0.0, 0.0]);
    assert_eq!(
        delta_conv(&conv(), &START, mix, &stream[1..], &taps, &mut out),
        Err(HostError::DeltaConv)
    );
    assert_eq!(HostError::DeltaConv.message(), "delta_conv operands or destination are too small");
}

#[test]
fn delta_conv_expands_query_and_key_over_kv_heads() {
    // Four value heads sharing two key/query heads. One position, one tap, no
    // normalization, so this tests only which input column each destination
    // head reads.
    let mix = DeltaMix {
        rows: 1,
        heads: 4,
        head_dim: 2,
        kv_heads: 2,
        kernel: 1,
        planes: [0, 4, 8],
        head_stride: 2,
        normalize: false,
        query_scale_bits: 1.0f32.to_bits(),
    };
    // [q_h0, q_h1, k_h0, k_h1, v_h0, v_h1, v_h2, v_h3], two elements apiece.
    let stream: Vec<f32> = (1..=8).flat_map(|h| [h as f32, h as f32]).collect();
    let taps = vec![1.0; mix.channels()];
    let mut out = vec![0.0; mix.packed_len()];
    delta_conv(&conv(), &START, mix, &stream, &taps, &mut out).unwrap();

    let head = |plane: usize, h: usize| &out[plane * mix.span() + h * mix.head_dim..][..2];

    // Packed head `h` of query and key reads physical head `h % kv_heads` back:
    // heads 0 and 2 both read head 0, heads 1 and 3 both read head 1.
    for plane in [0usize, 1] {
        assert_eq!(head(plane, 0), head(plane, 2), "plane {plane} head 0 vs 2");
        assert_eq!(head(plane, 1), head(plane, 3), "plane {plane} head 1 vs 3");
        assert_ne!(head(plane, 0), head(plane, 1), "plane {plane} head 0 vs 1");
    }

    // The value plane has a real head for every one of the four destination
    // slots, so all four stay distinct.
    let v: Vec<&[f32]> = (0..4).map(|h| head(2, h)).collect();
    for (i, a) in v.iter().enumerate() {
        for b in &v[i + 1..] {
            assert_ne!(a, b, "value heads collapsed that should not have");
        }
    }
}

#[test]
fn a_convolution_sees_its_own_and_earlier_positions() {
    // Two positions, two taps, one channel a plane: position t sees inputs t
    // and t + 1 of the padded stream.
    let mix = DeltaMix {
        rows: 2,
        heads: 1,
        head_dim: 1,
        kv_heads: 1,
        kernel: 2,
        planes: [0, 1, 2],
        head_stride: 1,
        normalize: false,
        query_scale_bits: 2.0f32.to_bits(),
    };
    let stream = [1.0, 10.0, 100.0, 2.0, 20.0, 200.0, 3.0, 30.0, 300.0];
    let taps = [1.0, 1.0, 1.0, 10.0, 10.0, 10.0];
    let identity = |x: f32| x;
    let o = Conv { plus, times, silu: identity, norm: minus };
    let start = ConvStart { zero: 0.0, square: 0.0, query: 2.0, rest: 1.0 };
    let mut out = vec![-1.0; mix.packed_len()];
    delta_conv(&o, &start, mix, &stream, &taps, &mut out).unwrap();
    assert_eq!(&out[..6], &[42.0, 64.0, 210.0, 320.0, 2100.0, 3200.0]);
    assert_eq!(&out[6..], &[-1.0; 4]);
}

#[test]
fn delta_gates_hold_up_where_the_direct_softplus_overflows() {
    let mix = DeltaMix {
        rows: 2,
        heads: 1,
        head_dim: 2,
        kv_heads: 1,
        kernel: 1,
        planes: [0, 2, 4],
        head_stride: 2,
        normalize: false,
        query_scale_bits: 1.0f32.to_bits(),
    };
    let o = Gates { plus, times, exp, softplus, sigmoid };
    let mut out = vec![0.0; mix.packed_len()];
    delta_gates(&o, &[200.0, 0.0], 0, &[0.0, 0.0], 0, &[-1.0], &[0.0], mix, &mut out).unwrap();

    let at = 3 * mix.span();
    // softplus(200) is 200, so the decay is exp(-200), which underflows to
    // zero rather than NaN.
    assert_eq!(out[at], 0.0);
    // softplus(0) is ln(2), so the decay is a half.
    assert!((out[at + 1] - 0.5).abs() < 1e-6);
    assert_eq!(&out[at + 2..at + 4], &[0.5, 0.5]);
    assert_eq!(
        delta_gates(&o, &[200.0, 0.0], 1, &[0.0, 0.0], 0, &[-1.0], &[0.0], mix, &mut out),
        Err(HostError::DeltaGates)
    );
    assert_eq!(
        HostError::DeltaGates.message(),
        "delta_gates operands or destination are too small"
    );
}

#[test]
fn the_delta_rule_writes_the_error_along_the_key() {
    // One head of two, one position: decay 1/2, full strength.
    let ring = Ring { plus, times, minus };
    let packed = [
        1.0, 0.0, // query
        0.0, 1.0, // key
        10.0, 20.0, // value
        0.5, // decay
        1.0, // strength
    ];
    let mut state = vec![2.0, 4.0, 6.0, 8.0, 77.0];
    let mut out = vec![0.0; 3];
    delta_rule(&ring, 0.0, &packed, 1, 1, 2, &mut state, &mut out).unwrap();
    // Decayed [1 2; 3 4]; the key reads [3 4] back, so the error is [7 16],
    // written into the key's row.
    assert_eq!(state, [1.0, 2.0, 10.0, 20.0, 77.0]);
    assert_eq!(out, [1.0, 2.0, 0.0]);
    assert_eq!(
        delta_rule(&ring, 0.0, &packed[..7], 1, 1, 2, &mut state, &mut out),
        Err(HostError::DeltaRule)
    );
    assert_eq!(
        HostError::DeltaRule.message(),
        "delta_rule operands, state or destination are too small"
    );
}

#[test]
fn the_delta_rule_advances_each_head_position_by_position() {
    // Two heads of one, two positions: a head's state carries over.
    let ring = Ring { plus, times, minus };
    let packed = [
        1.0, 1.0, 1.0, 1.0, // queries
        1.0, 1.0, 1.0, 1.0, // keys
        1.0, 2.0, 3.0, 4.0, // values
        1.0, 1.0, 1.0, 1.0, // decays
        0.5, 0.5, 0.5, 0.5, // strengths
    ];
    let mut state = vec![0.0, 0.0];
    let mut out = vec![0.0; 4];
    delta_rule(&ring, 0.0, &packed, 2, 2, 1, &mut state, &mut out).unwrap();
    assert_eq!(out, [0.5, 1.0, 1.75, 2.5]);
    assert_eq!(state, [1.75, 2.5]);
}

fn soft() -> Soft<F2, F2, F2, F2, F1, F1> {
    Soft { plus, times, max: largest, minus, exp, invert }
}

#[test]
fn softmax_sums_to_one() {
    let mut row = vec![1.0, 2.0, 3.0];
    softmax(&soft(), f32::NEG_INFINITY, 0.0, &mut row);
    assert!((row.iter().sum::<f32>() - 1.0).abs() < 1e-6);
    assert!(row[2] > row[1] && row[1] > row[0]);
}

#[test]
fn attention_attends_to_its_own_and_earlier_positions() {
    let spec = Attn { rows: 2, start_pos: 1, n_head: 2, n_kv: 1, head_dim: 1 };
    let at = AttnStart { dot: 0.0, zero: 0.0, low: f32::NEG_INFINITY, scale: 1.0 };
    let widen = |h: u16| f32::from(h);
    let queries = [0.0, 0.0, 0.0, 0.0];
    let (keys, values) = ([1u16, 2, 3], [2u16, 4, 9]);
    let mut out = vec![0.0; 4];
    attention(&soft(), &widen, &at, &queries, &keys, &values, spec, &mut out).unwrap();
    // Equal scores, so the mean of what is seen: two positions, then three.
    assert_eq!(&out[..2], &[3.0, 3.0]);
    assert!((out[2] - 5.0).abs() < 1e-6 && out[2] == out[3]);

    // What comes after the first row's position changes nothing for it.
    let mut other = vec![0.0; 4];
    attention(&soft(), &widen, &at, &queries, &[1, 2, 99], &[2, 4, 99], spec, &mut other).unwrap();
    assert_eq!(out[..2], other[..2]);
    assert_ne!(out[2..], other[2..]);
    assert_eq!(
        attention(&soft(), &widen, &at, &queries, &keys[..2], &values, spec, &mut out),
        Err(HostError::Attention)
    );
    assert_eq!(HostError::Attention.message(), "attention operands are too small");
}

#[test]
fn query_heads_share_a_key_head_by_group() {
    let spec = Attn { rows: 1, start_pos: 0, n_head: 4, n_kv: 2, head_dim: 1 };
    let at = AttnStart { dot: 0.0, zero: 0.0, low: f32::NEG_INFINITY, scale: 1.0 };
    let widen = |h: u16| f32::from(h);
    let mut out = vec![0.0; 4];
    attention(&soft(), &widen, &at, &[1.0; 4], &[1u16, 1], &[5u16, 7], spec, &mut out).unwrap();
    assert_eq!(out, [5.0, 5.0, 7.0, 7.0]);
}

#[test]
fn rope_turns_pairs_half_a_dimension_apart() {
    let spec = Rope { heads: 1, head_dim: 5, rope_dim: 4, start_pos: 1 };
    // Position 1 turns by a quarter; position 0 is never read.
    let table = [9.0, 9.0, 9.0, 9.0, 0.0, 0.0, 1.0, 1.0];
    let mut x = vec![1.0, 2.0, 3.0, 4.0, 5.0];
    rope(&plus, &times, &minus, &mut x, 1, &table, spec).unwrap();
    assert_eq!(x, [-3.0, -4.0, 1.0, 2.0, 5.0]);
    assert_eq!(rope(&plus, &times, &minus, &mut x, 2, &table, spec), Err(HostError::Rope));
    assert_eq!(HostError::Rope.message(), "rope operands are too small");
}

fn router() -> Router<F2, F2, F2, F1, F2, fn(f32) -> u32> {
    Router { plus, max: largest, minus, exp, over, bits }
}

fn routed(logits: &[f32], n_used: usize) -> Vec<Pick<f32>> {
    route(&router(), f32::NEG_INFINITY, 0.0, logits, 0, logits.len(), n_used)
}

#[test]
fn routing_takes_the_softmax_top_and_renormalizes_it() {
    // Probabilities 1 : 2 : 4 : 8; the top two are 8/15 and 4/15, which
    // renormalize to 2/3 and 1/3.
    let logits = [0.0, 2f32.ln(), 4f32.ln(), 8f32.ln()];
    let picked = routed(&logits, 2);
    assert_eq!(picked.len(), 2);
    assert_eq!((picked[0].expert, picked[1].expert), (3, 2));
    assert!((picked[0].weight - 2.0 / 3.0).abs() < 1e-6, "{picked:?}");
    assert!((picked[1].weight - 1.0 / 3.0).abs() < 1e-6, "{picked:?}");
}

#[test]
fn routing_breaks_a_tie_toward_the_lower_index_and_survives_large_logits() {
    let picked = routed(&[1000.0, 5.0, 1000.0], 2);
    assert_eq!((picked[0].expert, picked[1].expert), (0, 2));
    assert!((picked[0].weight - 0.5).abs() < 1e-6 && (picked[1].weight - 0.5).abs() < 1e-6);
}

fn xorshift(seed: u64) -> impl FnMut() -> u64 {
    let mut state = seed.wrapping_mul(0x9e37_79b9_7f4a_7c15) | 1;
    move || {
        state ^= state << 13;
        state ^= state >> 7;
        state ^= state << 17;
        state
    }
}

/// `count` experts of `[n, k]` Q4_K blocks: small finite headers, pseudo-random
/// scales and quants.
fn q4k_stack(count: usize, n: usize, k: usize, seed: u64) -> Vec<u8> {
    let mut words = xorshift(seed);
    let mut next = move || (words() >> 56) as u8;
    let blocks = count * n * k / 256;
    let mut out = Vec::with_capacity(blocks * 144);
    for _ in 0..blocks {
        let d = f32_to_f16(0.001 + f32::from(next()) / 4096.0);
        let dmin = f32_to_f16(0.0005 + f32::from(next()) / 8192.0);
        out.extend(d.to_le_bytes());
        out.extend(dmin.to_le_bytes());
        out.extend((0..140).map(|_| next()));
    }
    out
}

/// A run of Q4_K blocks as numbers.
fn q4k_decode(bytes: &[u8]) -> Vec<f32> {
    let mut out = Vec::new();
    for block in bytes.chunks_exact(144) {
        let d = f16_to_f32(u16::from_le_bytes([block[0], block[1]]));
        let dmin = f16_to_f32(u16::from_le_bytes([block[2], block[3]]));
        let (s, q) = (&block[4..16], &block[16..]);
        for j in 0..8 {
            let (scale, min) = if j < 4 {
                (s[j] & 63, s[j + 4] & 63)
            } else {
                ((s[j + 4] & 15) | ((s[j - 4] >> 6) << 4), (s[j + 4] >> 4) | ((s[j] >> 6) << 4))
            };
            for i in 0..32 {
                let byte = q[j / 2 * 32 + i];
                let v = if j % 2 == 0 { byte & 15 } else { byte >> 4 };
                out.push(d * f32::from(scale) * f32::from(v) - dmin * f32::from(min));
            }
        }
    }
    out
}

fn feed() -> Feed<F2, F2, F1, F1> {
    Feed { plus, times, silu, sigmoid }
}

const MOE: MoeStart<f32> = MoeStart { dot: 0.0, zero: 0.0, low: f32::NEG_INFINITY };

/// The routed feed-forward against the same arithmetic done densely: every
/// expert decoded, each row's choice and weights from `route`, the shared expert
/// scaled by its gate's sigmoid.
#[test]
fn moe_matches_a_dense_reference_and_reports_its_routes() {
    let (count, used, d, d_ff, rows) = (4usize, 2usize, 256usize, 256usize, 3usize);
    let stacks = [
        ("gate", d_ff, d, q4k_stack(count, d_ff, d, 21)),
        ("up", d_ff, d, q4k_stack(count, d_ff, d, 22)),
        ("down", d, d_ff, q4k_stack(count, d, d_ff, 23)),
    ];
    let mut data = Vec::new();
    let mut tensors = Vec::new();
    for (name, n, k, bytes) in &stacks {
        tensors.push(TensorInfo {
            name: format!("blk.0.ffn_{name}_exps.weight"),
            dims: vec![*k as u64, *n as u64, count as u64],
            ggml_type: GgmlType::Quantized(Quant::Q4_K),
            offset: data.len(),
        });
        data.extend_from_slice(bytes);
    }
    let gguf = Gguf { tensors, data: Arc::new(data) };
    let set: Arc<ExpertSet> = ExpertSet::load(&gguf, "blk.0", count, d, d_ff).ok().unwrap();

    let mut next = uniform(0x9e37_79b9_7f4a_7c15);
    let x: Vec<f32> = (0..rows * d).map(|_| next()).collect();
    let logits: Vec<f32> = (0..rows * count).map(|_| 3.0 * next()).collect();
    let shared: Vec<f32> = (0..rows * d).map(|_| next()).collect();
    let gate: Vec<f32> = (0..rows).map(|_| 2.0 * next()).collect();
    let resid: Vec<f32> = (0..rows * d).map(|_| next()).collect();

    // The reference: dense matmuls over each expert's [k, n] decoding.
    let dense = |bytes: &[u8], n: usize, k: usize, e: usize| {
        let per = n * k / 256 * 144;
        let rows = q4k_decode(&bytes[e * per..(e + 1) * per]);
        let mut w = vec![0.0; n * k];
        for j in 0..n {
            for i in 0..k {
                w[i * n + j] = rows[j * k + i];
            }
        }
        w
    };
    let matvec = |w: &[f32], k: usize, n: usize, v: &[f32]| -> Vec<f32> {
        (0..n).map(|j| (0..k).map(|i| w[i * n + j] * v[i]).sum()).collect()
    };
    let mut want = resid.clone();
    let mut want_routes = Vec::new();
    for r in 0..rows {
        let xr = &x[r * d..(r + 1) * d];
        for pick in routed(&logits[r * count..(r + 1) * count], used) {
            let (e, w) = (pick.expert, pick.weight);
            want_routes.push(e as f32);
            let g = matvec(&dense(&stacks[0].3, d_ff, d, e), d, d_ff, xr);
            let u = matvec(&dense(&stacks[1].3, d_ff, d, e), d, d_ff, xr);
            let h: Vec<f32> = g.iter().zip(&u).map(|(&g, &u)| g / (1.0 + (-g).exp()) * u).collect();
            let y = matvec(&dense(&stacks[2].3, d, d_ff, e), d_ff, d, &h);
            for (acc, v) in want[r * d..(r + 1) * d].iter_mut().zip(y) {
                *acc += w * v;
            }
        }
        let s = 1.0 / (1.0 + (-gate[r]).exp());
        for (acc, &v) in want[r * d..(r + 1) * d].iter_mut().zip(&shared[r * d..(r + 1) * d]) {
            *acc += s * v;
        }
    }

    let mut experts: Named<usize> = Named::new();
    let registered = experts.put("blk.0.experts", 0);
    assert_eq!(experts.find("blk.0.experts"), Some(registered));
    let decode = |which: Stack, e: usize| {
        q4k_decode(match which {
            Stack::Gate => set.gate.expert(e),
            Stack::Up => set.up.expert(e),
            Stack::Down => set.down.expert(e),
        })
    };
    let shape = SetShape {
        gate: Matrices { n: set.gate.n(), k: set.gate.k() },
        up: Matrices { n: set.up.n(), k: set.up.k() },
        down: Matrices { n: set.down.n(), k: set.down.k() },
        count: set.count(),
    };
    let call = MoeCall { rows, d_model: d, d_ff, n_expert: count, n_used: used };
    let mut dest = resid.clone();
    let list = run_moe(
        &router(),
        &feed(),
        &decode,
        &MOE,
        Some(shape),
        call,
        &x,
        &logits,
        Some((&shared, &gate)),
        &mut dest,
    )
    .unwrap();
    for (i, (g, w)) in dest.iter().zip(&want).enumerate() {
        assert!((g - w).abs() <= 1e-4 * (1.0 + w.abs()), "element {i}: {g} vs {w}");
    }
    let number = |e: usize| e as f32;
    let mut routes = vec![0.0; rows * used];
    write_routes(&number, &list, &mut routes).unwrap();
    assert_eq!(routes, want_routes);
    let mut short = vec![0.0; rows * used - 1];
    let error = write_routes(&number, &list, &mut short).unwrap_err();
    assert_eq!(error.message(), "moe routes buffer is too small");
}

#[test]
fn a_routed_feed_forward_names_what_is_wrong() {
    let decode = |_: Stack, _: usize| vec![1.0f32; 6];
    let shape = SetShape {
        gate: Matrices { n: 3, k: 2 },
        up: Matrices { n: 3, k: 2 },
        down: Matrices { n: 2, k: 3 },
        count: 2,
    };
    let call = MoeCall { rows: 1, d_model: 2, d_ff: 3, n_expert: 2, n_used: 1 };
    let run = |set: Option<SetShape>, call: MoeCall, x: &[f32], logits: &[f32], shared: Option<(&[f32], &[f32])>, dest: usize| {
        let mut dest = vec![0.0; dest];
        run_moe(&router(), &feed(), &decode, &MOE, set, call, x, logits, shared, &mut dest)
            .map_err(|e| e.message())
    };
    let (x, logits) = ([1.0, 1.0], [0.0, 1.0]);
    assert_eq!(run(Some(shape), call, &x, &logits, None, 2), Ok(vec![1]));
    assert_eq!(run(None, call, &x, &logits, None, 2).unwrap_err(), "use of an unknown expert set handle");
    let wrong = SetShape { up: Matrices { n: 4, k: 2 }, ..shape };
    assert_eq!(
        run(Some(wrong), call, &x, &logits, None, 2).unwrap_err(),
        "gate and up experts are [3, 2], the request wants [3, 2]"
    );
    let wrong = SetShape { down: Matrices { n: 3, k: 3 }, ..shape };
    assert_eq!(
        run(Some(wrong), call, &x, &logits, None, 2).unwrap_err(),
        "down experts are [3, 3], the request wants [2, 3]"
    );
    assert_eq!(
        run(Some(shape), MoeCall { n_used: 3, ..call }, &x, &logits, None, 2).unwrap_err(),
        "2 experts held, the request routes 3 of 2"
    );
    assert_eq!(
        run(Some(shape), call, &x, &logits, Some((&x[..1], &x)), 2).unwrap_err(),
        "shared expert output holds 1 elements, 2 wanted"
    );
    assert_eq!(
        run(Some(shape), call, &x, &logits, Some((&x, &[])), 2).unwrap_err(),
        "shared gate holds 0 elements, 1 wanted"
    );
    assert_eq!(
        run(Some(shape), call, &x[..1], &logits, None, 2).unwrap_err(),
        "input holds 1 elements, 2 wanted"
    );
    assert_eq!(
        run(Some(shape), call, &x, &logits[..1], None, 2).unwrap_err(),
        "router logits holds 1 elements, 2 wanted"
    );
    assert_eq!(run(Some(shape), call, &x, &logits, None, 1).unwrap_err(), "moe destination is too small");
    assert_eq!(
        MoeRefusal::Short { what: Operand::Input, held: 0, wanted: 9 }.message(),
        "input holds 0 elements, 9 wanted"
    );
}

fn ramp(len: usize) -> Vec<f32> {
    (0..len).map(|i| ((i * 37 % 101) as f32 - 50.0) / 17.0).collect()
}

fn transform(x: &mut Vec<f32>, block: usize) {
    fwht(&plus, &minus, &times, (block as f32).sqrt().recip(), x, block);
}

#[test]
fn the_transform_is_its_own_inverse() {
    let x = ramp(2048);
    let mut y = x.clone();
    transform(&mut y, 1024);
    transform(&mut y, 1024);
    for (a, b) in x.iter().zip(&y) {
        assert!((a - b).abs() < 1e-4, "{a} vs {b}");
    }
}

#[test]
fn the_transform_matches_the_sylvester_matrix() {
    let block = 64;
    let x = ramp(block);
    let mut y = x.clone();
    transform(&mut y, block);
    for (row, &got) in y.iter().enumerate() {
        let want: f32 = x
            .iter()
            .enumerate()
            .map(|(col, &v)| if (row & col).count_ones() % 2 == 1 { -v } else { v })
            .sum::<f32>()
            / (block as f32).sqrt();
        assert!((got - want).abs() < 1e-4, "row {row}: {got} vs {want}");
    }
}

#[test]
fn rotating_then_restoring_is_the_identity() {
    // A folded weight sees `H S x`, a restored row `S H z`: the two undo
    // each other, which is what makes a folded table and a folded
    // projection agree.
    let x = ramp(2048);
    let signs: Vec<f32> = (0..2048).map(|i| if i % 3 == 0 { -1.0 } else { 1.0 }).collect();
    let scale = 1024f32.sqrt().recip();
    let mut y = vec![0.0; 2048];
    rotate_row(&plus, &minus, &times, scale, &x, &signs, None, 1024, &mut y);
    restore_row(&plus, &minus, &times, scale, &mut y, &signs, 1024);
    for (a, b) in x.iter().zip(&y) {
        assert!((a - b).abs() < 1e-4);
    }
}

#[test]
fn in_integers_the_transform_multiplies_by_its_length() {
    let (plus, minus, times) = (|a: i64, b: i64| a + b, |a: i64, b: i64| a - b, |a: i64, b: i64| a * b);
    let x: Vec<i64> = (0..19).map(|i| i * i - 40).collect();
    let mut y = x.clone();
    fwht(&plus, &minus, &times, 1, &mut y, 8);
    fwht(&plus, &minus, &times, 1, &mut y, 8);
    for (p, (a, b)) in x.iter().zip(&y).enumerate() {
        assert_eq!(*b, if p < 16 { 8 * a } else { *a });
    }
    let signs: Vec<i64> = (0..16).map(|i| if i % 5 == 1 { -1 } else { 1 }).collect();
    let mut z = vec![0; 16];
    rotate_row(&plus, &minus, &times, 1, &x[..16], &signs, None, 8, &mut z);
    restore_row(&plus, &minus, &times, 1, &mut z, &signs, 8);
    assert!(z.iter().zip(&x).all(|(b, a)| *b == 8 * a));
}

#[test]
fn a_rotated_row_is_regrouped_first() {
    let perm = HeadPerm { head_dim: 1, groups: 2, repeat: 2 };
    let (plus, minus, times) = (|a: i64, b: i64| a + b, |a: i64, b: i64| a - b, |a: i64, b: i64| a * b);
    let mut out = vec![0; 4];
    rotate_row(&plus, &minus, &times, 1, &[1, 20, 300, 4000], &[1, 1, 1, 1], Some(perm), 1, &mut out);
    let sources: Vec<usize> = (0..4).map(|j| perm_source(perm, j)).collect();
    assert_eq!(sources, [0, 2, 1, 3]);
    assert_eq!(out, [1, 300, 20, 4000]);
}

#[test]
fn activations_are_quantized_into_slots_of_their_own() {
    let quantize = |block: &[f32]| {
        let mut qs = vec![0i8; 32];
        let d = quantize_row(block, &mut qs);
        (qs, d)
    };
    let a: Vec<f32> = (0..64).map(|i| if i < 32 { i as f32 } else { -2.0 * i as f32 }).collect();
    let mut acts: Acts<f32> = Acts::new();
    assert_eq!(acts.quantize_act(&quantize, 0.0, &a, 2, 32), Ok(QAct(0)));
    assert_eq!(acts.slots[0].scales, [31.0 / 127.0, 126.0 / 127.0]);
    assert_eq!((acts.slots[0].qs[31], acts.slots[0].qs[63]), (127, -127));
    assert_eq!(acts.quantize_act(&quantize, 0.0, &a, 1, 32), Ok(QAct(1)));
    assert_eq!((acts.slots[1].qs.len(), acts.slots[0].qs.len()), (32, 64));
    let error = acts.quantize_act(&quantize, 0.0, &a, 3, 32).unwrap_err();
    assert_eq!(error.message(), "quantize_act activation is too small");
    assert_eq!(acts.next, 2);
    acts.begin_pass();
    assert_eq!(acts.quantize_act(&quantize, 0.0, &a[32..], 1, 32), Ok(QAct(0)));
    assert_eq!(acts.slots[0].scales, [126.0 / 127.0]);
}

#[test]
fn halves_are_stored_and_read_by_rows() {
    let (narrow, widen) = (|v: f32| f32_to_f16(v), |h: u16| f16_to_f32(h));
    let from = [1.0, 2.0, 0.5, 4.0, 5.0, 0.25];
    let mut cache = vec![0u16; 5];
    let (src, dst) = (Rows { offset: 0, pitch: 3 }, Rows { offset: 1, pitch: 2 });
    assert!(store_rows(&narrow, &from, src, &mut cache, dst, 2, 2));
    let mut out = vec![9.0; 5];
    read_widened(&widen, &cache, &mut out).unwrap();
    assert_eq!(out, [0.0, 1.0, 2.0, 4.0, 5.0]);
    assert!(!store_rows(&narrow, &from, src, &mut cache, dst, 2, 3));
    let mut long = vec![9.0; 6];
    let error = read_widened(&widen, &cache, &mut long).unwrap_err();
    assert_eq!(error.message(), "reading 6 elements from a 5-element buffer");
}

#[test]
fn operations_without_a_kernel_are_composed_of_others() {
    let plane = |buf: usize, offset: usize| Plane { buf: Buf(buf), offset, pitch: 8 };
    let ops = compose::swiglu_planes(plane(1, 0), plane(1, 4), Buf(2), 3, 4);
    assert_eq!(ops[0], Op::Take { len: 12 });
    assert_eq!(ops[3], Op::Copy2d { src: plane(1, 4), dst: Place::Taken(1), pitch: 4, rows: 3, width: 4 });
    let takes = ops.iter().filter(|op| matches!(op, Op::Take { .. })).count();
    let releases = ops.iter().filter(|op| matches!(op, Op::Release { .. })).count();
    assert_eq!((takes, releases), (2, 2));
    let spec = Rope { heads: 2, head_dim: 3, rope_dim: 2, start_pos: 0 };
    let ops = compose::rope_gather(plane(1, 0), 5, Buf(3), spec, Buf(4));
    assert_eq!(ops[0], Op::Copy2d { src: plane(1, 0), dst: Place::Given(Buf(4)), pitch: 6, rows: 5, width: 6 });
    assert_eq!(ops[1], Op::Rope { x: Buf(4), rows: 5, table: Buf(3), spec });
    let half = |offset: usize| HPlane { buf: HBuf(1), offset, pitch: 8 };
    let ops = compose::store_2d_pair((plane(1, 0), half(0)), (plane(2, 0), half(4)), 1, 4);
    assert_eq!(ops[1], Op::Store2d { src: plane(2, 0), dst: half(4), rows: 1, width: 4 });
    let ops = compose::matmul_quant_add(QAct(1), 2, 32, QBuf(3), 5, Buf(4));
    assert_eq!(ops[2], Op::Sum { acc: Buf(4), add: Place::Taken(0) });
    let ops = compose::matmul_quant(Buf(1), 2, 32, QBuf(3), 5, Buf(4));
    assert_eq!(ops[0], Op::Quantize { a: Buf(1), m: 2, k: 32 });
    let ops = compose::rms_norm_q(Buf(1), 2, 32, Buf(3), 7, Buf(4));
    assert_eq!(ops[1], Op::Quantize { a: Buf(4), m: 2, k: 32 });
    let ops = compose::swiglu_q(Buf(1), 0, Buf(1), 32, Buf(4), 32);
    assert_eq!(ops[1], Op::Quantize { a: Buf(4), m: 1, k: 32 });
    let ops = compose::rms_norm_gated(Buf(1), 2, 32, Buf(3), 7, Buf(5), 9, Buf(4));
    assert_eq!(ops.len(), 5);
    assert_eq!(ops[4], Op::Quantize { a: Buf(4), m: 2, k: 32 });
}

#[test]
fn in_integers_a_quantized_product_is_the_dequantized_one() {
    let (plus, times) = (|a: i64, b: i64| a + b, |a: i64, b: i64| a * b);
    let (convert, is_zero) = (|v: i32| i64::from(v), |v: i64| v == 0);
    let (m, k, n) = (2usize, 64usize, 3usize);
    let w = QuantWeight {
        qs: (0..n * k).map(|i| (i * 7 % 251) as u8 as i8).collect(),
        scales: (0..n * k / 32).map(|i| i as i64 + 2).collect(),
        n,
    };
    let act = QuantRows {
        qs: (0..m * k).map(|i| (i * 13 % 241) as u8 as i8).collect(),
        scales: (0..m * k / 32).map(|i| 3 * i as i64 - 1).collect(),
    };
    let left: Vec<i64> =
        (0..m * k).map(|at| i64::from(act.qs[at]) * act.scales[at / k * (k / 32) + at % k / 32]).collect();
    let right: Vec<i64> = (0..k * n)
        .map(|at| {
            let (p, j) = (at / n, at % n);
            i64::from(w.qs[j * k + p]) * w.scales[p / 32 * n + j]
        })
        .collect();
    let (mut want, mut got) = (vec![0; m * n], vec![0; m * n]);
    matmul(&plus, &times, &is_zero, 0, &left, &right, m, k, n, &mut want).unwrap();
    matmul_quant_act(&plus, &times, &convert, 0, Some(&w), Some(&act), 0, m, k, n, &mut got).unwrap();
    assert_eq!(got, want);
}

#[test]
fn a_delta_block_cut_in_two_ends_as_the_whole() {
    let ring = Ring { plus, times, minus };
    let (rows, heads, dim) = (5usize, 2usize, 3usize);
    let mut next = uniform(0x1234_5678_9abc_def1);
    let span = rows * heads * dim;
    let all: Vec<f32> = (0..3 * span + 2 * rows * heads).map(|_| next()).collect();
    let state: Vec<f32> = (0..heads * dim * dim).map(|_| next()).collect();
    // Positions `from..to` of every plane, packed.
    let part = |from: usize, to: usize| -> Vec<f32> {
        let mut out = Vec::new();
        for plane in 0..3 {
            out.extend(&all[plane * span + from * heads * dim..plane * span + to * heads * dim]);
        }
        for gate in 0..2 {
            let base = 3 * span + gate * rows * heads;
            out.extend(&all[base + from * heads..base + to * heads]);
        }
        out
    };
    let (mut whole_state, mut whole) = (state.clone(), vec![0.0; span]);
    delta_rule(&ring, 0.0, &all, rows, heads, dim, &mut whole_state, &mut whole).unwrap();
    let (mut carried, mut one, mut two) = (state, vec![0.0; 2 * heads * dim], vec![0.0; 3 * heads * dim]);
    delta_rule(&ring, 0.0, &part(0, 2), 2, heads, dim, &mut carried, &mut one).unwrap();
    delta_rule(&ring, 0.0, &part(2, 5), 3, heads, dim, &mut carried, &mut two).unwrap();
    assert_eq!(carried, whole_state);
    assert_eq!([one, two].concat(), whole);
}

#[test]
fn a_prompt_attended_in_parts_is_attended_whole() {
    let (heads, dim) = (2usize, 3usize);
    let mut next = uniform(0x0fed_cba9_8765_4321);
    let queries: Vec<f32> = (0..4 * heads * dim).map(|_| next()).collect();
    let keys: Vec<f32> = (0..6 * dim).map(|_| next()).collect();
    let values: Vec<f32> = (0..6 * dim).map(|_| next()).collect();
    let widen = |v: f32| v;
    let at = AttnStart { dot: 0.0, zero: 0.0, low: f32::NEG_INFINITY, scale: 0.5 };
    let run = |rows: usize, start_pos: usize, q: &[f32]| {
        let spec = Attn { rows, start_pos, n_head: heads, n_kv: 1, head_dim: dim };
        let mut out = vec![0.0; rows * heads * dim];
        attention(&soft(), &widen, &at, q, &keys, &values, spec, &mut out).unwrap();
        out
    };
    let whole = run(4, 2, &queries);
    let parts = [run(1, 2, &queries), run(3, 3, &queries[heads * dim..])].concat();
    assert_eq!(whole, parts);
}

#[test]
fn a_convolution_cut_in_two_convolves_the_same() {
    let mix = |rows: usize| DeltaMix {
        rows,
        heads: 2,
        head_dim: 2,
        kv_heads: 1,
        kernel: 3,
        planes: [0, 2, 4],
        head_stride: 2,
        normalize: true,
        query_scale_bits: 1.0f32.to_bits(),
    };
    let channels = mix(1).channels();
    let mut next = uniform(0x7777_1111_3333_5555);
    let stream: Vec<f32> = (0..(4 + 2) * channels).map(|_| next()).collect();
    let taps: Vec<f32> = (0..3 * channels).map(|_| next()).collect();
    let run = |rows: usize, x: &[f32]| {
        let mut out = vec![0.0; mix(rows).packed_len()];
        delta_conv(&conv(), &START, mix(rows), x, &taps, &mut out).unwrap();
        out
    };
    let (whole, one, two) = (run(4, &stream), run(1, &stream), run(3, &stream[channels..]));
    for plane in 0..3 {
        let of = |out: &[f32], rows: usize| out[plane * mix(rows).span()..][..mix(rows).span()].to_vec();
        assert_eq!(of(&whole, 4), [of(&one, 1), of(&two, 3)].concat());
    }
}
