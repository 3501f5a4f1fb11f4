//! Weights, their projections and what a layer costs.

use std::sync::Arc;

use phobos_gguf::backend::{Buf, HBuf, HeadPerm, QAct};
use phobos_gguf::gguf::{GgmlType, Gguf, TensorInfo};
use phobos_gguf::hadamard::{Folding, Signs};
use phobos_gguf::layers::cache::{
    rope_footprint, rope_rows, CacheCall, CacheError, Gain, KvCache, Slot,
};
use phobos_gguf::layers::ffn::{self, Ffn, FfnNarrow, FfnValues, FusedForm, GateUp};
use phobos_gguf::layers::linear::{
    fuse, is_uniform, same_fold, should_fuse, stack, transpose, Fold, FuseError, Linear, LoadError,
    Rotation, Row, Weights,
};
use phobos_gguf::layers::moe::{self, MoeDims, MoeFfn, MoeKeys, MoeValues};
use phobos_gguf::layers::program::{
    add_into, add_into_act, context, forward_act, forward_shared, offers_attn_out, offers_project,
    project_into_shared, project_plain, project_shared, proj_weight, release, share, share_norm,
    ActReg, Call, Form, Program, Reg, Shape, Shared,
};
use phobos_gguf::layers::rope::RopeTable;
use phobos_gguf::layers::row::{row_into, Restore};
use phobos_gguf::layers::{check_dims, Uploads};
use phobos_gguf::quant::packed::{PackError, Packed};
use phobos_gguf::quant::{Layout, Quant};
use phobos_gguf::transform::rotate_row;

fn file(tensors: &[(&str, &[u64], GgmlType, &[u8])]) -> Gguf {
    let mut data = Vec::new();
    let mut infos = Vec::new();
    for (name, dims, ggml_type, bytes) in tensors {
        infos.push(TensorInfo {
            name: name.to_string(),
            dims: dims.to_vec(),
            ggml_type: *ggml_type,
            offset: data.len(),
        });
        data.extend_from_slice(bytes);
    }
    Gguf { tensors: infos, data: Arc::new(data) }
}

const Q8_0: GgmlType = GgmlType::Quantized(Quant::Q8_0);
const IQ2_XS: GgmlType = GgmlType::Quantized(Quant::IQ2_XS);
const Q2_K: GgmlType = GgmlType::Quantized(Quant::Q2_K);

/// A weight of whole blocks, each byte told from its place.
fn blocks(quant: Quant, k: usize, n: usize, seed: usize) -> Vec<u8> {
    (0..n * (k / quant.block()) * quant.block_bytes()).map(|i| (i * 7 + seed) as u8).collect()
}

fn dense(key: &str, values: Vec<i64>, in_dim: usize, out_dim: usize) -> Linear<i64> {
    Linear { weight: Weights::Dense(values), in_dim, out_dim, key: key.to_string(), fold: None, narrow: false }
}

fn packed(key: &str, quant: Quant, in_dim: usize, out_dim: usize, seed: usize) -> Linear<i64> {
    let bytes = blocks(quant, in_dim, out_dim, seed);
    let p = Packed::from_bytes(quant, &bytes, in_dim, out_dim).ok().unwrap();
    Linear { weight: Weights::Quant(p), in_dim, out_dim, key: key.to_string(), fold: None, narrow: false }
}

fn values(l: &Linear<i64>) -> Vec<i64> {
    match &l.weight {
        Weights::Dense(d) => d.clone(),
        Weights::Quant(_) => panic!("a dense weight"),
    }
}

fn bytes(l: &Linear<i64>) -> Vec<u8> {
    match &l.weight {
        Weights::Quant(p) => p.bytes.clone(),
        Weights::Dense(_) => panic!("a quantized weight"),
    }
}

#[test]
fn a_packed_weight_is_its_rows() {
    let b = blocks(Quant::Q8_0, 64, 3, 0);
    let p = Packed::from_bytes(Quant::Q8_0, &b, 64, 3).ok().unwrap();
    assert_eq!(p.byte_len(), 3 * 68);
    assert_eq!(p.row_of(1), &b[68..136]);
    let q = p.select_outputs(&[2, 0, 2]);
    assert_eq!(q.bytes, [&b[136..], &b[..68], &b[136..]].concat());
    let s = Packed::stack(&[&p, &q], 8);
    assert_eq!((s.n, s.k), (8, 64));
    assert_eq!(s.row_of(3), q.row_of(0));
    assert_eq!(s.row_of(7), vec![0; 68]);
    let e = Packed::from_bytes(Quant::Q8_0, &b, 65, 3).err().unwrap();
    assert_eq!(e.message(), "Q8_0 blocks do not divide an input width of 65");
    let e = Packed::from_bytes(Quant::Q8_0, &b, 64, 2).err().unwrap();
    assert!(matches!(e, PackError::Length { .. }));
    assert_eq!(e.message(), "204 bytes are not a [2, 64] weight");
}

#[test]
fn a_weight_keeps_its_blocks_where_they_divide_its_input() {
    let b = blocks(Quant::Q8_0, 64, 2, 1);
    let gguf = file(&[
        ("q", &[64, 2], Q8_0, &b),
        ("d", &[3, 2], GgmlType::F32, &[0; 24]),
        ("r", &[48, 1], Q8_0, &[0; 51]),
        ("short", &[64, 1000], Q8_0, &b),
    ]);
    let l: Linear<i64> = Linear::load(&gguf, None, "q", 64, 2, None, false).ok().unwrap();
    assert_eq!(bytes(&l), b);
    assert!(l.is_quantized() && !l.is_raw() && l.raw_quant().is_none() && !l.folded());
    // Two rows of three, transposed to inputs by outputs.
    let l = Linear::load(&gguf, None, "d", 3, 2, Some(&[1, 2, 3, 4, 5, 6]), false).ok().unwrap();
    assert_eq!(values(&l), [1, 4, 2, 5, 3, 6]);
    let wide: Vec<i64> = (0..48).collect();
    let l = Linear::load(&gguf, None, "r", 48, 1, Some(&wide), true).ok().unwrap();
    assert_eq!(values(&l), wide);
    assert_eq!(l.dense_key(), "r.rows");

    let error = |name: &str, in_dim: usize, out_dim: usize, decoded: Option<&[i64]>| {
        Linear::load(&gguf, None, name, in_dim, out_dim, decoded, false).err().unwrap().message()
    };
    assert_eq!(error("x", 1, 1, None), "missing tensor 'x'");
    assert_eq!(error("q", 2, 64, None), "tensor 'q' has ggml extents [64, 2], expected [2, 64]");
    assert_eq!(error("short", 64, 1000, None), "tensor 'short' runs past the end of the file");
    assert_eq!(error("d", 3, 2, None), "tensor 'd' was not decoded");
    assert_eq!(error("d", 3, 2, Some(&[1])), "tensor 'd' was not decoded");
}

fn folding(block: usize) -> Folding {
    Folding {
        block,
        signs: vec![Signs { width: 1024, values: (0..1024).map(|i| if i % 3 == 0 { -1 } else { 1 }).collect() }],
        weights: vec!["w".to_string()],
        inverse: vec!["token_embd.weight".to_string()],
        gdn_v_grouped: false,
    }
}

#[test]
fn a_folded_weight_says_how_its_input_is_read() {
    let b = blocks(Quant::Q8_0, 1024, 1, 0);
    let b2 = blocks(Quant::Q8_0, 2048, 1, 0);
    let gguf = file(&[
        ("w", &[1024, 1], Q8_0, &b),
        ("token_embd.weight", &[1024, 1], Q8_0, &b),
        ("plain", &[1024, 1], Q8_0, &b),
        ("wide", &[2048, 1], Q8_0, &b2),
    ]);
    let mut f = folding(1024);
    let mut w: Linear<i64> = Linear::load(&gguf, Some(&f), "w", 1024, 1, None, false).ok().unwrap();
    assert_eq!(w.rotation(), Some(Rotation { width: 1024, perm: None }));
    assert!(matches!(&w.fold, Some(Fold::Input { signs, .. }) if signs[0] == -1 && signs[1] == 1));
    let perm = HeadPerm { head_dim: 128, groups: 4, repeat: 2 };
    w.regroup_heads(perm);
    assert_eq!(w.rotation(), Some(Rotation { width: 1024, perm: Some(perm) }));
    let table: Linear<i64> =
        Linear::load(&gguf, Some(&f), "token_embd.weight", 1024, 1, None, false).ok().unwrap();
    assert!(matches!(&table.fold, Some(Fold::Table { signs }) if signs.len() == 1024));
    assert!(!table.folded() && table.rotation().is_none());
    let plain: Linear<i64> = Linear::load(&gguf, Some(&f), "plain", 1024, 1, None, false).ok().unwrap();
    assert!(!plain.folded());
    assert!(same_fold(&[&plain, &plain]) && !same_fold(&[&plain, &w]));

    f.weights.push("wide".to_string());
    let e: LoadError = Linear::<i64>::load(&gguf, Some(&f), "wide", 2048, 1, None, false).err().unwrap();
    assert_eq!(e.message(), "prism.hadamard has no sign vector for width 2048");
    let f = folding(512);
    let e = Linear::<i64>::load(&gguf, Some(&f), "w", 1024, 1, None, false).err().unwrap();
    assert_eq!(e.message(), "'w' is folded in blocks of 512; only 1024 is implemented");
}

#[test]
fn transposing_twice_changes_nothing() {
    let x: Vec<u8> = (0..12).collect();
    let t = transpose(&x, 3, 4);
    assert_eq!(t[..4], [0, 4, 8, 1]);
    assert_eq!(transpose(&t, 4, 3), x);
}

#[test]
fn outputs_are_reordered_and_read_back() {
    let l = dense("w", vec![1, 2, 3, 4, 5, 6], 2, 3);
    let r = l.reorder_outputs("v", &[2, 0, 1]).ok().unwrap();
    assert_eq!((values(&r), r.key.as_str()), (vec![3, 1, 2, 6, 4, 5], "w.v"));
    let e = l.reorder_outputs("v", &[0, 1]).err().unwrap();
    assert_eq!(e.message(), "a reordering of 'w' must be a permutation of its 3 outputs");
    assert!(l.reorder_outputs("v", &[0, 1, 3]).is_err());
    assert!(l.reorder_outputs("v", &[0, 0, 1]).is_err());
    let two = dense("t", vec![1, 2], 1, 2);
    let e = two.reorder_outputs("v", &[0, 0]).err().unwrap();
    assert_eq!(e.message(), "a reordering of 't' must be a permutation of its 2 outputs");
    let q = packed("q", Quant::Q8_0, 32, 2, 5);
    let r = q.reorder_outputs("v", &[1, 0]).ok().unwrap();
    assert_eq!(bytes(&r), [&bytes(&q)[34..], &bytes(&q)[..34]].concat());

    assert!(matches!(l.row(1, 2), Ok(Row::Values(v)) if v == [2, 5]));
    assert!(matches!(q.row(1, 32), Ok(Row::Blocks(b)) if b == bytes(&q)[34..]));
    let e = l.row(3, 2).err().unwrap();
    assert_eq!(e.message(), "row 3 of a [3, 2] weight does not fit a 2-element slice");
    assert!(l.row(0, 3).is_err());
}

#[test]
fn fusing_keeps_every_output() {
    let (a, b) = (packed("a", Quant::Q8_0, 32, 2, 0), packed("b", Quant::Q8_0, 32, 3, 9));
    assert!(is_uniform(&[&a, &b]) && should_fuse(&[&a, &b]));
    let f = fuse(&[&a, &b], &[], 0, false).ok().unwrap();
    assert_eq!((f.in_dim, f.out_dim, f.key.as_str()), (32, 256, "a+b"));
    let whole = bytes(&f);
    assert_eq!(whole[..5 * 34], [bytes(&a), bytes(&b)].concat());
    assert!(whole[5 * 34..].iter().all(|&b| b == 0) && whole.len() == 256 * 34);

    let (c, d) = (dense("c", vec![1, 2, 3, 4], 2, 2), dense("d", vec![5, 6], 2, 1));
    assert!(should_fuse(&[&c, &d]) && !is_uniform(&[&c, &d]));
    let f = fuse(&[&c, &d], &[vec![], vec![]], 0, false).ok().unwrap();
    let v = values(&f);
    assert_eq!((&v[..3], &v[256..259], v.len()), (&[1, 2, 5][..], &[3, 4, 6][..], 512));
    assert!(v[3..256].iter().all(|&x| x == 0));

    // Raw formats are left apart, and so are weights of two kinds.
    let raw = packed("r", Quant::IQ2_XS, 256, 1, 0);
    assert!(!should_fuse(&[&raw, &raw]) && !should_fuse(&[&a, &d]));

    let e = fuse::<i64>(&[], &[], 0, false).err().unwrap();
    assert_eq!(e.message(), "fusing needs a weight");
    let e = fuse(&[&a, &d], &[vec![0; 64], vec![]], 0, false).err().unwrap();
    assert_eq!(e.message(), "fused projections must share their input width");
    let mut folded = packed("z", Quant::Q8_0, 32, 2, 0);
    folded.fold = Some(Fold::Input { signs: vec![1; 32], perm: None });
    let e = fuse(&[&a, &folded], &[], 0, false).err().unwrap();
    assert!(matches!(&e, FuseError::Folds { key } if key == "a+z"));
    assert_eq!(e.message(), "fusing weights read through different transforms ('a+z')");
}

const TERNARY: Layout = Layout { block: 128, block_bytes: 20, has_min: false };

#[test]
fn a_ternary_weight_fuses_in_its_blocks() {
    let (a, b) = (packed("a", Quant::PTQ1_0(TERNARY), 256, 2, 0), packed("b", Quant::PTQ1_0(TERNARY), 256, 1, 9));
    assert_eq!(bytes(&a).len(), 2 * 2 * 20);
    assert!(should_fuse(&[&a, &b]));
    let f = fuse(&[&a, &b], &[], 0, false).ok().unwrap();
    assert_eq!(bytes(&f)[..120], [bytes(&a), bytes(&b)].concat());
    assert_eq!(f.form(), Form::Raw(Quant::PTQ1_0(TERNARY)));
    let mut u = Uploads::new();
    a.footprint(&mut u);
    assert_eq!((u.bytes(), u.dense_bytes()), (80 + 4 * 2, 0));
}

#[test]
fn a_format_no_kernel_reads_goes_up_dense() {
    let q = Quant::Other(39, TERNARY);
    assert_eq!((q.name().as_str(), q.block(), q.block_bytes()), ("type 39", 128, 20));
    assert!(!q.has_planes() && !q.has_raw_scales() && !q.stacks());
    let a = packed("a", q, 256, 2, 0);
    assert_eq!(a.form(), Form::Decoded);
    assert!(!a.is_quantized() && !a.is_raw() && !a.dense_plain() && a.raw_quant().is_none());
    assert!(!should_fuse(&[&a, &a]));
    let mut u = Uploads::new();
    a.footprint(&mut u);
    assert_eq!((u.bytes(), u.dense_bytes()), (2048, 2048));
    let mut p = Program::new();
    project_plain(&mut p, a.shape(), 0, X, Some(ActReg::Given(QAct(1))), 2, OUT);
    assert!(matches!(p.calls[0], Call::Project { form: Form::Decoded, act: None, .. }));
    assert!(!offers_project(a.shape(), 1));
    let empty = Quant::Other(1, Layout { block: 0, block_bytes: 0, has_min: true });
    assert_eq!((empty.block(), empty.block_bytes(), empty.has_min()), (1, 1, true));
}

#[test]
fn stacking_pads_nothing() {
    let (c, d) = (dense("c", vec![1, 2, 3, 4], 2, 2), dense("d", vec![5, 6], 2, 1));
    let s = stack(&[&c, &d], true, 0).unwrap();
    assert_eq!((values(&s), s.out_dim, s.narrow), (vec![1, 2, 5, 3, 4, 6], 3, true));
    let a = packed("a", Quant::Q8_0, 32, 2, 0);
    assert!(stack(&[&a, &a], true, 0).is_none());
    assert!(stack(&[&c, &d], false, 0).is_none());
}

#[test]
fn a_footprint_counts_a_key_once() {
    let mut u = Uploads::new();
    packed("q", Quant::Q8_0, 64, 2, 0).footprint(&mut u);
    assert_eq!(u.bytes(), 128 + 2 * 4 * 4);
    packed("q", Quant::Q8_0, 64, 2, 0).footprint(&mut u);
    assert_eq!(u.bytes(), 128 + 2 * 4 * 4);
    let raw = packed("r", Quant::IQ2_XS, 256, 2, 0);
    raw.footprint(&mut u);
    let q2 = packed("m", Quant::Q2_K, 256, 2, 0);
    q2.footprint(&mut u);
    assert_eq!(u.bytes(), 160 + bytes(&raw).len() + 4 + bytes(&q2).len() + 8);
    dense("d", vec![0; 6], 2, 3).footprint(&mut u);
    assert_eq!(u.dense_bytes(), 24);
    u.add_streamed("experts", 1000);
    u.add_streamed("experts", 1000);
    u.add_resident("norm", 8, true);
    assert_eq!((u.streamed_bytes(), u.streamed_sets(), u.dense_bytes()), (1000, 1, 32));
    let info = TensorInfo { name: "t".to_string(), dims: vec![2, 3], ggml_type: GgmlType::F16, offset: 0 };
    assert!(check_dims(&info, &[2, 3]).is_ok());
    assert_eq!(
        check_dims(&info, &[2]).err().unwrap().message(),
        "tensor 't' has ggml extents [2, 3], expected [2]"
    );
}

const X: Reg = Reg::Given(Buf(7));
const OUT: Reg = Reg::Given(Buf(8));

fn shape(form: Form, rotation: Option<Rotation>) -> Shape {
    Shape { in_dim: 1024, out_dim: 64, form, rotation, folded: rotation.is_some() }
}

const TURN: Option<Rotation> = Some(Rotation { width: 1024, perm: None });

#[test]
fn a_projection_goes_by_the_weight_it_has() {
    let narrow = Linear { narrow: true, ..dense("d", vec![1; 6], 2, 3) };
    assert_eq!(narrow.form(), Form::Rows);
    assert_eq!(dense("d", vec![1; 6], 2, 3).form(), Form::Dense);
    assert!(dense("d", vec![1; 6], 2, 3).dense_plain());
    assert_eq!(packed("r", Quant::IQ2_XS, 256, 1, 0).form(), Form::Raw(Quant::IQ2_XS));
    let q = packed("q", Quant::Q8_0, 32, 2, 0);
    assert_eq!(q.shape(), Shape { in_dim: 32, out_dim: 2, form: Form::Planes, rotation: None, folded: false });
    assert!(!q.dense_plain());

    let act = Some(ActReg::Given(QAct(1)));
    let mut p = Program::new();
    project_plain(&mut p, shape(Form::Planes, None), 0, X, act, 2, OUT);
    project_plain(&mut p, shape(Form::Dense, None), 1, X, act, 2, OUT);
    let call = |weight: usize, form: Form, act: Option<ActReg>| Call::Project {
        weight,
        form,
        x: X,
        act,
        rows: 2,
        in_dim: 1024,
        out_dim: 64,
        out: OUT,
    };
    assert_eq!(p.calls, [call(0, Form::Planes, act), call(1, Form::Dense, None)]);
}

#[test]
fn a_folded_projection_transforms_and_releases() {
    let s = shape(Form::Planes, TURN);
    let mut p = Program::new();
    project_shared(&mut p, s, 3, X, None, 2, OUT);
    assert_eq!(
        p.calls,
        [
            Call::Take { to: 0, len: 2048 },
            Call::Transform { weight: 3, x: X, rows: 2, width: 1024, perm: None, out: Reg::Made(0), act: Some(0) },
            Call::Project {
                weight: 3,
                form: Form::Planes,
                x: Reg::Made(0),
                act: Some(ActReg::Made(0)),
                rows: 2,
                in_dim: 1024,
                out_dim: 64,
                out: OUT,
            },
            Call::Release { buf: Reg::Made(0), guards: 1 },
        ]
    );
    let mut p = Program::new();
    let out = forward_act(&mut p, shape(Form::Dense, None), 0, X, None, 2);
    assert_eq!((out, p.calls[0]), (Reg::Made(0), Call::Take { to: 0, len: 128 }));
}

#[test]
fn a_residual_accumulates_or_adds() {
    let mut p = Program::new();
    add_into(&mut p, shape(Form::Planes, None), 0, X, 1, OUT);
    assert_eq!(
        p.calls,
        [
            Call::Quantize { x: X, rows: 1, width: 1024, to: 0 },
            Call::Accumulate { weight: 0, act: ActReg::Made(0), rows: 1, in_dim: 1024, out_dim: 64, dest: OUT },
        ]
    );
    let mut p = Program::new();
    add_into(&mut p, shape(Form::Dense, None), 0, X, 1, OUT);
    assert!(matches!(p.calls[0], Call::Take { to: 0, len: 64 }));
    assert!(p.calls.contains(&Call::Sum { dest: OUT, from: Reg::Made(0) }));
    assert!(matches!(p.calls.last(), Some(Call::Release { buf: Reg::Made(0), .. })));
    let act = ActReg::Given(QAct(5));
    let mut p = Program::new();
    add_into_act(&mut p, shape(Form::Planes, None), 0, X, Some(act), 1, OUT);
    assert_eq!(p.calls, [Call::Accumulate { weight: 0, act, rows: 1, in_dim: 1024, out_dim: 64, dest: OUT }]);
    // What was quantized was not the transformed row, so a folded weight starts over.
    let mut p = Program::new();
    add_into_act(&mut p, shape(Form::Planes, TURN), 0, X, Some(act), 1, OUT);
    let mut q = Program::new();
    add_into(&mut q, shape(Form::Planes, TURN), 0, X, 1, OUT);
    assert_eq!(p.calls, q.calls);
}

#[test]
fn a_shared_input_serves_weights_of_one_transform() {
    let mut p = Program::new();
    let s = shape(Form::Raw(Quant::IQ2_XS), TURN);
    let shared = share(&mut p, s, 0, X, None, 1);
    assert_eq!((shared.rotation, shared.plain_act()), (TURN, None));
    assert!(project_into_shared(&mut p, s, "w", 0, shared, 1, OUT).is_ok());
    let e = forward_shared(&mut p, shape(Form::Planes, None), "w", 1, shared, 1).err().unwrap();
    assert_eq!(e.message(), "'w' reads its input through None, but it was prepared for Some((1024, None))");
    release(&mut p, shared, 0);
    assert_eq!(p.calls.last(), Some(&Call::Release { buf: shared.x, guards: 0 }));

    let perm = HeadPerm { head_dim: 128, groups: 4, repeat: 2 };
    let regrouped = shape(Form::Planes, Some(Rotation { width: 1024, perm: Some(perm) }));
    let e = project_into_shared(&mut p, regrouped, "w", 0, shared, 1, OUT).err().unwrap();
    assert_eq!(
        e.message(),
        "'w' reads its input through Some((1024, Some(HeadPerm { head_dim: 128, groups: 4, repeat: 2 }))), but it was prepared for Some((1024, None))"
    );

    let mut p = Program::new();
    let plain = share_norm(&mut p, shape(Form::Planes, None), 0, X, 2, OUT);
    assert_eq!(p.calls, [Call::NormQuantize { x: X, rows: 2, width: 1024, out: OUT, act: 0 }]);
    assert_eq!((plain.x, plain.plain_act()), (OUT, Some(ActReg::Made(0))));
    let mut p = Program::new();
    let turned = share_norm(&mut p, s, 4, X, 2, OUT);
    assert_eq!(
        p.calls[1],
        Call::NormTransform { weight: 4, x: X, rows: 2, width: 1024, normed: OUT, out: Reg::Made(0), act: 0 }
    );
    assert_eq!(turned.x, Reg::Made(0));
    let mut p = Program::new();
    share_norm(&mut p, regrouped, 4, X, 2, OUT);
    assert_eq!(p.calls[0], Call::Norm { x: X, rows: 2, width: 1024, out: OUT });
    assert!(matches!(p.calls[2], Call::Transform { x: OUT, .. }));
}

#[test]
fn only_a_plain_decode_row_is_fused() {
    let planes = shape(Form::Planes, None);
    assert!(offers_attn_out(planes, 1) && !offers_attn_out(planes, 2));
    assert!(!offers_attn_out(shape(Form::Planes, TURN), 1));
    assert!(!offers_attn_out(shape(Form::Raw(Quant::Q2_K), None), 1));
    assert_eq!(proj_weight(planes), Some(Form::Planes));
    assert_eq!(proj_weight(shape(Form::Rows, None)), None);
    assert_eq!(proj_weight(shape(Form::Planes, TURN)), None);
    assert!(offers_project(shape(Form::Raw(Quant::Q2_K), None), 1) && !offers_project(planes, 2));
}

#[test]
fn a_failed_call_says_which_weight_it_was_for() {
    let keys = ["a".to_string(), "b".to_string()];
    let project = Call::Project { weight: 1, form: Form::Dense, x: X, act: None, rows: 1, in_dim: 1, out_dim: 1, out: OUT };
    assert_eq!(context(project, &keys).unwrap(), "matmul for 'b'");
    let add = Call::Accumulate { weight: 0, act: ActReg::Made(0), rows: 1, in_dim: 1, out_dim: 1, dest: OUT };
    assert_eq!(context(add, &keys).unwrap(), "residual matmul for 'a'");
    let turn = Call::Transform { weight: 0, x: X, rows: 1, width: 1, perm: None, out: OUT, act: None };
    assert_eq!(context(turn, &keys).unwrap(), "Hadamard transform ahead of 'a'");
    assert_eq!(context(Call::Sum { dest: OUT, from: X }, &keys), None);
}

/// Whether every buffer a program takes it also releases, once, and reads none
/// it does not hold.
fn settles(p: &Program) -> bool {
    let mut live: Vec<usize> = Vec::new();
    for call in &p.calls {
        match call {
            Call::Take { to, .. } | Call::Zeroed { to, .. } => live.push(*to),
            Call::Release { buf: Reg::Made(at), .. } => match live.iter().position(|l| l == at) {
                Some(i) => {
                    live.remove(i);
                }
                None => return false,
            },
            _ => {}
        }
    }
    live.is_empty()
}

fn ffn_file(gate: GgmlType, down: GgmlType, d: usize, f: usize) -> Gguf {
    let wide = |t: GgmlType, k: usize, n: usize| match t {
        GgmlType::Quantized(q) => blocks(q, k, n, 3),
        _ => vec![0; 4 * k * n],
    };
    let (g, u, w) = (wide(gate, d, f), wide(gate, d, f), wide(down, f, d));
    let (d, f) = (d as u64, f as u64);
    file(&[
        ("blk.0.ffn_gate.weight", &[d, f], gate, &g),
        ("blk.0.ffn_up.weight", &[d, f], gate, &u),
        ("blk.0.ffn_down.weight", &[f, d], down, &w),
        ("blk.0.ffn_gate_shexp.weight", &[d, f], gate, &g),
        ("blk.0.ffn_up_shexp.weight", &[d, f], gate, &u),
        ("blk.0.ffn_down_shexp.weight", &[f, d], down, &w),
        ("blk.0.ffn_gate_inp.weight", &[d, 4], GgmlType::F32, &[]),
        ("blk.0.ffn_gate_inp_shexp.weight", &[d], GgmlType::F32, &[]),
    ])
}

const NARROW: FfnNarrow = FfnNarrow { one: false, both: false, down: false };
const NONE: FfnValues<'static, i64> = FfnValues { gate: None, up: None, down: None };

#[test]
fn a_feed_forward_stacks_what_it_can() {
    let load = |gate: GgmlType, down: GgmlType| {
        let gguf = ffn_file(gate, down, 256, 256);
        Ffn::load(&gguf, None, "blk.0", "", 256, 256, NONE, NARROW, 0i64).ok().unwrap()
    };
    let planes = load(Q8_0, Q8_0);
    assert!(matches!(&planes.gate_up, GateUp::Fused(both) if both.out_dim == 512));
    assert_eq!(planes.shape().forward_fused(1), FusedForm::Planes);
    assert_eq!(planes.shape().forward_fused(2), FusedForm::No);
    let raw = load(IQ2_XS, Q2_K);
    assert!(matches!(&raw.gate_up, GateUp::Split { .. }));
    let form = FusedForm::Raw { gate: Quant::IQ2_XS, up: Quant::IQ2_XS, down: Quant::Q2_K };
    assert_eq!(raw.shape().forward_fused(1), form);
    let mut u = Uploads::new();
    raw.footprint(&mut u);
    assert_eq!(u.keys, ["blk.0.ffn_gate.weight", "blk.0.ffn_up.weight", "blk.0.ffn_down.weight"]);
    let gguf = file(&[]);
    let e = Ffn::load(&gguf, None, "blk.0", "", 256, 256, NONE, NARROW, 0i64).err().unwrap();
    assert_eq!(e.message(), "missing tensor 'blk.0.ffn_gate.weight'");
}

#[test]
fn a_feed_forward_releases_what_it_takes() {
    for (gate, down) in [(Q8_0, Q8_0), (IQ2_XS, Q2_K)] {
        let gguf = ffn_file(gate, down, 256, 256);
        let f = Ffn::load(&gguf, None, "blk.0", "", 256, 256, NONE, NARROW, 0i64).ok().unwrap();
        let shared = Shared { x: X, act: None, rotation: None };
        for rows in [1, 3] {
            let mut p = Program::new();
            assert!(ffn::forward(&mut p, f.shape(), 0, "g", "u", shared, rows, OUT).is_ok());
            assert!(settles(&p), "{:?}", p.calls);
            let swiglus = p.calls.iter().filter(|c| match c {
                Call::SwigluQuantize { len, .. } => rows == 1 && *len == 256,
                Call::SwigluPlanes { rows: r, .. } => rows != 1 && *r == rows,
                _ => false,
            });
            assert_eq!(swiglus.count(), 1);
        }
    }
}

/// A program over whole numbers and dense weights, `silu` taken as it is.
fn compute(p: &Program, weights: &[&Linear<i64>], given: &mut [Vec<i64>]) {
    let mut made: Vec<Vec<i64>> = Vec::new();
    let read = |made: &Vec<Vec<i64>>, given: &[Vec<i64>], r: Reg| match r {
        Reg::Given(b) => given[b.0].clone(),
        Reg::Made(t) => made[t].clone(),
    };
    for &call in &p.calls {
        let (to, now) = match call {
            Call::Take { len, .. } => {
                made.push(vec![-7; len]);
                continue;
            }
            Call::Release { .. } => continue,
            Call::Project { weight, x, rows, in_dim, out_dim, out, .. } => {
                let (x, w) = (read(&made, given, x), values(weights[weight]));
                let mut now = read(&made, given, out);
                for (at, v) in now.iter_mut().take(rows * out_dim).enumerate() {
                    let (r, j) = (at / out_dim, at % out_dim);
                    *v = (0..in_dim).map(|i| x[r * in_dim + i] * w[i * out_dim + j]).sum();
                }
                (out, now)
            }
            Call::SwigluPlanes { gate, up, out, rows, width } => {
                let (g, u) = (read(&made, given, gate.buf), read(&made, given, up.buf));
                let mut now = read(&made, given, out);
                for (at, v) in now.iter_mut().take(rows * width).enumerate() {
                    let (r, i) = (at / width, at % width);
                    *v = g[gate.offset + r * gate.pitch + i] * u[up.offset + r * up.pitch + i];
                }
                (out, now)
            }
            Call::Sum { dest, from } => {
                let from = read(&made, given, from);
                let mut now = read(&made, given, dest);
                for (v, f) in now.iter_mut().zip(from) {
                    *v += f;
                }
                (dest, now)
            }
            other => panic!("{other:?}"),
        };
        match to {
            Reg::Given(b) => given[b.0] = now,
            Reg::Made(t) => made[t] = now,
        }
    }
}

#[test]
fn a_feed_forward_of_several_rows_reads_past_the_padding() {
    let (d, f, rows) = (2usize, 3usize, 3usize);
    let gate = dense("g", vec![1, 2, 3, 4, 5, 6], d, f);
    let up = dense("u", vec![2, 0, 1, 1, 3, 2], d, f);
    let down = dense("d", vec![1, 2, 3, 4, 5, 6], f, d);
    let x: Vec<i64> = vec![1, 2, 3, 4, 5, 6];
    let mut want = vec![10i64; rows * d];
    for r in 0..rows {
        let project = |w: &Linear<i64>, i: usize| -> i64 {
            (0..d).map(|p| x[r * d + p] * values(w)[p * f + i]).sum()
        };
        let hidden: Vec<i64> = (0..f).map(|i| project(&gate, i) * project(&up, i)).collect();
        for j in 0..d {
            want[r * d + j] += (0..f).map(|i| hidden[i] * values(&down)[i * d + j]).sum::<i64>();
        }
    }
    let both = fuse(&[&gate, &up], &[vec![], vec![]], 0, false).ok().unwrap();
    assert_eq!(both.out_dim, 256);
    let shared = Shared { x: Reg::Given(Buf(0)), act: None, rotation: None };
    let dest = Reg::Given(Buf(1));

    let stacked = Ffn { gate_up: GateUp::Fused(both), down: dense("d", vec![1, 2, 3, 4, 5, 6], f, d) };
    let mut p = Program::new();
    assert!(ffn::forward(&mut p, stacked.shape(), 0, "g", "u", shared, rows, dest).is_ok());
    let GateUp::Fused(both) = &stacked.gate_up else { panic!("a stack") };
    let mut held = vec![x.clone(), vec![10; rows * d]];
    compute(&p, &[both, both, &stacked.down], &mut held);
    assert_eq!(held[1], want);

    let apart = Ffn { gate_up: GateUp::Split { gate, up }, down };
    let mut p = Program::new();
    assert!(ffn::forward(&mut p, apart.shape(), 0, "g", "u", shared, rows, dest).is_ok());
    let GateUp::Split { gate, up } = &apart.gate_up else { panic!("two weights") };
    let mut held = vec![x.clone(), vec![10; rows * d]];
    compute(&p, &[gate, up, &apart.down], &mut held);
    assert_eq!((&held[0], &held[1]), (&x, &want));
}

#[test]
fn a_refused_input_leaves_what_was_taken() {
    let gguf = ffn_file(Q8_0, Q8_0, 256, 256);
    let f = Ffn::load(&gguf, None, "blk.0", "", 256, 256, NONE, NARROW, 0i64).ok().unwrap();
    let turned = Shared { x: X, act: None, rotation: Some(Rotation { width: 256, perm: None }) };
    let mut p = Program::new();
    assert!(ffn::forward(&mut p, f.shape(), 0, "g", "u", turned, 2, OUT).is_err());
    assert!(
        matches!(p.calls[..], [Call::Take { len: 512, .. }, Call::Take { len: 1024, .. }]),
        "{:?}",
        p.calls
    );
}

#[test]
fn a_routed_feed_forward_gates_its_shared_expert() {
    let (d, f) = (256usize, 256usize);
    let mut gguf = ffn_file(Q8_0, Q8_0, d, f);
    let mut data = (*gguf.data).clone();
    for name in ["gate", "up", "down"] {
        gguf.tensors.push(TensorInfo {
            name: format!("blk.0.ffn_{name}_exps.weight"),
            dims: vec![256, 256, 4],
            ggml_type: Q8_0,
            offset: data.len(),
        });
        data.extend(blocks(Quant::Q8_0, d, 4 * f, 1));
    }
    gguf.data = Arc::new(data);
    let (router, gate) = (vec![1i64; 4 * d], vec![2i64; d]);
    let values = || MoeValues {
        router: Some(&router),
        router_narrow: true,
        shared: NONE,
        shared_narrow: NARROW,
        gate: Some(&gate),
    };
    let dims = MoeDims { d_model: d, n_expert: 4, n_used: 2, d_expert: f, d_shared: f };
    let m = MoeFfn::load(&gguf, None, "blk.0", dims, values(), 0).ok().unwrap();
    assert_eq!((m.key.as_str(), m.n_used, m.shared_gate.data.len()), ("blk.0.experts", 2, d));
    let mut u = Uploads::new();
    m.footprint(&mut u);
    assert_eq!((u.streamed_sets(), u.streamed_bytes()), (1, m.experts.byte_len()));

    let mut p = Program::new();
    let shared = Shared { x: X, act: None, rotation: None };
    let keys = MoeKeys { router: "r", gate: "g", up: "u" };
    assert!(moe::forward(&mut p, m.shape(), keys, shared, 2, OUT, Some(Buf(3))).is_ok());
    assert!(settles(&p), "{:?}", p.calls);
    assert!(p.calls.iter().any(|c| matches!(c, Call::Zeroed { len: 512, .. })));
    assert!(p.calls.iter().any(|c| matches!(c, Call::Experts { n_used: 2, n_expert: 4, routes: Some(Buf(3)), .. })));

    let message = |dims: MoeDims| MoeFfn::load(&gguf, None, "blk.0", dims, values(), 0).err().unwrap().message();
    assert_eq!(message(MoeDims { n_used: 5, ..dims }), "blk.0 routes to 5 of 4 experts");
    assert_eq!(message(MoeDims { n_used: 0, ..dims }), "blk.0 routes to 0 of 4 experts");
    let f = Folding {
        block: 1024,
        signs: vec![],
        weights: vec!["blk.0.ffn_gate_inp.weight".to_string()],
        inverse: vec![],
        gdn_v_grouped: false,
    };
    let e = MoeFfn::load(&gguf, Some(&f), "blk.0", dims, values(), 0).err().unwrap();
    assert!(!e.message().is_empty());
}

#[test]
fn a_cache_grows_by_doubling_and_keeps_what_it_had() {
    let mut c = KvCache::new();
    assert_eq!(c.pair(), Err(CacheError::Keys));
    assert_eq!(CacheError::Keys.message(), "key cache was never allocated");
    assert_eq!(CacheError::Values.message(), "value cache was never allocated");
    let take = |slot: Slot, len: usize| CacheCall::Take { slot, len };
    assert_eq!(
        c.reserve(3, 8),
        [take(Slot::Keys, 512), take(Slot::Values, 512), CacheCall::Settle { capacity: 64 }]
    );
    c.hold(Slot::Keys, HBuf(1));
    c.hold(Slot::Values, HBuf(2));
    c.settle(64);
    assert_eq!((c.held(Slot::Keys), c.held(Slot::Values)), (Some(HBuf(1)), Some(HBuf(2))));
    assert_eq!(c.reserve(64, 8), []);
    assert_eq!(
        c.reserve(65, 8),
        [
            take(Slot::Keys, 1024),
            CacheCall::Carry { slot: Slot::Keys, old_buf: HBuf(1), len: 512 },
            CacheCall::Release { buf: HBuf(1) },
            take(Slot::Values, 1024),
            CacheCall::Carry { slot: Slot::Values, old_buf: HBuf(2), len: 512 },
            CacheCall::Release { buf: HBuf(2) },
            CacheCall::Settle { capacity: 128 },
        ]
    );
    c.hold(Slot::Keys, HBuf(3));
    c.hold(Slot::Values, HBuf(4));
    c.settle(128);
    assert_eq!((c.pair(), c.capacity), (Ok((HBuf(3), HBuf(4))), 128));
    assert_eq!(c.release(), [CacheCall::Release { buf: HBuf(3) }, CacheCall::Release { buf: HBuf(4) }]);
    assert_eq!((c.capacity, c.pair()), (0, Err(CacheError::Keys)));
    c.keys = Some(HBuf(1));
    assert_eq!(c.pair(), Err(CacheError::Values));
}

#[test]
fn angles_cover_whole_powers_of_two() {
    assert_eq!(rope_rows(512, 512), None);
    assert_eq!(rope_rows(0, 1), Some(512));
    assert_eq!(rope_rows(512, 513), Some(1024));
    let mut u = Uploads::new();
    rope_footprint(&mut u, "rope", 64, 513);
    assert_eq!(u.bytes(), 2 * 1024 * 64 * 4);
}

#[test]
fn a_gain_is_a_vector_of_its_own() {
    let gguf = file(&[("n", &[3], GgmlType::F32, &[0; 12])]);
    let g = Gain::load(&gguf, "n", 3, Some(&[1, 2, 3])).ok().unwrap();
    assert_eq!((g.data.as_slice(), g.key.as_str()), (&[1, 2, 3][..], "n"));
    let mut u = Uploads::new();
    g.footprint(&mut u);
    assert_eq!(u.bytes(), 12);
    assert_eq!(Gain::load(&gguf, "n", 4, Some(&[1])).err().unwrap().message(), "tensor 'n' has ggml extents [3], expected [4]");
    assert_eq!(Gain::<i64>::load(&gguf, "n", 3, None).err().unwrap().message(), "tensor 'n' was not decoded");
    let d = Gain::derived("k".to_string(), vec![7]);
    assert_eq!((d.data, d.key.as_str()), (vec![7], "k"));
}

#[test]
fn angles_are_kept_as_the_table_grows() {
    check_table(4);
    check_table(5);
}

/// Grows a table twice and checks every row against its position.
fn check_table(rope_dim: usize) {
    let cos = |p: usize, i: usize| (1000 * p + i) as i64;
    let sin = |p: usize, i: usize| -((1000 * p + i) as i64);
    let mut table: RopeTable<i64> = RopeTable::new(rope_dim);
    table.cover(&cos, &sin, 0, 3);
    assert_eq!(table.angles.len(), 512 * rope_dim);
    table.cover(&cos, &sin, 0, 512);
    assert_eq!(table.angles.len(), 512 * rope_dim);
    table.cover(&cos, &sin, 0, 600);
    assert_eq!(table.angles.len(), 1024 * rope_dim);
    for (p, row) in table.angles.chunks(rope_dim).enumerate() {
        let p = p as i64;
        assert_eq!(row[..4], [1000 * p, 1000 * p + 1, -1000 * p, -1000 * p - 1]);
        assert!(row[4..].iter().all(|&x| x == 0));
    }
}

#[test]
fn a_folded_table_gives_its_row_back_as_it_was() {
    // Two rows of 1024, stored transformed in integers: restoring multiplies by
    // the block.
    let (plus, minus, times) = (|a: i64, b: i64| a + b, |a: i64, b: i64| a - b, |a: i64, b: i64| a * b);
    let signs: Vec<i64> = (0..1024).map(|i| if i % 7 == 0 { -1 } else { 1 }).collect();
    let rows: Vec<Vec<i64>> = (0..2).map(|r| (0..1024).map(|i| (i * 31 + r) % 17 - 8).collect()).collect();
    let mut stored = Vec::new();
    for row in &rows {
        let mut turned = vec![0; 1024];
        rotate_row(&plus, &minus, &times, 1, row, &signs, None, 1024, &mut turned);
        stored.extend(turned);
    }
    let mut l = dense("token_embd.weight", transpose(&stored, 2, 1024), 1024, 2);
    l.fold = Some(Fold::Table { signs });
    let how = Restore { plus, minus, times, number: |s: i64| s, scale: 1 };
    let decode = |_: &[u8]| Vec::new();
    for (r, row) in rows.iter().enumerate() {
        let got = row_into(&l, &decode, &how, r, 1024).ok().unwrap();
        assert!(got.iter().zip(row).all(|(g, x)| *g == 1024 * x));
    }
    let e = row_into(&l, &decode, &how, 2, 1024).err().unwrap();
    assert_eq!(e.message(), "row 2 of a [2, 1024] weight does not fit a 1024-element slice");

    // A quantized weight's row is its blocks decoded.
    let q = packed("q", Quant::Q8_0, 32, 2, 5);
    let bytes_of = |b: &[u8]| b.iter().map(|&x| i64::from(x)).collect::<Vec<i64>>();
    let got = row_into(&q, &bytes_of, &how, 1, 32).ok().unwrap();
    assert_eq!(got, bytes_of(&bytes(&q)[34..]));
}
