//! A file's tensors: what each is, and where in the data it lies.

use std::sync::Arc;

use vstd::prelude::*;

use crate::quant::{self, Quant};
use crate::text;

verus! {

/// How a tensor's elements are stored.
#[derive(Clone, Copy, PartialEq, Eq, Structural, Debug)]
pub enum GgmlType {
    F32,
    F16,
    Quantized(Quant),
}

pub open spec fn stored_name(ggml_type: GgmlType) -> Seq<char> {
    match ggml_type {
        GgmlType::F32 => "F32"@,
        GgmlType::F16 => "F16"@,
        GgmlType::Quantized(quant) => quant::name_of(quant),
    }
}

/// Bytes `n` elements take. A quantized tensor holds whole blocks.
pub open spec fn stored_bytes(ggml_type: GgmlType, n: nat) -> nat {
    match ggml_type {
        GgmlType::F32 => 4 * n,
        GgmlType::F16 => 2 * n,
        GgmlType::Quantized(quant) => n / (quant::block_of(quant) as nat) * (
        quant::block_bytes_of(quant) as nat),
    }
}

impl GgmlType {
    /// The quantized format, for a type that is one.
    pub fn quant(self) -> (quant: Option<Quant>)
        ensures
            quant == (match self {
                GgmlType::Quantized(q) => Some(q),
                _ => None,
            }),
    {
        match self {
            GgmlType::Quantized(q) => Some(q),
            _ => None,
        }
    }

    pub fn name(self) -> (name: String)
        ensures
            name@ == stored_name(self),
    {
        match self {
            GgmlType::F32 => "F32".to_owned(),
            GgmlType::F16 => "F16".to_owned(),
            GgmlType::Quantized(q) => q.name(),
        }
    }
}

/// One tensor of a file. The first extent is the fastest.
pub struct TensorInfo {
    pub name: String,
    pub dims: Vec<u64>,
    pub ggml_type: GgmlType,
    /// Where its bytes start in the data.
    pub offset: usize,
}

/// Elements of a tensor: the product of its extents.
pub open spec fn elements(dims: Seq<u64>) -> nat
    decreases dims.len(),
{
    if dims.len() == 0 {
        1
    } else {
        elements(dims.drop_last()) * (dims.last() as nat)
    }
}

/// A file: its tensors and their bytes.
pub struct Gguf {
    pub tensors: Vec<TensorInfo>,
    pub data: Arc<Vec<u8>>,
}

/// A run of a file's bytes that keeps the file's data alive.
pub struct Window {
    data: Arc<Vec<u8>>,
    start: usize,
    len: usize,
}

/// `Arc::clone` of std: another handle to the same bytes.
#[verifier::external_body]
fn share(data: &Arc<Vec<u8>>) -> (handle: Arc<Vec<u8>>)
    ensures
        handle == *data,
{
    Arc::clone(data)
}

impl View for Window {
    type V = Seq<u8>;

    closed spec fn view(&self) -> Seq<u8> {
        self.data@.subrange(self.start as int, self.start + self.len)
    }
}

impl Window {
    #[verifier::type_invariant]
    spec fn wf(self) -> bool {
        self.start + self.len <= self.data@.len()
    }

    /// The bytes.
    pub fn bytes(&self) -> (bytes: &[u8])
        ensures
            bytes@ == self@,
    {
        proof {
            use_type_invariant(self);
        }
        let all = self.data.as_slice();
        let room: usize = all.len();
        vstd::slice::slice_subrange(all, self.start, self.start + self.len)
    }

    pub fn len(&self) -> (len: usize)
        ensures
            len == self@.len(),
    {
        proof {
            use_type_invariant(self);
        }
        self.len
    }
}

/// A tensor of that name is the first one.
pub open spec fn is_named(tensors: Seq<TensorInfo>, name: Seq<char>, at: int) -> bool {
    &&& 0 <= at < tensors.len()
    &&& tensors[at].name@ == name
    &&& forall|i: int| 0 <= i < at ==> (#[trigger] tensors[i]).name@ != name
}

/// Whether a file has a tensor of that name.
pub open spec fn has_name(tensors: Seq<TensorInfo>, name: Seq<char>) -> bool {
    exists|i: int| 0 <= i < tensors.len() && (#[trigger] tensors[i]).name@ == name
}

/// Whether a tensor's bytes lie in the file.
pub open spec fn in_file(info: TensorInfo, len: nat) -> bool {
    info.offset + stored_bytes(info.ggml_type, elements(info.dims@)) <= len
}

/// A tensor's bytes.
pub open spec fn bytes_of(info: TensorInfo, data: Seq<u8>) -> Seq<u8> {
    data.subrange(
        info.offset as int,
        info.offset + stored_bytes(info.ggml_type, elements(info.dims@)),
    )
}

proof fn lemma_elements_zero(dims: Seq<u64>, i: int)
    requires
        0 <= i < dims.len(),
        dims[i] == 0,
    ensures
        elements(dims) == 0,
    decreases dims.len(),
{
    if i < dims.len() - 1 {
        lemma_elements_zero(dims.drop_last(), i);
        assert(0 * (dims.last() as nat) == 0);
    } else {
        assert(elements(dims.drop_last()) * 0 == 0) by (nonlinear_arith);
    }
}

proof fn lemma_elements_grow(dims: Seq<u64>, i: int)
    requires
        0 <= i <= dims.len(),
        forall|j: int| 0 <= j < dims.len() ==> dims[j] > 0,
    ensures
        elements(dims.take(i)) <= elements(dims),
    decreases dims.len() - i,
{
    if i == dims.len() {
        assert(dims.take(i) =~= dims);
    } else {
        lemma_elements_grow(dims, i + 1);
        let more = dims.take(i + 1);
        assert(more.drop_last() =~= dims.take(i));
        assert(elements(dims.take(i)) <= elements(dims.take(i)) * (dims[i] as nat)) by (
        nonlinear_arith)
            requires
                dims[i] >= 1,
        ;
    }
}

/// No format takes less than a byte for its block, which 65536 elements hold.
proof fn lemma_stored(ggml_type: GgmlType, n: nat)
    ensures
        stored_bytes(ggml_type, n) >= n / 65536,
{
    if let GgmlType::Quantized(quant) = ggml_type {
        let blocks = n / (quant::block_of(quant) as nat);
        let bytes = quant::block_bytes_of(quant) as nat;
        let block = quant::block_of(quant) as int;
        vstd::arithmetic::div_mod::lemma_div_is_ordered_by_denominator(n as int, block, 65536);
        assert(blocks * bytes >= n / 65536) by (nonlinear_arith)
            requires
                blocks >= n / 65536,
                bytes >= 1,
        ;
    }
}

/// The product of a tensor's extents, where it fits.
fn count_elements(dims: &[u64]) -> (count: Option<u128>)
    ensures
        count == (if elements(dims@) <= u128::MAX {
            Some(elements(dims@) as u128)
        } else {
            None
        }),
{
    let mut i: usize = 0;
    while i < dims.len()
        invariant
            i <= dims@.len(),
            forall|j: int| 0 <= j < i ==> dims@[j] > 0,
        decreases dims@.len() - i,
    {
        if dims[i] == 0 {
            proof {
                lemma_elements_zero(dims@, i as int);
            }
            return Some(0);
        }
        i = i + 1;
    }
    let mut count: u128 = 1;
    let mut i: usize = 0;
    assert(dims@.take(0) =~= Seq::empty());
    while i < dims.len()
        invariant
            i <= dims@.len(),
            forall|j: int| 0 <= j < dims@.len() ==> dims@[j] > 0,
            count == elements(dims@.take(i as int)),
        decreases dims@.len() - i,
    {
        proof {
            assert(dims@.take(i as int + 1).drop_last() =~= dims@.take(i as int));
            lemma_elements_grow(dims@, i as int + 1);
        }
        match count.checked_mul(dims[i] as u128) {
            Some(more) => {
                count = more;
            },
            None => {
                return None;
            },
        }
        i = i + 1;
    }
    assert(dims@.take(i as int) =~= dims@);
    Some(count)
}

impl Gguf {
    /// The tensor of that name.
    pub fn tensor(&self, name: &str) -> (info: Option<&TensorInfo>)
        ensures
            match info {
                Some(info) => exists|at: int| #[trigger]
                    is_named(self.tensors@, name@, at) && *info == self.tensors@[at],
                None => !has_name(self.tensors@, name@),
            },
    {
        let mut i: usize = 0;
        while i < self.tensors.len()
            invariant
                i <= self.tensors@.len(),
                forall|j: int| 0 <= j < i ==> (#[trigger] self.tensors@[j]).name@ != name@,
            decreases self.tensors@.len() - i,
        {
            if text::same(self.tensors[i].name.as_str(), name) {
                assert(is_named(self.tensors@, name@, i as int));
                return Some(&self.tensors[i]);
            }
            i = i + 1;
        }
        None
    }

    /// A tensor's bytes, where they lie in the file.
    pub fn tensor_window(&self, info: &TensorInfo) -> (window: Option<Window>)
        ensures
            match window {
                Some(w) => in_file(*info, self.data@.len()) && w@ == bytes_of(*info, self.data@),
                None => !in_file(*info, self.data@.len()),
            },
    {
        let room: usize = self.data.len();
        let ghost n = elements(info.dims@);
        let count: u128 = match count_elements(info.dims.as_slice()) {
            Some(count) => count,
            None => {
                proof {
                    lemma_stored(info.ggml_type, n);
                }
                return None;
            },
        };
        if count > u128::MAX / 65536 {
            proof {
                lemma_stored(info.ggml_type, n);
            }
            return None;
        }
        let len: u128 = match info.ggml_type {
            GgmlType::F32 => 4 * count,
            GgmlType::F16 => 2 * count,
            GgmlType::Quantized(q) => {
                let block: u128 = q.block() as u128;
                let bytes: u128 = q.block_bytes() as u128;
                assert(count / block * bytes <= count * 65536) by (nonlinear_arith)
                    requires
                        0 < block,
                        0 <= bytes <= 65536,
                        0 <= count,
                ;
                assert(0 <= count / block * bytes) by (nonlinear_arith)
                    requires
                        0 < block,
                        0 <= bytes,
                        0 <= count,
                ;
                count / block * bytes
            },
        };
        if len > room as u128 || info.offset > room - len as usize {
            return None;
        }
        Some(Window { data: share(&self.data), start: info.offset, len: len as usize })
    }
}

} // verus!
