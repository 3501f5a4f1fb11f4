//! A mixture-of-experts block's expert weights: stacks of quantized matrices
//! read out of the file's data rather than copied out of it, since a model's
//! experts are most of its bytes and do not all fit on a device at once.

use std::sync::Arc;

use vstd::arithmetic::div_mod;
use vstd::prelude::*;

use crate::gguf::{self, Gguf, GgmlType, TensorInfo, Window};
use crate::quant::grouped::{self, group_rows_into, grouped_len};
use crate::quant::{self, Quant};
use crate::text::{self, list_text, Args};

verus! {

broadcast use crate::text::lemma_filled_args;

/// What a stack holds: `count` experts' `[n, k]` matrices back to back, each
/// `n` rows of whole blocks.
#[verifier::ext_equal]
pub ghost struct Stack {
    pub quant: Quant,
    pub count: nat,
    pub n: nat,
    pub k: nat,
    pub bytes: Seq<u8>,
}

impl Stack {
    /// Blocks along one row.
    pub open spec fn blocks(self) -> nat {
        self.k / (quant::block_of(self.quant) as nat)
    }

    /// Bytes one expert's matrix takes, which is also the stride between
    /// experts.
    pub open spec fn stride(self) -> nat {
        self.n * self.blocks() * (quant::block_bytes_of(self.quant) as nat)
    }

    pub open spec fn wf(self) -> bool {
        &&& self.k % (quant::block_of(self.quant) as nat) == 0
        &&& self.bytes.len() == self.count * self.stride()
    }

    /// Expert `e`'s blocks, row after row.
    pub open spec fn expert(self, e: int) -> Seq<u8> {
        self.bytes.subrange(e * self.stride(), (e + 1) * self.stride())
    }

    /// Expert `e`'s blocks, each cut to the window a device keeps of it.
    pub open spec fn kept(self, e: int) -> Seq<u8> {
        let (skip, dev) = quant::device_block_of(self.quant);
        windows(
            self.expert(e),
            self.n * self.blocks(),
            quant::block_bytes_of(self.quant) as nat,
            skip as nat,
            dev as nat,
        )
    }

    /// Bytes one expert takes in the grouped layout.
    pub open spec fn grouped_size(self) -> nat {
        grouped::grouped_size(
            self.n,
            self.blocks(),
            quant::device_block_of(self.quant).1 as nat,
        )
    }
}

/// `dev` bytes of each of `count` blocks, the ones after its first `skip`.
pub open spec fn windows(bytes: Seq<u8>, count: nat, block: nat, skip: nat, dev: nat) -> Seq<u8> {
    Seq::new(count * dev, |p: int| bytes[p / (dev as int) * block + skip + p % (dev as int)])
}

/// Why a stack does not load.
pub enum StackError {
    /// The file has no such tensor.
    Missing { name: String },
    /// The tensor's extents are not the ones asked for.
    Extents { name: String, dims: Vec<u64>, count: usize, n: usize, k: usize },
    /// The tensor is not quantized.
    Dense { name: String, ggml_type: GgmlType },
    /// A row is not whole blocks.
    Ragged { name: String, quant: Quant, k: usize },
    /// The tensor's bytes run past the file.
    OutOfFile { name: String },
}

pub const MISSING: &'static str = "missing tensor '$0'";

pub const EXTENTS: &'static str =
    "tensor '$0' has ggml extents $1, expected [$2, $3, $4]";

pub const DENSE: &'static str =
    "'$0' is $1, which is not a quantized format experts are held in";

pub const RAGGED: &'static str = "'$0': a $1 block of $2 does not divide k = $3";

pub const OUT_OF_FILE: &'static str = "tensor '$0' runs past the end of the file";

/// Whether bytes decode to these values.
pub open spec fn decodes<T, D: Fn(&[u8]) -> Vec<T>>(
    decode: D,
    bytes: Seq<u8>,
    values: Vec<T>,
) -> bool {
    exists|s: &[u8]| #[trigger] call_ensures(decode, (s,), values) && s@ == bytes
}

/// A destination that is not the size of an expert.
#[derive(Clone, Copy, PartialEq, Eq, Structural, Debug)]
pub struct FitError {
    pub n: usize,
    pub k: usize,
    pub len: usize,
}

pub const FIT: &'static str = "a [$0, $1] expert does not fit a $2-element slice";

impl FitError {
    pub fn message(self) -> (s: String)
        ensures
            s@ == text::filled(
                FIT@,
                seq![
                    text::decimal(self.n as nat),
                    text::decimal(self.k as nat),
                    text::decimal(self.len as nat),
                ],
            ),
    {
        Args::new().num(self.n).num(self.k).num(self.len).fill(FIT)
    }
}

/// The words of each refusal.
pub open spec fn stack_words(error: StackError) -> Seq<char> {
    match error {
        StackError::Missing { name } => text::filled(MISSING@, seq![name@]),
        StackError::Extents { name, dims, count, n, k } => text::filled(
            EXTENTS@,
            seq![
                name@,
                text::listed(dims@),
                text::decimal(k as nat),
                text::decimal(n as nat),
                text::decimal(count as nat),
            ],
        ),
        StackError::Dense { name, ggml_type } => text::filled(
            DENSE@,
            seq![name@, gguf::stored_name(ggml_type)],
        ),
        StackError::Ragged { name, quant, k } => text::filled(
            RAGGED@,
            seq![
                name@,
                quant::name_of(quant),
                text::decimal(quant::block_of(quant) as nat),
                text::decimal(k as nat),
            ],
        ),
        StackError::OutOfFile { name } => text::filled(OUT_OF_FILE@, seq![name@]),
    }
}

impl StackError {
    /// What went wrong, in words.
    pub fn message(&self) -> (s: String)
        ensures
            s@ == stack_words(*self),
    {
        match self {
            StackError::Missing { name } => {
                Args::new().text(name.as_str()).fill(MISSING)
            },
            StackError::Extents { name, dims, count, n, k } => {
                let extents = list_text(dims.as_slice());
                Args::new().text(name.as_str()).text(extents.as_str()).num(*k).num(*n).num(*count).fill(EXTENTS)
            },
            StackError::Dense { name, ggml_type } => {
                Args::new().text(name.as_str()).text((*ggml_type).name().as_str()).fill(DENSE)
            },
            StackError::Ragged { name, quant, k } => {
                Args::new().text(name.as_str()).text((*quant).name().as_str()).num((*quant).block()).num(*k).fill(RAGGED)
            },
            StackError::OutOfFile { name } => {
                Args::new().text(name.as_str()).fill(OUT_OF_FILE)
            },
        }
    }
}

/// One `[count, n, k]` quantized tensor.
pub struct ExpertStack {
    bytes: Window,
    quant: Quant,
    count: usize,
    n: usize,
    k: usize,
}

impl View for ExpertStack {
    type V = Stack;

    closed spec fn view(&self) -> Stack {
        Stack {
            quant: self.quant,
            count: self.count as nat,
            n: self.n as nat,
            k: self.k as nat,
            bytes: self.bytes@,
        }
    }
}

/// What a tensor's load comes to, the first thing that is wrong deciding.
pub open spec fn loads(
    gguf: Gguf,
    name: Seq<char>,
    count: usize,
    n: usize,
    k: usize,
    result: Result<ExpertStack, StackError>,
) -> bool {
    if !gguf::has_name(gguf.tensors@, name) {
        result matches Err(StackError::Missing { name: at }) && at@ == name
    } else {
        exists|at: int| #[trigger]
            gguf::is_named(gguf.tensors@, name, at) && loads_from(
                gguf.tensors@[at],
                gguf.data@,
                name,
                count,
                n,
                k,
                result,
            )
    }
}

pub open spec fn loads_from(
    info: TensorInfo,
    data: Seq<u8>,
    name: Seq<char>,
    count: usize,
    n: usize,
    k: usize,
    result: Result<ExpertStack, StackError>,
) -> bool {
    if info.dims@ != seq![k as u64, n as u64, count as u64] {
        result matches Err(StackError::Extents { name: at, dims, count: c, n: m, k: j }) && at@
            == name && dims@ == info.dims@ && c == count && m == n && j == k
    } else {
        match info.ggml_type {
            GgmlType::Quantized(quant) => if k % quant::block_of(quant) != 0 {
                result matches Err(StackError::Ragged { name: at, quant: q, k: j }) && at@ == name
                    && q == quant && j == k
            } else if !gguf::in_file(info, data.len()) {
                result matches Err(StackError::OutOfFile { name: at }) && at@ == name
            } else {
                result matches Ok(stack) && stack@ == (Stack {
                    quant,
                    count: count as nat,
                    n: n as nat,
                    k: k as nat,
                    bytes: gguf::bytes_of(info, data),
                })
            },
            other => result matches Err(StackError::Dense { name: at, ggml_type }) && at@ == name
                && ggml_type == other,
        }
    }
}

/// Whole blocks of rows are whole blocks of the tensor.
proof fn lemma_blocks(k: nat, n: nat, count: nat, block: nat)
    requires
        0 < block,
        k % block == 0,
    ensures
        k * n * count / block == count * (n * (k / block)),
{
    let nb = k / block;
    div_mod::lemma_fundamental_div_mod(k as int, block as int);
    assert(k * n * count == (count * (n * nb)) * block) by (nonlinear_arith)
        requires
            k == block * nb,
    ;
    div_mod::lemma_div_by_multiple((count * (n * nb)) as int, block as int);
}

proof fn lemma_extents(k: u64, n: u64, count: u64)
    ensures
        gguf::elements(seq![k, n, count]) == k as nat * n as nat * count as nat,
{
    let all = seq![k, n, count];
    reveal_with_fuel(gguf::elements, 4);
    assert(all.drop_last().drop_last().drop_last() =~= Seq::empty());
    assert(all.last() == count);
    assert(all.drop_last().last() == n);
    assert(all.drop_last().drop_last().last() == k);
    assert(gguf::elements(all.drop_last().drop_last()) == 1 * (k as nat));
    assert(gguf::elements(all.drop_last()) == k as nat * n as nat);
}

impl ExpertStack {
    #[verifier::type_invariant]
    spec fn holds(self) -> bool {
        self@.wf()
    }

    /// The stack a file keeps under a name.
    pub fn load(gguf: &Gguf, name: &str, count: usize, n: usize, k: usize) -> (result: Result<
        ExpertStack,
        StackError,
    >)
        ensures
            loads(*gguf, name@, count, n, k, result),
            result matches Ok(stack) ==> stack@.wf(),
    {
        let info = match gguf.tensor(name) {
            Some(info) => info,
            None => {
                return Err(StackError::Missing { name: name.to_owned() });
            },
        };
        let ghost at = choose|at: int| #[trigger]
            gguf::is_named(gguf.tensors@, name@, at) && *info == gguf.tensors@[at];
        assert(gguf::is_named(gguf.tensors@, name@, at) && *info == gguf.tensors@[at]);
        let right = info.dims.len() == 3 && info.dims[0] == k as u64 && info.dims[1] == n as u64
            && info.dims[2] == count as u64;
        assert(right == (info.dims@ =~= seq![k as u64, n as u64, count as u64]));
        if !right {
            let error = StackError::Extents {
                name: name.to_owned(),
                dims: info.dims.clone(),
                count,
                n,
                k,
            };
            assert(loads_from(*info, gguf.data@, name@, count, n, k, Err(error)));
            return Err(error);
        }
        let quant = match info.ggml_type.quant() {
            Some(quant) => quant,
            None => {
                let error = StackError::Dense {
                    name: name.to_owned(),
                    ggml_type: info.ggml_type,
                };
                assert(loads_from(*info, gguf.data@, name@, count, n, k, Err(error)));
                return Err(error);
            },
        };
        if k % quant.block() != 0 {
            let error = StackError::Ragged { name: name.to_owned(), quant, k };
            assert(loads_from(*info, gguf.data@, name@, count, n, k, Err(error)));
            return Err(error);
        }
        match gguf.tensor_window(info) {
            None => {
                let error = StackError::OutOfFile { name: name.to_owned() };
                assert(loads_from(*info, gguf.data@, name@, count, n, k, Err(error)));
                Err(error)
            },
            Some(bytes) => {
                proof {
                    let nb = k as nat / (quant::block_of(quant) as nat);
                    let width = quant::block_bytes_of(quant) as nat;
                    lemma_extents(k as u64, n as u64, count as u64);
                    lemma_blocks(
                        k as nat,
                        n as nat,
                        count as nat,
                        quant::block_of(quant) as nat,
                    );
                    assert((count * (n * nb)) * width == count * (n * nb * width))
                        by (nonlinear_arith);
                }
                let stack = ExpertStack { bytes, quant, count, n, k };
                assert(loads_from(*info, gguf.data@, name@, count, n, k, Ok(stack)));
                Ok(stack)
            },
        }
    }

    pub fn quant(&self) -> (quant: Quant)
        ensures
            quant == self@.quant,
    {
        self.quant
    }

    pub fn count(&self) -> (count: usize)
        ensures
            count == self@.count,
    {
        self.count
    }

    pub fn n(&self) -> (n: usize)
        ensures
            n == self@.n,
    {
        self.n
    }

    pub fn k(&self) -> (k: usize)
        ensures
            k == self@.k,
    {
        self.k
    }

    /// Blocks along one row.
    pub fn blocks_per_row(&self) -> (blocks: usize)
        ensures
            blocks == self@.blocks(),
    {
        self.k / self.quant.block()
    }

    /// Bytes one expert's matrix takes.
    pub fn expert_bytes(&self) -> (bytes: usize)
        requires
            self@.stride() <= usize::MAX,
        ensures
            bytes == self@.stride(),
    {
        let nb = self.blocks_per_row();
        let width: usize = self.quant.block_bytes();
        assert(self.n * nb <= self.n * nb * width) by (nonlinear_arith)
            requires
                width >= 1,
                0 <= self.n * nb,
        ;
        self.n * nb * width
    }

    /// Bytes of the whole stack.
    pub fn byte_len(&self) -> (bytes: usize)
        ensures
            bytes == self@.count * self@.stride(),
    {
        proof {
            use_type_invariant(self);
        }
        self.bytes.len()
    }

    /// Expert `e`'s blocks.
    pub fn expert(&self, e: usize) -> (bytes: &[u8])
        requires
            e < self@.count,
        ensures
            bytes@ == self@.expert(e as int),
            bytes@.len() == self@.stride(),
    {
        proof {
            use_type_invariant(self);
        }
        let all = self.bytes.bytes();
        let room: usize = all.len();
        let ghost stride = self@.stride() as int;
        proof {
            lemma_expert_fits(self@, e as int);
        }
        let stride = self.expert_bytes();
        vstd::slice::slice_subrange(all, e * stride, e * stride + stride)
    }

    /// Expert `e` decoded into a destination of `len` elements: output `j`'s
    /// weight on input `i` is element `j * k + i`.
    pub fn dequantize<T, D: Fn(&[u8]) -> Vec<T>>(&self, decode: &D, e: usize, len: usize) -> (result:
        Result<Vec<T>, FitError>)
        requires
            e < self@.count,
            forall|s: &[u8]|
                s@ == self@.expert(e as int) ==> #[trigger] call_requires(*decode, (s,)),
            // A decoder gives a value for each element the bytes hold.
            forall|s: &[u8], values: Vec<T>|
                s@ == self@.expert(e as int) && #[trigger] call_ensures(*decode, (s,), values)
                    ==> values@.len() == self@.n * self@.k,
        ensures
            match result {
                Err(error) => len != self@.n * self@.k && error == (FitError {
                    n: self@.n as usize,
                    k: self@.k as usize,
                    len,
                }),
                Ok(values) => {
                    &&& len == self@.n * self@.k
                    &&& values@.len() == len
                    &&& decodes(*decode, self@.expert(e as int), values)
                },
            },
    {
        assert(0 <= self.n * self.k <= u64::MAX * u64::MAX) by (nonlinear_arith)
            requires
                0 <= self.n <= u64::MAX,
                0 <= self.k <= u64::MAX,
        ;
        if len as u128 != self.n as u128 * self.k as u128 {
            return Err(FitError { n: self.n, k: self.k, len });
        }
        let bytes = self.expert(e);
        let values = decode(bytes);
        assert(decodes(*decode, self@.expert(e as int), values));
        Ok(values)
    }

    /// Bytes one expert takes in the layout the device kernels read.
    pub fn grouped_bytes(&self) -> (bytes: usize)
        requires
            self@.n + 63 <= usize::MAX,
            (self@.n + 63) / 64 * 8 * self@.blocks() * 8 <= usize::MAX,
            self@.grouped_size() <= usize::MAX,
        ensures
            bytes == self@.grouped_size(),
    {
        grouped_len(self.n, self.blocks_per_row(), self.quant.device_block().1)
    }

    /// Expert `e` in the grouped layout: each block cut to its device window,
    /// then rows regrouped by eights. Padding rows are left as they are.
    pub fn grouped_into(&self, e: usize, out: &mut [u8])
        requires
            e < self@.count,
            old(out)@.len() == self@.grouped_size(),
        ensures
            final(out)@ == grouped::grouped(
                self@.kept(e as int),
                old(out)@,
                self@.n,
                self@.blocks(),
                quant::device_block_of(self@.quant).1 as nat,
            ),
    {
        let (skip, dev) = self.quant.device_block();
        let width: usize = self.quant.block_bytes();
        let nb = self.blocks_per_row();
        let bytes = self.expert(e);
        let room: usize = bytes.len();
        let n = self.n;
        assert(bytes@.len() == n * nb * width);
        assert(n * nb <= n * nb * width) by (nonlinear_arith)
            requires
                width >= 1,
                0 <= n * nb,
        ;
        if skip == 0 && dev == width {
            proof {
                use_type_invariant(self);
                whole_blocks_are_kept_whole(self@, e as int);
            }
            group_rows_into(bytes, n, nb, dev, out);
            return ;
        }
        let blocks: usize = n * nb;
        let mut trimmed: Vec<u8> = Vec::new();
        let mut b: usize = 0;
        let ghost all = self@.kept(e as int);
        assert(trimmed@ =~= all.take(0));
        while b < blocks
            invariant
                b <= blocks,
                blocks == n * nb,
                bytes@.len() == blocks * width == room,
                skip + dev <= width,
                0 < dev,
                all == windows(bytes@, blocks as nat, width as nat, skip as nat, dev as nat),
                all.len() == blocks * dev,
                trimmed@.len() == b * dev,
                trimmed@ == all.take(b * dev),
            decreases blocks - b,
        {
            proof {
                assert(b * width + width <= blocks * width) by (nonlinear_arith)
                    requires
                        b + 1 <= blocks,
                ;
                assert(b * dev + dev == (b + 1) * dev) by (nonlinear_arith);
                assert((b + 1) * dev <= blocks * dev) by (nonlinear_arith)
                    requires
                        b + 1 <= blocks,
                ;
                assert(0 <= b * width) by (nonlinear_arith);
            }
            let from: usize = b * width + skip;
            let window = vstd::slice::slice_subrange(bytes, from, from + dev);
            let ghost before = trimmed@;
            trimmed.extend_from_slice(window);
            proof {
                assert forall|p: int| b * dev <= p < (b + 1) * dev implies #[trigger] trimmed@[p]
                    == all[p] by {
                    let u = p - b * dev;
                    div_mod::lemma_fundamental_div_mod_converse(p, dev as int, b as int, u);
                }
                assert forall|p: int| 0 <= p < b * dev implies #[trigger] trimmed@[p] == all[p] by {
                    assert(trimmed@[p] == before[p]);
                }
                assert(trimmed@ =~= all.take((b + 1) * dev));
            }
            b = b + 1;
        }
        assert(all.take(blocks * dev) =~= all);
        group_rows_into(trimmed.as_slice(), n, nb, dev, out);
    }
}

/// What bytes decode to a block at a time, `width` bytes a block.
pub open spec fn blockwise<T>(
    bytes: Seq<u8>,
    width: nat,
    block: spec_fn(Seq<u8>) -> Seq<T>,
) -> Seq<T>
    decreases bytes.len(),
{
    if width == 0 || bytes.len() < width {
        Seq::empty()
    } else {
        block(bytes.take(width as int)) + blockwise(bytes.skip(width as int), width, block)
    }
}

/// Whole blocks decode apart from what follows them.
proof fn lemma_blockwise<T>(
    a: Seq<u8>,
    b: Seq<u8>,
    width: nat,
    block: spec_fn(Seq<u8>) -> Seq<T>,
    per: nat,
    n: nat,
)
    requires
        width > 0,
        a.len() == n * width,
        forall|s: Seq<u8>| s.len() == width ==> (#[trigger] block(s)).len() == per,
    ensures
        blockwise(a + b, width, block) == blockwise(a, width, block) + blockwise(b, width, block),
        blockwise(a, width, block).len() == n * per,
    decreases n,
{
    if n == 0 {
        assert(a.len() == 0) by (nonlinear_arith)
            requires
                a.len() == n * width,
                n == 0,
        ;
        assert(a + b =~= b);
        assert(blockwise(a, width, block) + blockwise(b, width, block) =~= blockwise(
            b,
            width,
            block,
        ));
        assert(n * per == 0) by (nonlinear_arith)
            requires
                n == 0,
        ;
    } else {
        assert(a.len() == (n - 1) * width + width) by (nonlinear_arith)
            requires
                a.len() == n * width,
        ;
        assert(0 <= (n - 1) * width) by (nonlinear_arith)
            requires
                n >= 1,
        ;
        let rest = a.skip(width as int);
        lemma_blockwise(rest, b, width, block, per, (n - 1) as nat);
        assert((a + b).take(width as int) =~= a.take(width as int));
        assert((a + b).skip(width as int) =~= rest + b);
        assert(blockwise(a + b, width, block) =~= blockwise(a, width, block) + blockwise(
            b,
            width,
            block,
        ));
        assert(n * per == (n - 1) * per + per) by (nonlinear_arith);
    }
}

/// A decoder that takes blocks one at a time makes of an expert what it makes of
/// the expert's part of the whole stack.
pub proof fn an_expert_decodes_as_its_part<T>(
    stack: Stack,
    block: spec_fn(Seq<u8>) -> Seq<T>,
    e: int,
)
    requires
        stack.wf(),
        0 <= e < stack.count,
        forall|s: Seq<u8>|
            s.len() == quant::block_bytes_of(stack.quant) ==> (#[trigger] block(s)).len()
                == quant::block_of(stack.quant),
    ensures
        ({
            let width = quant::block_bytes_of(stack.quant) as nat;
            let whole = blockwise(stack.bytes, width, block);
            let size = stack.n * stack.k;
            &&& whole.len() == stack.count * size
            &&& blockwise(stack.expert(e), width, block) == whole.subrange(
                e * size,
                (e + 1) * size,
            )
        }),
{
    let width = quant::block_bytes_of(stack.quant) as nat;
    let per = quant::block_of(stack.quant) as nat;
    let stride = stack.stride();
    let size = stack.n * stack.k;
    let blocks = stack.n * stack.blocks();
    lemma_expert_fits(stack, e);
    div_mod::lemma_fundamental_div_mod(stack.k as int, per as int);
    assert(blocks * per == size) by (nonlinear_arith)
        requires
            blocks == stack.n * stack.blocks(),
            size == stack.n * stack.k,
            stack.k == per * stack.blocks(),
    ;
    let before = stack.bytes.take(e * stride);
    let one = stack.expert(e);
    let after = stack.bytes.skip((e + 1) * stride);
    assert(e * stride == (e * blocks) * width) by (nonlinear_arith)
        requires
            stride == blocks * width,
    ;
    assert(0 <= e * blocks) by (nonlinear_arith)
        requires
            0 <= e,
            0 <= blocks,
    ;
    let past = stack.count - e - 1;
    assert(after.len() == (past * blocks) * width) by (nonlinear_arith)
        requires
            after.len() == stack.count * stride - (e + 1) * stride,
            stride == blocks * width,
            past == stack.count - e - 1,
    ;
    assert(0 <= past * blocks) by (nonlinear_arith)
        requires
            0 <= past,
            0 <= blocks,
    ;
    assert(one + after =~= stack.bytes.skip(e * stride));
    assert(before + (one + after) =~= stack.bytes);
    lemma_blockwise(before, one + after, width, block, per, (e * blocks) as nat);
    lemma_blockwise(one, after, width, block, per, blocks);
    lemma_blockwise(after, Seq::empty(), width, block, per, (past * blocks) as nat);
    assert((e * blocks) * per == e * size) by (nonlinear_arith)
        requires
            blocks * per == size,
    ;
    assert((past * blocks) * per == past * size) by (nonlinear_arith)
        requires
            blocks * per == size,
    ;
    assert((e + 1) * size == e * size + size) by (nonlinear_arith);
    assert(stack.count * size == e * size + size + past * size) by (nonlinear_arith)
        requires
            past == stack.count - e - 1,
    ;
    let whole = blockwise(stack.bytes, width, block);
    assert(whole =~= blockwise(before, width, block) + (blockwise(one, width, block) + blockwise(
        after,
        width,
        block,
    )));
    assert(blockwise(one, width, block) =~= whole.subrange(e * size, (e + 1) * size));
}

proof fn lemma_expert_fits(stack: Stack, e: int)
    requires
        stack.wf(),
        0 <= e < stack.count,
    ensures
        0 <= e * stack.stride() <= (e + 1) * stack.stride() <= stack.bytes.len(),
        (e + 1) * stack.stride() == e * stack.stride() + stack.stride(),
        stack.stride() <= stack.bytes.len(),
{
    let stride = stack.stride();
    assert(0 <= e * stride <= (e + 1) * stride <= stack.count * stride) by (nonlinear_arith)
        requires
            0 <= e,
            e + 1 <= stack.count,
            0 <= stride,
    ;
    assert((e + 1) * stride == e * stride + stride) by (nonlinear_arith);
    assert(stride <= (e + 1) * stride) by (nonlinear_arith)
        requires
            0 <= e,
            0 <= stride,
    ;
}

/// The experts of a stack are its bytes, each byte in one expert.
pub proof fn experts_tile_the_stack(stack: Stack, p: int)
    requires
        stack.wf(),
        0 <= p < stack.bytes.len(),
    ensures
        0 <= p / (stack.stride() as int) < stack.count,
        stack.expert(p / (stack.stride() as int))[p % (stack.stride() as int)] == stack.bytes[p],
{
    let stride = stack.stride() as int;
    assert(stride > 0) by (nonlinear_arith)
        requires
            0 < stack.count * stride,
            0 <= stack.count,
            0 <= stride,
    ;
    div_mod::lemma_fundamental_div_mod(p, stride);
    let e = p / stride;
    assert(0 <= e < stack.count) by (nonlinear_arith)
        requires
            0 <= p < stack.count * stride,
            p == stride * e + p % stride,
            0 <= p % stride < stride,
    ;
    lemma_expert_fits(stack, e);
    assert(e * stride == stride * e) by (nonlinear_arith);
}

/// A stack with an expert in it has a stride that fits the machine.
pub proof fn an_expert_fits(stack: Stack)
    requires
        stack.wf(),
        0 < stack.count,
        stack.bytes.len() <= usize::MAX,
    ensures
        stack.stride() <= usize::MAX,
{
    lemma_expert_fits(stack, 0);
}

/// Where a device keeps all of a format's block, an expert's grouped bytes are
/// its stored bytes with the rows regrouped, and nothing cut.
pub proof fn whole_blocks_are_kept_whole(stack: Stack, e: int)
    requires
        stack.wf(),
        0 <= e < stack.count,
        quant::device_block_of(stack.quant).0 == 0,
        quant::device_block_of(stack.quant).1 == quant::block_bytes_of(stack.quant),
    ensures
        stack.kept(e) == stack.expert(e),
        forall|under: Seq<u8>|
            #![trigger grouped::grouped(stack.expert(e), under, stack.n, stack.blocks(),
                quant::block_bytes_of(stack.quant) as nat)]
            grouped::grouped(
                stack.kept(e),
                under,
                stack.n,
                stack.blocks(),
                quant::device_block_of(stack.quant).1 as nat,
            ) == grouped::grouped(
                stack.expert(e),
                under,
                stack.n,
                stack.blocks(),
                quant::block_bytes_of(stack.quant) as nat,
            ),
{
    let width = quant::block_bytes_of(stack.quant) as int;
    let bytes = stack.expert(e);
    lemma_expert_fits(stack, e);
    assert forall|p: int| 0 <= p < bytes.len() implies #[trigger] bytes[p] == bytes[p / width
        * width + p % width] by {
        div_mod::lemma_fundamental_div_mod(p, width);
        assert(p / width * width == width * (p / width)) by (nonlinear_arith);
    }
    assert(stack.kept(e) =~= bytes);
}

/// The device window of every block of every row is at its place in the
/// grouped layout.
pub proof fn grouping_an_expert_keeps_every_window(
    stack: Stack,
    under: Seq<u8>,
    e: int,
    j: int,
    b: int,
    u: int,
)
    requires
        stack.wf(),
        0 <= e < stack.count,
        0 <= j < stack.n,
        0 <= b < stack.blocks(),
        0 <= u < quant::device_block_of(stack.quant).1,
        under.len() == stack.grouped_size(),
    ensures
        ({
            let (skip, dev) = quant::device_block_of(stack.quant);
            let row = stack.expert(e).subrange(
                j * stack.blocks() * quant::block_bytes_of(stack.quant),
                (j + 1) * stack.blocks() * quant::block_bytes_of(stack.quant),
            );
            grouped::grouped(
                stack.kept(e),
                under,
                stack.n,
                stack.blocks(),
                dev as nat,
            )[grouped::place(j, b, u, stack.blocks() as int, dev as int)] == row[b
                * quant::block_bytes_of(stack.quant) + skip + u]
        }),
{
    let (skip, dev) = quant::device_block_of(stack.quant);
    let nb = stack.blocks();
    let width = quant::block_bytes_of(stack.quant) as int;
    let p = (j * nb + b) * dev + u;
    grouped::grouping_keeps_every_element(
        stack.kept(e),
        under,
        stack.n,
        nb,
        dev as nat,
        j,
        b,
        u,
    );
    lemma_expert_fits(stack, e);
    assert(0 <= j * nb + b < stack.n * nb) by (nonlinear_arith)
        requires
            0 <= j,
            j + 1 <= stack.n,
            0 <= b < nb,
    ;
    let r = j * nb + b;
    assert(0 <= r * dev + u < (stack.n * nb) * dev) by (nonlinear_arith)
        requires
            0 <= r,
            r + 1 <= stack.n * nb,
            0 <= u < dev,
    ;
    div_mod::lemma_fundamental_div_mod_converse(p, dev as int, r, u);
    assert(r * width == j * nb * width + b * width) by (nonlinear_arith)
        requires
            r == j * nb + b,
    ;
    assert((j + 1) * nb * width == j * nb * width + nb * width) by (nonlinear_arith);
    assert((j + 1) * nb * width <= stack.n * nb * width) by (nonlinear_arith)
        requires
            j + 1 <= stack.n,
            0 <= nb,
            0 <= width,
    ;
    assert(b * width + width <= nb * width) by (nonlinear_arith)
        requires
            b + 1 <= nb,
            0 <= width,
    ;
    assert(0 <= j * nb * width) by (nonlinear_arith)
        requires
            0 <= j,
            0 <= nb,
            0 <= width,
    ;
    assert(0 <= b * width) by (nonlinear_arith)
        requires
            0 <= b,
            0 <= width,
    ;
}

/// The three stacks of one block's routed feed-forward: `gate` and `up` map
/// `d_model` to `d_ff`, `down` maps back.
pub struct ExpertSet {
    pub gate: ExpertStack,
    pub up: ExpertStack,
    pub down: ExpertStack,
}

pub const GATE_EXPS: &'static str = "$0.ffn_gate_exps.weight";

pub const UP_EXPS: &'static str = "$0.ffn_up_exps.weight";

pub const DOWN_EXPS: &'static str = "$0.ffn_down_exps.weight";

fn named(template: &str, prefix: &str) -> (name: String)
    ensures
        name@ == text::filled(template@, seq![prefix@]),
{
    Args::new().text(prefix).fill(template)
}

impl ExpertSet {
    /// The three stacks hold as many experts.
    pub open spec fn even(self) -> bool {
        self.gate@.count == self.up@.count == self.down@.count
    }

    /// Bytes one expert's three matrices take.
    pub open spec fn expert_size(self) -> nat {
        self.gate@.stride() + self.up@.stride() + self.down@.stride()
    }

    /// The set a block's three tensors make, the first that does not load
    /// deciding.
    pub fn load(gguf: &Gguf, prefix: &str, count: usize, d_model: usize, d_ff: usize) -> (result:
        Result<Arc<ExpertSet>, StackError>)
        ensures
            match result {
                Ok(set) => {
                    &&& set.even()
                    &&& set.gate@.count == count
                    &&& loads(
                        *gguf,
                        text::filled(GATE_EXPS@, seq![prefix@]),
                        count,
                        d_ff,
                        d_model,
                        Ok(set.gate),
                    )
                    &&& loads(
                        *gguf,
                        text::filled(UP_EXPS@, seq![prefix@]),
                        count,
                        d_ff,
                        d_model,
                        Ok(set.up),
                    )
                    &&& loads(
                        *gguf,
                        text::filled(DOWN_EXPS@, seq![prefix@]),
                        count,
                        d_model,
                        d_ff,
                        Ok(set.down),
                    )
                },
                Err(error) => {
                    let gate = text::filled(GATE_EXPS@, seq![prefix@]);
                    let up = text::filled(UP_EXPS@, seq![prefix@]);
                    let down = text::filled(DOWN_EXPS@, seq![prefix@]);
                    ||| loads(*gguf, gate, count, d_ff, d_model, Err(error))
                    ||| {
                        &&& exists|stack: ExpertStack| #[trigger]
                            loads(*gguf, gate, count, d_ff, d_model, Ok(stack))
                        &&& loads(*gguf, up, count, d_ff, d_model, Err(error))
                    }
                    ||| {
                        &&& exists|stack: ExpertStack| #[trigger]
                            loads(*gguf, gate, count, d_ff, d_model, Ok(stack))
                        &&& exists|stack: ExpertStack| #[trigger]
                            loads(*gguf, up, count, d_ff, d_model, Ok(stack))
                        &&& loads(*gguf, down, count, d_model, d_ff, Err(error))
                    }
                },
            },
    {
        let name = named(GATE_EXPS, prefix);
        let gate = match ExpertStack::load(gguf, name.as_str(), count, d_ff, d_model) {
            Ok(stack) => stack,
            Err(error) => {
                return Err(error);
            },
        };
        let name = named(UP_EXPS, prefix);
        let up = match ExpertStack::load(gguf, name.as_str(), count, d_ff, d_model) {
            Ok(stack) => stack,
            Err(error) => {
                return Err(error);
            },
        };
        let name = named(DOWN_EXPS, prefix);
        let down = match ExpertStack::load(gguf, name.as_str(), count, d_model, d_ff) {
            Ok(stack) => stack,
            Err(error) => {
                return Err(error);
            },
        };
        Ok(Arc::new(ExpertSet { gate, up, down }))
    }

    pub fn count(&self) -> (count: usize)
        ensures
            count == self.gate@.count,
    {
        self.gate.count()
    }

    /// Bytes of all three stacks, as the file holds them.
    pub fn byte_len(&self) -> (bytes: usize)
        requires
            self.gate@.count * self.gate@.stride() + self.up@.count * self.up@.stride()
                + self.down@.count * self.down@.stride() <= usize::MAX,
        ensures
            bytes == self.gate@.count * self.gate@.stride() + self.up@.count * self.up@.stride()
                + self.down@.count * self.down@.stride(),
            self.even() ==> bytes == self.gate@.count * self.expert_size(),
    {
        proof {
            if self.even() {
                a_set_is_its_experts(*self);
            }
        }
        let gate = self.gate.byte_len();
        let up = self.up.byte_len();
        let down = self.down.byte_len();
        assert(0 <= self.down@.count * self.down@.stride());
        gate + up + down
    }

    /// Bytes one expert's three matrices take, as the file holds them.
    pub fn expert_bytes(&self) -> (bytes: usize)
        requires
            self.gate@.stride() + self.up@.stride() + self.down@.stride() <= usize::MAX,
        ensures
            bytes == self.expert_size(),
    {
        self.gate.expert_bytes() + self.up.expert_bytes() + self.down.expert_bytes()
    }
}

/// A set's bytes are those of its experts, where its stacks hold as many.
pub proof fn a_set_is_its_experts(set: ExpertSet)
    requires
        set.even(),
    ensures
        set.gate@.count * set.gate@.stride() + set.up@.count * set.up@.stride() + set.down@.count
            * set.down@.stride() == set.gate@.count * set.expert_size(),
{
    let (n, a, b, c) = (set.gate@.count, set.gate@.stride(), set.up@.stride(), set.down@.stride());
    assert(n * a + n * b + n * c == n * (a + b + c)) by (nonlinear_arith);
}

} // verus!
