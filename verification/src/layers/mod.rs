//! What a model's blocks are made of: projections, caches and the memory they
//! come to.

pub mod cache;
pub mod ffn;
pub mod laws;
pub mod linear;
pub mod meaning;
pub mod moe;
pub mod program;
pub mod rope;
pub mod row;

use vstd::prelude::*;

use crate::gguf::TensorInfo;
use crate::text::{self, Args};

verus! {

broadcast use crate::text::lemma_filled_args;

/// A constant's share of the backend's memory.
#[derive(Clone, Copy, PartialEq, Eq, Structural, Debug)]
pub struct Upload {
    pub bytes: usize,
    /// Held in single precision rather than left quantized.
    pub dense: bool,
    /// Not resident: experts the backend streams from the file's bytes.
    pub streamed: bool,
}

/// What a model's constants will occupy on the backend once every one of them
/// is resident. A weight under two names that are the same counts once.
pub struct Uploads {
    pub keys: Vec<String>,
    pub uploads: Vec<Upload>,
}

/// The uploads counted so far, and their keys.
#[verifier::ext_equal]
pub ghost struct Bill {
    pub keys: Seq<Seq<char>>,
    pub uploads: Seq<Upload>,
}

impl Bill {
    /// One more upload counted: nothing new where its key is held.
    pub open spec fn with(self, key: Seq<char>, upload: Upload) -> Bill {
        if self.keys.contains(key) {
            self
        } else {
            Bill { keys: self.keys.push(key), uploads: self.uploads.push(upload) }
        }
    }
}

impl View for Uploads {
    type V = Bill;

    open spec fn view(&self) -> Bill {
        Bill {
            keys: Seq::new(self.keys@.len(), |i: int| self.keys@[i]@),
            uploads: self.uploads@,
        }
    }
}

/// The bytes of the uploads a test picks.
pub open spec fn picked(uploads: Seq<Upload>, pick: spec_fn(Upload) -> bool) -> nat
    decreases uploads.len(),
{
    if uploads.len() == 0 {
        0
    } else {
        picked(uploads.drop_last(), pick) + if pick(uploads.last()) {
            uploads.last().bytes as nat
        } else {
            0
        }
    }
}

/// How many of the uploads a test picks.
pub open spec fn counted(uploads: Seq<Upload>, pick: spec_fn(Upload) -> bool) -> nat
    decreases uploads.len(),
{
    if uploads.len() == 0 {
        0
    } else {
        counted(uploads.drop_last(), pick) + if pick(uploads.last()) {
            1nat
        } else {
            0
        }
    }
}

proof fn lemma_picked(uploads: Seq<Upload>, pick: spec_fn(Upload) -> bool, i: int)
    requires
        0 <= i < uploads.len(),
    ensures
        picked(uploads.take(i + 1), pick) == picked(uploads.take(i), pick) + if pick(uploads[i]) {
            uploads[i].bytes as nat
        } else {
            0
        },
        picked(uploads.take(i + 1), pick) <= picked(uploads, pick),
    decreases uploads.len() - i,
{
    let next = uploads.take(i + 1);
    assert(next.drop_last() =~= uploads.take(i));
    if i + 1 < uploads.len() {
        lemma_picked(uploads, pick, i + 1);
    } else {
        assert(next =~= uploads);
    }
}

impl Uploads {
    /// Every upload has a key, and no two the same.
    pub open spec fn wf(self) -> bool {
        &&& self.keys@.len() == self.uploads@.len()
        &&& forall|i: int, j: int|
            0 <= i < j < self.keys@.len() ==> #[trigger] self.keys@[i]@ != #[trigger] self.keys@[j]@
    }

    pub fn new() -> (u: Uploads)
        ensures
            u.wf(),
            u.keys@.len() == 0,
    {
        Uploads { keys: Vec::new(), uploads: Vec::new() }
    }

    fn insert(&mut self, key: &str, upload: Upload)
        requires
            old(self).wf(),
        ensures
            final(self).wf(),
            final(self)@ == old(self)@.with(key@, upload),
    {
        let mut i: usize = 0;
        while i < self.keys.len()
            invariant
                *self == *old(self),
                self.wf(),
                i <= self.keys@.len(),
                forall|j: int| 0 <= j < i ==> #[trigger] self.keys@[j]@ != key@,
            decreases self.keys@.len() - i,
        {
            if text::same(self.keys[i].as_str(), key) {
                assert(self@.keys[i as int] == key@);
                return;
            }
            i = i + 1;
        }
        let ghost before = self.keys@;
        let ghost bill = self@;
        assert(!bill.keys.contains(key@)) by {
            if bill.keys.contains(key@) {
                let j = bill.keys.index_of(key@);
                assert(before[j]@ == key@);
            }
        }
        self.keys.push(key.to_owned());
        self.uploads.push(upload);
        assert(forall|j: int| 0 <= j < before.len() ==> self.keys@[j] == before[j]);
        assert(self@.keys =~= bill.keys.push(key@));
    }

    /// Counts a resident constant, once.
    pub fn add_resident(&mut self, key: &str, bytes: usize, dense: bool)
        requires
            old(self).wf(),
        ensures
            final(self).wf(),
            final(self)@ == old(self)@.with(key@, (Upload { bytes, dense, streamed: false })),
    {
        self.insert(key, Upload { bytes, dense, streamed: false });
    }

    /// Counts a set of experts that streams, once.
    pub fn add_streamed(&mut self, key: &str, bytes: usize)
        requires
            old(self).wf(),
        ensures
            final(self).wf(),
            final(self)@ == old(self)@.with(
                key@,
                (Upload { bytes, dense: false, streamed: true }),
            ),
    {
        self.insert(key, Upload { bytes, dense: false, streamed: true });
    }

    /// Bytes of every weight the backend keeps resident.
    pub fn bytes(&self) -> (n: usize)
        requires
            picked(self.uploads@, |u: Upload| !u.streamed) <= usize::MAX,
        ensures
            n == picked(self.uploads@, |u: Upload| !u.streamed),
    {
        let ghost pick = |u: Upload| !u.streamed;
        let mut n: usize = 0;
        let mut i: usize = 0;
        assert(self.uploads@.take(0) =~= Seq::empty());
        while i < self.uploads.len()
            invariant
                i <= self.uploads@.len(),
                pick == (|u: Upload| !u.streamed),
                picked(self.uploads@, pick) <= usize::MAX,
                n == picked(self.uploads@.take(i as int), pick),
            decreases self.uploads@.len() - i,
        {
            proof {
                lemma_picked(self.uploads@, pick, i as int);
            }
            if !self.uploads[i].streamed {
                n = n + self.uploads[i].bytes;
            }
            i = i + 1;
        }
        assert(self.uploads@.take(i as int) =~= self.uploads@);
        n
    }

    /// Bytes of the weights that stream, as the file holds them.
    pub fn streamed_bytes(&self) -> (n: usize)
        requires
            picked(self.uploads@, |u: Upload| u.streamed) <= usize::MAX,
        ensures
            n == picked(self.uploads@, |u: Upload| u.streamed),
    {
        let ghost pick = |u: Upload| u.streamed;
        let mut n: usize = 0;
        let mut i: usize = 0;
        assert(self.uploads@.take(0) =~= Seq::empty());
        while i < self.uploads.len()
            invariant
                i <= self.uploads@.len(),
                pick == (|u: Upload| u.streamed),
                picked(self.uploads@, pick) <= usize::MAX,
                n == picked(self.uploads@.take(i as int), pick),
            decreases self.uploads@.len() - i,
        {
            proof {
                lemma_picked(self.uploads@, pick, i as int);
            }
            if self.uploads[i].streamed {
                n = n + self.uploads[i].bytes;
            }
            i = i + 1;
        }
        assert(self.uploads@.take(i as int) =~= self.uploads@);
        n
    }

    /// Expert sets that stream.
    pub fn streamed_sets(&self) -> (n: usize)
        ensures
            n == counted(self.uploads@, |u: Upload| u.streamed),
    {
        let ghost pick = |u: Upload| u.streamed;
        let mut n: usize = 0;
        let mut i: usize = 0;
        assert(self.uploads@.take(0) =~= Seq::empty());
        while i < self.uploads.len()
            invariant
                n <= i <= self.uploads@.len(),
                pick == (|u: Upload| u.streamed),
                n == counted(self.uploads@.take(i as int), pick),
            decreases self.uploads@.len() - i,
        {
            assert(self.uploads@.take(i as int + 1).drop_last() =~= self.uploads@.take(i as int));
            if self.uploads[i].streamed {
                n = n + 1;
            }
            i = i + 1;
        }
        assert(self.uploads@.take(i as int) =~= self.uploads@);
        n
    }

    /// Of the resident bytes, what goes up in single precision.
    pub fn dense_bytes(&self) -> (n: usize)
        requires
            picked(self.uploads@, |u: Upload| u.dense) <= usize::MAX,
        ensures
            n == picked(self.uploads@, |u: Upload| u.dense),
    {
        let ghost pick = |u: Upload| u.dense;
        let mut n: usize = 0;
        let mut i: usize = 0;
        assert(self.uploads@.take(0) =~= Seq::empty());
        while i < self.uploads.len()
            invariant
                i <= self.uploads@.len(),
                pick == (|u: Upload| u.dense),
                picked(self.uploads@, pick) <= usize::MAX,
                n == picked(self.uploads@.take(i as int), pick),
            decreases self.uploads@.len() - i,
        {
            proof {
                lemma_picked(self.uploads@, pick, i as int);
            }
            if self.uploads[i].dense {
                n = n + self.uploads[i].bytes;
            }
            i = i + 1;
        }
        assert(self.uploads@.take(i as int) =~= self.uploads@);
        n
    }
}

/// Every upload is resident or streams, and no byte is counted twice.
pub proof fn every_upload_is_counted_once(uploads: Seq<Upload>)
    ensures
        picked(uploads, |u: Upload| true) == picked(uploads, |u: Upload| !u.streamed) + picked(
            uploads,
            |u: Upload| u.streamed,
        ),
    decreases uploads.len(),
{
    if uploads.len() > 0 {
        every_upload_is_counted_once(uploads.drop_last());
    }
}

/// Counting a key again changes nothing.
pub proof fn a_key_counts_once(bill: Bill, key: Seq<char>, a: Upload, b: Upload)
    ensures
        bill.with(key, a).with(key, b) == bill.with(key, a),
{
    if !bill.keys.contains(key) {
        assert(bill.with(key, a).keys[bill.keys.len() as int] == key);
    }
}

/// A tensor of other extents than asked for.
pub struct DimsError {
    pub name: String,
    pub dims: Vec<u64>,
    pub expected: Vec<u64>,
}

pub const DIMS: &'static str = "tensor '$0' has ggml extents $1, expected $2";

impl DimsError {
    pub fn message(&self) -> (s: String)
        ensures
            s@ == text::filled(
                DIMS@,
                seq![self.name@, text::listed(self.dims@), text::listed(self.expected@)],
            ),
    {
        let dims = text::list_text(self.dims.as_slice());
        let expected = text::list_text(self.expected.as_slice());
        Args::new().text(self.name.as_str()).text(dims.as_str()).text(expected.as_str()).fill(DIMS)
    }
}

fn copy_dims(dims: &[u64]) -> (out: Vec<u64>)
    ensures
        out@ == dims@,
{
    let mut out: Vec<u64> = Vec::new();
    let mut i: usize = 0;
    while i < dims.len()
        invariant
            i <= dims@.len(),
            out@ == dims@.take(i as int),
        decreases dims@.len() - i,
    {
        out.push(dims[i]);
        i = i + 1;
        assert(out@ =~= dims@.take(i as int));
    }
    assert(dims@.take(i as int) =~= dims@);
    out
}

/// Refuses a tensor whose extents are not those expected.
pub fn check_dims(info: &TensorInfo, expected: &[u64]) -> (result: Result<(), DimsError>)
    ensures
        match result {
            Ok(()) => info.dims@ == expected@,
            Err(e) => info.dims@ != expected@ && e.name@ == info.name@ && e.dims@ == info.dims@
                && e.expected@ == expected@,
        },
{
    let mut right = info.dims.len() == expected.len();
    let mut i: usize = 0;
    while right && i < expected.len()
        invariant
            i <= expected@.len(),
            right ==> info.dims@.len() == expected@.len(),
            right ==> forall|j: int| 0 <= j < i ==> info.dims@[j] == #[trigger] expected@[j],
            !right ==> info.dims@ != expected@,
        decreases expected@.len() - i,
    {
        if info.dims[i] != expected[i] {
            right = false;
            assert(info.dims@[i as int] != expected@[i as int]);
        }
        i = i + 1;
    }
    if right {
        assert(info.dims@ =~= expected@);
        return Ok(());
    }
    Err(
        DimsError {
            name: info.name.clone(),
            dims: copy_dims(info.dims.as_slice()),
            expected: copy_dims(expected),
        },
    )
}

} // verus!
