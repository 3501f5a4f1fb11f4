//! The host's buffers: slabs behind handles, a freed handle serving the next
//! allocation.

use vstd::prelude::*;

use crate::backend::named::Named;
use crate::backend::Plane;
use crate::text::{self, Args};

verus! {

broadcast use crate::text::lemma_filled_args;

/// Buffers of one kind of element.
pub struct Slabs<T> {
    pub slabs: Vec<Vec<T>>,
    /// Freed handles, the last freed first to be reused.
    pub free: Vec<usize>,
}

/// The contents of the buffers and the freed handles.
#[verifier::ext_equal]
pub ghost struct Held<T> {
    pub slabs: Seq<Seq<T>>,
    pub free: Seq<usize>,
}

impl<T> Held<T> {
    /// Every freed handle is one.
    pub open spec fn wf(self) -> bool {
        forall|i: int| 0 <= i < self.free.len() ==> #[trigger] self.free[i] < self.slabs.len()
    }

    /// The handle the next allocation gets: the last freed, or a new one.
    pub open spec fn next(self) -> nat {
        if self.free.len() > 0 {
            self.free.last() as nat
        } else {
            self.slabs.len()
        }
    }

    /// What is held once the next handle's contents are `data`.
    pub open spec fn with(self, data: Seq<T>) -> Held<T> {
        if self.free.len() > 0 {
            Held {
                slabs: self.slabs.update(self.free.last() as int, data),
                free: self.free.drop_last(),
            }
        } else {
            Held { slabs: self.slabs.push(data), free: self.free }
        }
    }

    /// A source while `dst` is being written: a buffer cannot be read while it
    /// is, so it reads as empty.
    pub open spec fn source(self, src: int, dst: int) -> Seq<T> {
        if src == dst {
            Seq::empty()
        } else {
            self.slabs[src]
        }
    }
}

impl<T> View for Slabs<T> {
    type V = Held<T>;

    open spec fn view(&self) -> Held<T> {
        Held { slabs: Seq::new(self.slabs@.len(), |i: int| self.slabs@[i]@), free: self.free@ }
    }
}

/// Asked for more elements than a buffer holds.
#[derive(Clone, Copy, PartialEq, Eq, Structural, Debug)]
pub struct ReadError {
    pub asked: usize,
    pub held: usize,
}

pub const READ: &'static str = "reading $0 elements from a $1-element buffer";

impl ReadError {
    pub fn message(self) -> (s: String)
        ensures
            s@ == text::filled(
                READ@,
                seq![text::decimal(self.asked as nat), text::decimal(self.held as nat)],
            ),
    {
        Args::new().num(self.asked).num(self.held).fill(READ)
    }
}

/// A copy of a buffer into itself.
#[derive(Clone, Copy, PartialEq, Eq, Structural, Debug)]
pub struct Aliased;

pub const ALIASED: &'static str = "copy_h aliases its source";

impl Aliased {
    pub fn message(self) -> (s: String)
        ensures
            s@ == ALIASED@,
    {
        ALIASED.to_owned()
    }
}

/// A row of `width` elements written into a buffer at `at`.
pub open spec fn laid<T>(into: Seq<T>, at: int, row: Seq<T>) -> Seq<T> {
    Seq::new(
        into.len(),
        |i: int|
            if at <= i < at + row.len() {
                row[i - at]
            } else {
                into[i]
            },
    )
}

/// Where rows of a block stand in a buffer.
#[derive(Clone, Copy, PartialEq, Eq, Structural, Debug)]
pub struct Rows {
    pub offset: usize,
    pub pitch: usize,
}

impl Rows {
    pub open spec fn at(self, r: int) -> int {
        self.offset + r * self.pitch
    }
}

/// The first `rows` rows of a block copied between two buffers, in order.
pub open spec fn rows_laid<T>(
    from: Seq<T>,
    src: Rows,
    into: Seq<T>,
    dst: Rows,
    rows: nat,
    width: nat,
) -> Seq<T>
    decreases rows,
{
    if rows == 0 {
        into
    } else {
        let r = rows - 1;
        laid(
            rows_laid(from, src, into, dst, r as nat, width),
            dst.at(r),
            from.subrange(src.at(r), src.at(r) + width),
        )
    }
}

/// Whether a block's last row ends within a buffer.
pub open spec fn block_fits(len: nat, at: Rows, rows: nat, width: nat) -> bool {
    at.at(rows - 1) + width <= len
}

/// Writes `from` into a buffer at `at`.
fn lay<T: Copy>(into: &mut Vec<T>, at: usize, from: &[T], first: usize, width: usize)
    requires
        at + width <= old(into)@.len(),
        first + width <= from@.len(),
    ensures
        final(into)@ == laid(
            old(into)@,
            at as int,
            from@.subrange(first as int, first + width),
        ),
{
    let ghost before = into@;
    let ghost row = from@.subrange(first as int, first + width);
    let held: usize = into.len();
    let given: usize = from.len();
    let mut i: usize = 0;
    while i < width
        invariant
            i <= width,
            at + width <= before.len(),
            first + width <= from@.len(),
            held == before.len(),
            given == from@.len(),
            row == from@.subrange(first as int, first + width),
            into@.len() == before.len(),
            forall|j: int|
                0 <= j < before.len() ==> #[trigger] into@[j] == (if at <= j < at + i {
                    row[j - at]
                } else {
                    before[j]
                }),
        decreases width - i,
    {
        into.set(at + i, from[first + i]);
        i = i + 1;
    }
    assert(into@ =~= laid(before, at as int, row));
}

/// Copies a block of rows between two buffers, or nothing where it runs off one
/// of them.
pub fn lay_rows<T: Copy>(
    from: &[T],
    src: Rows,
    into: &mut Vec<T>,
    dst: Rows,
    rows: usize,
    width: usize,
) -> (fits: bool)
    requires
        rows > 0,
    ensures
        fits == (block_fits(from@.len(), src, rows as nat, width as nat) && block_fits(
            old(into)@.len(),
            dst,
            rows as nat,
            width as nat,
        )),
        final(into)@ == (if fits {
            rows_laid(from@, src, old(into)@, dst, rows as nat, width as nat)
        } else {
            old(into)@
        }),
{
    if !fits_in(from.len(), src, rows, width) || !fits_in(into.len(), dst, rows, width) {
        return false;
    }
    let ghost before = into@;
    let given: usize = from.len();
    let held: usize = into.len();
    let mut r: usize = 0;
    while r < rows
        invariant
            r <= rows,
            given == from@.len(),
            held == before.len(),
            block_fits(from@.len(), src, rows as nat, width as nat),
            block_fits(before.len(), dst, rows as nat, width as nat),
            into@.len() == before.len(),
            into@ == rows_laid(from@, src, before, dst, r as nat, width as nat),
        decreases rows - r,
    {
        proof {
            lemma_row_within(src, r as int, rows as int);
            lemma_row_within(dst, r as int, rows as int);
        }
        let a: usize = src.offset + r * src.pitch;
        let b: usize = dst.offset + r * dst.pitch;
        lay(into, b, from, a, width);
        r = r + 1;
    }
    true
}

pub proof fn lemma_row_within(at: Rows, r: int, rows: int)
    requires
        0 <= r < rows,
    ensures
        at.at(r) <= at.at(rows - 1),
        0 <= r * at.pitch,
{
    assert(0 <= r * at.pitch <= (rows - 1) * at.pitch) by (nonlinear_arith)
        requires
            0 <= r <= rows - 1,
            0 <= at.pitch,
    ;
}

pub fn fits_in(len: usize, at: Rows, rows: usize, width: usize) -> (yes: bool)
    requires
        rows > 0,
    ensures
        yes == block_fits(len as nat, at, rows as nat, width as nat),
{
    let last: u128 = (rows - 1) as u128;
    assert(last * at.pitch <= u64::MAX * u64::MAX) by (nonlinear_arith)
        requires
            last <= u64::MAX,
            at.pitch <= u64::MAX,
            0 <= last,
            0 <= at.pitch,
    ;
    let steps: u128 = last * at.pitch as u128;
    assert(steps == last * at.pitch);
    let end: u128 = at.offset as u128 + steps + width as u128;
    end <= len as u128
}

impl<T: Copy> Slabs<T> {
    pub open spec fn wf(self) -> bool {
        self@.wf()
    }

    pub fn new() -> (s: Slabs<T>)
        ensures
            s.wf(),
            s@.slabs.len() == 0,
            s@.free.len() == 0,
    {
        Slabs { slabs: Vec::new(), free: Vec::new() }
    }

    /// Puts a buffer behind the next handle.
    fn put(&mut self, data: Vec<T>) -> (handle: usize)
        requires
            old(self).wf(),
        ensures
            final(self).wf(),
            handle == old(self)@.next(),
            final(self)@ == old(self)@.with(data@),
    {
        let ghost before = self@;
        match self.free.pop() {
            Some(handle) => {
                assert(before.free.last() == handle);
                let held: usize = self.slabs.len();
                self.slabs.set(handle, data);
                assert(self@.slabs =~= before.slabs.update(handle as int, data@));
                assert(self@.free =~= before.free.drop_last());
                handle
            },
            None => {
                let handle: usize = self.slabs.len();
                self.slabs.push(data);
                assert(self@.slabs =~= before.slabs.push(data@));
                handle
            },
        }
    }

    /// A buffer of `len` zeros.
    pub fn zeroed(&mut self, len: usize, zero: T) -> (handle: usize)
        requires
            old(self).wf(),
        ensures
            final(self).wf(),
            handle == old(self)@.next(),
            final(self)@ == old(self)@.with(Seq::new(len as nat, |i: int| zero)),
    {
        let mut data: Vec<T> = Vec::new();
        let mut i: usize = 0;
        while i < len
            invariant
                i <= len,
                data@ == Seq::new(i as nat, |j: int| zero),
            decreases len - i,
        {
            data.push(zero);
            i = i + 1;
            assert(data@ =~= Seq::new(i as nat, |j: int| zero));
        }
        self.put(data)
    }

    /// A buffer of what it is given.
    pub fn upload(&mut self, data: &[T]) -> (handle: usize)
        requires
            old(self).wf(),
        ensures
            final(self).wf(),
            handle == old(self)@.next(),
            final(self)@ == old(self)@.with(data@),
    {
        let mut copy: Vec<T> = Vec::new();
        let mut i: usize = 0;
        while i < data.len()
            invariant
                i <= data@.len(),
                copy@ == data@.take(i as int),
            decreases data@.len() - i,
        {
            copy.push(data[i]);
            i = i + 1;
            assert(copy@ =~= data@.take(i as int));
        }
        assert(data@.take(i as int) =~= data@);
        self.put(copy)
    }

    /// Frees a handle for the next allocation.
    pub fn release(&mut self, handle: usize)
        requires
            old(self).wf(),
            handle < old(self)@.slabs.len(),
        ensures
            final(self).wf(),
            final(self)@ == (Held {
                slabs: old(self)@.slabs,
                free: old(self)@.free.push(handle),
            }),
    {
        self.free.push(handle);
        assert(self@.slabs =~= old(self)@.slabs);
        assert(self@.free =~= old(self)@.free.push(handle));
    }

    /// The first elements of a buffer.
    pub fn read(&self, handle: usize, out: &mut [T]) -> (done: Result<(), ReadError>)
        requires
            handle < self@.slabs.len(),
        ensures
            done is Ok == (self@.slabs[handle as int].len() >= old(out)@.len()),
            done is Ok ==> final(out)@ == self@.slabs[handle as int].take(old(out)@.len() as int),
            done is Err ==> final(out)@ == old(out)@ && done->Err_0 == (ReadError {
                asked: old(out)@.len() as usize,
                held: self@.slabs[handle as int].len() as usize,
            }),
    {
        let slab = &self.slabs[handle];
        let asked: usize = out.len();
        if slab.len() < asked {
            return Err(ReadError { asked, held: slab.len() });
        }
        let mut i: usize = 0;
        while i < asked
            invariant
                i <= asked,
                asked == out@.len(),
                asked <= slab@.len(),
                out@.len() == old(out)@.len(),
                forall|j: int| 0 <= j < i ==> #[trigger] out@[j] == slab@[j],
            decreases asked - i,
        {
            out[i] = slab[i];
            i = i + 1;
        }
        assert(out@ =~= slab@.take(asked as int));
        Ok(())
    }

    /// Takes a buffer out to be written while the others are read. It reads as
    /// empty until it is put back.
    pub fn take(&mut self, handle: usize) -> (taken: Vec<T>)
        requires
            old(self).wf(),
            handle < old(self)@.slabs.len(),
        ensures
            final(self).wf(),
            taken@ == old(self)@.slabs[handle as int],
            final(self)@ == (Held {
                slabs: old(self)@.slabs.update(handle as int, Seq::empty()),
                free: old(self)@.free,
            }),
    {
        let mut taken: Vec<T> = Vec::new();
        let ghost before = self@;
        std::mem::swap(&mut self.slabs[handle], &mut taken);
        assert(self@.slabs =~= before.slabs.update(handle as int, Seq::empty()));
        taken
    }

    /// Puts a buffer back behind its handle.
    pub fn restore(&mut self, handle: usize, data: Vec<T>)
        requires
            old(self).wf(),
            handle < old(self)@.slabs.len(),
        ensures
            final(self).wf(),
            final(self)@ == (Held {
                slabs: old(self)@.slabs.update(handle as int, data@),
                free: old(self)@.free,
            }),
    {
        let ghost before = self@;
        self.slabs.set(handle, data);
        assert(self@.slabs =~= before.slabs.update(handle as int, data@));
    }

    /// Copies a window of one buffer into another.
    pub fn copy(&mut self, src: usize, src_offset: usize, dst: usize, dst_offset: usize, len: usize)
        requires
            old(self).wf(),
            src < old(self)@.slabs.len(),
            dst < old(self)@.slabs.len(),
            src_offset + len <= old(self)@.source(src as int, dst as int).len(),
            dst_offset + len <= old(self)@.slabs[dst as int].len(),
        ensures
            final(self).wf(),
            final(self)@ == (Held {
                slabs: old(self)@.slabs.update(
                    dst as int,
                    laid(
                        old(self)@.slabs[dst as int],
                        dst_offset as int,
                        old(self)@.source(src as int, dst as int).subrange(
                            src_offset as int,
                            src_offset + len,
                        ),
                    ),
                ),
                free: old(self)@.free,
            }),
    {
        let ghost before = self@;
        let mut out = self.take(dst);
        assert(self@.slabs[src as int] == before.source(src as int, dst as int));
        assert(self@.slabs.len() == before.slabs.len());
        assert(self.slabs@.len() == self@.slabs.len());
        let ghost held = out@;
        let ghost from = before.source(src as int, dst as int);
        lay(&mut out, dst_offset, self.slabs[src].as_slice(), src_offset, len);
        let ghost row = from.subrange(src_offset as int, src_offset + len);
        self.restore(dst, out);
        assert(self@.slabs =~= before.slabs.update(dst as int, laid(held, dst_offset as int, row)));
    }

    /// The same, refusing a buffer that is its own source.
    pub fn copy_h(
        &mut self,
        src: usize,
        src_offset: usize,
        dst: usize,
        dst_offset: usize,
        len: usize,
    ) -> (result: Result<(), Aliased>)
        requires
            old(self).wf(),
            src != dst ==> {
                &&& src < old(self)@.slabs.len()
                &&& dst < old(self)@.slabs.len()
                &&& src_offset + len <= old(self)@.slabs[src as int].len()
                &&& dst_offset + len <= old(self)@.slabs[dst as int].len()
            },
        ensures
            final(self).wf(),
            result is Err == (src == dst),
            result is Err ==> final(self)@ == old(self)@,
            result is Ok ==> final(self)@ == (Held {
                slabs: old(self)@.slabs.update(
                    dst as int,
                    laid(
                        old(self)@.slabs[dst as int],
                        dst_offset as int,
                        old(self)@.slabs[src as int].subrange(
                            src_offset as int,
                            src_offset + len,
                        ),
                    ),
                ),
                free: old(self)@.free,
            }),
    {
        if src == dst {
            return Err(Aliased);
        }
        self.copy(src, src_offset, dst, dst_offset, len);
        Ok(())
    }

    /// Copies a block of rows between two planes. `false` where it runs off one
    /// of them.
    pub fn copy_2d(&mut self, src: Plane, dst: Plane, rows: usize, width: usize) -> (fits: bool)
        requires
            old(self).wf(),
            src.buf.0 < old(self)@.slabs.len(),
            dst.buf.0 < old(self)@.slabs.len(),
            rows > 0,
        ensures
            final(self).wf(),
            ({
                let from = old(self)@.source(src.buf.0 as int, dst.buf.0 as int);
                let into = old(self)@.slabs[dst.buf.0 as int];
                let (a, b) = (
                    (Rows { offset: src.offset, pitch: src.pitch }),
                    (Rows { offset: dst.offset, pitch: dst.pitch }),
                );
                &&& fits == (block_fits(from.len(), a, rows as nat, width as nat) && block_fits(
                    into.len(),
                    b,
                    rows as nat,
                    width as nat,
                ))
                &&& final(self)@ == if fits {
                    Held {
                        slabs: old(self)@.slabs.update(
                            dst.buf.0 as int,
                            rows_laid(from, a, into, b, rows as nat, width as nat),
                        ),
                        free: old(self)@.free,
                    }
                } else {
                    old(self)@
                }
            }),
    {
        let ghost before = self@;
        let mut out = self.take(dst.buf.0);
        let ghost from = before.source(src.buf.0 as int, dst.buf.0 as int);
        assert(self@.slabs[src.buf.0 as int] == from);
        assert(self@.slabs.len() == before.slabs.len());
        assert(self.slabs@.len() == self@.slabs.len());
        let ghost into = out@;
        let (a, b) = (
            Rows { offset: src.offset, pitch: src.pitch },
            Rows { offset: dst.offset, pitch: dst.pitch },
        );
        let fits = lay_rows(self.slabs[src.buf.0].as_slice(), a, &mut out, b, rows, width);
        self.restore(dst.buf.0, out);
        if fits {
            assert(self@.slabs =~= before.slabs.update(
                dst.buf.0 as int,
                rows_laid(from, a, into, b, rows as nat, width as nat),
            ));
        } else {
            assert(self@.slabs =~= before.slabs);
        }
        fits
    }

    /// A constant uploaded once under its name, and reused afterwards.
    pub fn constant(&mut self, names: &mut Named<usize>, key: &str, data: &[T]) -> (handle: usize)
        requires
            old(self).wf(),
            old(names).wf(),
        ensures
            final(self).wf(),
            final(names).wf(),
            old(names).knows(key@) ==> {
                &&& exists|at: int| #[trigger]
                    old(names).at(key@, at) && handle == old(names).values@[at]
                &&& *final(names) == *old(names)
                &&& final(self)@ == old(self)@
            },
            !old(names).knows(key@) ==> {
                &&& handle == old(self)@.next()
                &&& final(self)@ == old(self)@.with(data@)
                &&& final(names).values@ == old(names).values@.push(handle)
                &&& crate::backend::named::texts(final(names).names@)
                    == crate::backend::named::texts(old(names).names@).push(key@)
            },
    {
        if let Some(at) = names.find(key) {
            return names.values[at];
        }
        let handle: usize = self.upload(data);
        names.put(key, handle);
        handle
    }
}

/// A freed handle is the next one handed out.
pub proof fn a_freed_handle_is_next<T>(held: Held<T>, handle: usize)
    ensures
        (Held { slabs: held.slabs, free: held.free.push(handle) }).next() == handle,
{
    let freed = Held { slabs: held.slabs, free: held.free.push(handle) };
    assert(freed.free.last() == handle);
}

/// An allocation touches no buffer but the one it hands out.
pub proof fn an_allocation_touches_one<T>(held: Held<T>, data: Seq<T>, other: int)
    requires
        held.wf(),
        0 <= other < held.slabs.len(),
        other != held.next(),
    ensures
        held.with(data).slabs[other] == held.slabs[other],
        held.with(data).slabs[held.next() as int] == data,
{
}

/// A window copied is read back where it was laid, and nothing beside it moved.
pub proof fn a_laid_row_reads_back<T>(into: Seq<T>, at: int, row: Seq<T>, i: int)
    requires
        0 <= at,
        at + row.len() <= into.len(),
        0 <= i < into.len(),
    ensures
        laid(into, at, row).subrange(at, at + row.len()) == row,
        i < at || at + row.len() <= i ==> laid(into, at, row)[i] == into[i],
{
    assert(laid(into, at, row).subrange(at, at + row.len()) =~= row);
}

/// A block copied between two buffers reads back: element `c` of row `r` is at the
/// target's place for it, where the target's rows do not overlap.
pub proof fn a_copied_block_reads_back<T>(
    from: Seq<T>,
    src: Rows,
    into: Seq<T>,
    dst: Rows,
    rows: nat,
    width: nat,
    r: int,
    c: int,
)
    requires
        0 <= r < rows,
        0 <= c < width,
        width <= dst.pitch,
        block_fits(from.len(), src, rows, width),
        block_fits(into.len(), dst, rows, width),
    ensures
        rows_laid(from, src, into, dst, rows, width).len() == into.len(),
        rows_laid(from, src, into, dst, rows, width)[dst.offset + r * dst.pitch + c]
            == from[src.offset + r * src.pitch + c],
    decreases rows,
{
    let last = rows - 1;
    lemma_row_within(src, r, rows as int);
    lemma_row_within(dst, r, rows as int);
    lemma_laid_len(from, src, into, dst, rows, width);
    lemma_laid_len(from, src, into, dst, last as nat, width);
    if r < last {
        assert(r * dst.pitch + dst.pitch <= last * dst.pitch && 0 <= r * dst.pitch && (last - 1)
            * dst.pitch <= last * dst.pitch && (last - 1) * src.pitch <= last * src.pitch)
            by (nonlinear_arith)
            requires
                0 <= r,
                r + 1 <= last,
                0 <= dst.pitch,
                0 <= src.pitch,
        ;
        a_copied_block_reads_back(from, src, into, dst, last as nat, width, r, c);
    }
}

/// A copied block touches nothing outside its target's rows.
pub proof fn a_copied_block_touches_its_rows<T>(
    from: Seq<T>,
    src: Rows,
    into: Seq<T>,
    dst: Rows,
    rows: nat,
    width: nat,
    p: int,
)
    requires
        0 <= p < into.len(),
        forall|r: int|
            0 <= r < rows ==> !(#[trigger] dst.at(r) <= p < dst.at(r) + width),
        forall|r: int| 0 <= r < rows ==> 0 <= #[trigger] src.at(r) && src.at(r) + width <= from.len(),
    ensures
        rows_laid(from, src, into, dst, rows, width)[p] == into[p],
    decreases rows,
{
    lemma_laid_len(from, src, into, dst, rows, width);
    if rows > 0 {
        let last = (rows - 1) as nat;
        lemma_laid_len(from, src, into, dst, last, width);
        a_copied_block_touches_its_rows(from, src, into, dst, last, width, p);
        assert(!(dst.at(last as int) <= p < dst.at(last as int) + width));
        assert(0 <= src.at(last as int) && src.at(last as int) + width <= from.len());
    }
}

proof fn lemma_laid_len<T>(
    from: Seq<T>,
    src: Rows,
    into: Seq<T>,
    dst: Rows,
    rows: nat,
    width: nat,
)
    ensures
        rows_laid(from, src, into, dst, rows, width).len() == into.len(),
    decreases rows,
{
    if rows > 0 {
        lemma_laid_len(from, src, into, dst, (rows - 1) as nat, width);
    }
}

} // verus!
