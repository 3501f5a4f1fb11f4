//! A weight's blocks and scales in the layout the device's kernels read.

use vstd::prelude::*;

use crate::backend::named::Named;
use crate::backend::RawBuf;
use crate::quant::grouped::{self, group_rows};
use crate::quant::{self, Quant};

verus! {

/// A raw weight on the device: where its blocks and scale planes are, its
/// output width, its blocks a row, and the format that decodes it.
#[derive(Clone, Copy, PartialEq, Eq, Structural, Debug)]
pub struct DeviceRaw {
    pub bytes: u64,
    pub d: u64,
    pub dmin: Option<u64>,
    pub n: usize,
    pub nb: usize,
    pub quant: Quant,
}

/// A Q8_0 weight on the device: where its bytes and its two scale layouts are,
/// and its output width.
#[derive(Clone, Copy, PartialEq, Eq, Structural, Debug)]
pub struct DeviceQuant {
    pub qs: u64,
    pub scales: u64,
    pub row_scales: u64,
    pub n: usize,
}

/// A raw weight's blocks and scale planes, row by row.
pub struct RawPlanes {
    pub bytes: Vec<u8>,
    pub d: Vec<u16>,
    pub dmin: Vec<u16>,
}

/// A plane with its rows grouped and the padding zero.
pub open spec fn grouped_plane<T>(rows: Seq<T>, zero: T, n: nat, nb: nat, unit: nat) -> Seq<T> {
    grouped::grouped(
        rows,
        Seq::new(grouped::grouped_size(n, nb, unit), |i: int| zero),
        n,
        nb,
        unit,
    )
}

/// The planes hold `n` rows of `nb` blocks, and so do grouped ones.
pub open spec fn planes_fit(planes: RawPlanes, quant: Quant, n: nat, nb: nat) -> bool {
    let unit = quant::device_block_of(quant).1 as nat;
    &&& n * nb * unit <= planes.bytes@.len()
    &&& n * nb * 1 <= planes.d@.len()
    &&& n + 63 <= usize::MAX
    &&& (n + 63) / 64 * 8 * nb * 8 <= usize::MAX
    &&& grouped::grouped_size(n, nb, unit) <= usize::MAX
    &&& grouped::grouped_size(n, nb, 1) <= usize::MAX
}

/// Whether planes are what is sent of others: the blocks and their scales with
/// the rows grouped where the format wants it, the minimums as they are.
pub open spec fn sends(planes: RawPlanes, quant: Quant, n: nat, nb: nat, out: RawPlanes) -> bool {
    &&& out.dmin@ == planes.dmin@
    &&& if quant::is_grouped(quant) {
        &&& out.bytes@ == grouped_plane(
            planes.bytes@,
            0u8,
            n,
            nb,
            quant::device_block_of(quant).1 as nat,
        )
        &&& out.d@ == grouped_plane(planes.d@, 0u16, n, nb, 1)
    } else {
        out.bytes@ == planes.bytes@ && out.d@ == planes.d@
    }
}

/// A raw weight's planes as they are uploaded: the blocks and their scales with
/// the rows grouped where the format wants it, the minimums as they are.
pub fn raw_payload(planes: RawPlanes, quant: Quant, n: usize, nb: usize) -> (out: RawPlanes)
    requires
        quant::is_grouped(quant) ==> planes_fit(planes, quant, n as nat, nb as nat),
    ensures
        sends(planes, quant, n as nat, nb as nat, out),
{
    if !quant.grouped_rows() {
        return planes;
    }
    let bytes = group_rows(planes.bytes.as_slice(), n, nb, quant.device_block_bytes());
    let d = group_rows(planes.d.as_slice(), n, nb, 1);
    RawPlanes { bytes, d, dmin: planes.dmin }
}

/// What an upload of a raw weight comes to: the handle of one already there, or
/// planes to send.
pub enum RawUpload {
    Known(RawBuf),
    /// The planes, the blocks of a row, and whether there is a plane of
    /// minimums.
    Send { planes: RawPlanes, nb: usize, minimums: bool },
}

/// A raw weight under its key: uploaded once, and looked up afterwards.
pub fn upload_raw(
    known: &Named<DeviceRaw>,
    key: &str,
    planes: RawPlanes,
    quant: Quant,
    k: usize,
    n: usize,
) -> (upload: RawUpload)
    requires
        known.wf(),
        !known.knows(key@) && quant::is_grouped(quant) ==> planes_fit(
            planes,
            quant,
            n as nat,
            k as nat / (quant::block_of(quant) as nat),
        ),
    ensures
        match upload {
            RawUpload::Known(buf) => known.at(key@, buf.0 as int),
            RawUpload::Send { planes: out, nb, minimums } => {
                &&& !known.knows(key@)
                &&& nb == k / quant::block_of(quant)
                &&& minimums == (planes.dmin@.len() > 0)
                &&& sends(planes, quant, n as nat, nb as nat, out)
            },
        },
{
    if let Some(at) = known.find(key) {
        return RawUpload::Known(RawBuf(at));
    }
    let nb: usize = k / quant.block();
    let minimums = planes.dmin.len() > 0;
    RawUpload::Send { planes: raw_payload(planes, quant, n, nb), nb, minimums }
}

/// Keeps where a raw weight just sent was put.
pub fn keep_raw(known: &mut Named<DeviceRaw>, key: &str, at: DeviceRaw) -> (buf: RawBuf)
    requires
        old(known).wf(),
        !old(known).knows(key@),
    ensures
        final(known).wf(),
        buf.0 == old(known).values@.len(),
        final(known).values@ == old(known).values@.push(at),
        crate::backend::named::texts(final(known).names@) == crate::backend::named::texts(
            old(known).names@,
        ).push(key@),
{
    RawBuf(known.put(key, at))
}

/// Whether a handle is one of a format's weights.
pub fn raw_quant_is(known: &Named<DeviceRaw>, w: RawBuf, quant: Quant) -> (yes: bool)
    ensures
        yes == (w.0 < known.values@.len() && known.values@[w.0 as int].quant == quant),
{
    w.0 < known.values.len() && known.values[w.0].quant == quant
}

/// Every block a grouped upload was given stands in it, whole.
pub proof fn an_upload_keeps_every_block(
    planes: RawPlanes,
    quant: Quant,
    n: nat,
    nb: nat,
    j: int,
    b: int,
    u: int,
)
    requires
        planes_fit(planes, quant, n, nb),
        0 <= j < n,
        0 <= b < nb,
        0 <= u < quant::device_block_of(quant).1,
    ensures
        grouped_plane(
            planes.bytes@,
            0u8,
            n,
            nb,
            quant::device_block_of(quant).1 as nat,
        )[grouped::place(j, b, u, nb as int, quant::device_block_of(quant).1 as int)]
            == planes.bytes@[(j * nb + b) * quant::device_block_of(quant).1 + u],
{
    let unit = quant::device_block_of(quant).1 as nat;
    grouped::grouping_keeps_every_element(
        planes.bytes@,
        Seq::new(grouped::grouped_size(n, nb, unit), |i: int| 0u8),
        n,
        nb,
        unit,
        j,
        b,
        u,
    );
}

} // verus!
