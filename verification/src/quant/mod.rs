//! The block formats a file's weights are held in.

pub mod grouped;
pub mod packed;

use vstd::prelude::*;

use crate::text::{self, Args};

verus! {

broadcast use crate::text::lemma_filled_args;

/// Elements sharing one Q8_0 scale.
pub const Q8_0_BLOCK: usize = 32;

/// Elements of a super-block, which every other format this crate has kernels
/// for is made of.
pub const SUPER_BLOCK: usize = 256;

/// What a block of a format comes to, for one whose blocks only the file's reader
/// knows: the elements and the bytes in it, each at least one, and whether it
/// carries a minimum beside its scale.
#[derive(Clone, Copy, PartialEq, Eq, Structural, Debug, Hash)]
pub struct Layout {
    pub block: u16,
    pub block_bytes: u16,
    pub has_min: bool,
}

/// A count that is at least one.
pub open spec fn at_least_one(n: u16) -> usize {
    if n == 0 {
        1
    } else {
        n as usize
    }
}

fn counted(n: u16) -> (count: usize)
    ensures
        count == at_least_one(n),
{
    if n == 0 {
        1
    } else {
        n as usize
    }
}

/// A quantized format.
#[allow(non_camel_case_types)]
#[derive(Clone, Copy, PartialEq, Eq, Structural, Debug, Hash)]
pub enum Quant {
    Q8_0,
    Q2_K,
    Q3_K,
    Q4_K,
    Q5_K,
    Q6_K,
    IQ1_S,
    IQ1_M,
    IQ2_XXS,
    IQ2_XS,
    IQ2_S,
    IQ3_XXS,
    IQ3_S,
    IQ4_XS,
    /// A format its own kernels decode from blocks as the file lays them out.
    PTQ1_0(Layout),
    /// A format, by its number in a file, that no kernel reads: its weights are
    /// decoded when they go up.
    Other(u32, Layout),
}

/// Elements in one block of a format.
pub open spec fn block_of(quant: Quant) -> usize {
    match quant {
        Quant::Q8_0 => 32,
        Quant::PTQ1_0(layout) => at_least_one(layout.block),
        Quant::Other(_, layout) => at_least_one(layout.block),
        _ => 256,
    }
}

/// Bytes one block takes in the file.
pub open spec fn block_bytes_of(quant: Quant) -> usize {
    match quant {
        Quant::Q8_0 => 34,
        Quant::Q2_K => 84,
        Quant::Q3_K => 110,
        Quant::Q4_K => 144,
        Quant::Q5_K => 176,
        Quant::Q6_K => 210,
        Quant::IQ1_S => 50,
        Quant::IQ1_M => 56,
        Quant::IQ2_XXS => 66,
        Quant::IQ2_XS => 74,
        Quant::IQ2_S => 82,
        Quant::IQ3_XXS => 98,
        Quant::IQ3_S => 110,
        Quant::IQ4_XS => 136,
        Quant::PTQ1_0(layout) => at_least_one(layout.block_bytes),
        Quant::Other(_, layout) => at_least_one(layout.block_bytes),
    }
}

/// The window of a block its device kernel reads: how many leading bytes it
/// skips, and how many it keeps.
pub open spec fn device_block_of(quant: Quant) -> (usize, usize) {
    match quant {
        Quant::Q6_K => (0, 208),
        Quant::IQ1_S => (2, 48),
        Quant::IQ2_S => (2, 80),
        Quant::IQ3_XXS => (2, 96),
        Quant::IQ3_S => (2, 108),
        other => (0, block_bytes_of(other)),
    }
}

/// What a format without a name of its own goes by.
pub const NUMBERED: &'static str = "type $0";

/// A format's name.
pub open spec fn name_of(quant: Quant) -> Seq<char> {
    match quant {
        Quant::Q8_0 => "Q8_0"@,
        Quant::Q2_K => "Q2_K"@,
        Quant::Q3_K => "Q3_K"@,
        Quant::Q4_K => "Q4_K"@,
        Quant::Q5_K => "Q5_K"@,
        Quant::Q6_K => "Q6_K"@,
        Quant::IQ1_S => "IQ1_S"@,
        Quant::IQ1_M => "IQ1_M"@,
        Quant::IQ2_XXS => "IQ2_XXS"@,
        Quant::IQ2_XS => "IQ2_XS"@,
        Quant::IQ2_S => "IQ2_S"@,
        Quant::IQ3_XXS => "IQ3_XXS"@,
        Quant::IQ3_S => "IQ3_S"@,
        Quant::IQ4_XS => "IQ4_XS"@,
        Quant::PTQ1_0(_) => "PTQ1_0"@,
        Quant::Other(number, _) => text::filled(NUMBERED@, seq![text::decimal(number as nat)]),
    }
}

/// A format whose blocks a kernel unpacks into a plane of quants and a plane of
/// scales.
pub open spec fn has_planes(quant: Quant) -> bool {
    quant == Quant::Q8_0
}

/// A format that a raw kernel decodes from its own blocks.
pub open spec fn has_raw_scales(quant: Quant) -> bool {
    !has_planes(quant) && !(quant is Other)
}

/// A format whose weights stay in blocks when they are stacked: one with planes,
/// or PTQ1_0.
pub open spec fn stacks(quant: Quant) -> bool {
    has_planes(quant) || quant is PTQ1_0
}

/// A format with a minimum beside its scale.
pub open spec fn has_min(quant: Quant) -> bool {
    match quant {
        Quant::Q2_K | Quant::Q4_K | Quant::Q5_K => true,
        Quant::PTQ1_0(layout) => layout.has_min,
        Quant::Other(_, layout) => layout.has_min,
        _ => false,
    }
}

/// A format whose rows a device holds regrouped by eights.
pub open spec fn is_grouped(quant: Quant) -> bool {
    quant == Quant::Q4_K || quant == Quant::Q5_K || quant == Quant::Q6_K
}

impl Quant {
    /// Whether a kernel unpacks the format into planes.
    pub fn has_planes(self) -> (yes: bool)
        ensures
            yes == has_planes(self),
    {
        self == Quant::Q8_0
    }

    /// Whether a raw kernel decodes the format from its own blocks.
    pub fn has_raw_scales(self) -> (yes: bool)
        ensures
            yes == has_raw_scales(self),
    {
        match self {
            Quant::Q8_0 | Quant::Other(..) => false,
            _ => true,
        }
    }

    /// Whether weights of the format stay in blocks when they are stacked.
    pub fn stacks(self) -> (yes: bool)
        ensures
            yes == stacks(self),
    {
        match self {
            Quant::Q8_0 | Quant::PTQ1_0(_) => true,
            _ => false,
        }
    }

    pub fn has_min(self) -> (yes: bool)
        ensures
            yes == has_min(self),
    {
        match self {
            Quant::Q2_K | Quant::Q4_K | Quant::Q5_K => true,
            Quant::PTQ1_0(layout) => layout.has_min,
            Quant::Other(_, layout) => layout.has_min,
            _ => false,
        }
    }

    pub fn grouped_rows(self) -> (yes: bool)
        ensures
            yes == is_grouped(self),
    {
        self == Quant::Q4_K || self == Quant::Q5_K || self == Quant::Q6_K
    }

    /// Elements in one block.
    pub fn block(self) -> (n: usize)
        ensures
            n == block_of(self),
    {
        match self {
            Quant::Q8_0 => Q8_0_BLOCK,
            Quant::PTQ1_0(layout) => counted(layout.block),
            Quant::Other(_, layout) => counted(layout.block),
            _ => SUPER_BLOCK,
        }
    }

    /// Bytes one block takes in the file.
    pub fn block_bytes(self) -> (n: usize)
        ensures
            n == block_bytes_of(self),
    {
        match self {
            Quant::Q8_0 => 34,
            Quant::Q2_K => 84,
            Quant::Q3_K => 110,
            Quant::Q4_K => 144,
            Quant::Q5_K => 176,
            Quant::Q6_K => 210,
            Quant::IQ1_S => 50,
            Quant::IQ1_M => 56,
            Quant::IQ2_XXS => 66,
            Quant::IQ2_XS => 74,
            Quant::IQ2_S => 82,
            Quant::IQ3_XXS => 98,
            Quant::IQ3_S => 110,
            Quant::IQ4_XS => 136,
            Quant::PTQ1_0(layout) => counted(layout.block_bytes),
            Quant::Other(_, layout) => counted(layout.block_bytes),
        }
    }

    /// The bytes of a block a device kernel skips, then those it keeps.
    pub fn device_block(self) -> (window: (usize, usize))
        ensures
            window == device_block_of(self),
            window.0 + window.1 <= block_bytes_of(self),
    {
        match self {
            Quant::Q6_K => (0, 208),
            Quant::IQ1_S => (2, 48),
            Quant::IQ2_S => (2, 80),
            Quant::IQ3_XXS => (2, 96),
            Quant::IQ3_S => (2, 108),
            other => (0, other.block_bytes()),
        }
    }

    /// Bytes of a block on the device.
    pub fn device_block_bytes(self) -> (n: usize)
        ensures
            n == device_block_of(self).1,
    {
        self.device_block().1
    }

    pub fn name(self) -> (name: String)
        ensures
            name@ == name_of(self),
    {
        match self {
            Quant::Q8_0 => "Q8_0".to_owned(),
            Quant::Q2_K => "Q2_K".to_owned(),
            Quant::Q3_K => "Q3_K".to_owned(),
            Quant::Q4_K => "Q4_K".to_owned(),
            Quant::Q5_K => "Q5_K".to_owned(),
            Quant::Q6_K => "Q6_K".to_owned(),
            Quant::IQ1_S => "IQ1_S".to_owned(),
            Quant::IQ1_M => "IQ1_M".to_owned(),
            Quant::IQ2_XXS => "IQ2_XXS".to_owned(),
            Quant::IQ2_XS => "IQ2_XS".to_owned(),
            Quant::IQ2_S => "IQ2_S".to_owned(),
            Quant::IQ3_XXS => "IQ3_XXS".to_owned(),
            Quant::IQ3_S => "IQ3_S".to_owned(),
            Quant::IQ4_XS => "IQ4_XS".to_owned(),
            Quant::PTQ1_0(_) => "PTQ1_0".to_owned(),
            Quant::Other(number, _) => Args::new().num(number as usize).fill(NUMBERED),
        }
    }
}

} // verus!
