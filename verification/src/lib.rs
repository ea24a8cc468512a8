use vstd::prelude::*;

pub mod arch;
pub mod elf;
pub mod fingerprint;
pub mod map;
pub mod order;
pub mod rk;
pub mod scan;
pub mod text;
pub mod yaml;

use crate::fingerprint::Fingerprint;

verus! {

/// The CPU dialect a piece of machine code was compiled for.
#[derive(Copy, Clone, Debug, PartialEq, Eq, Hash, Structural)]
pub enum MIPSFamily {
    R3000GTE,
    R4000,
    R4000Allegrex,
    R5900,
}

impl MIPSFamily {
    /// Whether words of this family are stored most significant byte first.
    pub open spec fn is_big_endian(self) -> bool {
        self == MIPSFamily::R4000
    }
}

/// The parameters every hashing and searching entry point reads.
#[derive(Copy, Clone, Debug, PartialEq, Eq)]
pub struct Options {
    pub modulus: u64,
    pub radix: u64,
    pub mips_family: MIPSFamily,
}

impl Options {
    /// The default parameters: modulus `0xFFFFFFEF`, radix `2^32`, family
    /// `R3000GTE`.
    pub fn new() -> (options: Self)
        ensures
            options.modulus == crate::rk::DEFAULT_MODULUS,
            options.radix == crate::rk::DEFAULT_RADIX,
            options.mips_family == MIPSFamily::R3000GTE,
    {
        Self { modulus: 0xFFFFFFEF, radix: 4294967296, mips_family: MIPSFamily::R3000GTE }
    }
}

/// The fingerprint of one function of an object.
#[derive(Clone, Debug, PartialEq, Eq, Hash)]
pub struct FunctionSignature {
    pub name: String,
    pub fingerprint: Fingerprint,
    pub size: usize,
}

/// How the read-only data of an object is laid out around its jump tables.
#[derive(Copy, Clone, Debug, PartialEq, Eq, Hash, Structural)]
pub enum RODataSignatureType {
    OnlyJumpTables,
    StartsAndEndsWithJumpTable,
    StartsWithJumpTable,
    EndsWithJumpTable,
    Unknown,
}

/// The kind and the size in bytes of the read-only data of an object.
#[derive(Copy, Clone, Debug, PartialEq, Eq, Hash, Structural)]
pub struct RODataSignature {
    pub rodata_type: RODataSignatureType,
    pub size: usize,
}

/// The fingerprint of the text of one object, with those of its functions
/// in ascending order of their place in the object.
#[derive(Clone, Debug, PartialEq, Eq, Hash)]
pub struct SegmentSignature {
    pub name: String,
    pub fingerprint: Fingerprint,
    pub size: usize,
    pub family: MIPSFamily,
    pub rodata: Option<RODataSignature>,
    pub functions: Vec<FunctionSignature>,
}

/// Where the read-only data of a segment was found in a scanned image.
#[derive(Copy, Clone, Debug, PartialEq, Eq, Structural)]
pub struct RODataOffset {
    pub offset: usize,
    pub size: usize,
}

/// Where a function was found in a scanned image.
#[derive(Clone, Debug, PartialEq, Eq)]
pub struct FunctionOffset {
    pub name: String,
    pub offset: usize,
    pub size: usize,
}

/// Where a segment was found in a scanned image, with its functions in
/// ascending order of offset.
#[derive(Clone, Debug, PartialEq, Eq)]
pub struct SegmentOffset {
    pub name: String,
    pub offset: usize,
    pub size: usize,
    pub rodata: Option<RODataOffset>,
    pub symbols: Vec<FunctionOffset>,
}

} // verus!
