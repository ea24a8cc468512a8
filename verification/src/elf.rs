use vstd::prelude::*;
use vstd::string::*;
use crate::MIPSFamily;

verus! {

/// The machine number of MIPS in an ELF header.
pub const EM_MIPS: u16 = 8;

/// The bits of the header flags that name a particular machine.
pub const EF_MIPS_MACH: u32 = 0x00FF0000;

/// The machine bits of the R5900.
pub const EF_MIPS_MACH_5900: u32 = 0x00920000;

/// The bits of the header flags that name the architecture level.
pub const EF_MIPS_ARCH: u32 = 0xF0000000;

/// The architecture level MIPS I.
pub const EF_MIPS_ARCH_1: u32 = 0x00000000;

/// The architecture level MIPS II.
pub const EF_MIPS_ARCH_2: u32 = 0x10000000;

/// The architecture level MIPS III.
pub const EF_MIPS_ARCH_3: u32 = 0x20000000;

/// A symbol of an object file.
#[derive(Clone, Debug, PartialEq, Eq)]
pub struct Symbol {
    pub name: String,
    pub vram: u64,
    pub size: Option<u64>,
    pub vrom: Option<u64>,
    pub align: Option<u64>,
}

/// The bytes of one executable section and the address they are loaded at.
#[derive(Clone, Debug, PartialEq, Eq)]
pub struct TextSection {
    pub vram: usize,
    pub data: Vec<u8>,
}

/// The family that the machine and flags fields of an ELF header name: the
/// R5900 by its machine bits, the others by their architecture level.
pub open spec fn family_of_header(e_machine: u16, e_flags: u32) -> Option<MIPSFamily> {
    if e_machine != EM_MIPS {
        None
    } else if e_flags & EF_MIPS_MACH == EF_MIPS_MACH_5900 {
        Some(MIPSFamily::R5900)
    } else if e_flags & EF_MIPS_ARCH == EF_MIPS_ARCH_1 {
        Some(MIPSFamily::R3000GTE)
    } else if e_flags & EF_MIPS_ARCH == EF_MIPS_ARCH_2 {
        Some(MIPSFamily::R4000Allegrex)
    } else if e_flags & EF_MIPS_ARCH == EF_MIPS_ARCH_3 {
        Some(MIPSFamily::R4000)
    } else {
        None
    }
}

/// Determines the MIPS family from the machine and flags fields of an ELF
/// header.
pub fn mips_family(e_machine: u16, e_flags: u32) -> (family: Option<MIPSFamily>)
    ensures
        family == family_of_header(e_machine, e_flags),
{
    if e_machine == EM_MIPS {
        if (e_flags & EF_MIPS_MACH) == EF_MIPS_MACH_5900 {
            return Some(MIPSFamily::R5900);
        }
        let arch: u32 = e_flags & EF_MIPS_ARCH;
        if arch == EF_MIPS_ARCH_1 {
            return Some(MIPSFamily::R3000GTE);
        } else if arch == EF_MIPS_ARCH_2 {
            return Some(MIPSFamily::R4000Allegrex);
        } else if arch == EF_MIPS_ARCH_3 {
            return Some(MIPSFamily::R4000);
        }
    }
    None
}

/// The type of a section that holds what the program defines.
pub const SHT_PROGBITS: u32 = 1;

/// The section flag of machine instructions.
pub const SHF_EXECINSTR: u64 = 4;

/// The type of a symbol that names a function.
pub const STT_FUNC: u8 = 2;

/// A section holds text to fingerprint: program bits that are marked as
/// instructions, under a name that is not one of the two header names that
/// some toolchains mark so.
pub open spec fn holds_text(sh_type: u32, sh_flags: u64, name: Seq<char>) -> bool {
    sh_type == SHT_PROGBITS && sh_flags & SHF_EXECINSTR == SHF_EXECINSTR && name != ".mwo_header"@
        && name != ".header"@
}

/// Whether a section with this type, these flags and this name holds text
/// to fingerprint.
pub fn is_text_section(sh_type: u32, sh_flags: u64, name: &String) -> (yes: bool)
    ensures
        yes == holds_text(sh_type, sh_flags, name@),
{
    if sh_type != SHT_PROGBITS || (sh_flags & SHF_EXECINSTR) != SHF_EXECINSTR {
        return false;
    }
    let mwo_header = String::from_str(".mwo_header");
    let header = String::from_str(".header");
    !(*name == mwo_header) && !(*name == header)
}

/// `alignment` is a power of two.
pub open spec fn is_power_of_two(alignment: usize) -> bool {
    alignment > 0 && alignment & ((alignment - 1) as usize) == 0
}

/// Rounding up with a mask clears the low bits and moves up by less than
/// the alignment.
pub proof fn lemma_mask_rounds_up(sum: u64, alignment: u64, mask: u64)
    by (bit_vector)
    requires
        alignment > 0,
        mask + 1 == alignment,
        alignment & mask == 0,
        sum >= mask,
    ensures
        (sum & !mask) & mask == 0,
        (sum & !mask) <= sum,
        sum - (sum & !mask) < alignment,
{
}

/// Rounds `offset` up to the next multiple of `alignment`, which is a
/// power of two: the result has none of the bits below the alignment set
/// and lies less than one alignment above the offset.
pub fn align(offset: usize, alignment: usize) -> (aligned: usize)
    requires
        is_power_of_two(alignment),
        offset + alignment - 1 <= usize::MAX,
    ensures
        aligned & ((alignment - 1) as usize) == 0,
        offset <= aligned < offset + alignment,
{
    let mask: usize = alignment - 1;
    let sum: usize = offset + mask;
    let aligned: usize = sum & !mask;
    proof {
        let s = sum as u64;
        let a = alignment as u64;
        let m = mask as u64;
        assert(a & m == 0) by (bit_vector)
            requires
                alignment & mask == 0,
                a == alignment,
                m == mask,
        ;
        lemma_mask_rounds_up(s, a, m);
        assert(aligned as u64 == s & !m && (aligned & mask) as u64 == (s & !m) & m)
            by (bit_vector)
            requires
                aligned == sum & !mask,
                s == sum,
                m == mask,
        ;
    }
    aligned
}

} // verus!
