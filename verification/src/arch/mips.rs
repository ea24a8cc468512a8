use vstd::prelude::*;
use crate::MIPSFamily;

verus! {

/// The 32-bit word whose bytes are, from the most significant down,
/// `b0`, `b1`, `b2`, `b3`.
pub open spec fn word_from_bytes(b0: u8, b1: u8, b2: u8, b3: u8) -> u32 {
    ((b0 as u32) << 24) | ((b1 as u32) << 16) | ((b2 as u32) << 8) | (b3 as u32)
}

/// Little-endian reading of the four bytes at `at`.
pub open spec fn le_word_at(bytes: Seq<u8>, at: int) -> u32 {
    word_from_bytes(bytes[at + 3], bytes[at + 2], bytes[at + 1], bytes[at])
}

/// Big-endian reading of the four bytes at `at`.
pub open spec fn be_word_at(bytes: Seq<u8>, at: int) -> u32 {
    word_from_bytes(bytes[at], bytes[at + 1], bytes[at + 2], bytes[at + 3])
}

/// Byte-swapped big-endian reading of the four bytes at `at`.
pub open spec fn bs_word_at(bytes: Seq<u8>, at: int) -> u32 {
    word_from_bytes(bytes[at + 1], bytes[at], bytes[at + 3], bytes[at + 2])
}

/// Byte-swapped little-endian reading of the four bytes at `at`.
pub open spec fn ls_word_at(bytes: Seq<u8>, at: int) -> u32 {
    word_from_bytes(bytes[at + 2], bytes[at + 3], bytes[at], bytes[at + 1])
}

/// The word at `at` in the byte order native to `family`.
pub open spec fn native_word_at(bytes: Seq<u8>, at: int, family: MIPSFamily) -> u32 {
    if family.is_big_endian() {
        be_word_at(bytes, at)
    } else {
        le_word_at(bytes, at)
    }
}

/// Reads the first four bytes as a little-endian word.
pub fn le_bytes_to_u32(bytes: &[u8]) -> (word: u32)
    requires
        bytes@.len() >= 4,
    ensures
        word == le_word_at(bytes@, 0),
{
    ((bytes[3] as u32) << 24) | ((bytes[2] as u32) << 16) | ((bytes[1] as u32) << 8) | (
    bytes[0] as u32)
}

/// Reads the first four bytes as a big-endian word.
pub fn be_bytes_to_u32(bytes: &[u8]) -> (word: u32)
    requires
        bytes@.len() >= 4,
    ensures
        word == be_word_at(bytes@, 0),
{
    ((bytes[0] as u32) << 24) | ((bytes[1] as u32) << 16) | ((bytes[2] as u32) << 8) | (
    bytes[3] as u32)
}

/// Reads the first four bytes as a big-endian word whose byte pairs are
/// swapped.
pub fn bs_bytes_to_u32(bytes: &[u8]) -> (word: u32)
    requires
        bytes@.len() >= 4,
    ensures
        word == bs_word_at(bytes@, 0),
{
    ((bytes[1] as u32) << 24) | ((bytes[0] as u32) << 16) | ((bytes[3] as u32) << 8) | (
    bytes[2] as u32)
}

/// Reads the first four bytes as a little-endian word whose byte pairs are
/// swapped.
pub fn ls_bytes_to_u32(bytes: &[u8]) -> (word: u32)
    requires
        bytes@.len() >= 4,
    ensures
        word == ls_word_at(bytes@, 0),
{
    ((bytes[2] as u32) << 24) | ((bytes[3] as u32) << 16) | ((bytes[0] as u32) << 8) | (
    bytes[1] as u32)
}

/// Reads the first four bytes as a little-endian instruction.
pub fn bytes_to_le_instruction(bytes: &[u8]) -> (word: u32)
    requires
        bytes@.len() >= 4,
    ensures
        word == le_word_at(bytes@, 0),
{
    le_bytes_to_u32(bytes)
}

/// Reads the first four bytes as a big-endian instruction.
pub fn bytes_to_be_instruction(bytes: &[u8]) -> (word: u32)
    requires
        bytes@.len() >= 4,
    ensures
        word == be_word_at(bytes@, 0),
{
    be_bytes_to_u32(bytes)
}

/// The bits of an instruction word that survive normalisation: all of them
/// for the SPECIAL opcode, the opcode alone for `j` and `jal`, and everything
/// but the 16-bit immediate otherwise.
pub open spec fn kept_bits(word: u32) -> u32 {
    let opcode = word >> 26;
    if opcode == 0 {
        0xFFFF_FFFFu32
    } else if opcode == 2 || opcode == 3 {
        0xFC00_0000u32
    } else {
        0xFFFF_0000u32
    }
}

/// An instruction word with its link-sensitive operand bits cleared.
pub open spec fn normalized(word: u32) -> u32 {
    word & kept_bits(word)
}

/// Clears the operand bits of `instruction` that a linker may rewrite.
pub fn normalize_instruction(instruction: u32, family: MIPSFamily) -> (word: u32)
    ensures
        word == normalized(instruction),
{
    let opcode: u32 = instruction >> 26;
    if opcode == 0 {
        assert(instruction & 0xFFFF_FFFFu32 == instruction) by (bit_vector);
        instruction
    } else if opcode == 2 || opcode == 3 {
        instruction & 0xFC00_0000
    } else {
        instruction & 0xFFFF_0000
    }
}

/// Normalisation leaves every kept bit as it was, clears every other bit, and
/// never touches the opcode.
pub proof fn lemma_normalized_masks_only_operands(word: u32)
    ensures
        normalized(word) & kept_bits(word) == word & kept_bits(word),
        normalized(word) & !kept_bits(word) == 0,
        normalized(word) >> 26 == word >> 26,
        kept_bits(normalized(word)) == kept_bits(word),
        normalized(normalized(word)) == normalized(word),
{
    let m = kept_bits(word);
    assert((word & m) & m == word & m) by (bit_vector);
    assert((word & m) & !m == 0) by (bit_vector);
    assert((word & m) >> 26 == word >> 26) by (bit_vector)
        requires
            m == 0xFFFF_FFFFu32 || m == 0xFC00_0000u32 || m == 0xFFFF_0000u32,
    ;
}

/// The normalised instruction at `at`, read in the byte order of `family`.
pub open spec fn normalized_word_at(bytes: Seq<u8>, at: int, family: MIPSFamily) -> u32 {
    normalized(native_word_at(bytes, at, family))
}

/// Reads the first four bytes in the byte order of `family` and normalises
/// the instruction.
pub fn bytes_to_normalized_instruction(bytes: &[u8], family: MIPSFamily) -> (word: u32)
    requires
        bytes@.len() >= 4,
    ensures
        word == normalized_word_at(bytes@, 0, family),
{
    let instruction = if family == MIPSFamily::R4000 {
        bytes_to_be_instruction(bytes)
    } else {
        bytes_to_le_instruction(bytes)
    };
    normalize_instruction(instruction, family)
}

/// Reads the first four bytes in the byte order of `family`.
pub fn read_word(bytes: &[u8], family: MIPSFamily) -> (word: u32)
    requires
        bytes@.len() >= 4,
    ensures
        word == native_word_at(bytes@, 0, family),
{
    if family == MIPSFamily::R4000 {
        be_bytes_to_u32(bytes)
    } else {
        le_bytes_to_u32(bytes)
    }
}

/// Reads the word at byte offset `at` in the byte order of `family`.
pub fn read_word_at(bytes: &[u8], at: usize, family: MIPSFamily) -> (word: u32)
    requires
        at + 4 <= bytes@.len(),
    ensures
        word == native_word_at(bytes@, at as int, family),
{
    let b0 = bytes[at];
    let b1 = bytes[at + 1];
    let b2 = bytes[at + 2];
    let b3 = bytes[at + 3];
    if family == MIPSFamily::R4000 {
        ((b0 as u32) << 24) | ((b1 as u32) << 16) | ((b2 as u32) << 8) | (b3 as u32)
    } else {
        ((b3 as u32) << 24) | ((b2 as u32) << 16) | ((b1 as u32) << 8) | (b0 as u32)
    }
}

/// The normalised instructions of the complete aligned words of `bytes`.
pub open spec fn normalized_words(bytes: Seq<u8>, family: MIPSFamily) -> Seq<u32> {
    Seq::new((bytes.len() / 4) as nat, |i: int| normalized_word_at(bytes, 4 * i, family))
}

/// Decodes every complete aligned word of `bytes` and normalises it.
pub fn normalize_words(bytes: &[u8], family: MIPSFamily) -> (words: Vec<u32>)
    ensures
        words@ == normalized_words(bytes@, family),
        4 * words@.len() <= bytes@.len() <= usize::MAX,
{
    let n: usize = bytes.len() / 4;
    let mut words: Vec<u32> = Vec::with_capacity(n);
    let mut i: usize = 0;
    while i < n
        invariant
            n == bytes@.len() / 4,
            4 * n <= bytes@.len() <= usize::MAX,
            i <= n,
            words@.len() == i,
            forall|k: int| 0 <= k < i ==> words@[k] == normalized_word_at(bytes@, 4 * k, family),
        decreases n - i,
    {
        let w = read_word_at(bytes, 4 * i, family);
        words.push(normalize_instruction(w, family));
        i += 1;
    }
    assert(words@ =~= normalized_words(bytes@, family));
    words
}

/// Coarse instruction encodings.
#[derive(Copy, Clone, Debug, PartialEq, Eq, Structural)]
pub enum InstrType {
    InstrTypeUnknown,
    InstrTypeJ,
    InstrTypeI,
    InstrTypeR,
    InstrTypeRegImm,
    InstrTypeMax,
}

impl InstrType {
    /// The encoding that a number stands for; numbers without a meaning stand
    /// for the unknown encoding.
    pub open spec fn of_code(code: u32) -> InstrType {
        if code == 1 {
            InstrType::InstrTypeJ
        } else if code == 2 {
            InstrType::InstrTypeI
        } else if code == 3 {
            InstrType::InstrTypeR
        } else if code == 4 {
            InstrType::InstrTypeRegImm
        } else if code == 5 {
            InstrType::InstrTypeMax
        } else {
            InstrType::InstrTypeUnknown
        }
    }

    /// The encoding that `instr_type` stands for.
    pub fn from_u32(instr_type: u32) -> (t: InstrType)
        ensures
            t == InstrType::of_code(instr_type),
    {
        match instr_type {
            1 => InstrType::InstrTypeJ,
            2 => InstrType::InstrTypeI,
            3 => InstrType::InstrTypeR,
            4 => InstrType::InstrTypeRegImm,
            5 => InstrType::InstrTypeMax,
            _ => InstrType::InstrTypeUnknown,
        }
    }
}

/// The byte layouts a raw image may come in.
#[derive(Copy, Clone, Debug, PartialEq, Eq, Hash, Structural)]
pub enum BinFormat {
    BigEndian,
    LittleEndian,
    BigSwapped,
    LittleSwapped,
}

impl BinFormat {
    /// The word that four bytes at `at` stand for in this layout.
    pub open spec fn word_at(self, bytes: Seq<u8>, at: int) -> u32 {
        match self {
            BinFormat::BigEndian => be_word_at(bytes, at),
            BinFormat::LittleEndian => le_word_at(bytes, at),
            BinFormat::BigSwapped => bs_word_at(bytes, at),
            BinFormat::LittleSwapped => ls_word_at(bytes, at),
        }
    }

    /// Decodes the first four bytes of `bytes` in this layout.
    pub fn to_canonical(&self, bytes: &[u8]) -> (word: u32)
        requires
            bytes@.len() >= 4,
        ensures
            word == self.word_at(bytes@, 0),
    {
        match self {
            BinFormat::BigEndian => be_bytes_to_u32(bytes),
            BinFormat::LittleEndian => le_bytes_to_u32(bytes),
            BinFormat::BigSwapped => bs_bytes_to_u32(bytes),
            BinFormat::LittleSwapped => ls_bytes_to_u32(bytes),
        }
    }
}

/// The word, read big-endian, whose count speaks for the big-endian layout.
pub const BE_JR_RA: u32 = 0x0800E003;

/// The word, read big-endian, whose count speaks for the little-endian
/// layout.
pub const LE_JR_RA: u32 = 0x03E00008;

/// The word, read big-endian, whose count speaks for the big-swapped layout.
pub const BS_JR_RA: u32 = 0x000803E0;

/// The word, read big-endian, whose count speaks for the little-swapped
/// layout.
pub const LS_JR_RA: u32 = 0xE0030800;

/// How many of the first `n` aligned words of `bytes`, read big-endian, equal
/// `pattern`.
pub open spec fn count_be_words(bytes: Seq<u8>, pattern: u32, n: nat) -> nat
    decreases n,
{
    if n == 0 {
        0
    } else {
        count_be_words(bytes, pattern, (n - 1) as nat) + if be_word_at(bytes, 4 * (n - 1))
            == pattern {
            1nat
        } else {
            0nat
        }
    }
}

/// The greatest of the four pattern counts.
pub open spec fn greatest_count(be: nat, le: nat, bs: nat, ls: nat) -> nat {
    let first = if be >= le {
        be
    } else {
        le
    };
    let second = if bs >= ls {
        bs
    } else {
        ls
    };
    if first >= second {
        first
    } else {
        second
    }
}

/// The layout chosen from the four pattern counts: none where no pattern
/// occurs at all, else the layout whose pattern occurs most often; where
/// several occur equally often, the first of them in the order big-endian,
/// little-endian, big-swapped, little-swapped.
pub open spec fn format_for_counts(be: nat, le: nat, bs: nat, ls: nat) -> Option<BinFormat> {
    let top = greatest_count(be, le, bs, ls);
    if top == 0 {
        None
    } else if be == top {
        Some(BinFormat::BigEndian)
    } else if le == top {
        Some(BinFormat::LittleEndian)
    } else if bs == top {
        Some(BinFormat::BigSwapped)
    } else {
        Some(BinFormat::LittleSwapped)
    }
}

/// The chosen layout has a count that is positive and that no other count
/// exceeds, and every layout before it has a smaller count.
pub proof fn lemma_format_has_greatest_count(be: nat, le: nat, bs: nat, ls: nat)
    ensures
        format_for_counts(be, le, bs, ls) is None <==> be == 0 && le == 0 && bs == 0 && ls == 0,
        format_for_counts(be, le, bs, ls) == Some(BinFormat::BigEndian) <==> be > 0 && be >= le
            && be >= bs && be >= ls,
        format_for_counts(be, le, bs, ls) == Some(BinFormat::LittleEndian) <==> le > be && le
            >= bs && le >= ls,
        format_for_counts(be, le, bs, ls) == Some(BinFormat::BigSwapped) <==> bs > be && bs > le
            && bs >= ls,
        format_for_counts(be, le, bs, ls) == Some(BinFormat::LittleSwapped) <==> ls > be && ls
            > le && ls > bs,
{
}

/// Guesses the byte layout of a raw image from how often the return
/// instruction `jr $ra` shows up under each of the four layouts: the layout
/// that shows it most often, the earlier one of two that show it equally
/// often, and none where it does not show at all.
pub fn determine_bin_fmt(bytes: &[u8]) -> (format: Option<BinFormat>)
    ensures
        format == format_for_counts(
            count_be_words(bytes@, BE_JR_RA, (bytes@.len() / 4) as nat),
            count_be_words(bytes@, LE_JR_RA, (bytes@.len() / 4) as nat),
            count_be_words(bytes@, BS_JR_RA, (bytes@.len() / 4) as nat),
            count_be_words(bytes@, LS_JR_RA, (bytes@.len() / 4) as nat),
        ),
{
    let n: usize = bytes.len() / 4;
    let mut be_count: usize = 0;
    let mut le_count: usize = 0;
    let mut bs_count: usize = 0;
    let mut ls_count: usize = 0;
    let mut i: usize = 0;
    while i < n
        invariant
            n == bytes@.len() / 4,
            4 * n <= bytes@.len() <= usize::MAX,
            i <= n,
            be_count <= i,
            le_count <= i,
            bs_count <= i,
            ls_count <= i,
            be_count == count_be_words(bytes@, BE_JR_RA, i as nat),
            le_count == count_be_words(bytes@, LE_JR_RA, i as nat),
            bs_count == count_be_words(bytes@, BS_JR_RA, i as nat),
            ls_count == count_be_words(bytes@, LS_JR_RA, i as nat),
        decreases n - i,
    {
        let b0 = bytes[4 * i];
        let b1 = bytes[4 * i + 1];
        let b2 = bytes[4 * i + 2];
        let b3 = bytes[4 * i + 3];
        let word: u32 = ((b0 as u32) << 24) | ((b1 as u32) << 16) | ((b2 as u32) << 8) | (
        b3 as u32);
        if word == BE_JR_RA {
            be_count += 1;
        } else if word == LE_JR_RA {
            le_count += 1;
        } else if word == BS_JR_RA {
            bs_count += 1;
        } else if word == LS_JR_RA {
            ls_count += 1;
        }
        i += 1;
    }
    let mut top: usize = be_count;
    if le_count > top {
        top = le_count;
    }
    if bs_count > top {
        top = bs_count;
    }
    if ls_count > top {
        top = ls_count;
    }
    if top == 0 {
        None
    } else if be_count == top {
        Some(BinFormat::BigEndian)
    } else if le_count == top {
        Some(BinFormat::LittleEndian)
    } else if bs_count == top {
        Some(BinFormat::BigSwapped)
    } else {
        Some(BinFormat::LittleSwapped)
    }
}

/// The kinds of operand that tell the encodings of instructions apart.
#[derive(Copy, Clone, Debug, PartialEq, Eq, Structural)]
pub enum OperandKind {
    Label,
    BranchTargetLabel,
    Immediate,
    ImmediateBase,
    Fs,
    Rd,
    Rt,
    Other,
}

/// What a decoder tells of an instruction: its primary opcode and the kinds
/// of its operands, in the order of the assembly text.
#[derive(Clone, Debug, PartialEq, Eq)]
pub struct DecodedInstruction {
    pub opcode: u32,
    pub operands: Vec<OperandKind>,
}

/// The encoding of an instruction with this opcode and these operands: a
/// lone label makes a jump; the opcodes 0 and 28 are register encodings; a
/// branch target, an immediate, an immediate with a base register or the
/// register `fs` in the last place makes an immediate encoding, and so does
/// opcode 31 with exactly the operands `rd` and `rt`; all else is a
/// register encoding.
pub open spec fn classification(opcode: u32, operands: Seq<OperandKind>) -> InstrType {
    if operands.len() == 1 && operands[0] == OperandKind::Label {
        InstrType::InstrTypeJ
    } else if opcode == 0 || opcode == 28 {
        InstrType::InstrTypeR
    } else if operands.len() > 0 && (operands.last() == OperandKind::BranchTargetLabel
        || operands.last() == OperandKind::Immediate || operands.last()
        == OperandKind::ImmediateBase || operands.last() == OperandKind::Fs) {
        InstrType::InstrTypeI
    } else if opcode == 31 && operands.len() == 2 && operands[0] == OperandKind::Rd && operands[1]
        == OperandKind::Rt {
        InstrType::InstrTypeI
    } else {
        InstrType::InstrTypeR
    }
}

/// Values that have an instruction encoding.
pub trait ToInstrType {
    /// The encoding of this value.
    spec fn encoding(&self) -> InstrType;

    fn instr_type(&self) -> (t: InstrType)
        ensures
            t == self.encoding(),
    ;
}

impl ToInstrType for DecodedInstruction {
    open spec fn encoding(&self) -> InstrType {
        classification(self.opcode, self.operands@)
    }

    fn instr_type(&self) -> (t: InstrType) {
        let n = self.operands.len();
        if n == 1 && self.operands[0] == OperandKind::Label {
            return InstrType::InstrTypeJ;
        }
        if self.opcode == 0 || self.opcode == 28 {
            return InstrType::InstrTypeR;
        }
        if n > 0 {
            let last = self.operands[n - 1];
            if last == OperandKind::BranchTargetLabel || last == OperandKind::Immediate || last
                == OperandKind::ImmediateBase || last == OperandKind::Fs {
                return InstrType::InstrTypeI;
            }
        }
        if self.opcode == 31 && n == 2 && self.operands[0] == OperandKind::Rd && self.operands[1]
            == OperandKind::Rt {
            return InstrType::InstrTypeI;
        }
        InstrType::InstrTypeR
    }
}

/// `rabbitizer::Instruction`, a decoded instruction, as an opaque value.
#[verifier::external_type_specification]
#[verifier::external_body]
pub struct ExInstruction(rabbitizer::Instruction);

/// The word that an instruction of `rabbitizer` was made of.
pub uninterp spec fn instruction_word(instruction: rabbitizer::Instruction) -> u32;

/// `rabbitizer::Instruction::new` in the decoder dialect of `family`, where
/// the R4000 is the plain `CPU` dialect: the instruction holds the word it
/// is made of. What it decodes to hangs on settings of the decoder and is
/// not claimed.
#[verifier::external_body]
fn new_instruction(word: u32, vram: u32, family: MIPSFamily) -> (instruction:
    rabbitizer::Instruction)
    ensures
        instruction_word(instruction) == word,
{
    let category = match family {
        MIPSFamily::R3000GTE => rabbitizer::InstrCategory::R3000GTE,
        MIPSFamily::R4000 => rabbitizer::InstrCategory::CPU,
        MIPSFamily::R4000Allegrex => rabbitizer::InstrCategory::R4000ALLEGREX,
        MIPSFamily::R5900 => rabbitizer::InstrCategory::R5900,
    };
    rabbitizer::Instruction::new(word, vram, category)
}

/// `rabbitizer::Instruction::get_opcode`: the word of the instruction moved
/// down by 26 bits, of which six bits are kept.
#[verifier::external_body]
fn instruction_opcode(instruction: &rabbitizer::Instruction) -> (opcode: u32)
    ensures
        opcode == (instruction_word(*instruction) >> 26) & 0x3F,
{
    instruction.get_opcode()
}

/// The kinds of the operands that an instruction of `rabbitizer` holds, in
/// their order.
pub uninterp spec fn instruction_operand_kinds(instruction: rabbitizer::Instruction) -> Seq<
    OperandKind,
>;

/// The length of `rabbitizer::Instruction::get_operands_slice`.
#[verifier::external_body]
fn operand_count(instruction: &rabbitizer::Instruction) -> (count: usize)
    ensures
        count == instruction_operand_kinds(*instruction).len(),
{
    instruction.get_operands_slice().len()
}

/// One entry of `rabbitizer::Instruction::get_operands_slice`, as the kind
/// that stands for it.
#[verifier::external_body]
fn operand_kind_at(instruction: &rabbitizer::Instruction, index: usize) -> (kind: OperandKind)
    requires
        index < instruction_operand_kinds(*instruction).len(),
    ensures
        kind == instruction_operand_kinds(*instruction)[index as int],
{
    match instruction.get_operands_slice()[index] {
        rabbitizer::OperandType::cpu_label => OperandKind::Label,
        rabbitizer::OperandType::cpu_branch_target_label => OperandKind::BranchTargetLabel,
        rabbitizer::OperandType::cpu_immediate => OperandKind::Immediate,
        rabbitizer::OperandType::cpu_immediate_base => OperandKind::ImmediateBase,
        rabbitizer::OperandType::cpu_fs => OperandKind::Fs,
        rabbitizer::OperandType::cpu_rd => OperandKind::Rd,
        rabbitizer::OperandType::cpu_rt => OperandKind::Rt,
        _ => OperandKind::Other,
    }
}

/// Decodes an instruction word in the dialect of `family`: its opcode and
/// the kinds of its operands.
pub fn decode_instruction(word: u32, family: MIPSFamily) -> (decoded: DecodedInstruction)
    ensures
        decoded.opcode == word >> 26,
        decoded.opcode < 64,
{
    let instruction = new_instruction(word, 0, family);
    assert((word >> 26) & 0x3F == word >> 26 && word >> 26 < 64) by (bit_vector);
    let count = operand_count(&instruction);
    let mut operands: Vec<OperandKind> = Vec::new();
    let mut i: usize = 0;
    while i < count
        invariant
            i <= count == instruction_operand_kinds(instruction).len(),
            operands@ == instruction_operand_kinds(instruction).subrange(0, i as int),
        decreases count - i,
    {
        operands.push(operand_kind_at(&instruction, i));
        assert(operands@ =~= instruction_operand_kinds(instruction).subrange(0, i + 1));
        i += 1;
    }
    DecodedInstruction { opcode: instruction_opcode(&instruction), operands }
}

/// The encoding of an instruction word as the decoder of `family` sees it.
pub fn instr_type_of(word: u32, family: MIPSFamily) -> (t: InstrType)
    ensures
        exists|operands: Seq<OperandKind>| t == #[trigger] classification(word >> 26, operands),
{
    let decoded = decode_instruction(word, family);
    decoded.instr_type()
}

} // verus!
