use mipsmatch::arch::mips::OperandKind::{
    BranchTargetLabel, Fs, Immediate, ImmediateBase, Label, Other, Rd, Rt,
};
use mipsmatch::arch::mips::{
    decode_instruction, instr_type_of, DecodedInstruction, InstrType, OperandKind, ToInstrType,
};
use mipsmatch::fingerprint::Fingerprint;
use mipsmatch::yaml::{hex, indent, scalar, symbol_order, trim, SerializeToYAML};
use mipsmatch::{
    FunctionOffset, FunctionSignature, MIPSFamily, RODataOffset, RODataSignature,
    RODataSignatureType, SegmentOffset, SegmentSignature,
};

fn sword() -> SegmentSignature {
    SegmentSignature {
        name: "sword".to_string(),
        fingerprint: Fingerprint::new_v0(128, 0x344d1662),
        size: 0x80,
        family: MIPSFamily::R3000GTE,
        rodata: None,
        functions: vec![
            FunctionSignature {
                name: "goodbye_world".to_string(),
                fingerprint: Fingerprint::new_v0(16, 0xd2c44fb0),
                size: 0x10,
            },
            FunctionSignature {
                name: "hello_world".to_string(),
                fingerprint: Fingerprint::new_v0(112, 0x8b4b9bb1),
                size: 0x70,
            },
        ],
    }
}

#[test]
fn signature_document() {
    let expected = "name: sword\n\
fingerprint: urn:decomp:match:fingerprint:0:128:344d1662\n\
size: 0x80\n\
family: R3000GTE\n\
functions:\n\
- name: goodbye_world\n\
\x20 fingerprint: urn:decomp:match:fingerprint:0:16:d2c44fb0\n\
\x20 size: 0x10\n\
- name: hello_world\n\
\x20 fingerprint: urn:decomp:match:fingerprint:0:112:8b4b9bb1\n\
\x20 size: 0x70\n";
    assert_eq!(sword().serialize_to_yaml(), Ok(expected.to_string()));
    assert_eq!(sword().serialize_to_yaml_at_level(0), Ok(expected.to_string()));
}

#[test]
fn signature_document_with_rodata_and_indent() {
    let mut signature = sword();
    signature.functions.truncate(1);
    signature.family = MIPSFamily::R4000Allegrex;
    signature.size = 0xABCDEF;
    signature.rodata = Some(RODataSignature {
        rodata_type: RODataSignatureType::EndsWithJumpTable,
        size: 0x34,
    });
    let expected = "    name: sword\n\
\x20   fingerprint: urn:decomp:match:fingerprint:0:128:344d1662\n\
\x20   size: 0xABCDEF\n\
\x20   family: R4000Allegrex\n\
\x20   rodata:\n\
\x20     rodataType: EndsWithJumpTable\n\
\x20     size: 0x34\n\
\x20   functions:\n\
\x20   - name: goodbye_world\n\
\x20     fingerprint: urn:decomp:match:fingerprint:0:16:d2c44fb0\n\
\x20     size: 0x10\n";
    assert_eq!(signature.serialize_to_yaml_at_level(2), Ok(expected.to_string()));
    signature.functions.clear();
    signature.rodata = None;
    signature.family = MIPSFamily::R5900;
    let expected = "name: sword\n\
fingerprint: urn:decomp:match:fingerprint:0:128:344d1662\n\
size: 0xABCDEF\n\
family: R5900\n\
functions:\n";
    assert_eq!(signature.serialize_to_yaml(), Ok(expected.to_string()));
}

#[test]
fn offset_document_shows_symbols_by_offset() {
    let found = SegmentOffset {
        name: "sword".to_string(),
        offset: 0x988,
        size: 0x80,
        rodata: Some(RODataOffset {
            offset: 0xA10,
            size: 0x34,
        }),
        symbols: vec![
            FunctionOffset {
                name: "hello_world".to_string(),
                offset: 0x998,
                size: 0x70,
            },
            FunctionOffset {
                name: "goodbye_world".to_string(),
                offset: 0x988,
                size: 0x10,
            },
            FunctionOffset {
                name: "alias".to_string(),
                offset: 0x998,
                size: 0,
            },
        ],
    };
    let expected = "name: sword\n\
offset: 0x988\n\
size: 0x80\n\
rodata:\n\
\x20 offset: 0xA10\n\
\x20 size: 0x34\n\
symbols:\n\
\x20 goodbye_world: 0x988\n\
\x20 hello_world: 0x998\n\
\x20 alias: 0x998\n";
    assert_eq!(found.serialize_to_yaml(), Ok(expected.to_string()));
    assert_eq!(symbol_order(&found.symbols), vec![1, 0, 2]);
    let bare = SegmentOffset {
        name: "empty".to_string(),
        offset: 0,
        size: 0,
        rodata: None,
        symbols: vec![],
    };
    assert_eq!(
        bare.serialize_to_yaml_at_level(1),
        Ok("  name: empty\n  offset: 0x0\n  size: 0x0\n  symbols:\n".to_string())
    );
}

#[test]
fn names_are_written_as_yaml_scalars() {
    for name in ["sword", "true", "a: b", "123", "# not a comment", "it's", " padded ", ""] {
        let quoted = serde_yaml::to_string(name).unwrap().trim().to_string();
        assert_eq!(scalar(name), Ok(quoted.clone()));
        let back: String = serde_yaml::from_str(&quoted).unwrap();
        assert_eq!(back, name);
        let mut signature = sword();
        signature.name = name.to_string();
        signature.functions.clear();
        let text = signature.serialize_to_yaml().unwrap();
        assert!(text.starts_with(&format!("name: {}\nfingerprint: ", quoted)));
    }
    // a name that YAML would read as something else is not written as it is
    assert_ne!(scalar("true"), Ok("true".to_string()));
    assert_ne!(scalar("a: b"), Ok("a: b".to_string()));
    assert_eq!(scalar("sword"), Ok("sword".to_string()));
}

#[test]
fn small_pieces() {
    assert_eq!(hex(0), "0x0");
    assert_eq!(hex(0x80), "0x80");
    assert_eq!(hex(0xdeadbeef), "0xDEADBEEF");
    assert_eq!(hex(usize::MAX), format!("0x{:X}", usize::MAX));
    assert_eq!(indent(0), "");
    assert_eq!(indent(3), "      ");
    assert_eq!(trim("  a b \n"), "a b");
    assert_eq!(trim("a"), "a");
    assert_eq!(trim(""), "");
    assert_eq!(trim(" \t\r\n"), "");
    assert_eq!(trim("\u{a0}\u{3000}x\u{2003}\u{85}"), "x");
    assert_eq!(trim("\u{200b}x"), "\u{200b}x");
    assert_eq!(trim("'  x '\n"), "'  x '");
}

fn decoded(opcode: u32, operands: &[OperandKind]) -> DecodedInstruction {
    DecodedInstruction {
        opcode,
        operands: operands.to_vec(),
    }
}

#[test]
fn encodings_of_decoded_instructions() {
    assert_eq!(decoded(3, &[Label]).instr_type(), InstrType::InstrTypeJ);
    assert_eq!(decoded(0, &[Label]).instr_type(), InstrType::InstrTypeJ);
    assert_eq!(decoded(2, &[Other, Label]).instr_type(), InstrType::InstrTypeR);
    assert_eq!(decoded(0, &[Rd, Other, Immediate]).instr_type(), InstrType::InstrTypeR);
    assert_eq!(decoded(28, &[Rd, Other, Immediate]).instr_type(), InstrType::InstrTypeR);
    assert_eq!(decoded(9, &[Rt, Other, Immediate]).instr_type(), InstrType::InstrTypeI);
    assert_eq!(decoded(4, &[Other, Rt, BranchTargetLabel]).instr_type(), InstrType::InstrTypeI);
    assert_eq!(decoded(35, &[Rt, ImmediateBase]).instr_type(), InstrType::InstrTypeI);
    assert_eq!(decoded(17, &[Rt, Fs]).instr_type(), InstrType::InstrTypeI);
    assert_eq!(decoded(17, &[Fs, Rt]).instr_type(), InstrType::InstrTypeR);
    assert_eq!(decoded(31, &[Rd, Rt]).instr_type(), InstrType::InstrTypeI);
    assert_eq!(decoded(31, &[Rt, Rd]).instr_type(), InstrType::InstrTypeR);
    assert_eq!(decoded(31, &[Rd, Rt, Other]).instr_type(), InstrType::InstrTypeR);
    assert_eq!(decoded(30, &[Rd, Rt]).instr_type(), InstrType::InstrTypeR);
    assert_eq!(decoded(5, &[]).instr_type(), InstrType::InstrTypeR);
    assert_eq!(decoded(5, &[Immediate, Other]).instr_type(), InstrType::InstrTypeR);
}

#[test]
fn decoder_tells_operands() {
    let jal = decode_instruction(0x0C001234, MIPSFamily::R3000GTE);
    assert_eq!(jal.opcode, 3);
    assert_eq!(jal.operands, vec![OperandKind::Label]);
    assert_eq!(instr_type_of(0x0C001234, MIPSFamily::R3000GTE), InstrType::InstrTypeJ);
    let addiu = decode_instruction(0x27BDFFE8, MIPSFamily::R4000);
    assert_eq!(addiu.opcode, 9);
    assert_eq!(addiu.operands.len(), 3);
    assert_eq!(addiu.operands[0], OperandKind::Rt);
    assert_eq!(addiu.operands[2], OperandKind::Immediate);
    assert_eq!(addiu.instr_type(), InstrType::InstrTypeI);
    let lw = decode_instruction(0x8FBF0010, MIPSFamily::R5900);
    assert_eq!(lw.operands, vec![OperandKind::Rt, OperandKind::ImmediateBase]);
    assert_eq!(instr_type_of(0x8FBF0010, MIPSFamily::R4000Allegrex), InstrType::InstrTypeI);
    let jr = decode_instruction(0x03E00008, MIPSFamily::R3000GTE);
    assert_eq!(jr.opcode, 0);
    assert_eq!(jr.instr_type(), InstrType::InstrTypeR);
}
