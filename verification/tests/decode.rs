use bytepatch::constants::Constant;
use bytepatch::instructions::{Instruction, Opcode};
use bytepatch::lua::{decode, Bytecode, Chunk};
use bytepatch::{ByteOrder, DecodeError, LengthSize};

fn le32(v: u32) -> Vec<u8> {
    v.to_le_bytes().to_vec()
}

fn header_bytes() -> Vec<u8> {
    // magic, then version, format version, endianness, int size, size_t
    // size, instruction size, number size, integral flag
    let mut b = le32(0x61754C1B);
    b.extend([0x51, 0, 1, 4, 4, 4, 8, 0]);
    b
}

// A chunk with an absent source name, no instructions, no constants, no
// nested prototypes and empty debug tables.
fn empty_chunk_body() -> Vec<u8> {
    let mut b = Vec::new();
    b.extend(le32(0)); // source name length
    b.extend(le32(10)); // line defined
    b.extend(le32(20)); // last line defined
    b.extend([1, 2, 3, 4]); // upvalues, params, vararg, max stack
    b.extend(le32(0)); // instruction count
    b.extend(le32(0)); // constant count
    b.extend(le32(0)); // prototype count
    b.extend(le32(0)); // source line count
    b.extend(le32(0)); // local count
    b.extend(le32(0)); // upvalue count
    b
}

fn image(chunk: Vec<u8>) -> Vec<u8> {
    let mut b = header_bytes();
    b.extend(chunk);
    b
}

#[test]
fn empty_chunk_decodes() {
    let buf = image(empty_chunk_body());
    let bytecode = decode(&buf, ByteOrder::Little, LengthSize::Four).unwrap();
    let chunk = bytecode.chunk;
    assert_eq!(chunk.source_name.into_string(), "");
    assert_eq!(chunk.line_defined, 10);
    assert_eq!(chunk.last_line_defined, 20);
    assert_eq!(chunk.num_upvalues, 1);
    assert_eq!(chunk.num_params, 2);
    assert_eq!(chunk.is_vararg, 3);
    assert_eq!(chunk.max_stack_size, 4);
    assert!(chunk.instructions.is_empty());
    assert!(chunk.constants.is_empty());
    assert!(chunk.prototypes.is_empty());
    assert!(chunk.source_lines.is_empty());
    assert!(chunk.locals.is_empty());
    assert!(chunk.upvalues.is_empty());
}

#[test]
fn header_fields_read_verbatim() {
    let buf = image(empty_chunk_body());
    let bytecode = decode(&buf, ByteOrder::Little, LengthSize::Four).unwrap();
    let header = bytecode.header;
    assert_eq!(header.magic, 0x61754C1B);
    assert_eq!(header.version, 0x51);
    assert_eq!(header.format_version, 0);
    assert_eq!(header.endianess_flag, 1);
    assert_eq!(header.int_size, 4);
    assert_eq!(header.size_t_size, 4);
    assert_eq!(header.instruction_size, 4);
    assert_eq!(header.lua_number_size, 8);
    assert_eq!(header.integral_flag, 0);
}

#[test]
fn nul_only_source_name_is_empty() {
    let mut chunk = empty_chunk_body();
    // replace the zero-length name with a one-byte name holding just the
    // terminator
    chunk.splice(0..4, le32(1));
    chunk.insert(4, 0);
    let buf = image(chunk);
    let bytecode = decode(&buf, ByteOrder::Little, LengthSize::Four).unwrap();
    assert_eq!(bytecode.chunk.source_name.into_string(), "");
}

#[test]
fn named_source_drops_terminator() {
    let mut chunk = empty_chunk_body();
    chunk.splice(0..4, le32(5));
    chunk.splice(4..4, [b'm', b'a', b'i', b'n', 0]);
    let buf = image(chunk);
    let bytecode = decode(&buf, ByteOrder::Little, LengthSize::Four).unwrap();
    assert_eq!(bytecode.chunk.source_name.into_string(), "main");
}

#[test]
fn abx_word_decodes_fields() {
    // LoadK is opcode 1, format ABx
    let word: u32 = 1 + 5 * 64 + 1000 * 16384;
    let inst = Opcode::decode(word).unwrap();
    assert_eq!(inst, Instruction::ABx { opcode: Opcode::LoadK, a: 5, bx: 1000 });
}

#[test]
fn abc_word_decodes_fields() {
    // Add is opcode 12, format ABC
    let word: u32 = 12 + 7 * 64 + 300 * 16384 + 400 * 8388608;
    let inst = Opcode::decode(word).unwrap();
    assert_eq!(inst, Instruction::ABC { opcode: Opcode::Add, a: 7, b: 400, c: 300 });
}

#[test]
fn asbx_bias_decodes_to_zero() {
    // Jmp is opcode 22, format AsBx; a wide field equal to the bias is a
    // zero offset
    let word: u32 = 22 + 131071 * 16384;
    let inst = Opcode::decode(word).unwrap();
    assert_eq!(inst, Instruction::AsBx { opcode: Opcode::Jmp, a: 0, sbx: 0 });
}

#[test]
fn asbx_word_decodes_negative_offset() {
    let word: u32 = 22 + 3 * 64 + 131060 * 16384;
    let inst = Opcode::decode(word).unwrap();
    assert_eq!(inst, Instruction::AsBx { opcode: Opcode::Jmp, a: 3, sbx: -11 });
}

#[test]
fn unknown_opcode_fails_whole_array() {
    let mut chunk = empty_chunk_body();
    // instruction count 1, one word whose opcode field is 63
    chunk.splice(16..20, le32(1));
    chunk.splice(20..20, le32(63));
    let buf = image(chunk);
    let err = decode(&buf, ByteOrder::Little, LengthSize::Four).unwrap_err();
    assert_eq!(err, DecodeError::UnknownOpcode(63));
}

#[test]
fn instruction_array_decodes_in_order() {
    let mut chunk = empty_chunk_body();
    let move_word: u32 = 0 + 1 * 64 + 0 * 8388608;
    let return_word: u32 = 30 + 0 * 64 + 1 * 8388608;
    chunk.splice(16..20, le32(2));
    chunk.splice(20..20, [le32(move_word), le32(return_word)].concat());
    let buf = image(chunk);
    let bytecode = decode(&buf, ByteOrder::Little, LengthSize::Four).unwrap();
    let insts = bytecode.chunk.instructions;
    assert_eq!(insts.len(), 2);
    assert_eq!(insts[0], Instruction::ABC { opcode: Opcode::Move, a: 1, b: 0, c: 0 });
    assert_eq!(insts[1], Instruction::ABC { opcode: Opcode::Return, a: 0, b: 1, c: 0 });
}

#[test]
fn invalid_constant_tag_fails() {
    let mut chunk = empty_chunk_body();
    // constant count 1, then a tag outside {0, 1, 3, 4}
    chunk.splice(20..24, le32(1));
    chunk.insert(24, 2);
    let buf = image(chunk);
    let err = decode(&buf, ByteOrder::Little, LengthSize::Four).unwrap_err();
    assert_eq!(err, DecodeError::InvalidConstantTag(2));
}

#[test]
fn constant_pool_keeps_order_and_values() {
    let mut chunk = empty_chunk_body();
    let mut pool = Vec::new();
    pool.push(0u8); // nil
    pool.extend([1, 2]); // boolean, nonzero byte is true
    pool.extend([1, 0]); // boolean false
    pool.push(3); // number
    pool.extend(1.5f64.to_le_bytes());
    pool.push(4); // string "hi"
    pool.extend(le32(3));
    pool.extend([b'h', b'i', 0]);
    chunk.splice(20..24, le32(5));
    chunk.splice(24..24, pool);
    let buf = image(chunk);
    let bytecode = decode(&buf, ByteOrder::Little, LengthSize::Four).unwrap();
    let constants = bytecode.chunk.constants;
    assert_eq!(constants.len(), 5);
    assert!(matches!(constants[0], Constant::LUA_TNIL));
    assert!(matches!(constants[1], Constant::LUA_TBOOLEAN(true)));
    assert!(matches!(constants[2], Constant::LUA_TBOOLEAN(false)));
    match &constants[3] {
        Constant::LUA_TNUMBER(bits) => assert_eq!(f64::from_bits(*bits), 1.5),
        other => panic!("expected a number constant, got {:?}", other),
    }
    match &constants[4] {
        Constant::LUA_TSTRING(text) => assert_eq!(text, "hi"),
        other => panic!("expected a string constant, got {:?}", other),
    }
}

#[test]
fn invalid_text_fails() {
    let mut chunk = empty_chunk_body();
    chunk.splice(0..4, le32(3));
    chunk.splice(4..4, [0xFF, 0xFE, 0]);
    let buf = image(chunk);
    let err = decode(&buf, ByteOrder::Little, LengthSize::Four).unwrap_err();
    assert_eq!(err, DecodeError::InvalidText);
}

#[test]
fn nested_prototype_decodes() {
    let mut chunk = empty_chunk_body();
    chunk.splice(24..28, le32(1));
    chunk.splice(28..28, empty_chunk_body());
    let buf = image(chunk);
    let bytecode = decode(&buf, ByteOrder::Little, LengthSize::Four).unwrap();
    let outer = bytecode.chunk;
    assert_eq!(outer.prototypes.len(), 1);
    let inner = &outer.prototypes[0];
    assert_eq!(inner.line_defined, 10);
    assert_eq!(inner.last_line_defined, 20);
    assert!(inner.prototypes.is_empty());
}

#[test]
fn debug_tables_decode() {
    let mut chunk = empty_chunk_body();
    let mut tables = Vec::new();
    tables.extend(le32(2)); // two source lines
    tables.extend(le32(7));
    tables.extend(le32(8));
    tables.extend(le32(1)); // one local
    tables.extend(le32(2));
    tables.extend([b'x', 0]);
    tables.extend(le32(1));
    tables.extend(le32(3));
    tables.extend(le32(1)); // one upvalue
    tables.extend(le32(2));
    tables.extend([b'u', 0]);
    chunk.splice(28..40, tables);
    let buf = image(chunk);
    let bytecode = decode(&buf, ByteOrder::Little, LengthSize::Four).unwrap();
    let decoded = bytecode.chunk;
    assert_eq!(decoded.source_lines, vec![7, 8]);
    assert_eq!(decoded.locals.len(), 1);
    assert_eq!(decoded.locals[0].name, "x");
    assert_eq!(decoded.locals[0].start_variable_scope, 1);
    assert_eq!(decoded.locals[0].end_variable_scope, 3);
    assert_eq!(decoded.upvalues.len(), 1);
    assert_eq!(decoded.upvalues[0].name, "u");
}

#[test]
fn truncated_header_fails() {
    let buf = vec![0x1B, 0x4C, 0x75, 0x61, 0x51];
    let err = decode(&buf, ByteOrder::Little, LengthSize::Four).unwrap_err();
    assert_eq!(err, DecodeError::UnexpectedEndOfInput);
}

#[test]
fn truncated_instruction_array_fails() {
    let mut chunk = empty_chunk_body();
    // declare two instruction words but provide only the count
    chunk.splice(16..20, le32(2));
    let mut buf = header_bytes();
    buf.extend(&chunk[..20]);
    let err = decode(&buf, ByteOrder::Little, LengthSize::Four).unwrap_err();
    assert_eq!(err, DecodeError::UnexpectedEndOfInput);
}

#[test]
fn truncated_string_fails() {
    let mut buf = header_bytes();
    buf.extend(le32(5));
    buf.extend([b'a', b'b']);
    let err = decode(&buf, ByteOrder::Little, LengthSize::Four).unwrap_err();
    assert_eq!(err, DecodeError::UnexpectedEndOfInput);
}

#[test]
fn error_leaves_offset_unchanged() {
    let buf = header_bytes();
    let mut offset: usize = 0;
    let r = Bytecode::read(&buf, &mut offset, ByteOrder::Little, LengthSize::Four);
    assert_eq!(r.unwrap_err(), DecodeError::UnexpectedEndOfInput);
    assert_eq!(offset, 0);
}

#[test]
fn constant_error_leaves_offset_unchanged() {
    let buf = vec![7u8, 0, 0, 0]; // tag 7 has no payload layout
    let mut offset: usize = 0;
    let r = Constant::decode(&buf, &mut offset, ByteOrder::Little, LengthSize::Four);
    assert_eq!(r.unwrap_err(), DecodeError::InvalidConstantTag(7));
    assert_eq!(offset, 0);
}

#[test]
fn decode_consumes_exactly_the_image() {
    let mut buf = image(empty_chunk_body());
    let image_len = buf.len();
    buf.extend([9, 9, 9]); // trailing bytes that are no part of the image
    let mut offset: usize = 0;
    let r = Bytecode::read(&buf, &mut offset, ByteOrder::Little, LengthSize::Four);
    assert!(r.is_ok());
    assert_eq!(offset, image_len);
}

#[test]
fn big_endian_body_decodes() {
    let mut chunk = Vec::new();
    chunk.extend(4u32.to_be_bytes()); // name length
    chunk.extend([b'f', b'0', b'0', 0]);
    chunk.extend(11u32.to_be_bytes());
    chunk.extend(22u32.to_be_bytes());
    chunk.extend([0, 0, 0, 2]);
    chunk.extend(1u32.to_be_bytes()); // one instruction
    chunk.extend((22u32 + 131071 * 16384).to_be_bytes());
    chunk.extend(0u32.to_be_bytes()); // constants
    chunk.extend(0u32.to_be_bytes()); // prototypes
    chunk.extend(0u32.to_be_bytes()); // lines
    chunk.extend(0u32.to_be_bytes()); // locals
    chunk.extend(0u32.to_be_bytes()); // upvalues
    let buf = image(chunk);
    let bytecode = decode(&buf, ByteOrder::Big, LengthSize::Four).unwrap();
    let decoded = bytecode.chunk;
    assert_eq!(decoded.source_name.into_string(), "f00");
    assert_eq!(decoded.line_defined, 11);
    assert_eq!(decoded.last_line_defined, 22);
    assert_eq!(decoded.instructions[0], Instruction::AsBx { opcode: Opcode::Jmp, a: 0, sbx: 0 });
}

#[test]
fn eight_byte_length_prefix_decodes() {
    let mut chunk = Vec::new();
    chunk.extend(3u64.to_le_bytes()); // name length, eight-byte profile
    chunk.extend([b'o', b'k', 0]);
    chunk.extend(le32(1));
    chunk.extend(le32(2));
    chunk.extend([0, 0, 0, 1]);
    chunk.extend(le32(0)); // instructions
    chunk.extend(le32(0)); // constants
    chunk.extend(le32(0)); // prototypes
    chunk.extend(le32(0)); // lines
    chunk.extend(le32(0)); // locals
    chunk.extend(le32(0)); // upvalues
    let buf = image(chunk);
    let bytecode = decode(&buf, ByteOrder::Little, LengthSize::Eight).unwrap();
    assert_eq!(bytecode.chunk.source_name.into_string(), "ok");
}

#[test]
fn chunk_read_matches_decode() {
    let body = empty_chunk_body();
    let mut offset: usize = 0;
    let chunk = Chunk::read(&body, &mut offset, ByteOrder::Little, LengthSize::Four).unwrap();
    assert_eq!(offset, body.len());
    assert_eq!(chunk.line_defined, 10);
}
