//! The image-level decoders: length-prefixed strings, the fixed header,
//! function prototypes (chunks) and the whole bytecode image.

use vstd::prelude::*;
use vstd::utf8::{decode_utf8, valid_utf8};

use crate::constants::{constants_view, lemma_constant_list_truncation, lemma_parse_constant_list_bounds, spec_parse_constant_list, Constant, ConstantValue, Constants};
use crate::cursor::{
    read_u32, read_u64, read_u8, read_bytes, u32_at, u64_at, ByteOrder, DecodeError, LengthSize,
};
use crate::instructions::{lemma_instruction_list_truncation, lemma_parse_instruction_list_bounds, spec_parse_instruction_list, Instruction, Instructions};
use crate::locals::{lemma_local_list_truncation, lemma_parse_local_list_bounds, locals_view, spec_parse_local_list, Local, LocalValue, Locals};
use crate::source_lines::{lemma_line_list_truncation, lemma_parse_line_list_bounds, spec_parse_line_list, SourceLines};
use crate::upvalues::{lemma_parse_upvalue_list_bounds, lemma_upvalue_list_truncation, spec_parse_upvalue_list, upvalues_view, Upvalue, UpvalueValue, Upvalues};

verus! {

/// The width in bytes of a string's length prefix under the given profile.
pub open spec fn spec_length_width(len_size: LengthSize) -> int {
    match len_size {
        LengthSize::Four => 4,
        LengthSize::Eight => 8,
    }
}

/// The value of a string's length prefix at `off`.
pub open spec fn spec_length_at(s: Seq<u8>, off: int, order: ByteOrder, len_size: LengthSize) -> int {
    match len_size {
        LengthSize::Four => u32_at(s, off, order) as int,
        LengthSize::Eight => u64_at(s, off, order) as int,
    }
}

/// The string at `off`: a length prefix, then that many bytes, of which the
/// last is a terminator that is dropped before the rest is read as UTF-8
/// text. A length of zero denotes the absent string and yields empty text
/// without any terminator to drop.
pub open spec fn spec_parse_string(
    s: Seq<u8>,
    off: int,
    order: ByteOrder,
    len_size: LengthSize,
) -> Result<(Seq<char>, int), DecodeError> {
    let w = spec_length_width(len_size);
    if off + w > s.len() {
        Err(DecodeError::UnexpectedEndOfInput)
    } else {
        let n = spec_length_at(s, off, order, len_size);
        if off + w + n > s.len() {
            Err(DecodeError::UnexpectedEndOfInput)
        } else {
            let content = if n == 0 {
                Seq::<u8>::empty()
            } else {
                s.subrange(off + w, off + w + n - 1)
            };
            if valid_utf8(content) {
                Ok((decode_utf8(content), off + w + n))
            } else {
                Err(DecodeError::InvalidText)
            }
        }
    }
}

/// Relies on `String::from_utf8`: it returns the string whose characters
/// are the UTF-8 decoding of the given bytes exactly when the bytes are
/// valid UTF-8, and an error value otherwise.
#[verifier::external_body]
fn utf8_to_string(bytes: Vec<u8>) -> (r: Option<String>)
    ensures
        r is Some <==> valid_utf8(bytes@),
        r is Some ==> r->Some_0@ == decode_utf8(bytes@),
{
    match String::from_utf8(bytes) {
        Ok(text) => Some(text),
        Err(_) => None,
    }
}

/// A decoded text value of the image: the bytes of a length-prefixed
/// string with the terminator dropped, held as checked UTF-8 text.
#[derive(Debug)]
pub struct LuaString(String);

impl View for LuaString {
    type V = Seq<char>;

    closed spec fn view(&self) -> Seq<char> {
        self.0@
    }
}

impl LuaString {
    /// Gives the text value up as a plain string.
    pub fn into_string(self) -> (r: String)
        ensures
            r@ == self@,
    {
        self.0
    }

    /// Reads one length-prefixed string: the prefix, then that many bytes,
    /// dropping the trailing terminator unless the length was zero. Fails
    /// with `UnexpectedEndOfInput` when the buffer holds fewer bytes than
    /// the prefix declares, and with `InvalidText` when the remaining bytes
    /// are not valid UTF-8; the offset is then unchanged.
    pub fn read(
        src: &[u8],
        offset: &mut usize,
        order: ByteOrder,
        len_size: LengthSize,
    ) -> (r: Result<LuaString, DecodeError>)
        ensures
            match spec_parse_string(src@, *old(offset) as int, order, len_size) {
                Ok(v) => r is Ok && r->Ok_0@ == v.0 && *final(offset) == v.1 && *old(offset)
                    <= *final(offset) <= src@.len(),
                Err(e) => r == Err::<LuaString, DecodeError>(e) && *final(offset) == *old(offset),
            },
    {
        let mut pos: usize = *offset;
        let count: usize = match len_size {
            LengthSize::Four => {
                let n = match read_u32(src, &mut pos, order) {
                    Ok(n) => n,
                    Err(e) => {
                        return Err(e);
                    },
                };
                if (n as u64) > (src.len() - pos) as u64 {
                    return Err(DecodeError::UnexpectedEndOfInput);
                }
                n as usize
            },
            LengthSize::Eight => {
                let n = match read_u64(src, &mut pos, order) {
                    Ok(n) => n,
                    Err(e) => {
                        return Err(e);
                    },
                };
                if n > (src.len() - pos) as u64 {
                    return Err(DecodeError::UnexpectedEndOfInput);
                }
                n as usize
            },
        };
        let mut data = match read_bytes(src, &mut pos, count) {
            Ok(d) => d,
            Err(e) => {
                return Err(e);
            },
        };
        if count > 0 {
            let _terminator = data.pop();
        }
        proof {
            let w = spec_length_width(len_size);
            let off = *old(offset) as int;
            if count > 0 {
                assert(data@ =~= src@.subrange(off + w, off + w + count - 1));
            } else {
                assert(data@ =~= Seq::<u8>::empty());
            }
        }
        match utf8_to_string(data) {
            Some(text) => {
                *offset = pos;
                Ok(LuaString(text))
            },
            None => Err(DecodeError::InvalidText),
        }
    }
}

/// The fixed twelve-byte header of an image: the four-byte magic signature
/// followed by eight single-byte fields describing version and size
/// profile. All fields are read verbatim; nothing is validated against
/// expected constants.
#[derive(Clone, Copy, Debug, PartialEq, Eq, Structural)]
pub struct Header {
    pub magic: u32,
    pub version: u8,
    pub format_version: u8,
    pub endianess_flag: u8,
    pub int_size: u8,
    pub size_t_size: u8,
    pub instruction_size: u8,
    pub lua_number_size: u8,
    pub integral_flag: u8,
}

/// The header at `off`: the magic word in the given byte order, then the
/// eight single-byte fields in fixed order.
pub open spec fn spec_parse_header(s: Seq<u8>, off: int, order: ByteOrder) -> Result<
    (Header, int),
    DecodeError,
> {
    if off + 12 > s.len() {
        Err(DecodeError::UnexpectedEndOfInput)
    } else {
        Ok(
            (
                Header {
                    magic: u32_at(s, off, order),
                    version: s[off + 4],
                    format_version: s[off + 5],
                    endianess_flag: s[off + 6],
                    int_size: s[off + 7],
                    size_t_size: s[off + 8],
                    instruction_size: s[off + 9],
                    lua_number_size: s[off + 10],
                    integral_flag: s[off + 11],
                },
                off + 12,
            ),
        )
    }
}

impl Header {
    /// Reads the twelve header bytes in fixed order.
    pub fn read(src: &[u8], offset: &mut usize, order: ByteOrder) -> (r: Result<
        Header,
        DecodeError,
    >)
        ensures
            match spec_parse_header(src@, *old(offset) as int, order) {
                Ok(v) => r == Ok::<Header, DecodeError>(v.0) && *final(offset) == v.1 && *old(
                    offset,
                ) <= *final(offset) <= src@.len(),
                Err(e) => r == Err::<Header, DecodeError>(e) && *final(offset) == *old(offset),
            },
    {
        let mut pos: usize = *offset;
        if src.len() < 12 || pos > src.len() - 12 {
            return Err(DecodeError::UnexpectedEndOfInput);
        }
        let magic = match read_u32(src, &mut pos, order) {
            Ok(v) => v,
            Err(e) => {
                return Err(e);
            },
        };
        let version = match read_u8(src, &mut pos) {
            Ok(v) => v,
            Err(e) => {
                return Err(e);
            },
        };
        let format_version = match read_u8(src, &mut pos) {
            Ok(v) => v,
            Err(e) => {
                return Err(e);
            },
        };
        let endianess_flag = match read_u8(src, &mut pos) {
            Ok(v) => v,
            Err(e) => {
                return Err(e);
            },
        };
        let int_size = match read_u8(src, &mut pos) {
            Ok(v) => v,
            Err(e) => {
                return Err(e);
            },
        };
        let size_t_size = match read_u8(src, &mut pos) {
            Ok(v) => v,
            Err(e) => {
                return Err(e);
            },
        };
        let instruction_size = match read_u8(src, &mut pos) {
            Ok(v) => v,
            Err(e) => {
                return Err(e);
            },
        };
        let lua_number_size = match read_u8(src, &mut pos) {
            Ok(v) => v,
            Err(e) => {
                return Err(e);
            },
        };
        let integral_flag = match read_u8(src, &mut pos) {
            Ok(v) => v,
            Err(e) => {
                return Err(e);
            },
        };
        *offset = pos;
        Ok(
            Header {
                magic,
                version,
                format_version,
                endianess_flag,
                int_size,
                size_t_size,
                instruction_size,
                lua_number_size,
                integral_flag,
            },
        )
    }
}

/// One function prototype: its header fields, instruction array, constant
/// pool, nested prototypes and the three debug tables. Nested prototypes
/// are owned exclusively: the chunks of an image form a tree.
#[derive(Debug)]
pub struct Chunk {
    pub source_name: LuaString,
    pub line_defined: u32,
    pub last_line_defined: u32,
    pub num_upvalues: u8,
    pub num_params: u8,
    pub is_vararg: u8,
    pub max_stack_size: u8,
    pub instructions: Vec<Instruction>,
    pub constants: Vec<Constant>,
    pub prototypes: Vec<Chunk>,
    pub source_lines: Vec<u32>,
    pub locals: Vec<Local>,
    pub upvalues: Vec<Upvalue>,
}

/// The mathematical value of one chunk.
#[verifier::ext_equal]
pub struct ChunkValue {
    pub source_name: Seq<char>,
    pub line_defined: u32,
    pub last_line_defined: u32,
    pub num_upvalues: u8,
    pub num_params: u8,
    pub is_vararg: u8,
    pub max_stack_size: u8,
    pub instructions: Seq<Instruction>,
    pub constants: Seq<ConstantValue>,
    pub prototypes: Seq<ChunkValue>,
    pub source_lines: Seq<u32>,
    pub locals: Seq<LocalValue>,
    pub upvalues: Seq<UpvalueValue>,
}

/// The value of one chunk, nested prototypes included.
pub open spec fn chunk_view(c: Chunk) -> ChunkValue
    decreases c,
{
    ChunkValue {
        source_name: c.source_name@,
        line_defined: c.line_defined,
        last_line_defined: c.last_line_defined,
        num_upvalues: c.num_upvalues,
        num_params: c.num_params,
        is_vararg: c.is_vararg,
        max_stack_size: c.max_stack_size,
        instructions: c.instructions@,
        constants: constants_view(c.constants@),
        prototypes: chunks_view(c.prototypes@),
        source_lines: c.source_lines@,
        locals: locals_view(c.locals@),
        upvalues: upvalues_view(c.upvalues@),
    }
}

/// The values of a sequence of chunks.
pub open spec fn chunks_view(cs: Seq<Chunk>) -> Seq<ChunkValue>
    decreases cs,
{
    if cs.len() == 0 {
        Seq::empty()
    } else {
        chunks_view(cs.drop_last()).push(chunk_view(cs.last()))
    }
}

/// The chunk at `off`, read strictly in order: source name, the two
/// four-byte line fields, four single-byte fields, the instruction array,
/// the constant pool, a four-byte nested-prototype count followed by that
/// many recursively parsed chunks, then the source-line, locals and
/// upvalues tables. Any nested failure fails the whole chunk.
///
/// The bound tests before each recursive step can never fail on an offset
/// a successful sub-parse returned; they make the recursion well-founded on
/// the number of bytes left.
pub open spec fn spec_parse_chunk(
    s: Seq<u8>,
    off: int,
    order: ByteOrder,
    len_size: LengthSize,
) -> Result<(ChunkValue, int), DecodeError>
    decreases s.len() - off, 0int,
{
    match spec_parse_string(s, off, order, len_size) {
        Err(e) => Err(e),
        Ok(name) => {
            let off1 = name.1;
            if off1 + 12 > s.len() {
                Err(DecodeError::UnexpectedEndOfInput)
            } else {
                let line_defined = u32_at(s, off1, order);
                let last_line_defined = u32_at(s, off1 + 4, order);
                let num_upvalues = s[off1 + 8];
                let num_params = s[off1 + 9];
                let is_vararg = s[off1 + 10];
                let max_stack_size = s[off1 + 11];
                match spec_parse_instruction_list(s, off1 + 12, order) {
                    Err(e) => Err(e),
                    Ok(insts) => match spec_parse_constant_list(s, insts.1, order, len_size) {
                        Err(e) => Err(e),
                        Ok(consts) => {
                            let off2 = consts.1;
                            if off2 + 4 > s.len() {
                                Err(DecodeError::UnexpectedEndOfInput)
                            } else {
                                let n = u32_at(s, off2, order) as nat;
                                let off3 = off2 + 4;
                                if !(off < off3 && off3 <= s.len()) {
                                    Err(DecodeError::UnexpectedEndOfInput)
                                } else {
                                    match spec_parse_proto_seq(s, off3, order, len_size, n) {
                                        Err(e) => Err(e),
                                        Ok(protos) => match spec_parse_line_list(s, protos.1, order) {
                                            Err(e) => Err(e),
                                            Ok(lines) => match spec_parse_local_list(
                                                s,
                                                lines.1,
                                                order,
                                                len_size,
                                            ) {
                                                Err(e) => Err(e),
                                                Ok(locs) => match spec_parse_upvalue_list(
                                                    s,
                                                    locs.1,
                                                    order,
                                                    len_size,
                                                ) {
                                                    Err(e) => Err(e),
                                                    Ok(ups) => Ok(
                                                        (
                                                            ChunkValue {
                                                                source_name: name.0,
                                                                line_defined,
                                                                last_line_defined,
                                                                num_upvalues,
                                                                num_params,
                                                                is_vararg,
                                                                max_stack_size,
                                                                instructions: insts.0,
                                                                constants: consts.0,
                                                                prototypes: protos.0,
                                                                source_lines: lines.0,
                                                                locals: locs.0,
                                                                upvalues: ups.0,
                                                            },
                                                            ups.1,
                                                        ),
                                                    ),
                                                },
                                            },
                                        },
                                    }
                                }
                            }
                        },
                    },
                }
            }
        },
    }
}

/// `n` further chunks starting at `off`; the first failure fails the whole
/// sequence. The bound test after each chunk can never fail on an offset a
/// successful parse returned; it makes the recursion well-founded.
pub open spec fn spec_parse_proto_seq(
    s: Seq<u8>,
    off: int,
    order: ByteOrder,
    len_size: LengthSize,
    n: nat,
) -> Result<(Seq<ChunkValue>, int), DecodeError>
    decreases s.len() - off, n + 1,
{
    if n == 0 {
        Ok((Seq::empty(), off))
    } else {
        match spec_parse_chunk(s, off, order, len_size) {
            Err(e) => Err(e),
            Ok(v) => if !(off < v.1 && v.1 <= s.len()) {
                Err(DecodeError::UnexpectedEndOfInput)
            } else {
                match spec_parse_proto_seq(s, v.1, order, len_size, (n - 1) as nat) {
                    Err(e) => Err(e),
                    Ok(rest) => Ok((seq![v.0] + rest.0, rest.1)),
                }
            },
        }
    }
}

impl Chunk {
    /// Reads one chunk starting at `pos`, returning it with the offset just
    /// past its last byte.
    #[verifier::rlimit(100)]
    #[verifier::loop_isolation(false)]
    fn read_at(src: &[u8], pos: usize, order: ByteOrder, len_size: LengthSize) -> (r: Result<
        (Chunk, usize),
        DecodeError,
    >)
        ensures
            match spec_parse_chunk(src@, pos as int, order, len_size) {
                Ok(v) => r is Ok && chunk_view(r->Ok_0.0) == v.0 && r->Ok_0.1 == v.1 && pos
                    < r->Ok_0.1 <= src@.len(),
                Err(e) => r == Err::<(Chunk, usize), DecodeError>(e),
            },
        decreases src@.len() - pos, 0int,
    {
        let mut cur: usize = pos;
        let source_name = match LuaString::read(src, &mut cur, order, len_size) {
            Ok(v) => v,
            Err(e) => {
                return Err(e);
            },
        };
        let line_defined = match read_u32(src, &mut cur, order) {
            Ok(v) => v,
            Err(e) => {
                return Err(e);
            },
        };
        let last_line_defined = match read_u32(src, &mut cur, order) {
            Ok(v) => v,
            Err(e) => {
                return Err(e);
            },
        };
        let num_upvalues = match read_u8(src, &mut cur) {
            Ok(v) => v,
            Err(e) => {
                return Err(e);
            },
        };
        let num_params = match read_u8(src, &mut cur) {
            Ok(v) => v,
            Err(e) => {
                return Err(e);
            },
        };
        let is_vararg = match read_u8(src, &mut cur) {
            Ok(v) => v,
            Err(e) => {
                return Err(e);
            },
        };
        let max_stack_size = match read_u8(src, &mut cur) {
            Ok(v) => v,
            Err(e) => {
                return Err(e);
            },
        };
        let instructions = match Instructions::read(src, &mut cur, order) {
            Ok(v) => v,
            Err(e) => {
                return Err(e);
            },
        };
        let constants = match Constants::read(src, &mut cur, order, len_size) {
            Ok(v) => v,
            Err(e) => {
                return Err(e);
            },
        };
        let proto_count = match read_u32(src, &mut cur, order) {
            Ok(v) => v,
            Err(e) => {
                return Err(e);
            },
        };
        let (prototypes, after_protos) = match Chunk::read_protos(
            src,
            cur,
            proto_count,
            order,
            len_size,
        ) {
            Ok(v) => v,
            Err(e) => {
                return Err(e);
            },
        };
        cur = after_protos;
        let source_lines = match SourceLines::read(src, &mut cur, order) {
            Ok(v) => v,
            Err(e) => {
                return Err(e);
            },
        };
        let locals = match Locals::read(src, &mut cur, order, len_size) {
            Ok(v) => v,
            Err(e) => {
                return Err(e);
            },
        };
        let upvalues = match Upvalues::read(src, &mut cur, order, len_size) {
            Ok(v) => v,
            Err(e) => {
                return Err(e);
            },
        };
        Ok(
            (
                Chunk {
                    source_name,
                    line_defined,
                    last_line_defined,
                    num_upvalues,
                    num_params,
                    is_vararg,
                    max_stack_size,
                    instructions: instructions.0,
                    constants: constants.0,
                    prototypes,
                    source_lines: source_lines.0,
                    locals: locals.0,
                    upvalues: upvalues.0,
                },
                cur,
            ),
        )
    }

    /// Reads `count` nested prototypes one after another, returning them
    /// with the offset just past the last one.
    #[verifier::rlimit(100)]
    #[verifier::loop_isolation(false)]
    fn read_protos(
        src: &[u8],
        pos: usize,
        count: u32,
        order: ByteOrder,
        len_size: LengthSize,
    ) -> (r: Result<(Vec<Chunk>, usize), DecodeError>)
        requires
            pos <= src@.len(),
        ensures
            match spec_parse_proto_seq(src@, pos as int, order, len_size, count as nat) {
                Ok(v) => r is Ok && chunks_view(r->Ok_0.0@) == v.0 && r->Ok_0.1 == v.1 && pos
                    <= r->Ok_0.1 <= src@.len(),
                Err(e) => r == Err::<(Vec<Chunk>, usize), DecodeError>(e),
            },
        decreases src@.len() - pos, count as int + 1,
    {
        let ghost s = src@;
        let mut cur: usize = pos;
        let mut prototypes: Vec<Chunk> = Vec::new();
        let mut i: u32 = 0;
        while i < count
            invariant
                i <= count,
                prototypes@.len() == i,
                pos <= cur <= s.len(),
                match spec_parse_proto_seq(s, cur as int, order, len_size, (count - i) as nat) {
                    Ok(v) => spec_parse_proto_seq(s, pos as int, order, len_size, count as nat)
                        == Ok::<(Seq<ChunkValue>, int), DecodeError>((
                        chunks_view(prototypes@) + v.0,
                        v.1,
                    )),
                    Err(e) => spec_parse_proto_seq(s, pos as int, order, len_size, count as nat)
                        == Err::<(Seq<ChunkValue>, int), DecodeError>(e),
                },
            decreases count - i,
        {
            let (proto, next) = match Chunk::read_at(src, cur, order, len_size) {
                Ok(v) => v,
                Err(e) => {
                    return Err(e);
                },
            };
            let ghost acc_old = prototypes@;
            prototypes.push(proto);
            cur = next;
            proof {
                assert(acc_old.push(proto).drop_last() =~= acc_old);
                assert(chunks_view(prototypes@) =~= chunks_view(acc_old).push(chunk_view(proto)));
                assert(chunks_view(acc_old).push(chunk_view(proto)) =~= chunks_view(acc_old)
                    + seq![chunk_view(proto)]);
                if let Ok(v) = spec_parse_proto_seq(
                    s,
                    cur as int,
                    order,
                    len_size,
                    (count - i - 1) as nat,
                ) {
                    assert(chunks_view(acc_old) + (seq![chunk_view(proto)] + v.0) =~= chunks_view(
                        prototypes@,
                    ) + v.0);
                }
            }
            i = i + 1;
        }
        proof {
            assert(chunks_view(prototypes@) + Seq::<ChunkValue>::empty() =~= chunks_view(
                prototypes@,
            ));
        }
        Ok((prototypes, cur))
    }

    /// Reads one function prototype with everything it owns. On failure the
    /// offset is unchanged and nothing of the chunk is returned.
    pub fn read(
        src: &[u8],
        offset: &mut usize,
        order: ByteOrder,
        len_size: LengthSize,
    ) -> (r: Result<Chunk, DecodeError>)
        ensures
            match spec_parse_chunk(src@, *old(offset) as int, order, len_size) {
                Ok(v) => r is Ok && chunk_view(r->Ok_0) == v.0 && *final(offset) == v.1 && *old(
                    offset,
                ) <= *final(offset) <= src@.len(),
                Err(e) => r == Err::<Chunk, DecodeError>(e) && *final(offset) == *old(offset),
            },
    {
        match Chunk::read_at(src, *offset, order, len_size) {
            Ok(v) => {
                *offset = v.1;
                Ok(v.0)
            },
            Err(e) => Err(e),
        }
    }
}

/// A whole decoded image: the header and the root chunk.
#[derive(Debug)]
pub struct Bytecode {
    pub header: Header,
    pub chunk: Chunk,
}

/// The mathematical value of a whole image.
#[verifier::ext_equal]
pub struct BytecodeValue {
    pub header: Header,
    pub chunk: ChunkValue,
}

/// The value of a decoded image.
pub open spec fn bytecode_view(b: Bytecode) -> BytecodeValue {
    BytecodeValue { header: b.header, chunk: chunk_view(b.chunk) }
}

/// The image at `off`: the header, whose own multi-byte field is always
/// read little-endian by the format's bootstrap convention, then the root
/// chunk in the given byte order.
pub open spec fn spec_parse_bytecode(
    s: Seq<u8>,
    off: int,
    order: ByteOrder,
    len_size: LengthSize,
) -> Result<(BytecodeValue, int), DecodeError> {
    match spec_parse_header(s, off, ByteOrder::Little) {
        Err(e) => Err(e),
        Ok(h) => match spec_parse_chunk(s, h.1, order, len_size) {
            Err(e) => Err(e),
            Ok(c) => Ok((BytecodeValue { header: h.0, chunk: c.0 }, c.1)),
        },
    }
}

impl Bytecode {
    /// Reads the header and then the root chunk. On failure the offset is
    /// unchanged and nothing of the image is returned.
    pub fn read(
        src: &[u8],
        offset: &mut usize,
        order: ByteOrder,
        len_size: LengthSize,
    ) -> (r: Result<Bytecode, DecodeError>)
        ensures
            match spec_parse_bytecode(src@, *old(offset) as int, order, len_size) {
                Ok(v) => r is Ok && bytecode_view(r->Ok_0) == v.0 && *final(offset) == v.1 && *old(
                    offset,
                ) <= *final(offset) <= src@.len(),
                Err(e) => r == Err::<Bytecode, DecodeError>(e) && *final(offset) == *old(offset),
            },
    {
        let mut pos: usize = *offset;
        let header = match Header::read(src, &mut pos, ByteOrder::Little) {
            Ok(h) => h,
            Err(e) => {
                return Err(e);
            },
        };
        let chunk = match Chunk::read(src, &mut pos, order, len_size) {
            Ok(c) => c,
            Err(e) => {
                return Err(e);
            },
        };
        *offset = pos;
        Ok(Bytecode { header, chunk })
    }
}

/// Decodes a whole bytecode image from the start of the buffer: the entry
/// point of the library. The chunk body is read in the given byte order
/// and with the given string length-prefix width; the first failure
/// anywhere in the tree is returned unchanged.
pub fn decode(src: &[u8], order: ByteOrder, len_size: LengthSize) -> (r: Result<
    Bytecode,
    DecodeError,
>)
    ensures
        match spec_parse_bytecode(src@, 0, order, len_size) {
            Ok(v) => r is Ok && bytecode_view(r->Ok_0) == v.0,
            Err(e) => r == Err::<Bytecode, DecodeError>(e),
        },
{
    let mut pos: usize = 0;
    Bytecode::read(src, &mut pos, order, len_size)
}

/// Law: a string whose length prefix is zero decodes to the empty text
/// value; no terminator is dropped, so nothing can underflow.
pub proof fn lemma_zero_length_string(s: Seq<u8>, off: int, order: ByteOrder, len_size: LengthSize)
    requires
        off + spec_length_width(len_size) <= s.len(),
        spec_length_at(s, off, order, len_size) == 0,
    ensures
        spec_parse_string(s, off, order, len_size) == Ok::<(Seq<char>, int), DecodeError>(
            (Seq::empty(), off + spec_length_width(len_size)),
        ),
{
    assert(valid_utf8(Seq::<u8>::empty()));
    assert(decode_utf8(Seq::<u8>::empty()) =~= Seq::<char>::empty());
}

/// A successful chunk parse ends past its first byte and within the
/// buffer.
pub proof fn lemma_parse_chunk_bounds(s: Seq<u8>, off: int, order: ByteOrder, len_size: LengthSize)
    ensures
        spec_parse_chunk(s, off, order, len_size) matches Ok(v) ==> off < v.1 <= s.len(),
    decreases s.len() - off, 0int,
{
    if let Ok(name) = spec_parse_string(s, off, order, len_size) {
        let off1 = name.1;
        if off1 + 12 <= s.len() {
            lemma_parse_instruction_list_bounds(s, off1 + 12, order);
            if let Ok(insts) = spec_parse_instruction_list(s, off1 + 12, order) {
                lemma_parse_constant_list_bounds(s, insts.1, order, len_size);
                if let Ok(consts) = spec_parse_constant_list(s, insts.1, order, len_size) {
                    let off2 = consts.1;
                    if off2 + 4 <= s.len() {
                        let n = u32_at(s, off2, order) as nat;
                        let off3 = off2 + 4;
                        if off < off3 && off3 <= s.len() {
                            lemma_parse_proto_seq_bounds(s, off3, order, len_size, n);
                            if let Ok(protos) = spec_parse_proto_seq(s, off3, order, len_size, n) {
                                lemma_parse_line_list_bounds(s, protos.1, order);
                                if let Ok(lines) = spec_parse_line_list(s, protos.1, order) {
                                    lemma_parse_local_list_bounds(s, lines.1, order, len_size);
                                    if let Ok(locs) = spec_parse_local_list(
                                        s,
                                        lines.1,
                                        order,
                                        len_size,
                                    ) {
                                        lemma_parse_upvalue_list_bounds(s, locs.1, order, len_size);
                                    }
                                }
                            }
                        }
                    }
                }
            }
        }
    }
}

/// A successful prototype-sequence parse ends within the buffer and not
/// before its start.
pub proof fn lemma_parse_proto_seq_bounds(
    s: Seq<u8>,
    off: int,
    order: ByteOrder,
    len_size: LengthSize,
    n: nat,
)
    requires
        off <= s.len(),
    ensures
        spec_parse_proto_seq(s, off, order, len_size, n) matches Ok(v) ==> off <= v.1 <= s.len(),
    decreases s.len() - off, n + 1,
{
    if n > 0 {
        lemma_parse_chunk_bounds(s, off, order, len_size);
        if let Ok(v) = spec_parse_chunk(s, off, order, len_size) {
            if off < v.1 && v.1 <= s.len() {
                lemma_parse_proto_seq_bounds(s, v.1, order, len_size, (n - 1) as nat);
            }
        }
    }
}

/// Law: a successful decode consumes exactly the bytes its internal counts
/// imply. The final offset is a function of the input alone, lies after
/// the start of the image and never beyond the end of the buffer.
pub proof fn lemma_decode_consumes(s: Seq<u8>, off: int, order: ByteOrder, len_size: LengthSize)
    ensures
        spec_parse_bytecode(s, off, order, len_size) matches Ok(v) ==> off < v.1 <= s.len(),
{
    if let Ok(h) = spec_parse_header(s, off, ByteOrder::Little) {
        lemma_parse_chunk_bounds(s, h.1, order, len_size);
    }
}

/// Law: a buffer cut short of what a string's length prefix declares
/// always fails with `UnexpectedEndOfInput`, whatever else the bytes hold.
pub proof fn lemma_string_truncation(
    s: Seq<u8>,
    off: int,
    order: ByteOrder,
    len_size: LengthSize,
    m: int,
)
    requires
        0 <= off,
        spec_parse_string(s, off, order, len_size) is Ok,
        off <= m < spec_parse_string(s, off, order, len_size)->Ok_0.1,
    ensures
        spec_parse_string(s.subrange(0, m), off, order, len_size) == Err::<
            (Seq<char>, int),
            DecodeError,
        >(DecodeError::UnexpectedEndOfInput),
{
    let t = s.subrange(0, m);
    let w = spec_length_width(len_size);
    assert forall|i: int| 0 <= i < m implies t[i] == s[i] by {}
    if off + w <= m {
        assert(spec_length_at(t, off, order, len_size) == spec_length_at(
            s,
            off,
            order,
            len_size,
        ));
    }
}

/// Cutting the buffer anywhere at or past the end of a string leaves its
/// parse unchanged.
pub proof fn lemma_string_prefix_agreement(
    s: Seq<u8>,
    off: int,
    order: ByteOrder,
    len_size: LengthSize,
    m: int,
)
    requires
        0 <= off,
        spec_parse_string(s, off, order, len_size) is Ok,
        spec_parse_string(s, off, order, len_size)->Ok_0.1 <= m <= s.len(),
    ensures
        spec_parse_string(s.subrange(0, m), off, order, len_size) == spec_parse_string(
            s,
            off,
            order,
            len_size,
        ),
{
    let t = s.subrange(0, m);
    let w = spec_length_width(len_size);
    let n = spec_length_at(s, off, order, len_size);
    assert forall|i: int| 0 <= i < m implies t[i] == s[i] by {}
    assert(spec_length_at(t, off, order, len_size) == n);
    if n > 0 {
        assert(t.subrange(off + w, off + w + n - 1) =~= s.subrange(off + w, off + w + n - 1));
    }
}

/// A buffer cut short of the twelve header bytes fails with
/// `UnexpectedEndOfInput`; cut at or past them, the header parse is
/// unchanged.
pub proof fn lemma_header_truncation(s: Seq<u8>, off: int, order: ByteOrder, m: int)
    requires
        0 <= off,
        spec_parse_header(s, off, order) is Ok,
        off <= m <= s.len(),
    ensures
        m < off + 12 ==> spec_parse_header(s.subrange(0, m), off, order) == Err::<
            (Header, int),
            DecodeError,
        >(DecodeError::UnexpectedEndOfInput),
        m >= off + 12 ==> spec_parse_header(s.subrange(0, m), off, order) == spec_parse_header(
            s,
            off,
            order,
        ),
{
    let t = s.subrange(0, m);
    assert forall|i: int| 0 <= i < m implies t[i] == s[i] by {}
    if m >= off + 12 {
        assert(u32_at(t, off, order) == u32_at(s, off, order));
    }
}

/// Cutting the buffer anywhere at or past the end of a chunk leaves its
/// parse unchanged.
#[verifier::rlimit(100)]
#[verifier::spinoff_prover]
pub proof fn lemma_chunk_prefix_agreement(
    s: Seq<u8>,
    off: int,
    order: ByteOrder,
    len_size: LengthSize,
    m: int,
)
    requires
        0 <= off,
        spec_parse_chunk(s, off, order, len_size) is Ok,
        spec_parse_chunk(s, off, order, len_size)->Ok_0.1 <= m <= s.len(),
    ensures
        spec_parse_chunk(s.subrange(0, m), off, order, len_size) == spec_parse_chunk(
            s,
            off,
            order,
            len_size,
        ),
    decreases s.len() - off, 0int,
{
    let t = s.subrange(0, m);
    assert forall|i: int| 0 <= i < m implies t[i] == s[i] by {}
    let name = spec_parse_string(s, off, order, len_size)->Ok_0;
    let off1 = name.1;
    let insts = spec_parse_instruction_list(s, off1 + 12, order)->Ok_0;
    let consts = spec_parse_constant_list(s, insts.1, order, len_size)->Ok_0;
    let off2 = consts.1;
    let n = u32_at(s, off2, order) as nat;
    let off3 = off2 + 4;
    let protos = spec_parse_proto_seq(s, off3, order, len_size, n)->Ok_0;
    let lines = spec_parse_line_list(s, protos.1, order)->Ok_0;
    let locs = spec_parse_local_list(s, lines.1, order, len_size)->Ok_0;
    let ups = spec_parse_upvalue_list(s, locs.1, order, len_size)->Ok_0;
    lemma_parse_instruction_list_bounds(s, off1 + 12, order);
    lemma_parse_constant_list_bounds(s, insts.1, order, len_size);
    lemma_parse_proto_seq_bounds(s, off3, order, len_size, n);
    lemma_parse_line_list_bounds(s, protos.1, order);
    lemma_parse_local_list_bounds(s, lines.1, order, len_size);
    lemma_parse_upvalue_list_bounds(s, locs.1, order, len_size);
    assert(spec_parse_chunk(s, off, order, len_size)->Ok_0.1 == ups.1);
    lemma_string_prefix_agreement(s, off, order, len_size, m);
    assert(u32_at(t, off1, order) == u32_at(s, off1, order));
    assert(u32_at(t, off1 + 4, order) == u32_at(s, off1 + 4, order));
    lemma_instruction_list_truncation(s, off1 + 12, order, m);
    lemma_constant_list_truncation(s, insts.1, order, len_size, m);
    assert(u32_at(t, off2, order) == u32_at(s, off2, order));
    lemma_proto_seq_prefix_agreement(s, off3, order, len_size, n, m);
    lemma_line_list_truncation(s, protos.1, order, m);
    lemma_local_list_truncation(s, lines.1, order, len_size, m);
    lemma_upvalue_list_truncation(s, locs.1, order, len_size, m);
}

/// Cutting the buffer anywhere at or past the end of a prototype sequence
/// leaves its parse unchanged.
pub proof fn lemma_proto_seq_prefix_agreement(
    s: Seq<u8>,
    off: int,
    order: ByteOrder,
    len_size: LengthSize,
    n: nat,
    m: int,
)
    requires
        0 <= off,
        spec_parse_proto_seq(s, off, order, len_size, n) is Ok,
        spec_parse_proto_seq(s, off, order, len_size, n)->Ok_0.1 <= m <= s.len(),
        off <= spec_parse_proto_seq(s, off, order, len_size, n)->Ok_0.1,
    ensures
        spec_parse_proto_seq(s.subrange(0, m), off, order, len_size, n) == spec_parse_proto_seq(
            s,
            off,
            order,
            len_size,
            n,
        ),
    decreases s.len() - off, n + 1,
{
    if n > 0 {
        let v = spec_parse_chunk(s, off, order, len_size)->Ok_0;
        lemma_parse_chunk_bounds(s, off, order, len_size);
        lemma_parse_proto_seq_bounds(s, v.1, order, len_size, (n - 1) as nat);
        lemma_chunk_prefix_agreement(s, off, order, len_size, m);
        lemma_proto_seq_prefix_agreement(s, v.1, order, len_size, (n - 1) as nat, m);
    }
}

/// Law: a buffer cut short of what a chunk's counts imply always fails
/// with `UnexpectedEndOfInput`.
#[verifier::rlimit(100)]
#[verifier::spinoff_prover]
pub proof fn lemma_chunk_truncation(
    s: Seq<u8>,
    off: int,
    order: ByteOrder,
    len_size: LengthSize,
    m: int,
)
    requires
        0 <= off,
        spec_parse_chunk(s, off, order, len_size) is Ok,
        off <= m < spec_parse_chunk(s, off, order, len_size)->Ok_0.1,
        m <= s.len(),
    ensures
        spec_parse_chunk(s.subrange(0, m), off, order, len_size) == Err::<
            (ChunkValue, int),
            DecodeError,
        >(DecodeError::UnexpectedEndOfInput),
    decreases s.len() - off, 0int,
{
    let t = s.subrange(0, m);
    assert forall|i: int| 0 <= i < m implies t[i] == s[i] by {}
    lemma_parse_chunk_bounds(s, off, order, len_size);
    let name = spec_parse_string(s, off, order, len_size)->Ok_0;
    if m < name.1 {
        lemma_string_truncation(s, off, order, len_size, m);
    } else {
        lemma_string_prefix_agreement(s, off, order, len_size, m);
        let off1 = name.1;
        if m >= off1 + 12 {
            assert(u32_at(t, off1, order) == u32_at(s, off1, order));
            assert(u32_at(t, off1 + 4, order) == u32_at(s, off1 + 4, order));
            let insts = spec_parse_instruction_list(s, off1 + 12, order)->Ok_0;
            lemma_parse_instruction_list_bounds(s, off1 + 12, order);
            lemma_instruction_list_truncation(s, off1 + 12, order, m);
            if m >= insts.1 {
                let consts = spec_parse_constant_list(s, insts.1, order, len_size)->Ok_0;
                lemma_parse_constant_list_bounds(s, insts.1, order, len_size);
                lemma_constant_list_truncation(s, insts.1, order, len_size, m);
                if m >= consts.1 {
                    let off2 = consts.1;
                    if m >= off2 + 4 {
                        assert(u32_at(t, off2, order) == u32_at(s, off2, order));
                        let n = u32_at(s, off2, order) as nat;
                        let off3 = off2 + 4;
                        let protos = spec_parse_proto_seq(s, off3, order, len_size, n)->Ok_0;
                        lemma_parse_proto_seq_bounds(s, off3, order, len_size, n);
                        if m < protos.1 {
                            lemma_proto_seq_truncation(s, off3, order, len_size, n, m);
                        } else {
                            lemma_proto_seq_prefix_agreement(s, off3, order, len_size, n, m);
                            let lines = spec_parse_line_list(s, protos.1, order)->Ok_0;
                            lemma_parse_line_list_bounds(s, protos.1, order);
                            lemma_line_list_truncation(s, protos.1, order, m);
                            if m >= lines.1 {
                                let locs = spec_parse_local_list(s, lines.1, order, len_size)->Ok_0;
                                lemma_parse_local_list_bounds(s, lines.1, order, len_size);
                                lemma_local_list_truncation(s, lines.1, order, len_size, m);
                                if m >= locs.1 {
                                    lemma_parse_upvalue_list_bounds(s, locs.1, order, len_size);
                                    lemma_upvalue_list_truncation(s, locs.1, order, len_size, m);
                                }
                            }
                        }
                    }
                }
            }
        }
    }
}

/// Law: a buffer cut short of what a prototype count implies always fails
/// with `UnexpectedEndOfInput`.
pub proof fn lemma_proto_seq_truncation(
    s: Seq<u8>,
    off: int,
    order: ByteOrder,
    len_size: LengthSize,
    n: nat,
    m: int,
)
    requires
        0 <= off,
        spec_parse_proto_seq(s, off, order, len_size, n) is Ok,
        off <= m < spec_parse_proto_seq(s, off, order, len_size, n)->Ok_0.1,
        m <= s.len(),
    ensures
        spec_parse_proto_seq(s.subrange(0, m), off, order, len_size, n) == Err::<
            (Seq<ChunkValue>, int),
            DecodeError,
        >(DecodeError::UnexpectedEndOfInput),
    decreases s.len() - off, n + 1,
{
    if n > 0 {
        let v = spec_parse_chunk(s, off, order, len_size)->Ok_0;
        lemma_parse_chunk_bounds(s, off, order, len_size);
        lemma_parse_proto_seq_bounds(s, v.1, order, len_size, (n - 1) as nat);
        if v.1 <= m {
            lemma_chunk_prefix_agreement(s, off, order, len_size, m);
            lemma_proto_seq_truncation(s, v.1, order, len_size, (n - 1) as nat, m);
        } else {
            lemma_chunk_truncation(s, off, order, len_size, m);
        }
    }
}

/// Law: a buffer holding fewer bytes than the image's counts imply always
/// fails with `UnexpectedEndOfInput`, whatever the missing bytes were; the
/// decoder never reads past the bytes it is given.
pub proof fn lemma_image_truncation(
    s: Seq<u8>,
    off: int,
    order: ByteOrder,
    len_size: LengthSize,
    m: int,
)
    requires
        0 <= off,
        spec_parse_bytecode(s, off, order, len_size) is Ok,
        off <= m < spec_parse_bytecode(s, off, order, len_size)->Ok_0.1,
        m <= s.len(),
    ensures
        spec_parse_bytecode(s.subrange(0, m), off, order, len_size) == Err::<
            (BytecodeValue, int),
            DecodeError,
        >(DecodeError::UnexpectedEndOfInput),
{
    let h = spec_parse_header(s, off, ByteOrder::Little)->Ok_0;
    lemma_header_truncation(s, off, ByteOrder::Little, m);
    if m >= h.1 {
        lemma_parse_chunk_bounds(s, h.1, order, len_size);
        lemma_chunk_truncation(s, h.1, order, len_size, m);
    }
}

} // verus!
