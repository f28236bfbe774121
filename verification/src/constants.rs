//! The constant pool: tagged literal values referenced by instructions.

use vstd::prelude::*;

use crate::cursor::{read_u32, read_u64, read_u8, u64_at, ByteOrder, DecodeError, LengthSize};
use crate::lua::{lemma_string_prefix_agreement, lemma_string_truncation, spec_parse_string, LuaString};

verus! {

/// One constant of a chunk's pool. A number constant is the raw bit
/// pattern of the eight-byte IEEE-754 double exactly as it stands in the
/// image; interpreting the bits as a floating-point value is left to the
/// consumer.
#[derive(Debug)]
#[allow(non_camel_case_types)]
pub enum Constant {
    LUA_TNIL,
    LUA_TBOOLEAN(bool),
    LUA_TNUMBER(u64),
    LUA_TSTRING(String),
}

/// The mathematical value of one constant.
pub enum ConstantValue {
    Nil,
    Boolean(bool),
    Number(u64),
    Text(Seq<char>),
}

impl View for Constant {
    type V = ConstantValue;

    open spec fn view(&self) -> ConstantValue {
        match self {
            Constant::LUA_TNIL => ConstantValue::Nil,
            Constant::LUA_TBOOLEAN(b) => ConstantValue::Boolean(*b),
            Constant::LUA_TNUMBER(bits) => ConstantValue::Number(*bits),
            Constant::LUA_TSTRING(text) => ConstantValue::Text(text@),
        }
    }
}

/// The values of a whole pool.
pub open spec fn constants_view(cs: Seq<Constant>) -> Seq<ConstantValue> {
    cs.map_values(|c: Constant| c@)
}

/// The constant at `off`: a tag byte, then a payload whose length the tag
/// decides. Tag 0 is nil, 1 a one-byte boolean where any nonzero value is
/// true, 3 an eight-byte number, 4 a string; any other tag fails with
/// `InvalidConstantTag`.
pub open spec fn spec_parse_constant(
    s: Seq<u8>,
    off: int,
    order: ByteOrder,
    len_size: LengthSize,
) -> Result<(ConstantValue, int), DecodeError> {
    if off + 1 > s.len() {
        Err(DecodeError::UnexpectedEndOfInput)
    } else {
        let tag = s[off];
        if tag == 0 {
            Ok((ConstantValue::Nil, off + 1))
        } else if tag == 1 {
            if off + 2 > s.len() {
                Err(DecodeError::UnexpectedEndOfInput)
            } else {
                Ok((ConstantValue::Boolean(s[off + 1] != 0), off + 2))
            }
        } else if tag == 3 {
            if off + 9 > s.len() {
                Err(DecodeError::UnexpectedEndOfInput)
            } else {
                Ok((ConstantValue::Number(u64_at(s, off + 1, order)), off + 9))
            }
        } else if tag == 4 {
            match spec_parse_string(s, off + 1, order, len_size) {
                Ok(v) => Ok((ConstantValue::Text(v.0), v.1)),
                Err(e) => Err(e),
            }
        } else {
            Err(DecodeError::InvalidConstantTag(tag))
        }
    }
}

/// `n` further constants starting at `off`; the first failure fails the
/// whole sequence.
pub open spec fn spec_parse_constant_seq(
    s: Seq<u8>,
    off: int,
    order: ByteOrder,
    len_size: LengthSize,
    n: nat,
) -> Result<(Seq<ConstantValue>, int), DecodeError>
    decreases n,
{
    if n == 0 {
        Ok((Seq::empty(), off))
    } else {
        match spec_parse_constant(s, off, order, len_size) {
            Err(e) => Err(e),
            Ok(v) => match spec_parse_constant_seq(s, v.1, order, len_size, (n - 1) as nat) {
                Err(e) => Err(e),
                Ok(rest) => Ok((seq![v.0] + rest.0, rest.1)),
            },
        }
    }
}

/// The constant pool at `off`: a four-byte count, then that many constants
/// in operand-index order.
pub open spec fn spec_parse_constant_list(
    s: Seq<u8>,
    off: int,
    order: ByteOrder,
    len_size: LengthSize,
) -> Result<(Seq<ConstantValue>, int), DecodeError> {
    if off + 4 > s.len() {
        Err(DecodeError::UnexpectedEndOfInput)
    } else {
        spec_parse_constant_seq(s, off + 4, order, len_size, crate::cursor::u32_at(s, off, order) as nat)
    }
}

impl Constant {
    /// Decodes one tagged constant.
    pub fn decode(
        src: &[u8],
        offset: &mut usize,
        order: ByteOrder,
        len_size: LengthSize,
    ) -> (r: Result<Constant, DecodeError>)
        ensures
            match spec_parse_constant(src@, *old(offset) as int, order, len_size) {
                Ok(v) => r is Ok && r->Ok_0@ == v.0 && *final(offset) == v.1 && *old(offset)
                    <= *final(offset) <= src@.len(),
                Err(e) => r == Err::<Constant, DecodeError>(e) && *final(offset) == *old(offset),
            },
    {
        let mut pos: usize = *offset;
        let tag = match read_u8(src, &mut pos) {
            Ok(t) => t,
            Err(e) => {
                return Err(e);
            },
        };
        match tag {
            0 => {
                *offset = pos;
                Ok(Constant::LUA_TNIL)
            },
            1 => {
                let value = match read_u8(src, &mut pos) {
                    Ok(v) => v,
                    Err(e) => {
                        return Err(e);
                    },
                };
                *offset = pos;
                Ok(Constant::LUA_TBOOLEAN(value != 0))
            },
            3 => {
                let bits = match read_u64(src, &mut pos, order) {
                    Ok(v) => v,
                    Err(e) => {
                        return Err(e);
                    },
                };
                *offset = pos;
                Ok(Constant::LUA_TNUMBER(bits))
            },
            4 => {
                let text = match LuaString::read(src, &mut pos, order, len_size) {
                    Ok(t) => t,
                    Err(e) => {
                        return Err(e);
                    },
                };
                *offset = pos;
                Ok(Constant::LUA_TSTRING(text.into_string()))
            },
            _ => Err(DecodeError::InvalidConstantTag(tag)),
        }
    }
}

/// The decoded constant pool of one chunk, in operand-index order.
#[derive(Debug)]
pub struct Constants(pub Vec<Constant>);

impl Constants {
    /// Reads a four-byte count and then that many tagged constants. On
    /// failure the offset is unchanged and nothing of the pool is returned.
    #[verifier::rlimit(60)]
    #[verifier::loop_isolation(false)]
    pub fn read(
        src: &[u8],
        offset: &mut usize,
        order: ByteOrder,
        len_size: LengthSize,
    ) -> (r: Result<Constants, DecodeError>)
        ensures
            match spec_parse_constant_list(src@, *old(offset) as int, order, len_size) {
                Ok(v) => r is Ok && constants_view(r->Ok_0.0@) == v.0 && *final(offset) == v.1
                    && *old(offset) <= *final(offset) <= src@.len(),
                Err(e) => r == Err::<Constants, DecodeError>(e) && *final(offset) == *old(offset),
            },
    {
        let ghost s = src@;
        let ghost off0 = *offset as int;
        let mut pos: usize = *offset;
        let count = match read_u32(src, &mut pos, order) {
            Ok(c) => c,
            Err(e) => {
                return Err(e);
            },
        };
        let mut acc: Vec<Constant> = Vec::new();
        let mut i: u32 = 0;
        while i < count
            invariant
                i <= count,
                acc@.len() == i,
                off0 + 4 <= pos <= s.len(),
                spec_parse_constant_list(s, off0, order, len_size) == (match spec_parse_constant_seq(
                    s,
                    pos as int,
                    order,
                    len_size,
                    (count - i) as nat,
                ) {
                    Ok(v) => Ok::<(Seq<ConstantValue>, int), DecodeError>((
                        constants_view(acc@) + v.0,
                        v.1,
                    )),
                    Err(e) => Err::<(Seq<ConstantValue>, int), DecodeError>(e),
                }),
            decreases count - i,
        {
            let constant = match Constant::decode(src, &mut pos, order, len_size) {
                Ok(c) => c,
                Err(e) => {
                    return Err(e);
                },
            };
            let ghost acc_old = acc@;
            acc.push(constant);
            proof {
                assert(constants_view(acc@) =~= constants_view(acc_old) + seq![constant@]);
                if let Ok(v) = spec_parse_constant_seq(
                    s,
                    pos as int,
                    order,
                    len_size,
                    (count - i - 1) as nat,
                ) {
                    assert(constants_view(acc_old) + (seq![constant@] + v.0) =~= constants_view(
                        acc@,
                    ) + v.0);
                }
            }
            i = i + 1;
        }
        *offset = pos;
        proof {
            assert(constants_view(acc@) + Seq::<ConstantValue>::empty() =~= constants_view(acc@));
        }
        Ok(Constants(acc))
    }
}

/// Law: a constant whose tag byte is none of 0, 1, 3 and 4 fails with
/// `InvalidConstantTag` carrying that tag; nothing past the tag byte takes
/// part in the outcome.
pub proof fn lemma_invalid_constant_tag(s: Seq<u8>, off: int, order: ByteOrder, len_size: LengthSize)
    requires
        off + 1 <= s.len(),
        s[off] != 0,
        s[off] != 1,
        s[off] != 3,
        s[off] != 4,
    ensures
        spec_parse_constant(s, off, order, len_size) == Err::<(ConstantValue, int), DecodeError>(
            DecodeError::InvalidConstantTag(s[off]),
        ),
{
}

/// A successful constant-sequence parse ends within the buffer and not
/// before its start.
pub proof fn lemma_parse_constant_seq_bounds(
    s: Seq<u8>,
    off: int,
    order: ByteOrder,
    len_size: LengthSize,
    n: nat,
)
    requires
        off <= s.len(),
    ensures
        spec_parse_constant_seq(s, off, order, len_size, n) matches Ok(v) ==> off <= v.1 <= s.len(),
    decreases n,
{
    if n > 0 {
        if let Ok(v) = spec_parse_constant(s, off, order, len_size) {
            lemma_parse_constant_seq_bounds(s, v.1, order, len_size, (n - 1) as nat);
        }
    }
}

/// A successful constant-pool parse ends past its count field and within
/// the buffer.
pub proof fn lemma_parse_constant_list_bounds(
    s: Seq<u8>,
    off: int,
    order: ByteOrder,
    len_size: LengthSize,
)
    ensures
        spec_parse_constant_list(s, off, order, len_size) matches Ok(v) ==> off < v.1 <= s.len(),
{
    if off + 4 <= s.len() {
        lemma_parse_constant_seq_bounds(
            s,
            off + 4,
            order,
            len_size,
            crate::cursor::u32_at(s, off, order) as nat,
        );
    }
}

/// Cutting the buffer anywhere at or past the end of a constant leaves
/// its parse unchanged.
pub proof fn lemma_constant_prefix_agreement(
    s: Seq<u8>,
    off: int,
    order: ByteOrder,
    len_size: LengthSize,
    m: int,
)
    requires
        0 <= off,
        spec_parse_constant(s, off, order, len_size) is Ok,
        spec_parse_constant(s, off, order, len_size)->Ok_0.1 <= m <= s.len(),
        off <= spec_parse_constant(s, off, order, len_size)->Ok_0.1,
    ensures
        spec_parse_constant(s.subrange(0, m), off, order, len_size) == spec_parse_constant(
            s,
            off,
            order,
            len_size,
        ),
{
    let t = s.subrange(0, m);
    assert forall|i: int| 0 <= i < m implies t[i] == s[i] by {}
    let tag = s[off];
    if tag == 3 {
        assert(u64_at(t, off + 1, order) == u64_at(s, off + 1, order));
    }
    if tag == 4 {
        lemma_string_prefix_agreement(s, off + 1, order, len_size, m);
    }
}

/// Law: a buffer cut short of what a constant's tag implies fails with
/// `UnexpectedEndOfInput`.
pub proof fn lemma_constant_truncation(
    s: Seq<u8>,
    off: int,
    order: ByteOrder,
    len_size: LengthSize,
    m: int,
)
    requires
        0 <= off,
        spec_parse_constant(s, off, order, len_size) is Ok,
        off <= m < spec_parse_constant(s, off, order, len_size)->Ok_0.1,
        m <= s.len(),
    ensures
        spec_parse_constant(s.subrange(0, m), off, order, len_size) == Err::<
            (ConstantValue, int),
            DecodeError,
        >(DecodeError::UnexpectedEndOfInput),
{
    let t = s.subrange(0, m);
    assert forall|i: int| 0 <= i < m implies t[i] == s[i] by {}
    if off + 1 <= m {
        let tag = s[off];
        if tag == 4 {
            lemma_string_truncation(s, off + 1, order, len_size, m);
        }
    }
}

/// Cutting the buffer anywhere at or past the end of a constant sequence
/// leaves its parse unchanged.
pub proof fn lemma_constant_seq_prefix_agreement(
    s: Seq<u8>,
    off: int,
    order: ByteOrder,
    len_size: LengthSize,
    n: nat,
    m: int,
)
    requires
        0 <= off,
        spec_parse_constant_seq(s, off, order, len_size, n) is Ok,
        spec_parse_constant_seq(s, off, order, len_size, n)->Ok_0.1 <= m <= s.len(),
        off <= spec_parse_constant_seq(s, off, order, len_size, n)->Ok_0.1,
    ensures
        spec_parse_constant_seq(s.subrange(0, m), off, order, len_size, n)
            == spec_parse_constant_seq(s, off, order, len_size, n),
    decreases n,
{
    if n > 0 {
        let v = spec_parse_constant(s, off, order, len_size)->Ok_0;
        lemma_parse_constant_seq_bounds(s, v.1, order, len_size, (n - 1) as nat);
        lemma_constant_prefix_agreement(s, off, order, len_size, m);
        lemma_constant_seq_prefix_agreement(s, v.1, order, len_size, (n - 1) as nat, m);
    }
}

/// Law: a buffer cut short of what a constant count implies fails with
/// `UnexpectedEndOfInput`.
pub proof fn lemma_constant_seq_truncation(
    s: Seq<u8>,
    off: int,
    order: ByteOrder,
    len_size: LengthSize,
    n: nat,
    m: int,
)
    requires
        0 <= off,
        spec_parse_constant_seq(s, off, order, len_size, n) is Ok,
        off <= m < spec_parse_constant_seq(s, off, order, len_size, n)->Ok_0.1,
        m <= s.len(),
    ensures
        spec_parse_constant_seq(s.subrange(0, m), off, order, len_size, n) == Err::<
            (Seq<ConstantValue>, int),
            DecodeError,
        >(DecodeError::UnexpectedEndOfInput),
    decreases n,
{
    if n > 0 {
        let v = spec_parse_constant(s, off, order, len_size)->Ok_0;
        lemma_parse_constant_seq_bounds(s, v.1, order, len_size, (n - 1) as nat);
        if v.1 <= m {
            lemma_constant_prefix_agreement(s, off, order, len_size, m);
            lemma_constant_seq_truncation(s, v.1, order, len_size, (n - 1) as nat, m);
        } else {
            lemma_constant_truncation(s, off, order, len_size, m);
        }
    }
}

/// Law: a buffer cut short of what the constant pool's count implies
/// always fails with `UnexpectedEndOfInput`; cut at or past the pool's
/// end, the parse is unchanged.
pub proof fn lemma_constant_list_truncation(
    s: Seq<u8>,
    off: int,
    order: ByteOrder,
    len_size: LengthSize,
    m: int,
)
    requires
        0 <= off,
        spec_parse_constant_list(s, off, order, len_size) is Ok,
        off <= m <= s.len(),
    ensures
        m < spec_parse_constant_list(s, off, order, len_size)->Ok_0.1
            ==> spec_parse_constant_list(s.subrange(0, m), off, order, len_size) == Err::<
            (Seq<ConstantValue>, int),
            DecodeError,
        >(DecodeError::UnexpectedEndOfInput),
        m >= spec_parse_constant_list(s, off, order, len_size)->Ok_0.1
            ==> spec_parse_constant_list(s.subrange(0, m), off, order, len_size)
            == spec_parse_constant_list(s, off, order, len_size),
{
    let t = s.subrange(0, m);
    assert forall|i: int| 0 <= i < m implies t[i] == s[i] by {}
    let n = crate::cursor::u32_at(s, off, order) as nat;
    lemma_parse_constant_seq_bounds(s, off + 4, order, len_size, n);
    if off + 4 <= m {
        assert(crate::cursor::u32_at(t, off, order) == crate::cursor::u32_at(s, off, order));
        if m < spec_parse_constant_list(s, off, order, len_size)->Ok_0.1 {
            lemma_constant_seq_truncation(s, off + 4, order, len_size, n, m);
        } else {
            lemma_constant_seq_prefix_agreement(s, off + 4, order, len_size, n, m);
        }
    }
}

} // verus!
