//! The upvalues debug table: the names of captured variables.

use vstd::prelude::*;

use crate::cursor::{read_u32, u32_at, ByteOrder, DecodeError, LengthSize};
use crate::lua::{lemma_string_prefix_agreement, lemma_string_truncation, spec_parse_string, LuaString};

verus! {

/// One upvalue: the name of a variable captured from an enclosing scope.
#[derive(Debug)]
pub struct Upvalue {
    pub name: String,
}

/// The mathematical value of one upvalue.
pub struct UpvalueValue {
    pub name: Seq<char>,
}

impl View for Upvalue {
    type V = UpvalueValue;

    open spec fn view(&self) -> UpvalueValue {
        UpvalueValue { name: self.name@ }
    }
}

/// The values of a whole upvalues table.
pub open spec fn upvalues_view(us: Seq<Upvalue>) -> Seq<UpvalueValue> {
    us.map_values(|u: Upvalue| u@)
}

/// The upvalue at `off`: one name string.
pub open spec fn spec_parse_upvalue(
    s: Seq<u8>,
    off: int,
    order: ByteOrder,
    len_size: LengthSize,
) -> Result<(UpvalueValue, int), DecodeError> {
    match spec_parse_string(s, off, order, len_size) {
        Err(e) => Err(e),
        Ok(v) => Ok((UpvalueValue { name: v.0 }, v.1)),
    }
}

/// `n` further upvalues starting at `off`.
pub open spec fn spec_parse_upvalue_seq(
    s: Seq<u8>,
    off: int,
    order: ByteOrder,
    len_size: LengthSize,
    n: nat,
) -> Result<(Seq<UpvalueValue>, int), DecodeError>
    decreases n,
{
    if n == 0 {
        Ok((Seq::empty(), off))
    } else {
        match spec_parse_upvalue(s, off, order, len_size) {
            Err(e) => Err(e),
            Ok(v) => match spec_parse_upvalue_seq(s, v.1, order, len_size, (n - 1) as nat) {
                Err(e) => Err(e),
                Ok(rest) => Ok((seq![v.0] + rest.0, rest.1)),
            },
        }
    }
}

/// The upvalues table at `off`: a four-byte count, then that many names.
pub open spec fn spec_parse_upvalue_list(
    s: Seq<u8>,
    off: int,
    order: ByteOrder,
    len_size: LengthSize,
) -> Result<(Seq<UpvalueValue>, int), DecodeError> {
    if off + 4 > s.len() {
        Err(DecodeError::UnexpectedEndOfInput)
    } else {
        spec_parse_upvalue_seq(s, off + 4, order, len_size, u32_at(s, off, order) as nat)
    }
}

impl Upvalue {
    /// Reads one upvalue name.
    pub fn read(
        src: &[u8],
        offset: &mut usize,
        order: ByteOrder,
        len_size: LengthSize,
    ) -> (r: Result<Upvalue, DecodeError>)
        ensures
            match spec_parse_upvalue(src@, *old(offset) as int, order, len_size) {
                Ok(v) => r is Ok && r->Ok_0@ == v.0 && *final(offset) == v.1 && *old(offset)
                    <= *final(offset) <= src@.len(),
                Err(e) => r == Err::<Upvalue, DecodeError>(e) && *final(offset) == *old(offset),
            },
    {
        let mut pos: usize = *offset;
        let name = match LuaString::read(src, &mut pos, order, len_size) {
            Ok(n) => n,
            Err(e) => {
                return Err(e);
            },
        };
        *offset = pos;
        Ok(Upvalue { name: name.into_string() })
    }
}

/// The decoded upvalues table of one chunk.
#[derive(Debug)]
pub struct Upvalues(pub Vec<Upvalue>);

impl Upvalues {
    /// Reads a four-byte count and then that many upvalue names. On failure
    /// the offset is unchanged and nothing of the table is returned.
    #[verifier::rlimit(60)]
    #[verifier::loop_isolation(false)]
    pub fn read(
        src: &[u8],
        offset: &mut usize,
        order: ByteOrder,
        len_size: LengthSize,
    ) -> (r: Result<Upvalues, DecodeError>)
        ensures
            match spec_parse_upvalue_list(src@, *old(offset) as int, order, len_size) {
                Ok(v) => r is Ok && upvalues_view(r->Ok_0.0@) == v.0 && *final(offset) == v.1
                    && *old(offset) <= *final(offset) <= src@.len(),
                Err(e) => r == Err::<Upvalues, DecodeError>(e) && *final(offset) == *old(offset),
            },
    {
        let ghost s = src@;
        let ghost off0 = *offset as int;
        let mut pos: usize = *offset;
        let count = match read_u32(src, &mut pos, order) {
            Ok(c) => c,
            Err(e) => {
                return Err(e);
            },
        };
        let mut acc: Vec<Upvalue> = Vec::new();
        let mut i: u32 = 0;
        while i < count
            invariant
                i <= count,
                acc@.len() == i,
                off0 + 4 <= pos <= s.len(),
                spec_parse_upvalue_list(s, off0, order, len_size) == (match spec_parse_upvalue_seq(
                    s,
                    pos as int,
                    order,
                    len_size,
                    (count - i) as nat,
                ) {
                    Ok(v) => Ok::<(Seq<UpvalueValue>, int), DecodeError>((
                        upvalues_view(acc@) + v.0,
                        v.1,
                    )),
                    Err(e) => Err::<(Seq<UpvalueValue>, int), DecodeError>(e),
                }),
            decreases count - i,
        {
            let upvalue = match Upvalue::read(src, &mut pos, order, len_size) {
                Ok(u) => u,
                Err(e) => {
                    return Err(e);
                },
            };
            let ghost acc_old = acc@;
            acc.push(upvalue);
            proof {
                assert(upvalues_view(acc@) =~= upvalues_view(acc_old) + seq![upvalue@]);
                if let Ok(v) = spec_parse_upvalue_seq(
                    s,
                    pos as int,
                    order,
                    len_size,
                    (count - i - 1) as nat,
                ) {
                    assert(upvalues_view(acc_old) + (seq![upvalue@] + v.0) =~= upvalues_view(acc@)
                        + v.0);
                }
            }
            i = i + 1;
        }
        *offset = pos;
        proof {
            assert(upvalues_view(acc@) + Seq::<UpvalueValue>::empty() =~= upvalues_view(acc@));
        }
        Ok(Upvalues(acc))
    }
}

/// A successful upvalue-sequence parse ends within the buffer and not
/// before its start.
pub proof fn lemma_parse_upvalue_seq_bounds(
    s: Seq<u8>,
    off: int,
    order: ByteOrder,
    len_size: LengthSize,
    n: nat,
)
    requires
        off <= s.len(),
    ensures
        spec_parse_upvalue_seq(s, off, order, len_size, n) matches Ok(v) ==> off <= v.1 <= s.len(),
    decreases n,
{
    if n > 0 {
        if let Ok(v) = spec_parse_upvalue(s, off, order, len_size) {
            lemma_parse_upvalue_seq_bounds(s, v.1, order, len_size, (n - 1) as nat);
        }
    }
}

/// A successful upvalues-table parse ends past its count field and within
/// the buffer.
pub proof fn lemma_parse_upvalue_list_bounds(
    s: Seq<u8>,
    off: int,
    order: ByteOrder,
    len_size: LengthSize,
)
    ensures
        spec_parse_upvalue_list(s, off, order, len_size) matches Ok(v) ==> off < v.1 <= s.len(),
{
    if off + 4 <= s.len() {
        lemma_parse_upvalue_seq_bounds(s, off + 4, order, len_size, u32_at(s, off, order) as nat);
    }
}

/// Cutting the buffer anywhere at or past the end of an upvalue sequence
/// leaves its parse unchanged.
pub proof fn lemma_upvalue_seq_prefix_agreement(
    s: Seq<u8>,
    off: int,
    order: ByteOrder,
    len_size: LengthSize,
    n: nat,
    m: int,
)
    requires
        0 <= off,
        spec_parse_upvalue_seq(s, off, order, len_size, n) is Ok,
        spec_parse_upvalue_seq(s, off, order, len_size, n)->Ok_0.1 <= m <= s.len(),
        off <= spec_parse_upvalue_seq(s, off, order, len_size, n)->Ok_0.1,
    ensures
        spec_parse_upvalue_seq(s.subrange(0, m), off, order, len_size, n)
            == spec_parse_upvalue_seq(s, off, order, len_size, n),
    decreases n,
{
    if n > 0 {
        let v = spec_parse_upvalue(s, off, order, len_size)->Ok_0;
        lemma_parse_upvalue_seq_bounds(s, v.1, order, len_size, (n - 1) as nat);
        lemma_string_prefix_agreement(s, off, order, len_size, m);
        lemma_upvalue_seq_prefix_agreement(s, v.1, order, len_size, (n - 1) as nat, m);
    }
}

/// Law: a buffer cut short of what an upvalue count implies fails with
/// `UnexpectedEndOfInput`.
pub proof fn lemma_upvalue_seq_truncation(
    s: Seq<u8>,
    off: int,
    order: ByteOrder,
    len_size: LengthSize,
    n: nat,
    m: int,
)
    requires
        0 <= off,
        spec_parse_upvalue_seq(s, off, order, len_size, n) is Ok,
        off <= m < spec_parse_upvalue_seq(s, off, order, len_size, n)->Ok_0.1,
        m <= s.len(),
    ensures
        spec_parse_upvalue_seq(s.subrange(0, m), off, order, len_size, n) == Err::<
            (Seq<UpvalueValue>, int),
            DecodeError,
        >(DecodeError::UnexpectedEndOfInput),
    decreases n,
{
    if n > 0 {
        let v = spec_parse_upvalue(s, off, order, len_size)->Ok_0;
        lemma_parse_upvalue_seq_bounds(s, v.1, order, len_size, (n - 1) as nat);
        if v.1 <= m {
            lemma_string_prefix_agreement(s, off, order, len_size, m);
            lemma_upvalue_seq_truncation(s, v.1, order, len_size, (n - 1) as nat, m);
        } else {
            lemma_string_truncation(s, off, order, len_size, m);
        }
    }
}

/// Law: a buffer cut short of what the upvalues table's count implies
/// always fails with `UnexpectedEndOfInput`; cut at or past the table's
/// end, the parse is unchanged.
pub proof fn lemma_upvalue_list_truncation(
    s: Seq<u8>,
    off: int,
    order: ByteOrder,
    len_size: LengthSize,
    m: int,
)
    requires
        0 <= off,
        spec_parse_upvalue_list(s, off, order, len_size) is Ok,
        off <= m <= s.len(),
    ensures
        m < spec_parse_upvalue_list(s, off, order, len_size)->Ok_0.1
            ==> spec_parse_upvalue_list(s.subrange(0, m), off, order, len_size) == Err::<
            (Seq<UpvalueValue>, int),
            DecodeError,
        >(DecodeError::UnexpectedEndOfInput),
        m >= spec_parse_upvalue_list(s, off, order, len_size)->Ok_0.1
            ==> spec_parse_upvalue_list(s.subrange(0, m), off, order, len_size)
            == spec_parse_upvalue_list(s, off, order, len_size),
{
    let t = s.subrange(0, m);
    assert forall|i: int| 0 <= i < m implies t[i] == s[i] by {}
    let n = u32_at(s, off, order) as nat;
    lemma_parse_upvalue_seq_bounds(s, off + 4, order, len_size, n);
    if off + 4 <= m {
        assert(u32_at(t, off, order) == u32_at(s, off, order));
        if m < spec_parse_upvalue_list(s, off, order, len_size)->Ok_0.1 {
            lemma_upvalue_seq_truncation(s, off + 4, order, len_size, n, m);
        } else {
            lemma_upvalue_seq_prefix_agreement(s, off + 4, order, len_size, n, m);
        }
    }
}

} // verus!
