//! The locals debug table: named stack variables with their scope ranges.

use vstd::prelude::*;

use crate::cursor::{read_u32, u32_at, ByteOrder, DecodeError, LengthSize};
use crate::lua::{lemma_string_prefix_agreement, lemma_string_truncation, spec_parse_string, LuaString};

verus! {

/// One local variable: its name and the instruction-index range over which
/// it is in scope.
#[derive(Debug)]
pub struct Local {
    pub name: String,
    pub start_variable_scope: u32,
    pub end_variable_scope: u32,
}

/// The mathematical value of one local.
pub struct LocalValue {
    pub name: Seq<char>,
    pub start_variable_scope: u32,
    pub end_variable_scope: u32,
}

impl View for Local {
    type V = LocalValue;

    open spec fn view(&self) -> LocalValue {
        LocalValue {
            name: self.name@,
            start_variable_scope: self.start_variable_scope,
            end_variable_scope: self.end_variable_scope,
        }
    }
}

/// The values of a whole locals table.
pub open spec fn locals_view(ls: Seq<Local>) -> Seq<LocalValue> {
    ls.map_values(|l: Local| l@)
}

/// The local at `off`: a name string, then the four-byte start and end of
/// its scope.
pub open spec fn spec_parse_local(
    s: Seq<u8>,
    off: int,
    order: ByteOrder,
    len_size: LengthSize,
) -> Result<(LocalValue, int), DecodeError> {
    match spec_parse_string(s, off, order, len_size) {
        Err(e) => Err(e),
        Ok(name) => if name.1 + 8 > s.len() {
            Err(DecodeError::UnexpectedEndOfInput)
        } else {
            Ok(
                (
                    LocalValue {
                        name: name.0,
                        start_variable_scope: u32_at(s, name.1, order),
                        end_variable_scope: u32_at(s, name.1 + 4, order),
                    },
                    name.1 + 8,
                ),
            )
        },
    }
}

/// `n` further locals starting at `off`.
pub open spec fn spec_parse_local_seq(
    s: Seq<u8>,
    off: int,
    order: ByteOrder,
    len_size: LengthSize,
    n: nat,
) -> Result<(Seq<LocalValue>, int), DecodeError>
    decreases n,
{
    if n == 0 {
        Ok((Seq::empty(), off))
    } else {
        match spec_parse_local(s, off, order, len_size) {
            Err(e) => Err(e),
            Ok(v) => match spec_parse_local_seq(s, v.1, order, len_size, (n - 1) as nat) {
                Err(e) => Err(e),
                Ok(rest) => Ok((seq![v.0] + rest.0, rest.1)),
            },
        }
    }
}

/// The locals table at `off`: a four-byte count, then that many locals.
pub open spec fn spec_parse_local_list(
    s: Seq<u8>,
    off: int,
    order: ByteOrder,
    len_size: LengthSize,
) -> Result<(Seq<LocalValue>, int), DecodeError> {
    if off + 4 > s.len() {
        Err(DecodeError::UnexpectedEndOfInput)
    } else {
        spec_parse_local_seq(s, off + 4, order, len_size, u32_at(s, off, order) as nat)
    }
}

impl Local {
    /// Reads one named local and its scope range.
    pub fn read(
        src: &[u8],
        offset: &mut usize,
        order: ByteOrder,
        len_size: LengthSize,
    ) -> (r: Result<Local, DecodeError>)
        ensures
            match spec_parse_local(src@, *old(offset) as int, order, len_size) {
                Ok(v) => r is Ok && r->Ok_0@ == v.0 && *final(offset) == v.1 && *old(offset)
                    <= *final(offset) <= src@.len(),
                Err(e) => r == Err::<Local, DecodeError>(e) && *final(offset) == *old(offset),
            },
    {
        let mut pos: usize = *offset;
        let name = match LuaString::read(src, &mut pos, order, len_size) {
            Ok(n) => n,
            Err(e) => {
                return Err(e);
            },
        };
        let start_variable_scope = match read_u32(src, &mut pos, order) {
            Ok(v) => v,
            Err(e) => {
                return Err(e);
            },
        };
        let end_variable_scope = match read_u32(src, &mut pos, order) {
            Ok(v) => v,
            Err(e) => {
                return Err(e);
            },
        };
        *offset = pos;
        Ok(Local { name: name.into_string(), start_variable_scope, end_variable_scope })
    }
}

/// The decoded locals table of one chunk.
#[derive(Debug)]
pub struct Locals(pub Vec<Local>);

impl Locals {
    /// Reads a four-byte count and then that many locals. On failure the
    /// offset is unchanged and nothing of the table is returned.
    #[verifier::rlimit(60)]
    #[verifier::loop_isolation(false)]
    pub fn read(
        src: &[u8],
        offset: &mut usize,
        order: ByteOrder,
        len_size: LengthSize,
    ) -> (r: Result<Locals, DecodeError>)
        ensures
            match spec_parse_local_list(src@, *old(offset) as int, order, len_size) {
                Ok(v) => r is Ok && locals_view(r->Ok_0.0@) == v.0 && *final(offset) == v.1
                    && *old(offset) <= *final(offset) <= src@.len(),
                Err(e) => r == Err::<Locals, DecodeError>(e) && *final(offset) == *old(offset),
            },
    {
        let ghost s = src@;
        let ghost off0 = *offset as int;
        let mut pos: usize = *offset;
        let count = match read_u32(src, &mut pos, order) {
            Ok(c) => c,
            Err(e) => {
                return Err(e);
            },
        };
        let mut acc: Vec<Local> = Vec::new();
        let mut i: u32 = 0;
        while i < count
            invariant
                i <= count,
                acc@.len() == i,
                off0 + 4 <= pos <= s.len(),
                spec_parse_local_list(s, off0, order, len_size) == (match spec_parse_local_seq(
                    s,
                    pos as int,
                    order,
                    len_size,
                    (count - i) as nat,
                ) {
                    Ok(v) => Ok::<(Seq<LocalValue>, int), DecodeError>((
                        locals_view(acc@) + v.0,
                        v.1,
                    )),
                    Err(e) => Err::<(Seq<LocalValue>, int), DecodeError>(e),
                }),
            decreases count - i,
        {
            let local = match Local::read(src, &mut pos, order, len_size) {
                Ok(l) => l,
                Err(e) => {
                    return Err(e);
                },
            };
            let ghost acc_old = acc@;
            acc.push(local);
            proof {
                assert(locals_view(acc@) =~= locals_view(acc_old) + seq![local@]);
                if let Ok(v) = spec_parse_local_seq(
                    s,
                    pos as int,
                    order,
                    len_size,
                    (count - i - 1) as nat,
                ) {
                    assert(locals_view(acc_old) + (seq![local@] + v.0) =~= locals_view(acc@) + v.0);
                }
            }
            i = i + 1;
        }
        *offset = pos;
        proof {
            assert(locals_view(acc@) + Seq::<LocalValue>::empty() =~= locals_view(acc@));
        }
        Ok(Locals(acc))
    }
}

/// A successful locals-sequence parse ends within the buffer and not
/// before its start.
pub proof fn lemma_parse_local_seq_bounds(
    s: Seq<u8>,
    off: int,
    order: ByteOrder,
    len_size: LengthSize,
    n: nat,
)
    requires
        off <= s.len(),
    ensures
        spec_parse_local_seq(s, off, order, len_size, n) matches Ok(v) ==> off <= v.1 <= s.len(),
    decreases n,
{
    if n > 0 {
        if let Ok(v) = spec_parse_local(s, off, order, len_size) {
            lemma_parse_local_seq_bounds(s, v.1, order, len_size, (n - 1) as nat);
        }
    }
}

/// A successful locals-table parse ends past its count field and within
/// the buffer.
pub proof fn lemma_parse_local_list_bounds(
    s: Seq<u8>,
    off: int,
    order: ByteOrder,
    len_size: LengthSize,
)
    ensures
        spec_parse_local_list(s, off, order, len_size) matches Ok(v) ==> off < v.1 <= s.len(),
{
    if off + 4 <= s.len() {
        lemma_parse_local_seq_bounds(s, off + 4, order, len_size, u32_at(s, off, order) as nat);
    }
}

/// Cutting the buffer anywhere at or past the end of a local leaves its
/// parse unchanged.
pub proof fn lemma_local_prefix_agreement(
    s: Seq<u8>,
    off: int,
    order: ByteOrder,
    len_size: LengthSize,
    m: int,
)
    requires
        0 <= off,
        spec_parse_local(s, off, order, len_size) is Ok,
        spec_parse_local(s, off, order, len_size)->Ok_0.1 <= m <= s.len(),
        off <= spec_parse_local(s, off, order, len_size)->Ok_0.1,
    ensures
        spec_parse_local(s.subrange(0, m), off, order, len_size) == spec_parse_local(
            s,
            off,
            order,
            len_size,
        ),
{
    let t = s.subrange(0, m);
    assert forall|i: int| 0 <= i < m implies t[i] == s[i] by {}
    let name = spec_parse_string(s, off, order, len_size)->Ok_0;
    lemma_string_prefix_agreement(s, off, order, len_size, m);
    assert(u32_at(t, name.1, order) == u32_at(s, name.1, order));
    assert(u32_at(t, name.1 + 4, order) == u32_at(s, name.1 + 4, order));
}

/// Law: a buffer cut short of a local's name or scope fields fails with
/// `UnexpectedEndOfInput`.
pub proof fn lemma_local_truncation(
    s: Seq<u8>,
    off: int,
    order: ByteOrder,
    len_size: LengthSize,
    m: int,
)
    requires
        0 <= off,
        spec_parse_local(s, off, order, len_size) is Ok,
        off <= m < spec_parse_local(s, off, order, len_size)->Ok_0.1,
        m <= s.len(),
    ensures
        spec_parse_local(s.subrange(0, m), off, order, len_size) == Err::<
            (LocalValue, int),
            DecodeError,
        >(DecodeError::UnexpectedEndOfInput),
{
    let t = s.subrange(0, m);
    assert forall|i: int| 0 <= i < m implies t[i] == s[i] by {}
    let name = spec_parse_string(s, off, order, len_size)->Ok_0;
    if name.1 <= m {
        lemma_string_prefix_agreement(s, off, order, len_size, m);
    } else {
        lemma_string_truncation(s, off, order, len_size, m);
    }
}

/// Cutting the buffer anywhere at or past the end of a locals sequence
/// leaves its parse unchanged.
pub proof fn lemma_local_seq_prefix_agreement(
    s: Seq<u8>,
    off: int,
    order: ByteOrder,
    len_size: LengthSize,
    n: nat,
    m: int,
)
    requires
        0 <= off,
        spec_parse_local_seq(s, off, order, len_size, n) is Ok,
        spec_parse_local_seq(s, off, order, len_size, n)->Ok_0.1 <= m <= s.len(),
        off <= spec_parse_local_seq(s, off, order, len_size, n)->Ok_0.1,
    ensures
        spec_parse_local_seq(s.subrange(0, m), off, order, len_size, n) == spec_parse_local_seq(
            s,
            off,
            order,
            len_size,
            n,
        ),
    decreases n,
{
    if n > 0 {
        let v = spec_parse_local(s, off, order, len_size)->Ok_0;
        lemma_parse_local_seq_bounds(s, v.1, order, len_size, (n - 1) as nat);
        lemma_local_prefix_agreement(s, off, order, len_size, m);
        lemma_local_seq_prefix_agreement(s, v.1, order, len_size, (n - 1) as nat, m);
    }
}

/// Law: a buffer cut short of what a locals count implies fails with
/// `UnexpectedEndOfInput`.
pub proof fn lemma_local_seq_truncation(
    s: Seq<u8>,
    off: int,
    order: ByteOrder,
    len_size: LengthSize,
    n: nat,
    m: int,
)
    requires
        0 <= off,
        spec_parse_local_seq(s, off, order, len_size, n) is Ok,
        off <= m < spec_parse_local_seq(s, off, order, len_size, n)->Ok_0.1,
        m <= s.len(),
    ensures
        spec_parse_local_seq(s.subrange(0, m), off, order, len_size, n) == Err::<
            (Seq<LocalValue>, int),
            DecodeError,
        >(DecodeError::UnexpectedEndOfInput),
    decreases n,
{
    if n > 0 {
        let v = spec_parse_local(s, off, order, len_size)->Ok_0;
        lemma_parse_local_seq_bounds(s, v.1, order, len_size, (n - 1) as nat);
        if v.1 <= m {
            lemma_local_prefix_agreement(s, off, order, len_size, m);
            lemma_local_seq_truncation(s, v.1, order, len_size, (n - 1) as nat, m);
        } else {
            lemma_local_truncation(s, off, order, len_size, m);
        }
    }
}

/// Law: a buffer cut short of what the locals table's count implies
/// always fails with `UnexpectedEndOfInput`; cut at or past the table's
/// end, the parse is unchanged.
pub proof fn lemma_local_list_truncation(
    s: Seq<u8>,
    off: int,
    order: ByteOrder,
    len_size: LengthSize,
    m: int,
)
    requires
        0 <= off,
        spec_parse_local_list(s, off, order, len_size) is Ok,
        off <= m <= s.len(),
    ensures
        m < spec_parse_local_list(s, off, order, len_size)->Ok_0.1 ==> spec_parse_local_list(
            s.subrange(0, m),
            off,
            order,
            len_size,
        ) == Err::<(Seq<LocalValue>, int), DecodeError>(DecodeError::UnexpectedEndOfInput),
        m >= spec_parse_local_list(s, off, order, len_size)->Ok_0.1 ==> spec_parse_local_list(
            s.subrange(0, m),
            off,
            order,
            len_size,
        ) == spec_parse_local_list(s, off, order, len_size),
{
    let t = s.subrange(0, m);
    assert forall|i: int| 0 <= i < m implies t[i] == s[i] by {}
    let n = u32_at(s, off, order) as nat;
    lemma_parse_local_seq_bounds(s, off + 4, order, len_size, n);
    if off + 4 <= m {
        assert(u32_at(t, off, order) == u32_at(s, off, order));
        if m < spec_parse_local_list(s, off, order, len_size)->Ok_0.1 {
            lemma_local_seq_truncation(s, off + 4, order, len_size, n, m);
        } else {
            lemma_local_seq_prefix_agreement(s, off + 4, order, len_size, n, m);
        }
    }
}

} // verus!
