//! The source-line debug table: one line number per instruction.

use vstd::prelude::*;

use crate::cursor::{read_u32, u32_at, ByteOrder, DecodeError};

verus! {

/// `n` further four-byte line numbers starting at `off`.
pub open spec fn spec_parse_line_seq(s: Seq<u8>, off: int, order: ByteOrder, n: nat) -> Result<
    (Seq<u32>, int),
    DecodeError,
>
    decreases n,
{
    if n == 0 {
        Ok((Seq::empty(), off))
    } else if off + 4 > s.len() {
        Err(DecodeError::UnexpectedEndOfInput)
    } else {
        match spec_parse_line_seq(s, off + 4, order, (n - 1) as nat) {
            Err(e) => Err(e),
            Ok(rest) => Ok((seq![u32_at(s, off, order)] + rest.0, rest.1)),
        }
    }
}

/// The source-line table at `off`: a four-byte count, then that many
/// four-byte line numbers, index-aligned with the instruction array.
pub open spec fn spec_parse_line_list(s: Seq<u8>, off: int, order: ByteOrder) -> Result<
    (Seq<u32>, int),
    DecodeError,
> {
    if off + 4 > s.len() {
        Err(DecodeError::UnexpectedEndOfInput)
    } else {
        spec_parse_line_seq(s, off + 4, order, u32_at(s, off, order) as nat)
    }
}

/// The decoded source-line table of one chunk.
#[derive(Debug)]
pub struct SourceLines(pub Vec<u32>);

impl SourceLines {
    /// Reads a four-byte count and then that many line numbers. On failure
    /// the offset is unchanged and nothing of the table is returned.
    #[verifier::loop_isolation(false)]
    pub fn read(src: &[u8], offset: &mut usize, order: ByteOrder) -> (r: Result<
        SourceLines,
        DecodeError,
    >)
        ensures
            match spec_parse_line_list(src@, *old(offset) as int, order) {
                Ok(v) => r is Ok && r->Ok_0.0@ == v.0 && *final(offset) == v.1 && *old(offset)
                    <= *final(offset) <= src@.len(),
                Err(e) => r == Err::<SourceLines, DecodeError>(e) && *final(offset) == *old(
                    offset,
                ),
            },
    {
        let ghost s = src@;
        let ghost off0 = *offset as int;
        let mut pos: usize = *offset;
        let count = match read_u32(src, &mut pos, order) {
            Ok(c) => c,
            Err(e) => {
                return Err(e);
            },
        };
        let mut acc: Vec<u32> = Vec::new();
        let mut i: u32 = 0;
        while i < count
            invariant
                i <= count,
                acc@.len() == i,
                off0 + 4 <= pos <= s.len(),
                spec_parse_line_list(s, off0, order) == (match spec_parse_line_seq(
                    s,
                    pos as int,
                    order,
                    (count - i) as nat,
                ) {
                    Ok(v) => Ok::<(Seq<u32>, int), DecodeError>((acc@ + v.0, v.1)),
                    Err(e) => Err::<(Seq<u32>, int), DecodeError>(e),
                }),
            decreases count - i,
        {
            let line = match read_u32(src, &mut pos, order) {
                Ok(w) => w,
                Err(e) => {
                    return Err(e);
                },
            };
            let ghost acc_old = acc@;
            acc.push(line);
            proof {
                assert(acc@ =~= acc_old + seq![line]);
                if let Ok(v) = spec_parse_line_seq(s, pos as int, order, (count - i - 1) as nat) {
                    assert(acc_old + (seq![line] + v.0) =~= acc@ + v.0);
                }
            }
            i = i + 1;
        }
        *offset = pos;
        proof {
            assert(acc@ + Seq::<u32>::empty() =~= acc@);
        }
        Ok(SourceLines(acc))
    }
}

/// A successful line-sequence parse ends within the buffer and not before
/// its start.
pub proof fn lemma_parse_line_seq_bounds(s: Seq<u8>, off: int, order: ByteOrder, n: nat)
    requires
        off <= s.len(),
    ensures
        spec_parse_line_seq(s, off, order, n) matches Ok(v) ==> off <= v.1 <= s.len(),
    decreases n,
{
    if n > 0 && off + 4 <= s.len() {
        lemma_parse_line_seq_bounds(s, off + 4, order, (n - 1) as nat);
    }
}

/// A successful source-line-table parse ends past its count field and
/// within the buffer.
pub proof fn lemma_parse_line_list_bounds(s: Seq<u8>, off: int, order: ByteOrder)
    ensures
        spec_parse_line_list(s, off, order) matches Ok(v) ==> off < v.1 <= s.len(),
{
    if off + 4 <= s.len() {
        lemma_parse_line_seq_bounds(s, off + 4, order, u32_at(s, off, order) as nat);
    }
}

/// Cutting the buffer anywhere at or past the end of a line sequence
/// leaves its parse unchanged.
pub proof fn lemma_line_seq_prefix_agreement(s: Seq<u8>, off: int, order: ByteOrder, n: nat, m: int)
    requires
        0 <= off,
        spec_parse_line_seq(s, off, order, n) is Ok,
        spec_parse_line_seq(s, off, order, n)->Ok_0.1 <= m <= s.len(),
        off <= spec_parse_line_seq(s, off, order, n)->Ok_0.1,
    ensures
        spec_parse_line_seq(s.subrange(0, m), off, order, n) == spec_parse_line_seq(
            s,
            off,
            order,
            n,
        ),
    decreases n,
{
    let t = s.subrange(0, m);
    assert forall|i: int| 0 <= i < m implies t[i] == s[i] by {}
    if n > 0 {
        lemma_parse_line_seq_bounds(s, off + 4, order, (n - 1) as nat);
        assert(u32_at(t, off, order) == u32_at(s, off, order));
        lemma_line_seq_prefix_agreement(s, off + 4, order, (n - 1) as nat, m);
    }
}

/// Law: a buffer cut short of what a line count declares fails with
/// `UnexpectedEndOfInput`.
pub proof fn lemma_line_seq_truncation(s: Seq<u8>, off: int, order: ByteOrder, n: nat, m: int)
    requires
        0 <= off,
        spec_parse_line_seq(s, off, order, n) is Ok,
        off <= m < spec_parse_line_seq(s, off, order, n)->Ok_0.1,
        m <= s.len(),
    ensures
        spec_parse_line_seq(s.subrange(0, m), off, order, n) == Err::<(Seq<u32>, int), DecodeError>(
            DecodeError::UnexpectedEndOfInput,
        ),
    decreases n,
{
    let t = s.subrange(0, m);
    assert forall|i: int| 0 <= i < m implies t[i] == s[i] by {}
    if n > 0 {
        lemma_parse_line_seq_bounds(s, off + 4, order, (n - 1) as nat);
        if off + 4 <= m {
            assert(u32_at(t, off, order) == u32_at(s, off, order));
            lemma_line_seq_truncation(s, off + 4, order, (n - 1) as nat, m);
        }
    }
}

/// Law: a buffer cut short of what the source-line table's count implies
/// always fails with `UnexpectedEndOfInput`; cut at or past the table's
/// end, the parse is unchanged.
pub proof fn lemma_line_list_truncation(s: Seq<u8>, off: int, order: ByteOrder, m: int)
    requires
        0 <= off,
        spec_parse_line_list(s, off, order) is Ok,
        off <= m <= s.len(),
    ensures
        m < spec_parse_line_list(s, off, order)->Ok_0.1 ==> spec_parse_line_list(
            s.subrange(0, m),
            off,
            order,
        ) == Err::<(Seq<u32>, int), DecodeError>(DecodeError::UnexpectedEndOfInput),
        m >= spec_parse_line_list(s, off, order)->Ok_0.1 ==> spec_parse_line_list(
            s.subrange(0, m),
            off,
            order,
        ) == spec_parse_line_list(s, off, order),
{
    let t = s.subrange(0, m);
    assert forall|i: int| 0 <= i < m implies t[i] == s[i] by {}
    let n = u32_at(s, off, order) as nat;
    lemma_parse_line_seq_bounds(s, off + 4, order, n);
    if off + 4 <= m {
        assert(u32_at(t, off, order) == u32_at(s, off, order));
        if m < spec_parse_line_list(s, off, order)->Ok_0.1 {
            lemma_line_seq_truncation(s, off + 4, order, n, m);
        } else {
            lemma_line_seq_prefix_agreement(s, off + 4, order, n, m);
        }
    }
}

} // verus!
