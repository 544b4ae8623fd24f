//! Bounds-checked little-endian byte reading. Every artifact parser reads
//! from attacker-influenced or corrupt files, so an out-of-range read gives
//! `None` and never panics: a malformed or truncated sample degrades to
//! partial results and cannot stop a collector run.

use vstd::prelude::*;
use vstd::utf8::*;

use crate::text;

verus! {

broadcast use vstd::slice::group_slice_axioms;

// ---------------------------------------------------------------------
// What stands at an offset of a byte sequence
// ---------------------------------------------------------------------

/// Whether `len` bytes stand at `offset`.
pub open spec fn in_bounds(s: Seq<u8>, offset: int, len: int) -> bool {
    0 <= offset && 0 <= len && offset + len <= s.len()
}

/// The byte at `offset`.
pub open spec fn byte_at(s: Seq<u8>, offset: int) -> Option<u8> {
    if in_bounds(s, offset, 1) {
        Some(s[offset])
    } else {
        None
    }
}

/// Four bytes as a number, the lowest first.
pub open spec fn le32(s: Seq<u8>, offset: int) -> u32 {
    (s[offset] + 0x100 * s[offset + 1] + 0x1_0000 * s[offset + 2] + 0x100_0000 * s[offset + 3]) as u32
}

/// The 16-bit little-endian number at `offset`.
pub open spec fn u16_at(s: Seq<u8>, offset: int) -> Option<u16> {
    if in_bounds(s, offset, 2) {
        Some(text::le16(s[offset], s[offset + 1]))
    } else {
        None
    }
}

/// The 32-bit little-endian number at `offset`.
pub open spec fn u32_at(s: Seq<u8>, offset: int) -> Option<u32> {
    if in_bounds(s, offset, 4) {
        Some(le32(s, offset))
    } else {
        None
    }
}

/// The 64-bit little-endian number at `offset`.
pub open spec fn u64_at(s: Seq<u8>, offset: int) -> Option<u64> {
    if in_bounds(s, offset, 8) {
        Some((le32(s, offset) + 0x1_0000_0000 * le32(s, offset + 4)) as u64)
    } else {
        None
    }
}

/// The `len` bytes at `offset`.
pub open spec fn bytes_at(s: Seq<u8>, offset: int, len: int) -> Option<Seq<u8>> {
    if in_bounds(s, offset, len) {
        Some(s.subrange(offset, offset + len))
    } else {
        None
    }
}

/// The bytes in front of the first zero byte, or all of them where there is none.
pub open spec fn before_nul(s: Seq<u8>) -> Seq<u8>
    decreases s.len(),
{
    if s.len() == 0 || s[0] == 0 {
        seq![]
    } else {
        seq![s[0]] + before_nul(s.skip(1))
    }
}

/// A run without a zero byte, ended by one or by the end of the input, is what
/// stands in front of the first zero byte.
pub proof fn lemma_before_nul(s: Seq<u8>, n: int)
    requires
        0 <= n <= s.len(),
        forall|i: int| 0 <= i < n ==> s[i] != 0,
        n < s.len() ==> s[n] == 0,
    ensures
        before_nul(s) == s.take(n),
    decreases n,
{
    if n > 0 {
        assert(s.skip(1).take(n - 1) =~= s.subrange(1, n));
        lemma_before_nul(s.skip(1), n - 1);
        assert(seq![s[0]] + s.subrange(1, n) =~= s.take(n));
    } else {
        assert(s.take(0) =~= seq![]);
    }
}

/// The bytes at `offset` in front of a zero, at most `max_len` of them.
pub open spec fn cstr_bytes(s: Seq<u8>, offset: int, max_len: int) -> Seq<u8> {
    let end = if offset + max_len <= s.len() {
        offset + max_len
    } else {
        s.len() as int
    };
    before_nul(s.subrange(offset, end))
}

/// The zero-terminated text at `offset`, at most `max_len` bytes of it.
pub open spec fn cstr_at(s: Seq<u8>, offset: int, max_len: int) -> Option<Seq<char>> {
    if 0 <= offset <= s.len() {
        Some(text::utf8_lossy(cstr_bytes(s, offset, max_len)))
    } else {
        None
    }
}

/// The length of the run in front of the first zero byte.
pub fn nul_position(s: &[u8]) -> (r: usize)
    ensures
        r <= s@.len(),
        before_nul(s@) == s@.take(r as int),
{
    let mut n: usize = 0;
    while n < s.len() && s[n] != 0
        invariant
            n <= s@.len(),
            forall|i: int| 0 <= i < n ==> s@[i] != 0,
        decreases s@.len() - n,
    {
        n += 1;
    }
    proof {
        lemma_before_nul(s@, n as int);
    }
    n
}

// ---------------------------------------------------------------------
// Reading at an offset
// ---------------------------------------------------------------------

/// Reads numbers, slices and text at offsets of a buffer.
pub struct Reader<'a> {
    buf: &'a [u8],
}

impl<'a> View for Reader<'a> {
    type V = Seq<u8>;

    closed spec fn view(&self) -> Seq<u8> {
        self.buf@
    }
}

impl<'a> Reader<'a> {
    /// A reader over a buffer.
    pub fn new(buf: &'a [u8]) -> (r: Self)
        ensures
            r@ == buf@,
    {
        Self { buf }
    }

    /// The 16-bit number at `offset`, `None` where it does not lie in the buffer.
    pub fn u16(&self, offset: usize) -> (r: Option<u16>)
        ensures
            r == u16_at(self@, offset as int),
            self@.len() <= usize::MAX,
    {
        let b = match self.slice(offset, 2) {
            Some(b) => b,
            None => { return None; },
        };
        Some(b[0] as u16 + 0x100 * (b[1] as u16))
    }

    /// The 32-bit number at `offset`, `None` where it does not lie in the buffer.
    pub fn u32(&self, offset: usize) -> (r: Option<u32>)
        ensures
            r == u32_at(self@, offset as int),
            self@.len() <= usize::MAX,
    {
        let b = match self.slice(offset, 4) {
            Some(b) => b,
            None => { return None; },
        };
        Some(
            b[0] as u32 + 0x100 * (b[1] as u32) + 0x1_0000 * (b[2] as u32) + 0x100_0000 * (
            b[3] as u32),
        )
    }

    /// The 64-bit number at `offset`, `None` where it does not lie in the buffer.
    pub fn u64(&self, offset: usize) -> (r: Option<u64>)
        ensures
            r == u64_at(self@, offset as int),
            self@.len() <= usize::MAX,
    {
        if self.buf.len() < 8 || offset > self.buf.len() - 8 {
            return None;
        }
        match (self.u32(offset), self.u32(offset + 4)) {
            (Some(low), Some(high)) => Some(low as u64 + 0x1_0000_0000 * (high as u64)),
            _ => None,
        }
    }

    /// The `len` bytes at `offset`, `None` where they do not all lie in the buffer.
    pub fn slice(&self, offset: usize, len: usize) -> (r: Option<&'a [u8]>)
        ensures
            r is Some == in_bounds(self@, offset as int, len as int),
            r matches Some(b) ==> b@ == self@.subrange(offset as int, offset + len),
            self@.len() <= usize::MAX,
    {
        let total = self.buf.len();
        if offset <= total && len <= total - offset {
            Some(&self.buf[offset..offset + len])
        } else {
            None
        }
    }

    /// The zero-terminated text at `offset`, capped at `max_len` bytes so that
    /// a corrupt length field cannot walk off the end of the buffer. Bytes that
    /// are no UTF-8 are replaced. `None` where `offset` lies behind the buffer.
    pub fn cstr(&self, offset: usize, max_len: usize) -> (r: Option<String>)
        ensures
            r is Some == (offset <= self@.len()),
            r matches Some(t) ==> Some(t@) == cstr_at(self@, offset as int, max_len as int),
            r matches Some(t) ==> {
                let bytes = cstr_bytes(self@, offset as int, max_len as int);
                valid_utf8(bytes) ==> t@ == decode_utf8(bytes)
            },
            self@.len() <= usize::MAX,
    {
        let wanted = offset.saturating_add(max_len);
        let end = if wanted <= self.buf.len() {
            wanted
        } else {
            self.buf.len()
        };
        if offset > end {
            return None;
        }
        let raw: &[u8] = &self.buf[offset..end];
        let nul = nul_position(raw);
        assert(raw@.subrange(0, nul as int) =~= raw@.take(nul as int));
        Some(text::utf8_text(&raw[0..nul]))
    }
}

// ---------------------------------------------------------------------
// Reading in sequence
// ---------------------------------------------------------------------

/// Reads a buffer front to back. A read or a skip that does not fit in what is
/// left fails and leaves the position where it was.
pub struct Cursor<'a> {
    pub data: &'a [u8],
    pub pos: usize,
}

/// Where a skip over `n` bytes at `pos` leads.
pub open spec fn skipped(len: nat, pos: int, n: int) -> int {
    if pos + n <= len {
        pos + n
    } else {
        pos
    }
}

impl<'a> Cursor<'a> {
    /// A cursor at the start of a buffer.
    pub fn new(data: &'a [u8]) -> (r: Self)
        ensures
            r.data@ == data@,
            r.pos == 0,
    {
        Self { data, pos: 0 }
    }

    /// The number of bytes behind the position.
    pub fn remaining(&self) -> (r: usize)
        ensures
            r == (if self.pos <= self.data@.len() {
                self.data@.len() - self.pos
            } else {
                0
            }),
            self.data@.len() <= usize::MAX,
    {
        self.data.len().saturating_sub(self.pos)
    }

    /// The next byte, left in place.
    pub fn peek(&self) -> (r: Option<u8>)
        ensures
            r == byte_at(self.data@, self.pos as int),
    {
        if self.pos < self.data.len() {
            Some(self.data[self.pos])
        } else {
            None
        }
    }

    /// The next `n` bytes.
    pub fn read(&mut self, n: usize) -> (r: Option<&'a [u8]>)
        ensures
            final(self).data@ == old(self).data@,
            r is Some == in_bounds(old(self).data@, old(self).pos as int, n as int),
            r matches Some(b) ==> b@ == old(self).data@.subrange(
                old(self).pos as int,
                old(self).pos + n,
            ),
            final(self).pos == skipped(old(self).data@.len(), old(self).pos as int, n as int),
    {
        let total = self.data.len();
        if self.pos <= total && n <= total - self.pos {
            let b: &'a [u8] = &self.data[self.pos..self.pos + n];
            self.pos += n;
            Some(b)
        } else {
            None
        }
    }

    /// Steps over `n` bytes; whether there were as many.
    pub fn skip(&mut self, n: usize) -> (r: bool)
        ensures
            final(self).data@ == old(self).data@,
            r == in_bounds(old(self).data@, old(self).pos as int, n as int),
            final(self).pos == skipped(old(self).data@.len(), old(self).pos as int, n as int),
    {
        self.read(n).is_some()
    }

    /// The next byte.
    pub fn u8(&mut self) -> (r: Option<u8>)
        ensures
            final(self).data@ == old(self).data@,
            r == byte_at(old(self).data@, old(self).pos as int),
            final(self).pos == skipped(old(self).data@.len(), old(self).pos as int, 1),
    {
        match self.read(1) {
            Some(b) => Some(b[0]),
            None => None,
        }
    }

    /// The next 16-bit number.
    pub fn u16(&mut self) -> (r: Option<u16>)
        ensures
            final(self).data@ == old(self).data@,
            r == u16_at(old(self).data@, old(self).pos as int),
            final(self).pos == skipped(old(self).data@.len(), old(self).pos as int, 2),
    {
        let r = Reader::new(self.data).u16(self.pos);
        self.skip(2);
        r
    }

    /// The next 32-bit number.
    pub fn u32(&mut self) -> (r: Option<u32>)
        ensures
            final(self).data@ == old(self).data@,
            r == u32_at(old(self).data@, old(self).pos as int),
            final(self).pos == skipped(old(self).data@.len(), old(self).pos as int, 4),
    {
        let r = Reader::new(self.data).u32(self.pos);
        self.skip(4);
        r
    }

    /// The next 64-bit number.
    pub fn u64(&mut self) -> (r: Option<u64>)
        ensures
            final(self).data@ == old(self).data@,
            r == u64_at(old(self).data@, old(self).pos as int),
            final(self).pos == skipped(old(self).data@.len(), old(self).pos as int, 8),
    {
        let r = Reader::new(self.data).u64(self.pos);
        self.skip(8);
        r
    }
}

// ---------------------------------------------------------------------
// Laws
// ---------------------------------------------------------------------

/// Numbers of two, four and eight bytes have their lowest byte first, and are
/// there just where all their bytes are.
pub proof fn law_numbers_have_their_lowest_byte_first(s: Seq<u8>, offset: int)
    requires
        0 <= offset,
    ensures
        u16_at(s, offset) is Some == (offset + 2 <= s.len()),
        u16_at(s, offset) matches Some(n) ==> n == s[offset] + 256 * s[offset + 1],
        u32_at(s, offset) is Some == (offset + 4 <= s.len()),
        u32_at(s, offset) matches Some(n) ==> n == s[offset] + 256 * (s[offset + 1] + 256 * (s[offset
            + 2] + 256 * s[offset + 3])),
        u64_at(s, offset) is Some == (offset + 8 <= s.len()),
        u64_at(s, offset) matches Some(n) ==> n == s[offset] + 256 * (s[offset + 1] + 256 * (s[offset
            + 2] + 256 * (s[offset + 3] + 256 * (s[offset + 4] + 256 * (s[offset + 5] + 256 * (s[offset
            + 6] + 256 * s[offset + 7])))))),
{
}

/// Bytes at an offset are those from there on, and are there just where all of
/// them are.
pub proof fn law_bytes_stand_at_their_offset(s: Seq<u8>, offset: int, len: int, i: int)
    requires
        0 <= offset,
        0 <= len,
    ensures
        bytes_at(s, offset, len) is Some == (offset + len <= s.len()),
        bytes_at(s, offset, len) matches Some(found) ==> found.len() == len && (0 <= i < len
            ==> found[i] == s[offset + i]),
        byte_at(s, offset) is Some == (offset < s.len()),
        byte_at(s, offset) matches Some(b) ==> b == s[offset],
{
}

/// A text that a zero ends is all that stands in front of the zero, wherever in
/// the input it is; what is behind the zero is no part of it. Where none ends it,
/// it ends after as many bytes as are allowed, or with the input.
pub proof fn law_zero_ends_a_text(before: Seq<u8>, body: Seq<u8>, behind: Seq<u8>, max_len: int)
    requires
        forall|i: int| 0 <= i < body.len() ==> #[trigger] body[i] != 0,
        0 <= max_len,
    ensures
        ({
            let at = before.len() as int;
            let start = if body.len() <= max_len {
                body
            } else {
                body.take(max_len)
            };
            &&& cstr_at(before + body + seq![0u8] + behind, at, max_len) == Some(
                text::utf8_lossy(start),
            )
            &&& cstr_at(before + body, at, max_len) == Some(text::utf8_lossy(start))
            &&& cstr_at(before, at + 1, max_len) is None
        }),
{
    let at = before.len() as int;
    let n = if body.len() <= max_len {
        body.len() as int
    } else {
        max_len
    };
    let start = if body.len() <= max_len {
        body
    } else {
        body.take(max_len)
    };
    let ended = before + body + seq![0u8] + behind;
    let open = before + body;
    let end = if at + max_len <= ended.len() {
        at + max_len
    } else {
        ended.len() as int
    };
    let found = ended.subrange(at, end);
    assert forall|i: int| 0 <= i < n implies found[i] != 0 by {
        assert(found[i] == body[i]);
    }
    if n < found.len() {
        assert(found[n] == 0);
    }
    lemma_before_nul(found, n);
    assert(found.take(n) =~= start);
    let last = if at + max_len <= open.len() {
        at + max_len
    } else {
        open.len() as int
    };
    let rest = open.subrange(at, last);
    assert forall|i: int| 0 <= i < n implies rest[i] != 0 by {
        assert(rest[i] == body[i]);
    }
    lemma_before_nul(rest, n);
    assert(rest.take(n) =~= start);
}

} // verus!
