//! MS-XCA "Xpress Huffman" (LZXPRESS Huffman) decompression: the format in
//! which Windows 8 and later compress Prefetch (.pf) files under the
//! "MAM\x04" wrapper (see `prefetch.rs`).
//!
//! A stream is a run of chunks. Each chunk starts with a 256-byte table of
//! 512 canonical-Huffman code lengths (literals 0 to 255, back-references
//! 256 to 511) and goes on with a bit stream of 16-bit little-endian words,
//! the most significant bit first. The extended length of a match stands in
//! raw bytes of the stream, at the byte position up to which words have been
//! taken into the bit accumulator.
//!
//! No function here panics: a truncated, corrupt or hostile stream gives `None`.

use vstd::arithmetic::power2::*;
use vstd::prelude::*;

use super::reader;
use super::reader::Reader;
use crate::text;

verus! {

broadcast use vstd::slice::group_slice_axioms;

/// The size of a chunk's table of code lengths.
pub const HUFFMAN_TABLE_BYTES: usize = 256;

/// The longest code.
pub const MAX_CODE_LENGTH: usize = 15;

/// Hard cap on the claimed decompressed size, held against the size before
/// anything is allocated.
pub const MAX_DECOMPRESSED_SIZE: usize = 33_554_432;

/// The number of output bytes after which a fresh table starts; the last
/// chunk may be shorter.
pub const CHUNK_SIZE: usize = 65_536;

// ---------------------------------------------------------------------
// Canonical codes
// ---------------------------------------------------------------------

/// The code lengths that a table packs two to a byte: the low half for the
/// even symbol, the high half for the odd one.
pub open spec fn code_lengths(table: Seq<u8>) -> Seq<nat> {
    Seq::new(
        2 * table.len(),
        |i: int|
            if i % 2 == 0 {
                (table[i / 2] % 16) as nat
            } else {
                (table[i / 2] / 16) as nat
            },
    )
}

/// The symbols below `n` with codes of `len` bits, ascending.
pub open spec fn symbols_below(lengths: Seq<nat>, len: nat, n: nat) -> Seq<u16>
    decreases n,
{
    if n == 0 {
        seq![]
    } else {
        let lower = symbols_below(lengths, len, (n - 1) as nat);
        if lengths[n - 1] == len {
            lower.push((n - 1) as u16)
        } else {
            lower
        }
    }
}

/// The symbols with codes of `len` bits, ascending.
pub open spec fn symbols_of(lengths: Seq<nat>, len: nat) -> Seq<u16> {
    symbols_below(lengths, len, lengths.len())
}

/// The smallest code of `len` bits. Codes of one length are consecutive, and
/// those of the next length start behind them.
pub open spec fn first_code(lengths: Seq<nat>, len: nat) -> nat
    decreases len,
{
    if len <= 1 {
        0
    } else {
        2 * (first_code(lengths, (len - 1) as nat) + symbols_of(lengths, (len - 1) as nat).len())
    }
}

/// The symbols with codes of less than `len` bits, by length and then ascending.
pub open spec fn listed_below(lengths: Seq<nat>, len: nat) -> Seq<u16>
    decreases len,
{
    if len <= 1 {
        seq![]
    } else {
        listed_below(lengths, (len - 1) as nat) + symbols_of(lengths, (len - 1) as nat)
    }
}

/// Whether any symbol has a code.
pub open spec fn has_codes(lengths: Seq<nat>) -> bool {
    exists|i: int| 0 <= i < lengths.len() && #[trigger] lengths[i] != 0
}

proof fn lemma_symbols_below(lengths: Seq<nat>, len: nat, n: nat)
    requires
        n <= lengths.len() <= 512,
    ensures
        symbols_below(lengths, len, n).len() <= n,
        forall|i: int|
            0 <= i < symbols_below(lengths, len, n).len() ==> {
                let s = #[trigger] symbols_below(lengths, len, n)[i];
                s < n && lengths[s as int] == len
            },
    decreases n,
{
    if n > 0 {
        lemma_symbols_below(lengths, len, (n - 1) as nat);
    }
}

/// An upper bound of `first_code`.
spec fn code_cap(len: nat) -> nat
    decreases len,
{
    if len <= 1 {
        0
    } else {
        2 * (code_cap((len - 1) as nat) + 512)
    }
}

proof fn lemma_first_code_cap(lengths: Seq<nat>, len: nat)
    requires
        lengths.len() <= 512,
        len <= 16,
    ensures
        first_code(lengths, len) <= code_cap(len) <= 33_553_408,
    decreases len,
{
    if len > 1 {
        lemma_first_code_cap(lengths, (len - 1) as nat);
        lemma_symbols_below(lengths, (len - 1) as nat, lengths.len());
    }
    lemma_code_cap_grows(len, 16);
    assert(code_cap(16) == 33_553_408) by {
        reveal_with_fuel(code_cap, 17);
    }
}

proof fn lemma_code_cap_grows(a: nat, b: nat)
    requires
        a <= b,
    ensures
        code_cap(a) <= code_cap(b),
    decreases b,
{
    if a < b {
        lemma_code_cap_grows(a, (b - 1) as nat);
    }
}

/// A canonical decode table.
pub struct HuffmanTable {
    /// The symbols in canonical order: by code length, then by value.
    pub symbols_by_length: Vec<u16>,
    /// The smallest code of each length.
    pub first_code: [u32; 16],
    /// Where the symbols of each length start in `symbols_by_length`.
    pub first_symbol_index: [usize; 16],
    /// The number of symbols of each length.
    pub count_at_length: [u16; 16],
    /// The code lengths that the table stands for.
    pub lengths: Ghost<Seq<nat>>,
}

/// Whether a smallest code, a start in the list of symbols and a count are
/// those of the codes of `len` bits.
pub open spec fn is_entry(
    lengths: Seq<nat>,
    len: nat,
    symbols: Seq<u16>,
    first: u32,
    start: usize,
    count: u16,
) -> bool {
    let syms = symbols_of(lengths, len);
    &&& first == first_code(lengths, len)
    &&& count == syms.len()
    &&& start == listed_below(lengths, len).len()
    &&& start + syms.len() <= symbols.len()
    &&& symbols.subrange(start as int, start + syms.len()) == syms
}

proof fn lemma_entry_stays(
    lengths: Seq<nat>,
    len: nat,
    symbols: Seq<u16>,
    more: Seq<u16>,
    first: u32,
    start: usize,
    count: u16,
)
    requires
        is_entry(lengths, len, symbols, first, start, count),
    ensures
        is_entry(lengths, len, symbols + more, first, start, count),
{
    let n = symbols_of(lengths, len).len();
    assert((symbols + more).subrange(start as int, start + n) =~= symbols.subrange(
        start as int,
        start + n,
    ));
}

impl HuffmanTable {
    /// Whether the entries for codes of `len` bits are those of the code lengths.
    pub open spec fn entry_wf(self, len: int) -> bool {
        is_entry(
            self.lengths@,
            len as nat,
            self.symbols_by_length@,
            self.first_code@[len],
            self.first_symbol_index@[len],
            self.count_at_length@[len],
        )
    }

    /// Whether the table is the canonical one for its code lengths.
    pub open spec fn wf(self) -> bool {
        &&& self.lengths@.len() == 512
        &&& self.symbols_by_length@ == listed_below(self.lengths@, 16)
        &&& forall|len: int| 1 <= len <= 15 ==> #[trigger] self.entry_wf(len)
    }
}

/// The 512 code lengths of a raw table, unpacked.
fn unpack_lengths(raw_table: &[u8; 256]) -> (r: Vec<u8>)
    ensures
        r@.len() == 512,
        code_lengths(raw_table@).len() == 512,
        forall|i: int| 0 <= i < 512 ==> #[trigger] r@[i] == code_lengths(raw_table@)[i],
        forall|i: int| 0 <= i < 512 ==> #[trigger] r@[i] < 16,
{
    let mut r: Vec<u8> = Vec::new();
    let mut i: usize = 0;
    while i < 256
        invariant
            i <= 256,
            r@.len() == 2 * i,
            forall|k: int| 0 <= k < r@.len() ==> #[trigger] r@[k] == code_lengths(raw_table@)[k],
            forall|k: int| 0 <= k < r@.len() ==> #[trigger] r@[k] < 16,
        decreases 256 - i,
    {
        let byte: u8 = raw_table[i];
        r.push(byte % 16);
        r.push(byte / 16);
        i += 1;
    }
    r
}

/// Appends the symbols with codes of `len` bits; how many there are.
fn collect_symbols(lengths: &Vec<u8>, len: usize, out: &mut Vec<u16>, Ghost(ls): Ghost<Seq<nat>>) -> (r:
    usize)
    requires
        lengths@.len() == 512,
        ls.len() == 512,
        forall|i: int| 0 <= i < 512 ==> #[trigger] lengths@[i] == ls[i],
    ensures
        final(out)@ == old(out)@ + symbols_of(ls, len as nat),
        r == symbols_of(ls, len as nat).len(),
        r <= 512,
{
    let mut count: usize = 0;
    let mut sym: usize = 0;
    while sym < 512
        invariant
            lengths@.len() == 512,
            ls.len() == 512,
            forall|i: int| 0 <= i < 512 ==> #[trigger] lengths@[i] == ls[i],
            sym <= 512,
            count <= sym,
            out@ =~= old(out)@ + symbols_below(ls, len as nat, sym as nat),
            count == symbols_below(ls, len as nat, sym as nat).len(),
        decreases 512 - sym,
    {
        if lengths[sym] as usize == len {
            out.push(sym as u16);
            count += 1;
        }
        sym += 1;
    }
    count
}

/// Builds the canonical decode table of a raw table of code lengths. `None`
/// where every length is zero: such a table has no code at all.
pub fn build_huffman_table(raw_table: &[u8; 256]) -> (r: Option<HuffmanTable>)
    ensures
        r is Some == has_codes(code_lengths(raw_table@)),
        r matches Some(t) ==> t.wf() && t.lengths@ == code_lengths(raw_table@),
{
    let lengths = unpack_lengths(raw_table);
    let ghost ls = code_lengths(raw_table@);

    let mut any = false;
    let mut i: usize = 0;
    while i < 512
        invariant
            lengths@.len() == 512,
            ls.len() == 512,
            forall|k: int| 0 <= k < 512 ==> #[trigger] lengths@[k] == ls[k],
            i <= 512,
            any == (exists|k: int| 0 <= k < i && #[trigger] ls[k] != 0),
        decreases 512 - i,
    {
        if lengths[i] != 0 {
            any = true;
            assert(ls[i as int] != 0);
        }
        i += 1;
    }
    if !any {
        return None;
    }
    let mut symbols: Vec<u16> = Vec::new();
    let mut firsts: [u32; 16] = [0u32; 16];
    let mut starts: [usize; 16] = [0usize; 16];
    let mut counts: [u16; 16] = [0u16; 16];
    let mut code: u32 = 0;
    let mut len: usize = 1;
    while len <= 15
        invariant
            lengths@.len() == 512,
            ls.len() == 512,
            forall|k: int| 0 <= k < 512 ==> #[trigger] lengths@[k] == ls[k],
            1 <= len <= 16,
            code == first_code(ls, len as nat),
            symbols@.len() <= 512 * (len - 1),
            symbols@ == listed_below(ls, len as nat),
            forall|l: int|
                1 <= l < len ==> #[trigger] is_entry(
                    ls,
                    l as nat,
                    symbols@,
                    firsts@[l],
                    starts@[l],
                    counts@[l],
                ),
        decreases 16 - len,
    {
        let ghost before = symbols@;
        let ghost (firsts0, starts0, counts0) = (firsts@, starts@, counts@);
        let start = symbols.len();
        let count = collect_symbols(&lengths, len, &mut symbols, Ghost(ls));
        firsts[len] = code;
        starts[len] = start;
        counts[len] = count as u16;
        proof {
            lemma_first_code_cap(ls, len as nat);
            let added = symbols_of(ls, len as nat);
            assert forall|l: int| 1 <= l < len + 1 implies #[trigger] is_entry(
                ls,
                l as nat,
                symbols@,
                firsts@[l],
                starts@[l],
                counts@[l],
            ) by {
                if l < len {
                    assert(is_entry(ls, l as nat, before, firsts0[l], starts0[l], counts0[l]));
                    lemma_entry_stays(
                        ls,
                        l as nat,
                        before,
                        added,
                        firsts0[l],
                        starts0[l],
                        counts0[l],
                    );
                } else {
                    assert(symbols@.subrange(start as int, start + added.len()) =~= added);
                }
            }
        }
        code = 2 * (code + count as u32);
        len += 1;
    }
    let ghost collected = symbols@;
    let table = HuffmanTable {
        symbols_by_length: symbols,
        first_code: firsts,
        first_symbol_index: starts,
        count_at_length: counts,
        lengths: Ghost(ls),
    };
    assert forall|len: int| 1 <= len <= 15 implies #[trigger] table.entry_wf(len) by {
        assert(is_entry(ls, len as nat, collected, firsts@[len], starts@[len], counts@[len]));
    }
    Some(table)
}

// ---------------------------------------------------------------------
// The bit stream
// ---------------------------------------------------------------------

/// A place in a bit stream: the byte position up to which words have been
/// taken, and the bits taken but not used yet.
pub struct BitPlace {
    pub pos: int,
    pub bits: Seq<bool>,
}

/// The bits of a word, the most significant first.
pub open spec fn word_bits(word: u16) -> Seq<bool> {
    Seq::new(16, |i: int| (word >> ((15 - i) as u16)) & 1 == 1)
}

/// Takes words while sixteen bits or fewer are at hand and a whole word is left.
pub open spec fn refilled(data: Seq<u8>, b: BitPlace) -> BitPlace
    decreases data.len() - b.pos,
{
    match reader::u16_at(data, b.pos) {
        Some(word) => if b.bits.len() <= 16 {
            refilled(data, BitPlace { pos: b.pos + 2, bits: b.bits + word_bits(word) })
        } else {
            b
        },
        None => b,
    }
}

/// The start of a bit stream.
pub open spec fn stream_start(data: Seq<u8>) -> BitPlace {
    refilled(data, BitPlace { pos: 0, bits: seq![] })
}

/// Whether no bit and no whole word is left. A single byte at the end holds no
/// bits.
pub open spec fn is_exhausted(data: Seq<u8>, b: BitPlace) -> bool {
    b.bits.len() == 0 && b.pos + 2 > data.len()
}

/// The next bit, and the place behind it. An exhausted stream has none: a
/// decoder asks for a bit only where the stream is not exhausted.
pub open spec fn next_bit(data: Seq<u8>, b: BitPlace) -> (nat, BitPlace) {
    let full = refilled(data, b);
    if full.bits.len() == 0 {
        (0, full)
    } else {
        (
            if full.bits[0] {
                1
            } else {
                0
            },
            BitPlace { pos: full.pos, bits: full.bits.skip(1) },
        )
    }
}

/// Reads a bit stream, one bit at a time. Words are taken right before a bit
/// is used and never ahead of that, so that the byte position is the one at
/// which the raw bytes of a match length stand.
pub struct BitReader<'a> {
    data: &'a [u8],
    pos: usize,
    bit_buffer: u32,
    bits_available: u32,
}

/// The bits of an accumulator: the topmost `n`.
spec fn buffer_bits(buffer: u32, n: u32) -> Seq<bool> {
    Seq::new(n as nat, |i: int| (buffer >> ((31 - i) as u32)) & 1 == 1)
}

/// Whether all but the topmost `n` bits are zero.
spec fn clear_below(buffer: u32, n: u32) -> bool {
    n < 32 ==> buffer & (0xffff_ffffu32 >> n) == 0
}

proof fn lemma_fill_bit(buffer: u32, word: u16, n: u32, i: u32)
    by (bit_vector)
    requires
        n <= 16,
        buffer & (0xffff_ffffu32 >> n) == 0,
        i < n + 16,
    ensures
        i < n ==> ((buffer | ((word as u32) << ((16 - n) as u32))) >> ((31 - i) as u32)) & 1 == (
        buffer >> ((31 - i) as u32)) & 1,
        i >= n ==> (((buffer | ((word as u32) << ((16 - n) as u32))) >> ((31 - i) as u32)) & 1 == 1)
            == ((word >> ((15 - (i - n)) as u16)) & 1 == 1),
{
}

proof fn lemma_fill_clear(buffer: u32, word: u16, n: u32)
    by (bit_vector)
    requires
        n <= 16,
        buffer & (0xffff_ffffu32 >> n) == 0,
    ensures
        n < 16 ==> (buffer | ((word as u32) << ((16 - n) as u32))) & (0xffff_ffffu32 >> ((n
            + 16) as u32)) == 0,
{
}

proof fn lemma_shift_bit(buffer: u32, i: u32)
    by (bit_vector)
    requires
        i < 31,
    ensures
        ((buffer << 1u32) >> ((31 - i) as u32)) & 1 == (buffer >> ((31 - (i + 1)) as u32)) & 1,
{
}

proof fn lemma_shift_clear(buffer: u32, n: u32)
    by (bit_vector)
    requires
        n <= 32,
        n < 32 ==> buffer & (0xffff_ffffu32 >> n) == 0,
    ensures
        n > 0 ==> (buffer << 1u32) & (0xffff_ffffu32 >> ((n - 1) as u32)) == 0,
        n == 0 ==> buffer == 0 && (buffer << 1u32) == 0,
        n == 0 ==> 0u32 & (0xffff_ffffu32 >> 0u32) == 0,
{
}

proof fn lemma_top_bit(buffer: u32)
    by (bit_vector)
    ensures
        buffer >> 31u32 <= 1,
        (buffer >> 31u32) & 1 == buffer >> 31u32,
        0u32 >> 31u32 == 0,
{
}

proof fn lemma_zero_clear()
    by (bit_vector)
    ensures
        0u32 & (0xffff_ffffu32 >> 0u32) == 0,
{
}

impl<'a> BitReader<'a> {
    /// The bytes under the reader.
    pub closed spec fn source(&self) -> Seq<u8> {
        self.data@
    }

    /// The reader's place in the bit stream.
    pub closed spec fn place(&self) -> BitPlace {
        BitPlace {
            pos: self.pos as int,
            bits: buffer_bits(self.bit_buffer, self.bits_available),
        }
    }

    /// Whether the accumulator holds no stray bits.
    pub closed spec fn wf(&self) -> bool {
        &&& self.bits_available <= 32
        &&& clear_below(self.bit_buffer, self.bits_available)
        &&& self.pos <= self.data@.len()
    }

    /// A reader at the start of a bit stream.
    pub fn new(data: &'a [u8]) -> (r: Self)
        ensures
            r.wf(),
            r.source() == data@,
            r.place() == stream_start(data@),
    {
        let mut br = Self { data, pos: 0, bit_buffer: 0, bits_available: 0 };
        proof {
            lemma_zero_clear();
            assert(br.place().bits =~= seq![]);
        }
        br.fill();
        br
    }

    /// Takes words while there is room for one and one is left.
    fn fill(&mut self)
        requires
            old(self).wf(),
        ensures
            final(self).wf(),
            final(self).source() == old(self).source(),
            final(self).place() == refilled(old(self).source(), old(self).place()),
    {
        let total = self.data.len();
        while self.bits_available <= 16 && self.pos <= total && total - self.pos >= 2
            invariant
                total == self.data@.len(),
                self.wf(),
                self.source() == old(self).source(),
                refilled(self.source(), self.place()) == refilled(
                    old(self).source(),
                    old(self).place(),
                ),
            decreases total - self.pos,
        {
            let ghost before = *self;
            let word: u16 = self.data[self.pos] as u16 + 0x100 * (self.data[self.pos + 1] as u16);
            let n = self.bits_available;
            self.bit_buffer = self.bit_buffer | ((word as u32) << (16 - n));
            self.pos += 2;
            self.bits_available = n + 16;
            proof {
                lemma_fill_clear(before.bit_buffer, word, n);
                assert(self.place().bits =~= before.place().bits + word_bits(word)) by {
                    assert forall|i: int| 0 <= i < n + 16 implies #[trigger] self.place().bits[i]
                        == (before.place().bits + word_bits(word))[i] by {
                        lemma_fill_bit(before.bit_buffer, word, n, i as u32);
                    }
                }
            }
        }
    }

    /// The next bit, left in place.
    fn peek1(&mut self) -> (r: u32)
        requires
            old(self).wf(),
        ensures
            final(self).wf(),
            final(self).source() == old(self).source(),
            final(self).place() == refilled(old(self).source(), old(self).place()),
            r == next_bit(old(self).source(), old(self).place()).0,
    {
        self.fill();
        proof {
            lemma_top_bit(self.bit_buffer);
            lemma_shift_clear(self.bit_buffer, self.bits_available);
        }
        self.bit_buffer >> 31
    }

    /// Steps over the bit that `peek1` gave.
    fn consume1(&mut self)
        requires
            old(self).wf(),
        ensures
            final(self).wf(),
            final(self).source() == old(self).source(),
            final(self).place().pos == old(self).place().pos,
            final(self).place().bits == (if old(self).place().bits.len() == 0 {
                old(self).place().bits
            } else {
                old(self).place().bits.skip(1)
            }),
    {
        let ghost before = *self;
        self.bit_buffer = self.bit_buffer << 1;
        self.bits_available = self.bits_available.saturating_sub(1);
        proof {
            lemma_shift_clear(before.bit_buffer, before.bits_available);
            if before.bits_available > 0 {
                assert forall|i: int| 0 <= i < self.bits_available implies #[trigger] self.place().bits[i]
                    == before.place().bits[i + 1] by {
                    lemma_shift_bit(before.bit_buffer, i as u32);
                }
                assert(self.place().bits =~= before.place().bits.skip(1));
            } else {
                assert(self.place().bits =~= before.place().bits);
            }
        }
    }

    /// The next bit.
    fn take_bit(&mut self) -> (r: u32)
        requires
            old(self).wf(),
        ensures
            final(self).wf(),
            final(self).source() == old(self).source(),
            r <= 1,
            (r as nat, final(self).place()) == next_bit(old(self).source(), old(self).place()),
    {
        let bit = self.peek1();
        self.consume1();
        bit
    }

    /// The number of bytes taken so far: where the next chunk's table starts.
    pub fn bytes_consumed(&self) -> (r: usize)
        requires
            self.wf(),
        ensures
            r == self.place().pos,
            r <= self.source().len(),
    {
        self.pos
    }

    /// Whether no bit and no whole word is left.
    pub fn exhausted(&self) -> (r: bool)
        ensures
            r == is_exhausted(self.source(), self.place()),
    {
        let total = self.data.len();
        self.bits_available == 0 && (self.pos >= total || total - self.pos < 2)
    }

    /// A raw byte at the byte position, past the bit accumulator.
    fn read_raw_u8(&mut self) -> (r: Option<u8>)
        requires
            old(self).wf(),
        ensures
            final(self).wf(),
            final(self).source() == old(self).source(),
            r == reader::byte_at(old(self).source(), old(self).place().pos),
            r is Some ==> final(self).place() == (BitPlace {
                pos: old(self).place().pos + 1,
                bits: old(self).place().bits,
            }),
            r is None ==> final(self).place() == old(self).place(),
    {
        if self.pos < self.data.len() {
            let b: u8 = self.data[self.pos];
            self.pos += 1;
            Some(b)
        } else {
            None
        }
    }

    /// A raw 16-bit number at the byte position.
    fn read_raw_u16(&mut self) -> (r: Option<u16>)
        requires
            old(self).wf(),
        ensures
            final(self).wf(),
            final(self).source() == old(self).source(),
            r == reader::u16_at(old(self).source(), old(self).place().pos),
            r is Some ==> final(self).place() == (BitPlace {
                pos: old(self).place().pos + 2,
                bits: old(self).place().bits,
            }),
            r is None ==> final(self).place() == old(self).place(),
    {
        let r = Reader::new(self.data).u16(self.pos);
        if r.is_some() {
            assert(self.pos + 2 <= self.data.len());
            self.pos += 2;
        }
        r
    }

    /// A raw 32-bit number at the byte position.
    fn read_raw_u32(&mut self) -> (r: Option<u32>)
        requires
            old(self).wf(),
        ensures
            final(self).wf(),
            final(self).source() == old(self).source(),
            r == reader::u32_at(old(self).source(), old(self).place().pos),
            r is Some ==> final(self).place() == (BitPlace {
                pos: old(self).place().pos + 4,
                bits: old(self).place().bits,
            }),
            r is None ==> final(self).place() == old(self).place(),
    {
        let r = Reader::new(self.data).u32(self.pos);
        if r.is_some() {
            assert(self.pos + 4 <= self.data.len());
            self.pos += 4;
        }
        r
    }
}

// ---------------------------------------------------------------------
// Symbols and matches
// ---------------------------------------------------------------------

/// The symbol whose code goes on at `b`, after `len` bits of value `code`
/// that are no code yet.
pub open spec fn symbol_from(
    lengths: Seq<nat>,
    data: Seq<u8>,
    b: BitPlace,
    code: nat,
    len: nat,
) -> Option<(u16, BitPlace)>
    decreases 15 - len,
{
    if len >= 15 || is_exhausted(data, b) {
        None
    } else {
        let (bit, behind) = next_bit(data, b);
        let longer = 2 * code + bit;
        let syms = symbols_of(lengths, len + 1);
        let first = first_code(lengths, len + 1);
        if first <= longer < first + syms.len() {
            Some((syms[longer - first], behind))
        } else {
            symbol_from(lengths, data, behind, longer, len + 1)
        }
    }
}

/// The symbol at `b`, and the place behind its code.
pub open spec fn next_symbol(lengths: Seq<nat>, data: Seq<u8>, b: BitPlace) -> Option<
    (u16, BitPlace),
> {
    symbol_from(lengths, data, b, 0, 0)
}

/// The length of a match, and the byte position behind its raw bytes. The
/// nibble 15 calls for a raw byte on top of it, the byte 255 for a raw 16-bit
/// number in place of both, and the number 0 for a raw 32-bit number in its place.
pub open spec fn match_length(data: Seq<u8>, pos: int, nibble: nat) -> Option<(nat, int)> {
    if nibble < 15 {
        Some((nibble + 3, pos))
    } else {
        match reader::byte_at(data, pos) {
            None => None,
            Some(extra) => if extra < 255 {
                Some(((15 + extra + 3) as nat, pos + 1))
            } else {
                match reader::u16_at(data, pos + 1) {
                    None => None,
                    Some(short) => if short != 0 {
                        Some(((short + 3) as nat, pos + 3))
                    } else {
                        match reader::u32_at(data, pos + 3) {
                            None => None,
                            Some(long) => if long + 3 <= u32::MAX {
                                Some(((long + 3) as nat, pos + 7))
                            } else {
                                None
                            },
                        }
                    },
                }
            },
        }
    }
}

/// `value` with the next `n` bits behind it.
pub open spec fn number_from(data: Seq<u8>, b: BitPlace, value: nat, n: nat) -> Option<
    (nat, BitPlace),
>
    decreases n,
{
    if n == 0 {
        Some((value, b))
    } else if is_exhausted(data, b) {
        None
    } else {
        let (bit, behind) = next_bit(data, b);
        number_from(data, behind, 2 * value + bit, (n - 1) as nat)
    }
}

/// The length and the distance of the match that a symbol from 256 on calls
/// for, and the place behind it. The length comes first, its raw bytes
/// included; the distance has its leading one left out of the bit stream.
pub open spec fn match_at(data: Seq<u8>, b: BitPlace, symbol: u16) -> Option<(nat, nat, BitPlace)> {
    let sym = (symbol - 256) as nat;
    match match_length(data, b.pos, sym % 16) {
        None => None,
        Some((length, pos)) => match number_from(
            data,
            BitPlace { pos, bits: b.bits },
            1,
            (sym / 16) % 16,
        ) {
            None => None,
            Some((distance, behind)) => Some((length, distance, behind)),
        },
    }
}

/// The symbol at the reader's place.
fn decode_symbol(table: &HuffmanTable, br: &mut BitReader) -> (r: Option<u16>)
    requires
        table.wf(),
        old(br).wf(),
    ensures
        final(br).wf(),
        final(br).source() == old(br).source(),
        match r {
            Some(symbol) => symbol < 512 && next_symbol(
                table.lengths@,
                old(br).source(),
                old(br).place(),
            ) == Some((symbol, final(br).place())),
            None => next_symbol(table.lengths@, old(br).source(), old(br).place()) is None,
        },
        forall|symbol: nat, behind: BitPlace| #[trigger]
            is_spelled(table.lengths@, symbol, old(br).source(), old(br).place(), behind) ==> r
                == Some(symbol as u16) && final(br).place() == behind,
{
    let ghost ls = table.lengths@;
    let ghost data = br.source();
    let ghost start = br.place();
    proof {
        assert forall|symbol: nat, behind: BitPlace| #[trigger]
            is_spelled(ls, symbol, data, start, behind) implies next_symbol(ls, data, start)
            == Some((symbol as u16, behind)) by {
            law_decoder_inverts_code(ls, symbol, data, start, behind);
        }
    }
    let mut code: u32 = 0;
    let mut len: usize = 1;
    while len <= 15
        invariant
            table.wf(),
            ls == table.lengths@,
            br.wf(),
            br.source() == data,
            1 <= len <= 16,
            data == old(br).source(),
            start == old(br).place(),
            code < spread(len as nat),
            forall|symbol: nat, behind: BitPlace| #[trigger]
                is_spelled(ls, symbol, data, start, behind) ==> next_symbol(ls, data, start)
                    == Some((symbol as u16, behind)),
            symbol_from(ls, data, br.place(), code as nat, (len - 1) as nat) == next_symbol(
                ls,
                data,
                start,
            ),
        decreases 16 - len,
    {
        if br.exhausted() {
            return None;
        }
        proof {
            lemma_spread(len as nat);
        }
        let bit = br.take_bit();
        code = 2 * code + bit;
        assert(table.entry_wf(len as int));
        let count = table.count_at_length[len] as u32;
        let first = table.first_code[len];
        if code >= first && code - first < count {
            assert(table.symbols_by_length@.len() == table.symbols_by_length.len());
            let idx = table.first_symbol_index[len] + (code - first) as usize;
            let symbol = table.symbols_by_length[idx];
            proof {
                let syms = symbols_of(ls, len as nat);
                lemma_symbols_below(ls, len as nat, 512);
                assert(syms[code - first] == symbol);
            }
            return Some(symbol);
        }
        len += 1;
    }
    None
}

/// One more than the largest value of `len - 1` bits.
spec fn spread(len: nat) -> nat
    decreases len,
{
    if len <= 1 {
        1
    } else {
        2 * spread((len - 1) as nat)
    }
}

proof fn lemma_spread(len: nat)
    requires
        1 <= len <= 15,
    ensures
        2 * spread(len) == spread(len + 1) <= 32768,
{
    reveal_with_fuel(spread, 17);
}

/// The length and the distance of the match that `symbol` calls for.
fn decode_match(br: &mut BitReader, symbol: u16) -> (r: Option<(u32, u32)>)
    requires
        256 <= symbol < 512,
        old(br).wf(),
    ensures
        final(br).wf(),
        final(br).source() == old(br).source(),
        match r {
            Some((length, distance)) => length >= 3 && distance >= 1 && match_at(
                old(br).source(),
                old(br).place(),
                symbol,
            ) == Some((length as nat, distance as nat, final(br).place())),
            None => match_at(old(br).source(), old(br).place(), symbol) is None,
        },
{
    let sym: u32 = symbol as u32 - 256;
    let nibble: u32 = sym % 16;
    let dist_bits: u32 = (sym / 16) % 16;
    let ghost data = br.source();
    let ghost start = br.place();

    let mut length: u32 = nibble + 3;
    if nibble == 15 {
        let extra = match br.read_raw_u8() {
            Some(b) => b as u32,
            None => { return None; },
        };
        length = 15 + extra + 3;
        if extra == 255 {
            let mut long: u32 = match br.read_raw_u16() {
                Some(w) => w as u32,
                None => { return None; },
            };
            if long == 0 {
                long =
                match br.read_raw_u32() {
                    Some(w) => w,
                    None => { return None; },
                };
            }
            if long > u32::MAX - 3 {
                return None;
            }
            length = long + 3;
        }
    }
    let ghost pos = br.place().pos;
    assert(match_length(data, start.pos, nibble as nat) == Some((length as nat, pos)));
    assert(br.place() == BitPlace { pos, bits: start.bits });
    let ghost behind_length = br.place();

    let mut distance: u32 = 1;
    let mut i: u32 = 0;
    proof {
        lemma_spread(1);
    }
    while i < dist_bits
        invariant
            br.wf(),
            br.source() == data,
            data == old(br).source(),
            i <= dist_bits <= 15,
            1 <= distance < spread((i + 2) as nat),
            number_from(data, br.place(), distance as nat, (dist_bits - i) as nat) == number_from(
                data,
                behind_length,
                1,
                dist_bits as nat,
            ),
            match_length(data, start.pos, nibble as nat) == Some((length as nat, behind_length.pos)),
            behind_length.bits == start.bits,
            start == old(br).place(),
            sym == symbol - 256,
            nibble == sym % 16,
            dist_bits == (sym / 16) % 16,
        decreases dist_bits - i,
    {
        if br.exhausted() {
            return None;
        }
        proof {
            lemma_spread((i + 1) as nat);
            reveal_with_fuel(spread, 17);
        }
        let bit = br.take_bit();
        distance = 2 * distance + bit;
        i += 1;
    }
    Some((length, distance))
}

// ---------------------------------------------------------------------
// Streams
// ---------------------------------------------------------------------

/// `out` with `n` more bytes, each the one that stands `distance` before it.
pub open spec fn copied(out: Seq<u8>, distance: nat, n: nat) -> Seq<u8>
    decreases n,
{
    if n == 0 {
        out
    } else {
        copied(out.push(out[out.len() - distance]), distance, (n - 1) as nat)
    }
}

/// A copy adds exactly as many bytes as it is asked for.
pub proof fn lemma_copied_len(out: Seq<u8>, distance: nat, n: nat)
    ensures
        copied(out, distance, n).len() == out.len() + n,
    decreases n,
{
    if n > 0 {
        lemma_copied_len(out.push(out[out.len() - distance]), distance, (n - 1) as nat);
    }
}

/// The lesser of two numbers.
pub open spec fn lesser(a: nat, b: nat) -> nat {
    if a <= b {
        a
    } else {
        b
    }
}

/// The output after a chunk's symbols, up to at least `target` bytes, and the
/// place behind them. A match may run past `target`, but not past `size`.
pub open spec fn chunk_output(
    lengths: Seq<nat>,
    data: Seq<u8>,
    b: BitPlace,
    out: Seq<u8>,
    target: nat,
    size: nat,
) -> Option<(Seq<u8>, BitPlace)>
    decreases size - out.len(),
    when target <= size
{
    if out.len() >= target {
        Some((out, b))
    } else {
        match next_symbol(lengths, data, b) {
            None => None,
            Some((symbol, behind)) => if symbol < 256 {
                chunk_output(lengths, data, behind, out.push(symbol as u8), target, size)
            } else {
                match match_at(data, behind, symbol) {
                    None => None,
                    Some((length, distance, next)) => if distance > out.len() {
                        None
                    } else {
                        let n = lesser(length, (size - out.len()) as nat);
                        proof {
                            lemma_copied_len(out, distance, n);
                        }
                        chunk_output(
                            lengths,
                            data,
                            next,
                            copied(out, distance, n),
                            target,
                            size,
                        )
                    },
                }
            },
        }
    }
}

/// A chunk that decodes gives at least its target and at most the whole size.
pub proof fn lemma_chunk_output_len(
    lengths: Seq<nat>,
    data: Seq<u8>,
    b: BitPlace,
    out: Seq<u8>,
    target: nat,
    size: nat,
)
    requires
        target <= size,
        out.len() <= size,
    ensures
        chunk_output(lengths, data, b, out, target, size) matches Some((more, _)) ==> target
            <= more.len() <= size,
    decreases size - out.len(),
{
    if out.len() < target {
        if let Some((symbol, behind)) = next_symbol(lengths, data, b) {
            if symbol < 256 {
                lemma_chunk_output_len(
                    lengths,
                    data,
                    behind,
                    out.push(symbol as u8),
                    target,
                    size,
                );
            } else if let Some((length, distance, next)) = match_at(data, behind, symbol) {
                if distance <= out.len() {
                    let n = lesser(length, (size - out.len()) as nat);
                    lemma_copied_len(out, distance, n);
                    lemma_chunk_output_len(
                        lengths,
                        data,
                        next,
                        copied(out, distance, n),
                        target,
                        size,
                    );
                }
            }
        }
    }
}

/// The output of a stream from a chunk boundary on.
pub open spec fn stream_output(compressed: Seq<u8>, consumed: int, out: Seq<u8>, size: nat) -> Option<
    Seq<u8>,
>
    decreases size - out.len(),
{
    if out.len() >= size {
        Some(out)
    } else {
        match reader::bytes_at(compressed, consumed, 256) {
            None => None,
            Some(table) => if !has_codes(code_lengths(table)) {
                None
            } else {
                let data = compressed.skip(consumed + 256);
                let target = out.len() + lesser(65_536, (size - out.len()) as nat);
                match chunk_output(
                    code_lengths(table),
                    data,
                    stream_start(data),
                    out,
                    target,
                    size,
                ) {
                    None => None,
                    Some((more, b)) => {
                        proof {
                            lemma_chunk_output_len(
                                code_lengths(table),
                                data,
                                stream_start(data),
                                out,
                                target,
                                size,
                            );
                        }
                        stream_output(compressed, consumed + 256 + b.pos, more, size)
                    },
                }
            },
        }
    }
}

/// The bytes that a stream stands for, where it is sound and holds `size` of them.
pub open spec fn decompressed(compressed: Seq<u8>, size: nat) -> Option<Seq<u8>> {
    if size > MAX_DECOMPRESSED_SIZE {
        None
    } else {
        stream_output(compressed, 0, seq![], size)
    }
}

/// The 256 bytes at `offset`, as a table of code lengths.
fn table_at(compressed: &[u8], offset: usize) -> (r: Option<[u8; 256]>)
    ensures
        r is Some == reader::in_bounds(compressed@, offset as int, 256),
        r matches Some(t) ==> t@ == compressed@.subrange(offset as int, offset + 256),
{
    if offset > compressed.len() || compressed.len() - offset < 256 {
        return None;
    }
    let mut table: [u8; 256] = [0u8; 256];
    let mut i: usize = 0;
    while i < 256
        invariant
            i <= 256,
            offset + 256 <= compressed@.len() <= usize::MAX,
            forall|k: int| 0 <= k < i ==> table@[k] == #[trigger] compressed@[offset + k],
        decreases 256 - i,
    {
        table[i] = compressed[offset + i];
        i += 1;
    }
    assert(table@ =~= compressed@.subrange(offset as int, offset + 256)) by {
        assert forall|k: int| 0 <= k < 256 implies table@[k] == compressed@.subrange(
            offset as int,
            offset + 256,
        )[k] by {
            assert(table@[k] == compressed@[offset + k]);
        }
    }
    Some(table)
}

/// Appends `n` bytes, each the one that stands `distance` before it.
fn copy_match(out: &mut Vec<u8>, distance: usize, n: usize)
    requires
        1 <= distance <= old(out)@.len(),
        old(out)@.len() + n <= usize::MAX,
    ensures
        final(out)@ == copied(old(out)@, distance as nat, n as nat),
{
    let mut i: usize = 0;
    while i < n
        invariant
            i <= n,
            1 <= distance <= out@.len(),
            out@.len() == old(out)@.len() + i,
            copied(out@, distance as nat, (n - i) as nat) == copied(
                old(out)@,
                distance as nat,
                n as nat,
            ),
        decreases n - i,
    {
        let b: u8 = out[out.len() - distance];
        out.push(b);
        i += 1;
    }
}

/// Appends the output of one chunk; where its bit stream ends.
fn inflate_chunk(
    table: &HuffmanTable,
    data: &[u8],
    out: &mut Vec<u8>,
    target: usize,
    size: usize,
) -> (r: Option<usize>)
    requires
        table.wf(),
        old(out)@.len() <= target <= size,
    ensures
        match r {
            Some(end) => chunk_output(
                table.lengths@,
                data@,
                stream_start(data@),
                old(out)@,
                target as nat,
                size as nat,
            ) matches Some((more, b)) && more == final(out)@ && b.pos == end && end
                <= data@.len(),
            None => chunk_output(
                table.lengths@,
                data@,
                stream_start(data@),
                old(out)@,
                target as nat,
                size as nat,
            ) is None,
        },
{
    let mut br = BitReader::new(data);
    let ghost whole = chunk_output(
        table.lengths@,
        data@,
        stream_start(data@),
        old(out)@,
        target as nat,
        size as nat,
    );
    while out.len() < target
        invariant
            table.wf(),
            target <= size,
            out@.len() <= size,
            br.wf(),
            br.source() == data@,
            whole == chunk_output(
                table.lengths@,
                data@,
                stream_start(data@),
                old(out)@,
                target as nat,
                size as nat,
            ),
            chunk_output(
                table.lengths@,
                data@,
                br.place(),
                out@,
                target as nat,
                size as nat,
            ) == whole,
        decreases size - out@.len(),
    {
        let symbol = match decode_symbol(table, &mut br) {
            Some(symbol) => symbol,
            None => { return None; },
        };
        if symbol < 256 {
            out.push(symbol as u8);
            continue ;
        }
        let (length, distance) = match decode_match(&mut br, symbol) {
            Some(found) => found,
            None => { return None; },
        };
        if distance as usize > out.len() {
            return None;
        }
        let room = size - out.len();
        let n: usize = if (length as usize) <= room {
            length as usize
        } else {
            room
        };
        proof {
            lemma_copied_len(out@, distance as nat, n as nat);
        }
        copy_match(out, distance as usize, n);
    }
    Some(br.bytes_consumed())
}

/// Decompresses an LZXPRESS Huffman stream to exactly `decompressed_size`
/// bytes. `None` on a corrupt, truncated or hostile stream, and on a claimed
/// size above the cap.
pub fn decompress(compressed: &[u8], decompressed_size: usize) -> (r: Option<Vec<u8>>)
    ensures
        match r {
            Some(out) => decompressed(compressed@, decompressed_size as nat) == Some(out@),
            None => decompressed(compressed@, decompressed_size as nat) is None,
        },
        r matches Some(out) ==> out@.len() == decompressed_size,
        decompressed_size == 0 ==> r is Some,
        decompressed_size > MAX_DECOMPRESSED_SIZE ==> r is None,
{
    if decompressed_size > MAX_DECOMPRESSED_SIZE {
        return None;
    }
    let room: usize = if decompressed_size <= 1_048_576 {
        decompressed_size
    } else {
        1_048_576
    };
    let mut out: Vec<u8> = Vec::with_capacity(room);
    let mut consumed: usize = 0;
    let total = compressed.len();
    let ghost whole = stream_output(compressed@, 0, seq![], decompressed_size as nat);
    assert(out@ =~= seq![]);
    while out.len() < decompressed_size
        invariant
            decompressed_size <= MAX_DECOMPRESSED_SIZE,
            out@.len() <= decompressed_size,
            total == compressed@.len(),
            consumed <= total,
            whole == stream_output(compressed@, 0, seq![], decompressed_size as nat),
            stream_output(compressed@, consumed as int, out@, decompressed_size as nat) == whole,
        decreases decompressed_size - out@.len(),
    {
        let raw_table = match table_at(compressed, consumed) {
            Some(t) => t,
            None => { return None; },
        };
        let table = match build_huffman_table(&raw_table) {
            Some(t) => t,
            None => { return None; },
        };
        let data: &[u8] = &compressed[consumed + 256..total];
        assert(data@ =~= compressed@.skip(consumed + 256));
        let left = decompressed_size - out.len();
        let target: usize = if left <= CHUNK_SIZE {
            decompressed_size
        } else {
            out.len() + CHUNK_SIZE
        };
        proof {
            lemma_chunk_output_len(
                table.lengths@,
                data@,
                stream_start(data@),
                out@,
                target as nat,
                decompressed_size as nat,
            );
        }
        let used = match inflate_chunk(&table, data, &mut out, target, decompressed_size) {
            Some(used) => used,
            None => { return None; },
        };
        consumed = consumed + 256 + used;
    }
    Some(out)
}

// ---------------------------------------------------------------------
// Laws
// ---------------------------------------------------------------------

/// What a stream decompresses to has exactly the claimed size.
pub proof fn law_output_has_claimed_size(compressed: Seq<u8>, size: nat)
    ensures
        decompressed(compressed, size) matches Some(out) ==> out.len() == size,
{
    lemma_stream_output_len(compressed, 0, seq![], size);
}

proof fn lemma_stream_output_len(compressed: Seq<u8>, consumed: int, out: Seq<u8>, size: nat)
    requires
        out.len() <= size,
    ensures
        stream_output(compressed, consumed, out, size) matches Some(whole) ==> whole.len() == size,
    decreases size - out.len(),
{
    if out.len() < size {
        if let Some(table) = reader::bytes_at(compressed, consumed, 256) {
            let lengths = code_lengths(table);
            let data = compressed.skip(consumed + 256);
            let target = out.len() + lesser(65_536, (size - out.len()) as nat);
            lemma_chunk_output_len(lengths, data, stream_start(data), out, target, size);
            if let Some((more, b)) = chunk_output(
                lengths,
                data,
                stream_start(data),
                out,
                target,
                size,
            ) {
                lemma_stream_output_len(compressed, consumed + 256 + b.pos, more, size);
            }
        }
    }
}

/// Every bit that a decoder uses stands in the stream: where the stream is not
/// exhausted, a bit is at hand after words were taken.
pub proof fn law_bits_stand_in_stream(data: Seq<u8>, b: BitPlace)
    requires
        0 <= b.pos,
        !is_exhausted(data, b),
    ensures
        refilled(data, b).bits.len() > 0,
{
    lemma_refill_keeps_bits(data, b);
    if b.bits.len() == 0 {
        let word = reader::u16_at(data, b.pos)->0;
        lemma_refill_keeps_bits(
            data,
            BitPlace { pos: b.pos + 2, bits: b.bits + word_bits(word) },
        );
    }
}

proof fn lemma_refill_keeps_bits(data: Seq<u8>, b: BitPlace)
    ensures
        refilled(data, b).bits.len() >= b.bits.len(),
    decreases data.len() - b.pos,
{
    if let Some(word) = reader::u16_at(data, b.pos) {
        if b.bits.len() <= 16 {
            lemma_refill_keeps_bits(
                data,
                BitPlace { pos: b.pos + 2, bits: b.bits + word_bits(word) },
            );
        }
    }
}

/// A stream that ends in its first table, or before the first word behind it,
/// gives no bytes.
pub proof fn law_stream_without_bits_is_rejected(compressed: Seq<u8>, size: nat)
    requires
        compressed.len() < 258,
        size > 0,
    ensures
        decompressed(compressed, size) is None,
{
}

/// The decode table of a canonical code lists every symbol that has a code,
/// each one once: by length, and in ascending order among those of one length.
pub proof fn law_table_lists_symbols(table: HuffmanTable)
    requires
        table.wf(),
    ensures
        forall|symbol: u16| #[trigger]
            table.symbols_by_length@.contains(symbol) <==> symbol < 512 && 1
                <= table.lengths@[symbol as int] <= 15,
        forall|i: int, j: int|
            0 <= i < j < table.symbols_by_length@.len() ==> {
                let a = #[trigger] table.symbols_by_length@[i];
                let b = #[trigger] table.symbols_by_length@[j];
                let (m, n) = (table.lengths@[a as int], table.lengths@[b as int]);
                m < n || (m == n && a < b)
            },
{
    let symbols = table.symbols_by_length@;
    lemma_listed(table.lengths@, 16);
    assert forall|symbol: u16| symbol < 512 && 1 <= table.lengths@[symbol as int]
        <= 15 implies #[trigger] symbols.contains(symbol) by {
        lemma_is_listed(table.lengths@, 16, symbol as nat);
    }
}

proof fn lemma_ascending(lengths: Seq<nat>, len: nat, n: nat)
    requires
        n <= lengths.len() <= 512,
    ensures
        forall|i: int, j: int|
            0 <= i < j < symbols_below(lengths, len, n).len() ==> #[trigger] symbols_below(
                lengths,
                len,
                n,
            )[i] < #[trigger] symbols_below(lengths, len, n)[j],
    decreases n,
{
    if n > 0 {
        lemma_ascending(lengths, len, (n - 1) as nat);
        lemma_symbols_below(lengths, len, (n - 1) as nat);
    }
}

proof fn lemma_listed(lengths: Seq<nat>, len: nat)
    requires
        lengths.len() <= 512,
    ensures
        forall|i: int|
            0 <= i < listed_below(lengths, len).len() ==> {
                let s = #[trigger] listed_below(lengths, len)[i];
                s < lengths.len() && 1 <= lengths[s as int] < len
            },
        forall|i: int, j: int|
            0 <= i < j < listed_below(lengths, len).len() ==> {
                let a = #[trigger] listed_below(lengths, len)[i];
                let b = #[trigger] listed_below(lengths, len)[j];
                let (m, n) = (lengths[a as int], lengths[b as int]);
                m < n || (m == n && a < b)
            },
    decreases len,
{
    if len > 1 {
        let short = (len - 1) as nat;
        lemma_listed(lengths, short);
        lemma_symbols_below(lengths, short, lengths.len());
        lemma_ascending(lengths, short, lengths.len());
        let before = listed_below(lengths, short);
        let added = symbols_below(lengths, short, lengths.len());
        let all = listed_below(lengths, len);
        assert(all == before + added);
        assert forall|i: int| 0 <= i < all.len() implies {
            let s = #[trigger] all[i];
            s < lengths.len() && 1 <= lengths[s as int] < len
        } by {
            if i < before.len() {
                assert(all[i] == before[i]);
            } else {
                assert(all[i] == added[i - before.len()]);
            }
        }
        assert forall|i: int, j: int| 0 <= i < j < all.len() implies {
            let a = #[trigger] all[i];
            let b = #[trigger] all[j];
            let (m, n) = (lengths[a as int], lengths[b as int]);
            m < n || (m == n && a < b)
        } by {
            if j < before.len() {
                assert(all[i] == before[i] && all[j] == before[j]);
            } else if i < before.len() {
                assert(all[i] == before[i] && all[j] == added[j - before.len()]);
            } else {
                assert(all[i] == added[i - before.len()] && all[j] == added[j - before.len()]);
            }
        }
    }
}

proof fn lemma_is_listed(lengths: Seq<nat>, len: nat, symbol: nat)
    requires
        symbol < lengths.len() <= 512,
        1 <= lengths[symbol as int] < len,
    ensures
        listed_below(lengths, len).contains(symbol as u16),
    decreases len,
{
    let short = (len - 1) as nat;
    let before = listed_below(lengths, short);
    let added = symbols_of(lengths, short);
    let all = listed_below(lengths, len);
    if lengths[symbol as int] < short {
        lemma_is_listed(lengths, short, symbol);
        let i = choose|i: int| 0 <= i < before.len() && before[i] == symbol as u16;
        assert(all[i] == symbol as u16);
    } else {
        lemma_rank(lengths, short, symbol, lengths.len());
        let rank = symbols_below(lengths, short, symbol).len();
        assert(all[before.len() as int + rank] == symbol as u16);
    }
}

/// The canonical code of a symbol: symbols of one code length take
/// consecutive codes in their order.
pub open spec fn code_of(lengths: Seq<nat>, symbol: nat) -> nat {
    let len = lengths[symbol as int];
    first_code(lengths, len) + symbols_below(lengths, len, symbol).len()
}

/// Whether the bits from `b` to `behind` are the canonical code of a symbol.
pub open spec fn is_spelled(
    lengths: Seq<nat>,
    symbol: nat,
    data: Seq<u8>,
    b: BitPlace,
    behind: BitPlace,
) -> bool {
    &&& symbol < lengths.len()
    &&& 1 <= lengths[symbol as int] <= 15
    &&& number_from(data, b, 0, lengths[symbol as int]) == Some(
        (code_of(lengths, symbol), behind),
    )
}

/// A match keeps what was put out before, and each of its bytes is the one
/// that stands its distance before it, be that in the match itself.
pub proof fn law_match_repeats_output(out: Seq<u8>, distance: nat, n: nat)
    requires
        1 <= distance <= out.len(),
    ensures
        copied(out, distance, n).len() == out.len() + n,
        forall|i: int| 0 <= i < out.len() ==> #[trigger] copied(out, distance, n)[i] == out[i],
        forall|i: int|
            out.len() <= i < out.len() + n ==> #[trigger] copied(out, distance, n)[i] == copied(
                out,
                distance,
                n,
            )[i - distance],
    decreases n,
{
    if n > 0 {
        let more = out.push(out[out.len() - distance]);
        law_match_repeats_output(more, distance, (n - 1) as nat);
        let all = copied(out, distance, n);
        assert(all == copied(more, distance, (n - 1) as nat));
        assert(all[out.len() as int] == more[out.len() as int]);
        assert(all[out.len() - distance] == more[out.len() - distance]);
    }
}

/// The canonical code leads back: where the bits ahead are those of a symbol's
/// code, the decoder gives that symbol and stops right behind the code. No
/// code is the start of another, whatever the table.
pub proof fn law_decoder_inverts_code(
    lengths: Seq<nat>,
    symbol: nat,
    data: Seq<u8>,
    b: BitPlace,
    behind: BitPlace,
)
    requires
        lengths.len() <= 512,
        is_spelled(lengths, symbol, data, b, behind),
    ensures
        next_symbol(lengths, data, b) == Some((symbol as u16, behind)),
{
    let len = lengths[symbol as int];
    let rank = symbols_below(lengths, len, symbol).len();
    lemma_rank(lengths, len, symbol, lengths.len());
    lemma_prefix_walk(lengths, data, b, behind, 0, 0, len, rank);
}

/// A symbol stands in the list of its length at its rank.
proof fn lemma_rank(lengths: Seq<nat>, len: nat, symbol: nat, n: nat)
    requires
        symbol < n <= lengths.len() <= 512,
        lengths[symbol as int] == len,
    ensures
        symbols_below(lengths, len, symbol).len() < symbols_below(lengths, len, n).len(),
        symbols_below(lengths, len, n)[symbols_below(lengths, len, symbol).len() as int] == symbol,
    decreases n,
{
    if n > symbol + 1 {
        lemma_rank(lengths, len, symbol, (n - 1) as nat);
    }
}

/// The codes of a greater length start behind every continuation of a shorter code.
proof fn lemma_codes_apart(lengths: Seq<nat>, short: nat, long: nat)
    requires
        1 <= short < long,
    ensures
        (first_code(lengths, short) + symbols_of(lengths, short).len()) * pow2((long - short) as nat)
            <= first_code(lengths, long),
    decreases long,
{
    let end = first_code(lengths, short) + symbols_of(lengths, short).len();
    let apart = (long - short) as nat;
    lemma_pow2_unfold(apart);
    if long == short + 1 {
        lemma2_to64();
        assert(first_code(lengths, long) == 2 * end);
    } else {
        lemma_codes_apart(lengths, short, (long - 1) as nat);
        assert(end * (2 * pow2((apart - 1) as nat)) == 2 * (end * pow2((apart - 1) as nat)))
            by (nonlinear_arith);
    }
}

/// A number with `n` bits behind it lies in the span of its continuations.
proof fn lemma_number_span(data: Seq<u8>, b: BitPlace, value: nat, n: nat)
    ensures
        number_from(data, b, value, n) matches Some((v, _)) ==> value * pow2(n) <= v < (value + 1)
            * pow2(n),
    decreases n,
{
    if n == 0 {
        lemma2_to64();
    } else if !is_exhausted(data, b) {
        let (bit, behind) = next_bit(data, b);
        lemma_number_span(data, behind, 2 * value + bit, (n - 1) as nat);
        lemma_pow2_unfold(n);
        let half = pow2((n - 1) as nat);
        assert((2 * value + bit) * half >= value * (2 * half) && (2 * value + bit + 1) * half <= (
        value + 1) * (2 * half)) by (nonlinear_arith)
            requires
                0 <= bit <= 1,
                half >= 0,
                value >= 0,
        ;
    }
}

proof fn lemma_prefix_walk(
    lengths: Seq<nat>,
    data: Seq<u8>,
    b: BitPlace,
    behind: BitPlace,
    code: nat,
    read: nat,
    len: nat,
    rank: nat,
)
    requires
        read < len <= 15,
        rank < symbols_of(lengths, len).len(),
        number_from(data, b, code, (len - read) as nat) == Some(
            (first_code(lengths, len) + rank, behind),
        ),
    ensures
        symbol_from(lengths, data, b, code, read) == Some(
            (symbols_of(lengths, len)[rank as int], behind),
        ),
    decreases len - read,
{
    let (bit, next) = next_bit(data, b);
    let longer = 2 * code + bit;
    let target = first_code(lengths, len) + rank;
    if read + 1 == len {
        assert(number_from(data, next, longer, 0) == Some((longer, next)));
    } else {
        let short = read + 1;
        let end = first_code(lengths, short) + symbols_of(lengths, short).len();
        let left = (len - short) as nat;
        lemma_codes_apart(lengths, short, len);
        lemma_number_span(data, next, longer, left);
        if longer < end {
            assert((longer + 1) * pow2(left) <= end * pow2(left)) by (nonlinear_arith)
                requires
                    longer + 1 <= end,
                    pow2(left) >= 0,
            ;
            assert(false);
        }
        lemma_prefix_walk(lengths, data, next, behind, longer, short, len, rank);
    }
}

/// What a stream is made of: single bytes, and repeats of what was put out. A
/// repeat has a nibble for its length and a number of bits for its distance.
pub enum Piece {
    Literal(u8),
    Match { nibble: nat, bits: nat, length: nat, distance: nat },
}

/// Where the bytes end that say a length, if those at `pos` say it: none for a
/// length below 18, which the nibble has less three; else the nibble is 15 and
/// there is a byte with the length less 18, or a byte of 255 and two with the
/// length less three, or a byte of 255, two zeros and four with the length less
/// three.
pub open spec fn length_end(data: Seq<u8>, pos: int, nibble: nat, length: nat) -> Option<int> {
    if nibble < 15 && length == nibble + 3 {
        Some(pos)
    } else if nibble == 15 && pos >= 0 && pos < data.len() && data[pos] < 255 && length == data[pos]
        + 18 {
        Some(pos + 1)
    } else if nibble == 15 && pos >= 0 && pos + 3 <= data.len() && data[pos] == 255 && length
        == text::le16(data[pos + 1], data[pos + 2]) + 3 && length > 3 {
        Some(pos + 3)
    } else if nibble == 15 && pos >= 0 && pos + 7 <= data.len() && data[pos] == 255 && data[pos + 1]
        == 0 && data[pos + 2] == 0 && length == reader::le32(data, pos + 3) + 3 && length
        <= 0xFFFF_FFFF {
        Some(pos + 7)
    } else {
        None
    }
}

impl Piece {
    /// The symbol that stands for the piece.
    pub open spec fn symbol(self) -> nat {
        match self {
            Piece::Literal(byte) => byte as nat,
            Piece::Match { nibble, bits, .. } => 256 + 16 * bits + nibble,
        }
    }

    /// Where the piece ends, if the bits from `b` on spell it: the canonical
    /// code of its symbol and, for a match, the bytes of the length, and then
    /// the distance less the power of two that its number of bits stands for.
    pub open spec fn behind(self, lengths: Seq<nat>, data: Seq<u8>, b: BitPlace) -> Option<
        BitPlace,
    > {
        let len = lengths[self.symbol() as int];
        match number_from(data, b, 0, len) {
            Some((code, behind)) => if !(1 <= len <= 15) || code != code_of(
                lengths,
                self.symbol(),
            ) {
                None
            } else {
                match self {
                    Piece::Literal(_) => Some(behind),
                    Piece::Match { nibble, bits, length, distance } => match length_end(
                        data,
                        behind.pos,
                        nibble,
                        length,
                    ) {
                        Some(end) => match number_from(
                            data,
                            BitPlace { pos: end, bits: behind.bits },
                            0,
                            bits,
                        ) {
                            Some((low, next)) => if nibble < 16 && bits < 16 && distance == pow2(
                                bits,
                            ) + low {
                                Some(next)
                            } else {
                                None
                            },
                            None => None,
                        },
                        None => None,
                    },
                }
            },
            None => None,
        }
    }

    /// The output with the piece, where it can be put out.
    pub open spec fn put(self, out: Seq<u8>) -> Option<Seq<u8>> {
        match self {
            Piece::Literal(byte) => Some(out.push(byte)),
            Piece::Match { length, distance, .. } => if length >= 1 && distance <= out.len() {
                Some(copied(out, distance, length))
            } else {
                None
            },
        }
    }
}

/// Where a run of pieces ends, if the bits from `b` on spell it.
pub open spec fn behind_pieces(
    lengths: Seq<nat>,
    data: Seq<u8>,
    b: BitPlace,
    pieces: Seq<Piece>,
) -> Option<BitPlace>
    decreases pieces.len(),
{
    if pieces.len() == 0 {
        Some(b)
    } else {
        match pieces[0].behind(lengths, data, b) {
            Some(behind) => behind_pieces(lengths, data, behind, pieces.skip(1)),
            None => None,
        }
    }
}

/// The output with a run of pieces, where they can all be put out.
pub open spec fn put_pieces(out: Seq<u8>, pieces: Seq<Piece>) -> Option<Seq<u8>>
    decreases pieces.len(),
{
    if pieces.len() == 0 {
        Some(out)
    } else {
        match pieces[0].put(out) {
            Some(more) => put_pieces(more, pieces.skip(1)),
            None => None,
        }
    }
}

/// A run of pieces puts out at least a byte for each of them.
pub proof fn lemma_put_grows(out: Seq<u8>, pieces: Seq<Piece>)
    requires
        put_pieces(out, pieces) is Some,
    ensures
        put_pieces(out, pieces)->0.len() >= out.len() + pieces.len(),
    decreases pieces.len(),
{
    if pieces.len() > 0 {
        let more = pieces[0].put(out)->0;
        if let Piece::Match { length, distance, .. } = pieces[0] {
            lemma_copied_len(out, distance, length);
        }
        lemma_put_grows(more, pieces.skip(1));
    }
}

proof fn lemma_length_read(data: Seq<u8>, pos: int, nibble: nat, length: nat)
    requires
        length_end(data, pos, nibble, length) is Some,
    ensures
        match_length(data, pos, nibble) == Some(
            (length, length_end(data, pos, nibble, length)->0),
        ),
{
}

/// The number in front of the bits that are read counts for their power of two.
proof fn lemma_leading_one(data: Seq<u8>, b: BitPlace, low: nat, high: nat, n: nat)
    requires
        low <= high,
    ensures
        number_from(data, b, low, n) is Some == number_from(data, b, high, n) is Some,
        number_from(data, b, low, n) matches Some((v, behind)) ==> number_from(data, b, high, n)
            == Some(((v + (high - low) * pow2(n)) as nat, behind)),
    decreases n,
{
    if n == 0 {
        lemma2_to64();
    } else if !is_exhausted(data, b) {
        let (bit, behind) = next_bit(data, b);
        lemma_leading_one(data, behind, 2 * low + bit, 2 * high + bit, (n - 1) as nat);
        lemma_pow2_unfold(n);
        let half = pow2((n - 1) as nat);
        assert((2 * high + bit - (2 * low + bit)) * half == (high - low) * (2 * half))
            by (nonlinear_arith);
    }
}

/// The decoder finds the piece that the bits spell.
pub proof fn lemma_piece_decoded(lengths: Seq<nat>, data: Seq<u8>, b: BitPlace, piece: Piece)
    requires
        lengths.len() == 512,
        piece.behind(lengths, data, b) is Some,
    ensures
        piece.symbol() < 512,
        next_symbol(lengths, data, b) matches Some((symbol, behind)) && symbol == piece.symbol()
            && match piece {
            Piece::Literal(_) => symbol < 256 && piece.behind(lengths, data, b) == Some(behind),
            Piece::Match { length, distance, .. } => symbol >= 256 && match_at(
                data,
                behind,
                symbol,
            ) == Some((length, distance, piece.behind(lengths, data, b)->0)),
        },
{
    let (code, behind) = number_from(data, b, 0, lengths[piece.symbol() as int])->0;
    if let Piece::Match { nibble, bits, length, distance } = piece {
        let end = length_end(data, behind.pos, nibble, length)->0;
        let place = BitPlace { pos: end, bits: behind.bits };
        let sym = (piece.symbol() - 256) as nat;
        assert(sym % 16 == nibble && (sym / 16) % 16 == bits);
        lemma_leading_one(data, place, 0, 1, bits);
        lemma_length_read(data, behind.pos, nibble, length);
        assert((1 - 0) * pow2(bits) == pow2(bits));
    }
    law_decoder_inverts_code(lengths, piece.symbol(), data, b, behind);
}

/// A symbol that calls for `n` bits of a distance stands for a match at the
/// distance of 2^n and the value of the next `n` bits, behind its length: from
/// 2^n to 2^(n+1) - 1. Its length has the nibble and three, where that is below
/// 18.
pub proof fn law_match_distance_is_power_and_bits(data: Seq<u8>, b: BitPlace, symbol: u16)
    requires
        256 <= symbol < 512,
        match_at(data, b, symbol) is Some,
    ensures
        ({
            let n = ((symbol - 256) / 16) as nat;
            let nibble = ((symbol - 256) % 16) as nat;
            let (length, distance, next) = match_at(data, b, symbol)->0;
            &&& pow2(n) <= distance < pow2(n + 1)
            &&& nibble < 15 ==> length == nibble + 3 && number_from(data, b, 0, n) == Some(
                ((distance - pow2(n)) as nat, next),
            )
            &&& nibble == 15 ==> {
                let end = length_end(data, b.pos, 15, length);
                end is Some && number_from(data, BitPlace { pos: end->0, bits: b.bits }, 0, n)
                    == Some(((distance - pow2(n)) as nat, next))
            }
        }),
{
    let n = ((symbol - 256) / 16) as nat;
    let nibble = ((symbol - 256) % 16) as nat;
    let (length, distance, next) = match_at(data, b, symbol)->0;
    assert(((symbol - 256) as nat / 16) % 16 == n);
    let (_, end) = match_length(data, b.pos, nibble)->0;
    let place = BitPlace { pos: end, bits: b.bits };
    lemma_leading_one(data, place, 0, 1, n);
    lemma_number_span(data, place, 0, n);
    lemma_pow2_unfold(n + 1);
    let (low, _) = number_from(data, place, 0, n)->0;
    assert(low < 1 * pow2(n));
    assert(distance == low + 1 * pow2(n));
    assert(length_end(data, b.pos, nibble, length) == Some(end));
}

/// A chunk whose bits spell a run of literals and matches decodes to what
/// these put out, and ends behind them.
pub proof fn law_pieces_round_trip(
    lengths: Seq<nat>,
    data: Seq<u8>,
    b: BitPlace,
    out: Seq<u8>,
    pieces: Seq<Piece>,
    size: nat,
)
    requires
        lengths.len() == 512,
        behind_pieces(lengths, data, b, pieces) is Some,
        put_pieces(out, pieces) is Some,
        put_pieces(out, pieces)->0.len() <= size,
    ensures
        chunk_output(lengths, data, b, out, put_pieces(out, pieces)->0.len(), size) == Some(
            (put_pieces(out, pieces)->0, behind_pieces(lengths, data, b, pieces)->0),
        ),
    decreases pieces.len(),
{
    if pieces.len() > 0 {
        let piece = pieces[0];
        let more = piece.put(out)->0;
        lemma_put_grows(out, pieces);
        lemma_put_grows(more, pieces.skip(1));
        lemma_piece_decoded(lengths, data, b, piece);
        if let Piece::Match { length, distance, .. } = piece {
            lemma_copied_len(out, distance, length);
        }
        law_pieces_round_trip(
            lengths,
            data,
            piece.behind(lengths, data, b)->0,
            more,
            pieces.skip(1),
            size,
        );
    }
}

/// A stream goes on behind a chunk whose bits spell a run of literals and
/// matches, with what these put out. A chunk puts out 65536 bytes, the last
/// one what is left.
pub proof fn law_chunk_round_trip(
    compressed: Seq<u8>,
    consumed: int,
    out: Seq<u8>,
    pieces: Seq<Piece>,
    size: nat,
)
    requires
        0 <= consumed,
        consumed + 256 <= compressed.len(),
        out.len() < size,
        put_pieces(out, pieces) is Some,
        put_pieces(out, pieces)->0.len() == out.len() + lesser(65_536, (size - out.len()) as nat),
        ({
            let data = compressed.skip(consumed + 256);
            let lengths = code_lengths(compressed.subrange(consumed, consumed + 256));
            behind_pieces(lengths, data, stream_start(data), pieces) is Some
        }),
    ensures
        ({
            let data = compressed.skip(consumed + 256);
            let lengths = code_lengths(compressed.subrange(consumed, consumed + 256));
            let behind = behind_pieces(lengths, data, stream_start(data), pieces)->0;
            stream_output(compressed, consumed, out, size) == stream_output(
                compressed,
                consumed + 256 + behind.pos,
                put_pieces(out, pieces)->0,
                size,
            )
        }),
{
    let data = compressed.skip(consumed + 256);
    let lengths = code_lengths(compressed.subrange(consumed, consumed + 256));
    law_pieces_round_trip(lengths, data, stream_start(data), out, pieces, size);
    assert(pieces.len() > 0);
    assert(lengths[pieces[0].symbol() as int] != 0);
    assert(pieces[0].symbol() < 512);
}

/// A stream of one chunk whose bits spell a run of literals and matches
/// decompresses to what these put out.
pub proof fn law_stream_round_trip(compressed: Seq<u8>, pieces: Seq<Piece>, size: nat)
    requires
        256 <= compressed.len(),
        0 < size <= 65_536,
        put_pieces(seq![], pieces) is Some,
        put_pieces(seq![], pieces)->0.len() == size,
        behind_pieces(
            code_lengths(compressed.take(256)),
            compressed.skip(256),
            stream_start(compressed.skip(256)),
            pieces,
        ) is Some,
    ensures
        decompressed(compressed, size) == put_pieces(seq![], pieces),
{
    assert(compressed.subrange(0, 256) =~= compressed.take(256));
    law_chunk_round_trip(compressed, 0, seq![], pieces, size);
}

/// Asking for fewer bytes of a stream gives the first of those that asking for
/// more gives.
pub proof fn law_fewer_bytes_are_a_prefix(compressed: Seq<u8>, fewer: nat, more: nat)
    requires
        fewer <= more,
        decompressed(compressed, more) is Some,
    ensures
        decompressed(compressed, fewer) == Some(
            decompressed(compressed, more)->0.take(fewer as int),
        ),
{
    lemma_stream_prefix(compressed, 0, seq![], fewer, more);
}

/// A shorter copy is the start of a longer one.
proof fn lemma_copied_prefix(out: Seq<u8>, distance: nat, short: nat, long: nat)
    requires
        short <= long,
    ensures
        copied(out, distance, long).take((out.len() + short) as int) == copied(
            out,
            distance,
            short,
        ),
    decreases long,
{
    lemma_copied_len(out, distance, long);
    lemma_copied_len(out, distance, short);
    if short > 0 {
        let next = out.push(out[out.len() - distance]);
        lemma_copied_prefix(next, distance, (short - 1) as nat, (long - 1) as nat);
    } else {
        lemma_copied_keeps(out, distance, long);
    }
}

proof fn lemma_copied_keeps(out: Seq<u8>, distance: nat, n: nat)
    ensures
        out.is_prefix_of(copied(out, distance, n)),
    decreases n,
{
    lemma_copied_len(out, distance, n);
    if n > 0 {
        let next = out.push(out[out.len() - distance]);
        lemma_copied_keeps(next, distance, (n - 1) as nat);
        assert(next.take(out.len() as int) =~= out);
        lemma_prefix_of_prefix(out, next, copied(out, distance, n));
    } else {
        assert(out =~= out.subrange(0, out.len() as int));
    }
}

proof fn lemma_prefix_of_prefix(a: Seq<u8>, b: Seq<u8>, c: Seq<u8>)
    requires
        a.len() <= b.len() <= c.len(),
        a == b.take(a.len() as int),
        b == c.take(b.len() as int),
    ensures
        a == c.take(a.len() as int),
{
    assert(c.take(b.len() as int).take(a.len() as int) =~= c.take(a.len() as int));
}

/// A chunk keeps what was put out before.
proof fn lemma_chunk_keeps(
    lengths: Seq<nat>,
    data: Seq<u8>,
    b: BitPlace,
    out: Seq<u8>,
    target: nat,
    size: nat,
)
    requires
        target <= size,
    ensures
        chunk_output(lengths, data, b, out, target, size) matches Some((more, _))
            ==> out.is_prefix_of(more),
    decreases size - out.len(),
{
    if out.len() < target {
        if let Some((symbol, behind)) = next_symbol(lengths, data, b) {
            if symbol < 256 {
                let next = out.push(symbol as u8);
                lemma_chunk_keeps(lengths, data, behind, next, target, size);
                if let Some((more, _)) = chunk_output(lengths, data, b, out, target, size) {
                    assert(next.take(out.len() as int) =~= out);
                    lemma_prefix_of_prefix(out, next, more);
                }
            } else if let Some((length, distance, place)) = match_at(data, behind, symbol) {
                if distance <= out.len() {
                    let n = lesser(length, (size - out.len()) as nat);
                    let next = copied(out, distance, n);
                    lemma_copied_len(out, distance, n);
                    lemma_copied_keeps(out, distance, n);
                    if n > 0 {
                        lemma_chunk_keeps(lengths, data, place, next, target, size);
                        if let Some((more, _)) = chunk_output(
                            lengths,
                            data,
                            b,
                            out,
                            target,
                            size,
                        ) {
                            lemma_prefix_of_prefix(out, next, more);
                        }
                    }
                }
            }
        }
    } else {
        assert(out =~= out.subrange(0, out.len() as int));
    }
}

/// A chunk that is decoded for fewer bytes ends as it does for more, or has
/// put out as many as are asked for.
proof fn lemma_chunk_prefix(
    lengths: Seq<nat>,
    data: Seq<u8>,
    b: BitPlace,
    out: Seq<u8>,
    near: nat,
    fewer: nat,
    far: nat,
    more: nat,
)
    requires
        near <= far,
        near <= fewer <= more,
        far <= more,
        near == far || near == fewer,
        out.len() <= fewer,
        chunk_output(lengths, data, b, out, far, more) is Some,
    ensures
        chunk_output(lengths, data, b, out, near, fewer) is Some,
        ({
            let (long, end) = chunk_output(lengths, data, b, out, far, more)->0;
            let (short, stop) = chunk_output(lengths, data, b, out, near, fewer)->0;
            &&& near <= short.len() <= fewer
            &&& short.is_prefix_of(long)
            &&& short.len() == fewer || (short == long && stop == end)
        }),
    decreases more - out.len(),
{
    lemma_chunk_keeps(lengths, data, b, out, far, more);
    if out.len() < near {
        let (symbol, behind) = next_symbol(lengths, data, b)->0;
        if symbol < 256 {
            lemma_chunk_prefix(
                lengths,
                data,
                behind,
                out.push(symbol as u8),
                near,
                fewer,
                far,
                more,
            );
        } else {
            let (length, distance, place) = match_at(data, behind, symbol)->0;
            let long = lesser(length, (more - out.len()) as nat);
            let short = lesser(length, (fewer - out.len()) as nat);
            lemma_copied_len(out, distance, long);
            lemma_copied_len(out, distance, short);
            lemma_match_length(data, behind.pos, ((symbol - 256) as nat) % 16);
            if short == long {
                lemma_chunk_prefix(
                    lengths,
                    data,
                    place,
                    copied(out, distance, long),
                    near,
                    fewer,
                    far,
                    more,
                );
            } else {
                let (a, c) = (copied(out, distance, short), copied(out, distance, long));
                lemma_copied_prefix(out, distance, short, long);
                lemma_chunk_keeps(lengths, data, place, c, far, more);
                let (whole, _) = chunk_output(lengths, data, b, out, far, more)->0;
                lemma_prefix_of_prefix(a, c, whole);
                assert(chunk_output(lengths, data, place, a, near, fewer) == Some((a, place)));
                assert(chunk_output(lengths, data, b, out, near, fewer) == Some((a, place)));
            }
        }
    }
}

/// A match has at least three bytes.
proof fn lemma_match_length(data: Seq<u8>, pos: int, nibble: nat)
    ensures
        match_length(data, pos, nibble) matches Some((length, _)) ==> length >= 3,
{
}

proof fn lemma_stream_keeps(compressed: Seq<u8>, consumed: int, out: Seq<u8>, size: nat)
    ensures
        stream_output(compressed, consumed, out, size) matches Some(whole) ==> out.is_prefix_of(
            whole,
        ),
    decreases size - out.len(),
{
    if out.len() < size {
        if let Some(table) = reader::bytes_at(compressed, consumed, 256) {
            let lengths = code_lengths(table);
            let data = compressed.skip(consumed + 256);
            let target = out.len() + lesser(65_536, (size - out.len()) as nat);
            let start = stream_start(data);
            lemma_chunk_keeps(lengths, data, start, out, target, size);
            lemma_chunk_output_len(lengths, data, start, out, target, size);
            if let Some((more, b)) = chunk_output(lengths, data, start, out, target, size) {
                lemma_stream_keeps(compressed, consumed + 256 + b.pos, more, size);
                if let Some(whole) = stream_output(compressed, consumed, out, size) {
                    lemma_prefix_of_prefix(out, more, whole);
                }
            }
        }
    } else {
        assert(out =~= out.subrange(0, out.len() as int));
    }
}

proof fn lemma_stream_prefix(
    compressed: Seq<u8>,
    consumed: int,
    out: Seq<u8>,
    fewer: nat,
    more: nat,
)
    requires
        out.len() <= fewer <= more,
        stream_output(compressed, consumed, out, more) is Some,
    ensures
        stream_output(compressed, consumed, out, fewer) == Some(
            stream_output(compressed, consumed, out, more)->0.take(fewer as int),
        ),
    decreases more - out.len(),
{
    let whole = stream_output(compressed, consumed, out, more)->0;
    lemma_stream_keeps(compressed, consumed, out, more);
    if out.len() < fewer {
        let lengths = code_lengths(reader::bytes_at(compressed, consumed, 256)->0);
        let data = compressed.skip(consumed + 256);
        let start = stream_start(data);
        let near = out.len() + lesser(65_536, (fewer - out.len()) as nat);
        let far = out.len() + lesser(65_536, (more - out.len()) as nat);
        lemma_chunk_prefix(lengths, data, start, out, near, fewer, far, more);
        lemma_chunk_output_len(lengths, data, start, out, far, more);
        let (long, end) = chunk_output(lengths, data, start, out, far, more)->0;
        let (short, stop) = chunk_output(lengths, data, start, out, near, fewer)->0;
        lemma_stream_keeps(compressed, consumed + 256 + end.pos, long, more);
        lemma_prefix_of_prefix(short, long, whole);
        if short.len() < fewer {
            lemma_stream_prefix(compressed, consumed + 256 + end.pos, long, fewer, more);
        } else {
            assert(stream_output(compressed, consumed + 256 + stop.pos, short, fewer) == Some(
                short,
            ));
        }
    }
}

} // verus!
