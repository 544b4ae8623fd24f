//! What the bits of a compressed stream stand for.

use vstd::arithmetic::power2::*;
use vstd::bits::*;
use vstd::prelude::*;

use crate::artifacts::reader;
use crate::artifacts::xpress;
use crate::text;

verus! {

// ---------------------------------------------------------------------
// Bits
// ---------------------------------------------------------------------

/// The bits of the whole words from `pos` on: the words follow each other, each
/// has its low byte first, and its most significant bit is the first one.
pub open spec fn bits_from(data: Seq<u8>, pos: int) -> Seq<bool> {
    Seq::new(
        (16 * ((data.len() - pos) / 2)) as nat,
        |i: int|
            {
                let at = pos + 2 * (i / 16);
                let word = data[at] + 256 * data[at + 1];
                (word / pow2((15 - i % 16) as nat) as int) % 2 == 1
            },
    )
}

/// The bits that are left at a place of a stream, if no more raw bytes are read.
pub open spec fn bits_ahead(data: Seq<u8>, b: xpress::BitPlace) -> Seq<bool> {
    b.bits + bits_from(data, b.pos)
}

/// The number that bits stand for, the most significant first.
pub open spec fn bits_value(bits: Seq<bool>) -> nat
    decreases bits.len(),
{
    if bits.len() == 0 {
        0
    } else {
        2 * bits_value(bits.drop_last()) + if bits.last() {
            1nat
        } else {
            0
        }
    }
}

proof fn lemma_word_bit(word: u16, i: int)
    requires
        0 <= i < 16,
    ensures
        xpress::word_bits(word)[i] == ((word as int / pow2((15 - i) as nat) as int) % 2 == 1),
{
    let shift = (15 - i) as u16;
    lemma_u16_shr_is_div(word, shift);
    let high = word >> shift;
    assert(high & 1 == high % 2) by (bit_vector);
}

proof fn lemma_bits_unfold(data: Seq<u8>, pos: int)
    requires
        0 <= pos,
        pos + 2 <= data.len(),
    ensures
        bits_from(data, pos) == xpress::word_bits(text::le16(data[pos], data[pos + 1]))
            + bits_from(data, pos + 2),
{
    let word = text::le16(data[pos], data[pos + 1]);
    let whole = bits_from(data, pos);
    let parts = xpress::word_bits(word) + bits_from(data, pos + 2);
    assert(whole.len() == parts.len());
    assert forall|i: int| 0 <= i < whole.len() implies whole[i] == parts[i] by {
        if i < 16 {
            lemma_word_bit(word, i);
            assert(i / 16 == 0 && i % 16 == i);
        } else {
            assert((i - 16) / 16 == i / 16 - 1 && (i - 16) % 16 == i % 16);
            assert(parts[i] == bits_from(data, pos + 2)[i - 16]);
        }
    }
    assert(whole =~= parts);
}

proof fn lemma_refill(data: Seq<u8>, b: xpress::BitPlace)
    requires
        0 <= b.pos <= data.len(),
    ensures
        ({
            let full = xpress::refilled(data, b);
            &&& bits_ahead(data, full) == bits_ahead(data, b)
            &&& b.pos <= full.pos <= data.len()
            &&& full.bits.len() - b.bits.len() == 8 * (full.pos - b.pos)
            &&& full.bits.len() > 16 || full.pos + 2 > data.len()
            &&& b.bits.len() > 16 ==> full == b
            &&& full.pos > b.pos ==> full.bits.len() <= 32
        }),
    decreases data.len() - b.pos,
{
    if let Some(word) = reader::u16_at(data, b.pos) {
        if b.bits.len() <= 16 {
            let next = xpress::BitPlace { pos: b.pos + 2, bits: b.bits + xpress::word_bits(word) };
            lemma_refill(data, next);
            lemma_bits_unfold(data, b.pos);
            assert(bits_ahead(data, next) =~= bits_ahead(data, b));
        }
    }
}

/// Words are taken one after the other while sixteen bits or fewer are at hand,
/// and no further. What is taken is at hand behind what was.
pub proof fn law_refill_takes_needed_words(data: Seq<u8>, b: xpress::BitPlace)
    requires
        0 <= b.pos <= data.len(),
    ensures
        ({
            let full = xpress::refilled(data, b);
            &&& bits_ahead(data, full) == bits_ahead(data, b)
            &&& full.bits.len() - b.bits.len() == 8 * (full.pos - b.pos)
            &&& full.bits.len() > 16 || full.pos + 2 > data.len()
            &&& b.bits.len() > 16 ==> full == b
            &&& full.pos > b.pos ==> full.bits.len() <= 32
        }),
{
    lemma_refill(data, b);
}

/// A stream starts with the bits of its first word, and has those of all its
/// words. Up to two words are taken at once.
pub proof fn law_stream_bits_are_those_of_words(data: Seq<u8>)
    ensures
        bits_ahead(data, xpress::stream_start(data)) == bits_from(data, 0),
        xpress::stream_start(data).pos == if data.len() >= 4 {
            4int
        } else if data.len() >= 2 {
            2
        } else {
            0
        },
{
    let b = xpress::BitPlace { pos: 0, bits: seq![] };
    lemma_refill(data, b);
    assert(bits_ahead(data, b) =~= bits_from(data, 0));
}

/// Bits are used in their order, one at a time, and a stream is exhausted where
/// none is left.
pub proof fn law_bits_are_used_in_order(data: Seq<u8>, b: xpress::BitPlace)
    requires
        0 <= b.pos <= data.len(),
    ensures
        xpress::is_exhausted(data, b) <==> bits_ahead(data, b).len() == 0,
        !xpress::is_exhausted(data, b) ==> {
            let (bit, behind) = xpress::next_bit(data, b);
            &&& bit == if bits_ahead(data, b)[0] {
                1nat
            } else {
                0
            }
            &&& bits_ahead(data, behind) == bits_ahead(data, b).skip(1)
            &&& b.pos <= behind.pos <= data.len()
        },
{
    lemma_refill(data, b);
    let full = xpress::refilled(data, b);
    if !xpress::is_exhausted(data, b) {
        assert(bits_ahead(data, b).len() > 0);
        assert(full.bits.len() > 0);
        let (bit, behind) = xpress::next_bit(data, b);
        assert(bits_ahead(data, full)[0] == full.bits[0]);
        assert(bits_ahead(data, behind) =~= bits_ahead(data, full).skip(1));
    }
}

proof fn lemma_bits_value_front(bits: Seq<bool>)
    requires
        bits.len() > 0,
    ensures
        bits_value(bits) == bits_value(bits.skip(1)) + if bits[0] {
            pow2((bits.len() - 1) as nat)
        } else {
            0
        },
    decreases bits.len(),
{
    if bits.len() == 1 {
        lemma2_to64();
        assert(bits.skip(1) =~= seq![]);
        assert(bits.drop_last() =~= seq![]);
        assert(bits_value(bits.drop_last()) == 0);
    } else {
        lemma_bits_value_front(bits.drop_last());
        assert(bits.drop_last().skip(1) =~= bits.skip(1).drop_last());
        lemma_pow2_unfold((bits.len() - 1) as nat);
    }
}

/// A number of `n` bits is the value of the next `n` bits of the stream, the
/// most significant first. There is none where fewer are left.
pub proof fn law_numbers_are_values_of_bits(data: Seq<u8>, b: xpress::BitPlace, value: nat, n: nat)
    requires
        0 <= b.pos <= data.len(),
    ensures
        xpress::number_from(data, b, value, n) is Some <==> n <= bits_ahead(data, b).len(),
        xpress::number_from(data, b, value, n) matches Some((v, behind)) ==> v == value * pow2(n)
            + bits_value(bits_ahead(data, b).take(n as int)) && bits_ahead(data, behind)
            == bits_ahead(data, b).skip(n as int) && b.pos <= behind.pos <= data.len(),
    decreases n,
{
    let ahead = bits_ahead(data, b);
    law_bits_are_used_in_order(data, b);
    if n == 0 {
        lemma2_to64();
        assert(ahead.take(0) =~= seq![]);
        assert(ahead.skip(0) =~= ahead);
    } else if !xpress::is_exhausted(data, b) {
        let (bit, next) = xpress::next_bit(data, b);
        law_numbers_are_values_of_bits(data, next, 2 * value + bit, (n - 1) as nat);
        if n <= ahead.len() {
            lemma_bits_value_front(ahead.take(n as int));
            assert(ahead.take(n as int).skip(1) =~= ahead.skip(1).take(n - 1));
            assert(ahead.skip(1).skip(n - 1) =~= ahead.skip(n as int));
            lemma_pow2_unfold(n);
            let half = pow2((n - 1) as nat);
            assert((2 * value + bit) * half == value * (2 * half) + bit * half)
                by (nonlinear_arith);
            assert(1 * half == half && 0 * half == 0);
        }
    }
}

// ---------------------------------------------------------------------
// Codes
// ---------------------------------------------------------------------

/// A byte of a table has the code length of an even symbol in its low half and
/// that of the odd one behind it in its high half.
pub proof fn law_table_byte_has_two_lengths(table: Seq<u8>, i: int)
    requires
        0 <= i < table.len(),
    ensures
        xpress::code_lengths(table).len() == 2 * table.len(),
        table[i] == xpress::code_lengths(table)[2 * i] + 16 * xpress::code_lengths(table)[2 * i + 1],
        xpress::code_lengths(table)[2 * i] < 16,
{
}

/// What the symbols below `n` with codes shorter than `len` bits take of the
/// codes of `len` bits: each one those that its own code is the start of.
pub open spec fn taken_below(lengths: Seq<nat>, len: nat, n: nat) -> nat
    decreases n,
{
    if n == 0 {
        0
    } else {
        let l = lengths[n - 1];
        taken_below(lengths, len, (n - 1) as nat) + if 1 <= l < len {
            pow2((len - l) as nat)
        } else {
            0
        }
    }
}

proof fn lemma_taken(lengths: Seq<nat>, len: nat, n: nat)
    requires
        n <= lengths.len(),
        len >= 1,
    ensures
        taken_below(lengths, len + 1, n) == 2 * (taken_below(lengths, len, n)
            + xpress::symbols_below(lengths, len, n).len()),
    decreases n,
{
    if n > 0 {
        lemma_taken(lengths, len, (n - 1) as nat);
        let l = lengths[n - 1];
        lemma2_to64();
        if 1 <= l < len {
            lemma_pow2_unfold((len + 1 - l) as nat);
        }
    }
}

proof fn lemma_nothing_taken(lengths: Seq<nat>, n: nat)
    requires
        n <= lengths.len(),
    ensures
        taken_below(lengths, 1, n) == 0,
    decreases n,
{
    if n > 0 {
        lemma_nothing_taken(lengths, (n - 1) as nat);
    }
}

/// The smallest code of a length stands behind all that shorter codes take, and
/// the codes of one length follow each other in the order of their symbols.
pub proof fn law_codes_are_canonical(lengths: Seq<nat>, symbol: nat)
    requires
        symbol < lengths.len(),
        1 <= lengths[symbol as int],
    ensures
        ({
            let len = lengths[symbol as int];
            xpress::code_of(lengths, symbol) == taken_below(lengths, len, lengths.len())
                + same_length_below(lengths, len, symbol)
        }),
{
    lemma_first_code(lengths, lengths[symbol as int]);
    lemma_same_length(lengths, lengths[symbol as int], symbol);
}

/// The number of symbols below `n` with codes of `len` bits.
pub open spec fn same_length_below(lengths: Seq<nat>, len: nat, n: nat) -> nat
    decreases n,
{
    if n == 0 {
        0
    } else if lengths[n - 1] == len {
        same_length_below(lengths, len, (n - 1) as nat) + 1
    } else {
        same_length_below(lengths, len, (n - 1) as nat)
    }
}

proof fn lemma_same_length(lengths: Seq<nat>, len: nat, n: nat)
    ensures
        xpress::symbols_below(lengths, len, n).len() == same_length_below(lengths, len, n),
    decreases n,
{
    if n > 0 {
        lemma_same_length(lengths, len, (n - 1) as nat);
    }
}

proof fn lemma_first_code(lengths: Seq<nat>, len: nat)
    requires
        len >= 1,
    ensures
        xpress::first_code(lengths, len) == taken_below(lengths, len, lengths.len()),
    decreases len,
{
    if len == 1 {
        lemma_nothing_taken(lengths, lengths.len());
    } else {
        lemma_first_code(lengths, (len - 1) as nat);
        lemma_taken(lengths, (len - 1) as nat, lengths.len());
    }
}

// ---------------------------------------------------------------------
// Streams
// ---------------------------------------------------------------------

/// No bytes can be asked of any stream, more than 33554432 of none. A table
/// without codes and a match from before the start are rejected.
pub proof fn law_unsound_streams_are_rejected(
    compressed: Seq<u8>,
    size: nat,
    lengths: Seq<nat>,
    data: Seq<u8>,
    b: xpress::BitPlace,
    out: Seq<u8>,
    piece: xpress::Piece,
    target: nat,
)
    ensures
        xpress::decompressed(compressed, 0) == Some(Seq::<u8>::empty()),
        size > 33_554_432 ==> xpress::decompressed(compressed, size) is None,
        size > 0 && compressed.len() >= 256 && (forall|i: int|
            0 <= i < 256 ==> #[trigger] compressed[i] == 0) ==> xpress::decompressed(
            compressed,
            size,
        ) is None,
        (lengths.len() == 512 && out.len() < target <= size && piece.behind(lengths, data, b) is Some
            && piece is Match && piece->distance > out.len()) ==> xpress::chunk_output(
            lengths,
            data,
            b,
            out,
            target,
            size,
        ) is None,
{
    if size > 0 && compressed.len() >= 256 && (forall|i: int|
        0 <= i < 256 ==> #[trigger] compressed[i] == 0) {
        let table = compressed.subrange(0, 256);
        assert forall|i: int| 0 <= i < 512 implies #[trigger] xpress::code_lengths(table)[i] == 0 by {
            assert(table[i / 2] == compressed[i / 2]);
        }
    }
    if lengths.len() == 512 && piece.behind(lengths, data, b) is Some {
        xpress::lemma_piece_decoded(lengths, data, b, piece);
    }
}

// ---------------------------------------------------------------------
// Streams of several chunks
// ---------------------------------------------------------------------

/// How many bytes there are at least behind a chunk that starts behind `len` of
/// them: 65536 more, or all where fewer are left.
pub open spec fn chunk_target(len: nat, size: nat) -> nat {
    if size - len < 65_536 {
        size
    } else {
        len + 65_536
    }
}

/// Whether the bytes from `consumed` on spell chunks behind `out`, until there are
/// `size` bytes: each a table of 256 bytes and bits that spell a run of literals
/// and matches. A chunk ends with the first of them that takes the output to its
/// target, and a match can go past that.
pub open spec fn spells(
    compressed: Seq<u8>,
    consumed: int,
    out: Seq<u8>,
    chunks: Seq<Seq<xpress::Piece>>,
    size: nat,
) -> bool
    decreases chunks.len(),
{
    if chunks.len() == 0 {
        out.len() == size
    } else {
        let data = compressed.skip(consumed + 256);
        let lengths = xpress::code_lengths(compressed.subrange(consumed, consumed + 256));
        let behind = xpress::behind_pieces(lengths, data, xpress::stream_start(data), chunks[0]);
        let fewer = xpress::put_pieces(out, chunks[0].drop_last());
        let more = xpress::put_pieces(out, chunks[0]);
        &&& consumed + 256 <= compressed.len()
        &&& out.len() < size
        &&& chunks[0].len() > 0
        &&& more is Some
        &&& fewer->0.len() < chunk_target(out.len(), size) <= more->0.len() <= size
        &&& behind is Some
        &&& spells(
            compressed,
            consumed + 256 + behind->0.pos,
            more->0,
            chunks.skip(1),
            size,
        )
    }
}

/// What chunks put out behind `out`.
pub open spec fn put_chunks(out: Seq<u8>, chunks: Seq<Seq<xpress::Piece>>) -> Seq<u8>
    decreases chunks.len(),
{
    if chunks.len() == 0 {
        out
    } else {
        put_chunks(xpress::put_pieces(out, chunks[0])->0, chunks.skip(1))
    }
}

proof fn lemma_rank_of(lengths: Seq<nat>, len: nat, n: nat, r: int)
    requires
        n <= lengths.len() <= 512,
        0 <= r < xpress::symbols_below(lengths, len, n).len(),
    ensures
        ({
            let s = xpress::symbols_below(lengths, len, n)[r];
            &&& s < n
            &&& lengths[s as int] == len
            &&& xpress::symbols_below(lengths, len, s as nat).len() == r
        }),
    decreases n,
{
    if n > 0 {
        let lower = xpress::symbols_below(lengths, len, (n - 1) as nat);
        if r < lower.len() {
            lemma_rank_of(lengths, len, (n - 1) as nat, r);
        }
    }
}

proof fn lemma_symbol(
    lengths: Seq<nat>,
    data: Seq<u8>,
    b: xpress::BitPlace,
    code: nat,
    len: nat,
)
    requires
        lengths.len() == 512,
    ensures
        xpress::symbol_from(lengths, data, b, code, len) matches Some((symbol, behind)) ==> {
            &&& symbol < 512
            &&& len < lengths[symbol as int] <= 15
            &&& xpress::number_from(
                data,
                b,
                code,
                (lengths[symbol as int] - len) as nat,
            ) == Some((xpress::code_of(lengths, symbol as nat), behind))
        },
    decreases 15 - len,
{
    if len < 15 && !xpress::is_exhausted(data, b) {
        let (bit, behind) = xpress::next_bit(data, b);
        let longer = 2 * code + bit;
        let syms = xpress::symbols_of(lengths, len + 1);
        let first = xpress::first_code(lengths, len + 1);
        if first <= longer < first + syms.len() {
            lemma_rank_of(lengths, len + 1, 512, longer - first);
            assert(xpress::number_from(data, behind, longer, 0) == Some((longer, behind)));
            reveal_with_fuel(xpress::number_from, 2);
        } else {
            lemma_symbol(lengths, data, behind, longer, len + 1);
        }
    }
}

/// The symbol that is decoded is one whose code stands there.
pub proof fn law_decoded_symbol_is_spelled(lengths: Seq<nat>, data: Seq<u8>, b: xpress::BitPlace)
    requires
        lengths.len() == 512,
    ensures
        xpress::next_symbol(lengths, data, b) matches Some((symbol, behind)) ==> {
            &&& symbol < 512
            &&& 1 <= lengths[symbol as int] <= 15
            &&& xpress::number_from(data, b, 0, lengths[symbol as int]) == Some(
                (xpress::code_of(lengths, symbol as nat), behind),
            )
        },
{
    lemma_symbol(lengths, data, b, 0, 0);
}

/// Bits that spell neither a literal nor a match end the stream, and nothing is
/// put out for them.
pub proof fn law_what_spells_nothing_is_rejected(
    lengths: Seq<nat>,
    data: Seq<u8>,
    b: xpress::BitPlace,
    out: Seq<u8>,
    target: nat,
    size: nat,
)
    requires
        lengths.len() == 512,
        out.len() < target <= size,
        forall|piece: xpress::Piece| (#[trigger] piece.behind(lengths, data, b)) is None,
    ensures
        xpress::chunk_output(lengths, data, b, out, target, size) is None,
{
    law_decoded_symbol_is_spelled(lengths, data, b);
    if let Some((symbol, behind)) = xpress::next_symbol(lengths, data, b) {
        if symbol < 256 {
            let piece = xpress::Piece::Literal(symbol as u8);
            assert(piece.behind(lengths, data, b) is Some);
        } else if let Some((length, distance, next)) = xpress::match_at(data, behind, symbol) {
            xpress::law_match_distance_is_power_and_bits(data, behind, symbol);
            let nibble = ((symbol - 256) % 16) as nat;
            let bits = ((symbol - 256) / 16) as nat;
            let piece = xpress::Piece::Match { nibble, bits, length, distance };
            assert(piece.symbol() == symbol);
            assert(xpress::length_end(data, behind.pos, nibble, length) is Some);
            assert(piece.behind(lengths, data, b) is Some);
        }
    }
}

proof fn lemma_pieces(
    lengths: Seq<nat>,
    data: Seq<u8>,
    b: xpress::BitPlace,
    out: Seq<u8>,
    pieces: Seq<xpress::Piece>,
    target: nat,
    size: nat,
)
    requires
        lengths.len() == 512,
        pieces.len() > 0,
        xpress::behind_pieces(lengths, data, b, pieces) is Some,
        xpress::put_pieces(out, pieces) is Some,
        xpress::put_pieces(out, pieces.drop_last())->0.len() < target,
        target <= xpress::put_pieces(out, pieces)->0.len() <= size,
    ensures
        out.len() < target,
        xpress::chunk_output(lengths, data, b, out, target, size) == Some(
            (
                xpress::put_pieces(out, pieces)->0,
                xpress::behind_pieces(lengths, data, b, pieces)->0,
            ),
        ),
    decreases pieces.len(),
{
    let piece = pieces[0];
    let rest = pieces.skip(1);
    let more = piece.put(out)->0;
    let next = piece.behind(lengths, data, b)->0;
    xpress::lemma_piece_decoded(lengths, data, b, piece);
    xpress::lemma_put_grows(more, rest);
    if let xpress::Piece::Match { length, distance, .. } = piece {
        xpress::lemma_copied_len(out, distance, length);
    }
    if rest.len() > 0 {
        assert(pieces.drop_last().skip(1) =~= rest.drop_last());
        assert(pieces.drop_last()[0] == piece);
        lemma_pieces(lengths, data, next, more, rest, target, size);
    } else {
        assert(pieces.drop_last() =~= Seq::<xpress::Piece>::empty());
        assert(xpress::put_pieces(out, pieces) == Some(more));
        assert(xpress::behind_pieces(lengths, data, b, pieces) == Some(next));
        assert(xpress::chunk_output(lengths, data, next, more, target, size) == Some((more, next)));
    }
}

proof fn lemma_refill_goes_on(data: Seq<u8>, b: xpress::BitPlace)
    ensures
        xpress::refilled(data, b).pos >= b.pos,
    decreases data.len() - b.pos,
{
    if let Some(word) = reader::u16_at(data, b.pos) {
        if b.bits.len() <= 16 {
            lemma_refill_goes_on(
                data,
                xpress::BitPlace { pos: b.pos + 2, bits: b.bits + xpress::word_bits(word) },
            );
        }
    }
}

proof fn lemma_number_goes_on(data: Seq<u8>, b: xpress::BitPlace, value: nat, n: nat)
    ensures
        xpress::number_from(data, b, value, n) matches Some((_, behind)) ==> behind.pos >= b.pos,
    decreases n,
{
    if n > 0 {
        lemma_refill_goes_on(data, b);
        let (bit, behind) = xpress::next_bit(data, b);
        lemma_number_goes_on(data, behind, 2 * value + bit, (n - 1) as nat);
    }
}

proof fn lemma_pieces_go_on(
    lengths: Seq<nat>,
    data: Seq<u8>,
    b: xpress::BitPlace,
    pieces: Seq<xpress::Piece>,
)
    ensures
        xpress::behind_pieces(lengths, data, b, pieces) matches Some(behind) ==> behind.pos >= b.pos,
    decreases pieces.len(),
{
    if pieces.len() > 0 {
        let piece = pieces[0];
        let len = lengths[piece.symbol() as int];
        lemma_number_goes_on(data, b, 0, len);
        if let Some((_, coded)) = xpress::number_from(data, b, 0, len) {
            if let xpress::Piece::Match { nibble, bits, length, .. } = piece {
                if let Some(end) = xpress::length_end(data, coded.pos, nibble, length) {
                    let place = xpress::BitPlace { pos: end, bits: coded.bits };
                    lemma_number_goes_on(data, place, 0, bits);
                }
            }
        }
        if let Some(behind) = piece.behind(lengths, data, b) {
            lemma_pieces_go_on(lengths, data, behind, pieces.skip(1));
        }
    }
}

proof fn lemma_chunks(
    compressed: Seq<u8>,
    consumed: int,
    out: Seq<u8>,
    chunks: Seq<Seq<xpress::Piece>>,
    size: nat,
)
    requires
        0 <= consumed,
        spells(compressed, consumed, out, chunks, size),
    ensures
        xpress::stream_output(compressed, consumed, out, size) == Some(put_chunks(out, chunks)),
    decreases chunks.len(),
{
    if chunks.len() > 0 {
        let data = compressed.skip(consumed + 256);
        let lengths = xpress::code_lengths(compressed.subrange(consumed, consumed + 256));
        let start = xpress::stream_start(data);
        let behind = xpress::behind_pieces(lengths, data, start, chunks[0])->0;
        let more = xpress::put_pieces(out, chunks[0])->0;
        let target = chunk_target(out.len(), size);
        lemma_pieces(lengths, data, start, out, chunks[0], target, size);
        let piece = chunks[0][0];
        assert(piece.behind(lengths, data, start) is Some);
        assert(lengths[piece.symbol() as int] != 0);
        xpress::lemma_piece_decoded(lengths, data, start, piece);
        assert(xpress::has_codes(lengths));
        lemma_refill_goes_on(data, xpress::BitPlace { pos: 0, bits: seq![] });
        lemma_pieces_go_on(lengths, data, start, chunks[0]);
        lemma_chunks(compressed, consumed + 256 + behind.pos, more, chunks.skip(1), size);
    }
}

/// A stream that spells chunks, of up to 33554432 bytes in all, decompresses to
/// what these put out, each behind the one before it.
pub proof fn law_stream_of_chunks_round_trip(
    compressed: Seq<u8>,
    chunks: Seq<Seq<xpress::Piece>>,
    size: nat,
)
    requires
        size <= 33_554_432,
        spells(compressed, 0, seq![], chunks, size),
    ensures
        xpress::decompressed(compressed, size) == Some(put_chunks(seq![], chunks)),
{
    lemma_chunks(compressed, 0, seq![], chunks, size);
}

} // verus!
