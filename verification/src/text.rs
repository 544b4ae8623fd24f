//! Text building blocks shared by every artifact parser: number rendering
//! and parsing, UTF-16 and UTF-8 decoding, and simple searches.

use vstd::prelude::*;
use vstd::utf8::*;

verus! {

broadcast use vstd::string::group_string_axioms;

// ---------------------------------------------------------------------
// Standard-library operations on characters and strings
// ---------------------------------------------------------------------

/// `char::from_u32`: a character for every Unicode scalar value, `None` for
/// surrogates and for anything above U+10FFFF.
pub assume_specification[ char::from_u32 ](i: u32) -> (r: Option<char>)
    ensures
        is_scalar(i) ==> r == Some(i as char),
        !is_scalar(i) ==> r is None,
;

/// `String::push`: appends one character to the end of the string.
pub assume_specification[ String::push ](s: &mut String, c: char)
    ensures
        final(s)@ == old(s)@.push(c),
;

/// What `String::from_utf8_lossy` makes of a byte sequence.
pub uninterp spec fn utf8_lossy(bytes: Seq<u8>) -> Seq<char>;

/// `String::from_utf8_lossy`: a function of the bytes alone. Valid UTF-8 is
/// decoded as it stands; invalid sequences become U+FFFD, and how many
/// replacement characters such a sequence gives is left open here.
#[verifier::external_body]
pub(crate) fn utf8_text(bytes: &[u8]) -> (r: String)
    ensures
        r@ == utf8_lossy(bytes@),
        valid_utf8(bytes@) ==> r@ == decode_utf8(bytes@),
{
    String::from_utf8_lossy(bytes).into_owned()
}

// ---------------------------------------------------------------------
// Characters of a string
// ---------------------------------------------------------------------

/// The characters of a string, as a vector.
pub fn chars_of(s: &str) -> (r: Vec<char>)
    ensures
        r@ == s@,
{
    let mut r: Vec<char> = Vec::new();
    for c in it: s.chars()
        invariant
            it.seq() == s@,
            r@ == s@.take(it.index() as int),
    {
        r.push(c);
    }
    r
}

/// Two strings of equal characters have equal bytes, and the other way round.
proof fn lemma_bytes_decide_text(a: Seq<char>, b: Seq<char>)
    ensures
        (encode_utf8(a) == encode_utf8(b)) == (a == b),
{
    encode_utf8_decode_utf8(a);
    encode_utf8_decode_utf8(b);
}

/// Texts one behind the other.
pub open spec fn concat(parts: Seq<Seq<char>>) -> Seq<char>
    decreases parts.len(),
{
    if parts.len() == 0 {
        seq![]
    } else {
        concat(parts.drop_last()) + parts.last()
    }
}

/// The texts of a list of string slices.
pub open spec fn slices(parts: Seq<&str>) -> Seq<Seq<char>> {
    Seq::new(parts.len(), |i: int| parts[i]@)
}

/// Texts one behind the other.
pub fn concat_text(parts: &Vec<&str>) -> (r: String)
    ensures
        r@ == concat(slices(parts@)),
{
    let mut r = String::new();
    assert(slices(parts@).take(0) =~= seq![]);
    for i in 0..parts.len()
        invariant
            r@ == concat(slices(parts@).take(i as int)),
    {
        assert(slices(parts@).take(i + 1).drop_last() =~= slices(parts@).take(i as int));
        r.append(parts[i]);
    }
    assert(slices(parts@).take(parts@.len() as int) =~= slices(parts@));
    r
}

/// The texts of a list of strings.
pub open spec fn texts(strings: Seq<String>) -> Seq<Seq<char>> {
    Seq::new(strings.len(), |i: int| strings[i]@)
}

/// Whether two byte slices hold the same bytes.
pub fn same_bytes(a: &[u8], b: &[u8]) -> (r: bool)
    ensures
        r == (a@ == b@),
{
    if a.len() != b.len() {
        return false;
    }
    let mut i: usize = 0;
    while i < a.len()
        invariant
            a@.len() == b@.len(),
            i <= a@.len(),
            forall|j: int| 0 <= j < i ==> a@[j] == b@[j],
        decreases a@.len() - i,
    {
        if a[i] != b[i] {
            return false;
        }
        i += 1;
    }
    assert(a@ =~= b@);
    true
}

/// Whether two strings are equal.
pub fn same_text(a: &str, b: &str) -> (r: bool)
    ensures
        r == (a@ == b@),
{
    proof {
        lemma_bytes_decide_text(a@, b@);
    }
    same_bytes(a.as_bytes(), b.as_bytes())
}

/// The first `n` characters of a string, or all of it when it is shorter.
pub open spec fn clipped(s: Seq<char>, n: nat) -> Seq<char> {
    if s.len() <= n {
        s
    } else {
        s.take(n as int)
    }
}

/// `clipped` as a string of its own.
pub fn clip(s: &str, n: usize) -> (r: String)
    ensures
        r@ == clipped(s@, n as nat),
{
    if s.unicode_len() <= n {
        s.to_owned()
    } else {
        assert(s@.subrange(0, n as int) =~= s@.take(n as int));
        s.substring_char(0, n).to_owned()
    }
}

// ---------------------------------------------------------------------
// Rendering numbers
// ---------------------------------------------------------------------

/// The decimal digit of a value below ten.
pub open spec fn digit(d: nat) -> char {
    (48 + d) as char
}

/// A number in decimal, without leading zeros.
pub open spec fn decimal(n: nat) -> Seq<char>
    decreases n,
{
    if n < 10 {
        seq![digit(n)]
    } else {
        decimal(n / 10).push(digit(n % 10))
    }
}

/// Appends a number in decimal.
pub fn push_decimal(s: &mut String, n: u64)
    ensures
        final(s)@ == old(s)@ + decimal(n as nat),
    decreases n,
{
    if n < 10 {
        s.push((48 + n as u8) as char);
    } else {
        push_decimal(s, n / 10);
        s.push((48 + (n % 10) as u8) as char);
    }
    assert(s@ =~= old(s)@ + decimal(n as nat));
}

/// `n` in decimal.
pub fn decimal_text(n: u64) -> (r: String)
    ensures
        r@ == decimal(n as nat),
{
    let mut r = String::new();
    push_decimal(&mut r, n);
    assert(r@ =~= decimal(n as nat));
    r
}

/// `s` with zeros in front of it until it is `width` characters long.
pub open spec fn zero_padded(s: Seq<char>, width: nat) -> Seq<char>
    decreases width - s.len(),
{
    if s.len() >= width {
        s
    } else {
        zero_padded(seq!['0'] + s, width)
    }
}

proof fn lemma_zero_padded(zeros: nat, s: Seq<char>, width: nat)
    requires
        zeros + s.len() <= width || zeros == 0,
    ensures
        zero_padded(Seq::new(zeros, |i: int| '0') + s, width) == zero_padded(s, width),
    decreases zeros,
{
    let z = Seq::new(zeros, |i: int| '0');
    if zeros == 0 {
        assert(z + s =~= s);
    } else {
        let fewer = Seq::new((zeros - 1) as nat, |i: int| '0');
        lemma_zero_padded((zeros - 1) as nat, s, width);
        assert(seq!['0'] + (fewer + s) =~= z + s);
    }
}

/// Appends a number in decimal, padded with zeros to at least `width` digits.
pub fn push_padded(s: &mut String, n: u64, width: usize)
    ensures
        final(s)@ == old(s)@ + zero_padded(decimal(n as nat), width as nat),
{
    let body = decimal_text(n);
    let len = body.as_str().unicode_len();
    let mut zeros: usize = 0;
    while len < width && zeros < width - len
        invariant
            len == body@.len(),
            zeros + len <= width || zeros == 0,
            s@ =~= old(s)@ + Seq::new(zeros as nat, |i: int| '0'),
        decreases width - zeros,
    {
        s.push('0');
        zeros += 1;
    }
    proof {
        lemma_zero_padded(zeros as nat, body@, width as nat);
    }
    let ghost zs = Seq::new(zeros as nat, |i: int| '0');
    s.append(body.as_str());
    assert(s@ =~= old(s)@ + (zs + body@));
}

/// The hexadecimal digit of a value below sixteen.
pub open spec fn hex_digit(d: nat, upper: bool) -> char {
    if d < 10 {
        digit(d)
    } else if upper {
        (55 + d) as char
    } else {
        (87 + d) as char
    }
}

/// The last `width` hexadecimal digits of a number, leading zeros included.
pub open spec fn hex(n: nat, width: nat, upper: bool) -> Seq<char>
    decreases width,
{
    if width == 0 {
        seq![]
    } else {
        hex(n / 16, (width - 1) as nat, upper).push(hex_digit(n % 16, upper))
    }
}

/// Appends the last `width` hexadecimal digits of a number.
pub fn push_hex(s: &mut String, n: u64, width: usize, upper: bool)
    ensures
        final(s)@ == old(s)@ + hex(n as nat, width as nat, upper),
    decreases width,
{
    if width > 0 {
        push_hex(s, n / 16, width - 1, upper);
        let d: u8 = (n % 16) as u8;
        if d < 10 {
            s.push((48 + d) as char);
        } else if upper {
            s.push((55 + d) as char);
        } else {
            s.push((87 + d) as char);
        }
    }
    assert(s@ =~= old(s)@ + hex(n as nat, width as nat, upper));
}

/// Every byte as two lower-case hexadecimal digits.
pub open spec fn hex_dump(bytes: Seq<u8>) -> Seq<char>
    decreases bytes.len(),
{
    if bytes.len() == 0 {
        seq![]
    } else {
        hex_dump(bytes.drop_last()) + hex(bytes.last() as nat, 2, false)
    }
}

/// `hex_dump` as a string.
pub fn hex_dump_text(bytes: &[u8]) -> (r: String)
    ensures
        r@ == hex_dump(bytes@),
{
    let mut r = String::new();
    let mut i: usize = 0;
    while i < bytes.len()
        invariant
            i <= bytes@.len(),
            r@ == hex_dump(bytes@.take(i as int)),
        decreases bytes@.len() - i,
    {
        push_hex(&mut r, bytes[i] as u64, 2, false);
        assert(bytes@.take(i + 1).drop_last() =~= bytes@.take(i as int));
        i += 1;
    }
    assert(bytes@.take(i as int) =~= bytes@);
    r
}

// ---------------------------------------------------------------------
// Reading numbers
// ---------------------------------------------------------------------

/// The value of a digit character in a radix of at most sixteen.
pub open spec fn digit_value(c: char, radix: nat) -> Option<nat> {
    let v = if '0' <= c && c <= '9' {
        c as int - 48
    } else if 'a' <= c && c <= 'f' {
        c as int - 87
    } else if 'A' <= c && c <= 'F' {
        c as int - 55
    } else {
        16
    };
    if v < radix {
        Some(v as nat)
    } else {
        None
    }
}

/// The number that a run of digits stands for, `None` at a character that is no digit.
pub open spec fn digits_value(s: Seq<char>, radix: nat) -> Option<nat>
    decreases s.len(),
{
    if s.len() == 0 {
        Some(0)
    } else {
        match (digits_value(s.drop_last(), radix), digit_value(s.last(), radix)) {
            (Some(high), Some(low)) => Some(high * radix + low),
            _ => None,
        }
    }
}

/// The value of a run of digits, where there are any and the value fits 32 bits.
pub open spec fn bare_number(digits: Seq<char>, radix: nat) -> Option<u32> {
    match digits_value(digits, radix) {
        Some(v) => if digits.len() > 0 && v <= u32::MAX {
            Some(v as u32)
        } else {
            None
        },
        None => None,
    }
}

/// An unsigned 32-bit number in text: an optional `+`, then at least one digit
/// and nothing else, with a value that fits.
pub open spec fn number(s: Seq<char>, radix: nat) -> Option<u32> {
    let digits = if s.len() > 0 && s[0] == '+' {
        s.skip(1)
    } else {
        s
    };
    bare_number(digits, radix)
}

/// The number of values that `width` hexadecimal digits can have.
pub open spec fn hex_values(width: nat) -> nat
    decreases width,
{
    if width == 0 {
        1
    } else {
        16 * hex_values((width - 1) as nat)
    }
}

/// The hexadecimal digits of a number stand for it.
pub proof fn lemma_hex_reads_back(n: nat, width: nat, upper: bool)
    requires
        n < hex_values(width),
    ensures
        hex(n, width, upper).len() == width,
        forall|i: int| 0 <= i < width ==> hex(n, width, upper)[i] != '+',
        digits_value(hex(n, width, upper), 16) == Some(n),
    decreases width,
{
    if width > 0 {
        lemma_hex_reads_back(n / 16, (width - 1) as nat, upper);
        let high = hex(n / 16, (width - 1) as nat, upper);
        let digits = hex(n, width, upper);
        let d = n % 16;
        assert(digits.drop_last() =~= high);
        assert(hex_digit(d, upper) as int == if d < 10 {
            48 + d
        } else if upper {
            55 + d
        } else {
            87 + d
        });
        assert(digit_value(hex_digit(d, upper), 16) == Some(d));
        assert(hex_digit(d, upper) != '+');
    }
}

proof fn lemma_decimal_reads_back(n: nat)
    ensures
        decimal(n).len() > 0,
        forall|i: int| 0 <= i < decimal(n).len() ==> decimal(n)[i] != '+',
        digits_value(decimal(n), 10) == Some(n),
    decreases n,
{
    let d = n % 10;
    assert(digit(d) as int == 48 + d);
    assert(digit_value(digit(d), 10) == Some(d));
    assert(digit(d) != '+');
    if n >= 10 {
        lemma_decimal_reads_back(n / 10);
        assert(decimal(n).drop_last() =~= decimal(n / 10));
    } else {
        assert(decimal(n).drop_last() =~= seq![]);
        assert(digits_value(decimal(n).drop_last(), 10) == Some(0nat));
    }
}

/// A number in decimal is read back.
pub proof fn law_decimal_reads_back(n: u32)
    ensures
        number(decimal(n as nat), 10) == Some(n),
{
    lemma_decimal_reads_back(n as nat);
}

/// More digits never make the number smaller, and a bad character stays bad.
proof fn lemma_digits_grow(s: Seq<char>, n: int, radix: nat)
    requires
        0 <= n <= s.len(),
        radix >= 1,
    ensures
        digits_value(s.take(n), radix) is None ==> digits_value(s, radix) is None,
        digits_value(s, radix) matches Some(v) ==> digits_value(s.take(n), radix)->0 <= v,
    decreases s.len() - n,
{
    if n == s.len() {
        assert(s.take(n) =~= s);
    } else {
        lemma_digits_grow(s, n + 1, radix);
        let longer = s.take(n + 1);
        assert(longer.drop_last() =~= s.take(n));
        if let Some(high) = digits_value(s.take(n), radix) {
            assert(high <= high * radix) by (nonlinear_arith)
                requires
                    radix >= 1,
            ;
        }
    }
}

/// `number` in the radix ten or sixteen.
pub(crate) fn parse_number(s: &Vec<char>, radix: u64) -> (r: Option<u32>)
    requires
        radix == 10 || radix == 16,
    ensures
        r == number(s@, radix as nat),
{
    let start: usize = if s.len() > 0 && s[0] == '+' {
        1
    } else {
        0
    };
    let ghost digits = if s@.len() > 0 && s@[0] == '+' {
        s@.skip(1)
    } else {
        s@
    };
    assert(digits =~= s@.skip(start as int));
    if s.len() == start {
        return None;
    }
    let mut value: u64 = 0;
    let mut i: usize = start;
    assert(digits.take(0) =~= seq![]);
    while i < s.len()
        invariant
            start <= i <= s@.len(),
            radix == 10 || radix == 16,
            digits == s@.skip(start as int),
            digits.len() > 0,
            number(s@, radix as nat) == bare_number(digits, radix as nat),
            digits_value(digits.take(i - start), radix as nat) == Some(value as nat),
            value <= u32::MAX,
        decreases s@.len() - i,
    {
        let c = s[i];
        let d: u64 = if '0' <= c && c <= '9' {
            c as u64 - 48
        } else if 'a' <= c && c <= 'f' {
            c as u64 - 87
        } else if 'A' <= c && c <= 'F' {
            c as u64 - 55
        } else {
            16
        };
        let ghost k = i - start;
        proof {
            lemma_digits_grow(digits, k + 1, radix as nat);
            assert(digits.take(k + 1).drop_last() =~= digits.take(k));
        }
        if d >= radix {
            return None;
        }
        assert(value * radix <= u32::MAX * 16) by (nonlinear_arith)
            requires
                value <= u32::MAX,
                radix <= 16,
        ;
        value = value * radix + d;
        if value > u32::MAX as u64 {
            return None;
        }
        i += 1;
    }
    assert(digits.take(i - start) =~= digits);
    Some(value as u32)
}

// ---------------------------------------------------------------------
// UTF-16
// ---------------------------------------------------------------------

/// Two bytes, the low one first.
pub open spec fn le16(low: u8, high: u8) -> u16 {
    (low + 0x100 * high) as u16
}

/// The little-endian 16-bit units of a byte sequence; an odd last byte is left out.
pub open spec fn units_of(bytes: Seq<u8>) -> Seq<u16> {
    Seq::new(bytes.len() / 2, |i: int| le16(bytes[2 * i], bytes[2 * i + 1]))
}

/// Whether a unit opens a surrogate pair.
pub open spec fn is_high_surrogate(u: u16) -> bool {
    0xD800 <= u <= 0xDBFF
}

/// Whether a unit closes a surrogate pair.
pub open spec fn is_low_surrogate(u: u16) -> bool {
    0xDC00 <= u <= 0xDFFF
}

/// UTF-16 decoded to characters, each unpaired surrogate replaced by U+FFFD.
pub open spec fn utf16_lossy(units: Seq<u16>) -> Seq<char>
    decreases units.len(),
{
    if units.len() == 0 {
        seq![]
    } else if is_high_surrogate(units[0]) && units.len() > 1 && is_low_surrogate(units[1]) {
        let c = 0x10000 + (units[0] - 0xD800) * 0x400 + (units[1] - 0xDC00);
        seq![c as char] + utf16_lossy(units.skip(2))
    } else if is_high_surrogate(units[0]) || is_low_surrogate(units[0]) {
        seq!['\u{FFFD}'] + utf16_lossy(units.skip(1))
    } else {
        seq![units[0] as char] + utf16_lossy(units.skip(1))
    }
}

/// The little-endian 16-bit units of a byte slice.
pub fn utf16_units(bytes: &[u8]) -> (r: Vec<u16>)
    ensures
        r@ == units_of(bytes@),
{
    let mut r: Vec<u16> = Vec::new();
    let n: usize = bytes.len() / 2;
    let mut i: usize = 0;
    while i < n
        invariant
            n == bytes@.len() / 2,
            bytes@.len() <= usize::MAX,
            i <= n,
            r@ =~= units_of(bytes@).take(i as int),
        decreases n - i,
    {
        r.push(bytes[2 * i] as u16 + 0x100 * (bytes[2 * i + 1] as u16));
        i += 1;
    }
    assert(r@ =~= units_of(bytes@));
    r
}

/// `utf16_lossy` as a string.
pub fn utf16_text(units: &[u16]) -> (r: String)
    ensures
        r@ == utf16_lossy(units@),
{
    let mut r = String::new();
    let mut i: usize = 0;
    assert(r@ + utf16_lossy(units@.skip(0)) =~= utf16_lossy(units@)) by {
        assert(units@.skip(0) =~= units@);
    }
    while i < units.len()
        invariant
            i <= units@.len(),
            r@ + utf16_lossy(units@.skip(i as int)) == utf16_lossy(units@),
        decreases units@.len() - i,
    {
        let ghost before = r@;
        let ghost rest = units@.skip(i as int);
        let u: u16 = units[i];
        if 0xD800 <= u && u <= 0xDBFF && i + 1 < units.len() && 0xDC00 <= units[i + 1]
            && units[i + 1] <= 0xDFFF {
            let v: u32 = 0x10000 + (u as u32 - 0xD800) * 0x400 + (units[i + 1] as u32 - 0xDC00);
            assert(rest[1] == units@[i + 1]);
            match char::from_u32(v) {
                Some(c) => { r.push(c); },
                None => {},
            }
            assert(rest.skip(2) =~= units@.skip(i + 2));
            i += 2;
        } else if 0xD800 <= u && u <= 0xDFFF {
            r.push('\u{FFFD}');
            assert(rest.skip(1) =~= units@.skip(i + 1));
            i += 1;
        } else {
            match char::from_u32(u as u32) {
                Some(c) => { r.push(c); },
                None => {},
            }
            assert(rest.skip(1) =~= units@.skip(i + 1));
            i += 1;
        }
        assert(r@ + utf16_lossy(units@.skip(i as int)) =~= before + utf16_lossy(rest));
    }
    assert(units@.skip(i as int) =~= seq![]);
    assert(r@ + utf16_lossy(seq![]) =~= r@);
    r
}

/// A character in UTF-16.
pub open spec fn utf16_encoded_char(c: char) -> Seq<u16> {
    let n = c as int;
    if n < 0x10000 {
        seq![n as u16]
    } else {
        seq![(0xD800 + (n - 0x10000) / 0x400) as u16, (0xDC00 + (n - 0x10000) % 0x400) as u16]
    }
}

/// A text in UTF-16.
pub open spec fn utf16_encoded(s: Seq<char>) -> Seq<u16>
    decreases s.len(),
{
    if s.len() == 0 {
        seq![]
    } else {
        utf16_encoded_char(s[0]) + utf16_encoded(s.skip(1))
    }
}

proof fn lemma_char_reads_back(c: char, rest: Seq<u16>)
    ensures
        utf16_lossy(utf16_encoded_char(c) + rest) == seq![c] + utf16_lossy(rest),
{
    let units = utf16_encoded_char(c) + rest;
    let n = c as int;
    if n < 0x10000 {
        assert(units[0] == n);
        assert(units.skip(1) =~= rest);
    } else {
        assert(units[0] == 0xD800 + (n - 0x10000) / 0x400);
        assert(units[1] == 0xDC00 + (n - 0x10000) % 0x400);
        assert(units.skip(2) =~= rest);
    }
}

/// Text in UTF-16 is read back.
pub proof fn law_utf16_reads_back(s: Seq<char>)
    ensures
        utf16_lossy(utf16_encoded(s)) == s,
    decreases s.len(),
{
    if s.len() > 0 {
        law_utf16_reads_back(s.skip(1));
        lemma_char_reads_back(s[0], utf16_encoded(s.skip(1)));
        assert(seq![s[0]] + s.skip(1) =~= s);
    }
}

/// Little-endian UTF-16 bytes as a string.
pub fn utf16le_text(bytes: &[u8]) -> (r: String)
    ensures
        r@ == utf16_lossy(units_of(bytes@)),
{
    let units = utf16_units(bytes);
    utf16_text(units.as_slice())
}

// ---------------------------------------------------------------------
// Searching
// ---------------------------------------------------------------------

/// The characters with the Unicode property White_Space.
pub open spec fn is_white_space(c: char) -> bool {
    let u = c as int;
    ||| 0x09 <= u <= 0x0D
    ||| u == 0x20
    ||| u == 0x85
    ||| u == 0xA0
    ||| u == 0x1680
    ||| 0x2000 <= u <= 0x200A
    ||| u == 0x2028
    ||| u == 0x2029
    ||| u == 0x202F
    ||| u == 0x205F
    ||| u == 0x3000
}

/// `is_white_space` of a character.
fn white_space(c: char) -> (r: bool)
    ensures
        r == is_white_space(c),
{
    let u: u32 = c as u32;
    (0x09 <= u && u <= 0x0D) || u == 0x20 || u == 0x85 || u == 0xA0 || u == 0x1680 || (0x2000 <= u
        && u <= 0x200A) || u == 0x2028 || u == 0x2029 || u == 0x202F || u == 0x205F || u == 0x3000
}

/// Whether a text holds nothing but white space.
pub open spec fn is_blank(s: Seq<char>) -> bool {
    forall|i: int| 0 <= i < s.len() ==> is_white_space(#[trigger] s[i])
}

/// `is_blank` of a string.
pub fn blank(s: &str) -> (r: bool)
    ensures
        r == is_blank(s@),
{
    let cs = chars_of(s);
    let mut i: usize = 0;
    while i < cs.len()
        invariant
            cs@ == s@,
            i <= cs@.len(),
            forall|j: int| 0 <= j < i ==> is_white_space(#[trigger] s@[j]),
        decreases cs@.len() - i,
    {
        if !white_space(cs[i]) {
            return false;
        }
        i += 1;
    }
    true
}

/// Whether `needle` stands somewhere in `s`.
pub open spec fn has_infix(s: Seq<char>, needle: Seq<char>) -> bool {
    exists|i: int|
        0 <= i <= s.len() - needle.len() && #[trigger] s.subrange(i, i + needle.len()) == needle
}

/// `has_infix` of two strings.
pub fn contains_text(s: &str, needle: &str) -> (r: bool)
    ensures
        r == has_infix(s@, needle@),
{
    let cs = chars_of(s);
    let ns = chars_of(needle);
    if ns.len() > cs.len() {
        return false;
    }
    let last: usize = cs.len() - ns.len();
    let mut i: usize = 0;
    while i <= last
        invariant
            cs@ == s@,
            ns@ == needle@,
            last == cs@.len() - ns@.len(),
            cs@.len() <= usize::MAX,
            i <= last + 1,
            last < usize::MAX || ns@.len() == 0,
            forall|k: int|
                0 <= k < i ==> #[trigger] s@.subrange(k, k + needle@.len()) != needle@,
        decreases last + 1 - i,
    {
        let mut j: usize = 0;
        while j < ns.len() && cs[i + j] == ns[j]
            invariant
                cs@ == s@,
                ns@ == needle@,
                last == cs@.len() - ns@.len(),
                i <= last,
                j <= ns@.len(),
                cs@.len() <= usize::MAX,
                forall|k: int| 0 <= k < j ==> cs@[i + k] == #[trigger] ns@[k],
            decreases ns@.len() - j,
        {
            j += 1;
        }
        if j == ns.len() {
            assert(s@.subrange(i as int, i + needle@.len()) =~= needle@);
            return true;
        }
        assert(s@.subrange(i as int, i + needle@.len())[j as int] != needle@[j as int]);
        i += 1;
    }
    false
}

// ---------------------------------------------------------------------
// Laws
// ---------------------------------------------------------------------

/// What a run of the characters from `0` to `9` counts.
pub open spec fn counted(s: Seq<char>) -> int
    decreases s.len(),
{
    if s.len() == 0 {
        0
    } else {
        10 * counted(s.drop_last()) + (s.last() as int - '0' as int)
    }
}

/// Whether a text is a run of the characters from `0` to `9`.
pub open spec fn is_count(s: Seq<char>) -> bool {
    s.len() > 0 && forall|i: int| 0 <= i < s.len() ==> '0' <= #[trigger] s[i] && s[i] <= '9'
}

/// A number in decimal is a run of digits that counts it, and starts with no
/// zero unless it is zero.
pub proof fn law_decimal_counts(n: nat)
    ensures
        is_count(decimal(n)),
        counted(decimal(n)) == n,
        decimal(n)[0] == '0' ==> n == 0 && decimal(n).len() == 1,
    decreases n,
{
    if n < 10 {
        let one = decimal(n);
        assert(one.drop_last() =~= Seq::<char>::empty());
        assert(one[0] as int == 48 + n);
        assert(counted(one.drop_last()) == 0);
    } else {
        law_decimal_counts(n / 10);
        let d = n % 10;
        assert(decimal(n).drop_last() =~= decimal(n / 10));
        assert(digit(d) as int == 48 + d);
        assert(decimal(n)[0] == decimal(n / 10)[0]);
    }
}

proof fn lemma_counted(s: Seq<char>)
    ensures
        digits_value(s, 10) is Some == forall|i: int|
            0 <= i < s.len() ==> '0' <= #[trigger] s[i] && s[i] <= '9',
        digits_value(s, 10) matches Some(v) ==> counted(s) == v,
    decreases s.len(),
{
    if s.len() > 0 {
        let head = s.drop_last();
        lemma_counted(head);
        assert(digit_value(s.last(), 10) is Some == ('0' <= s.last() && s.last() <= '9'));
        if forall|i: int| 0 <= i < s.len() ==> '0' <= #[trigger] s[i] && s[i] <= '9' {
            assert forall|i: int| 0 <= i < head.len() implies '0' <= #[trigger] head[i] && head[i]
                <= '9' by {
                assert(head[i] == s[i]);
            }
            assert('0' <= s[s.len() - 1] && s[s.len() - 1] <= '9');
        } else {
            let i = choose|i: int| 0 <= i < s.len() && !('0' <= #[trigger] s[i] && s[i] <= '9');
            if i < s.len() - 1 {
                assert(head[i] == s[i]);
            }
        }
    }
}

/// A text is a decimal number just where it is a run of digits, perhaps behind
/// a plus sign, that counts no more than 32 bits hold. It is the number that is
/// counted.
pub proof fn law_numbers_are_counted(s: Seq<char>)
    requires
        s.len() > 0 ==> s[0] != '+',
    ensures
        number(s, 10) is Some == (is_count(s) && counted(s) <= 0xFFFF_FFFF),
        number(s, 10) matches Some(n) ==> n == counted(s),
        number(seq!['+'] + s, 10) == number(s, 10),
{
    lemma_counted(s);
    assert((seq!['+'] + s).skip(1) =~= s);
}

/// The last `width` digits of a number in base sixteen are that many characters
/// from `0` to `9` and from `A` to `F`, or from `a` to `f`.
pub proof fn law_hexadecimal_digits(n: nat, width: nat, upper: bool, i: int)
    requires
        0 <= i < width,
    ensures
        hex(n, width, upper).len() == width,
        ({
            let c = hex(n, width, upper)[i];
            ||| '0' <= c && c <= '9'
            ||| upper && 'A' <= c && c <= 'F'
            ||| !upper && 'a' <= c && c <= 'f'
        }),
    decreases width,
{
    reveal_with_fuel(hex, 2);
    let d = n % 16;
    let c = hex_digit(d, upper);
    assert(c as int == if d < 10 {
        48 + d
    } else if upper {
        55 + d
    } else {
        87 + d
    });
    if i < width - 1 {
        law_hexadecimal_digits(n / 16, (width - 1) as nat, upper, i);
    } else if width > 1 {
        law_hexadecimal_digits(n / 16, (width - 1) as nat, upper, 0);
    }
}

/// What a character counts as a digit in base sixteen.
pub open spec fn sixteenths(c: char) -> int {
    if '0' <= c && c <= '9' {
        c as int - '0' as int
    } else if 'A' <= c && c <= 'F' {
        c as int - 'A' as int + 10
    } else {
        c as int - 'a' as int + 10
    }
}

/// The digits of a number in base sixteen stand for its parts: the last one for
/// what is left over by sixteen, and those in front of it for how often sixteen
/// goes into it.
pub proof fn law_hexadecimal_counts(n: nat, width: nat, upper: bool)
    requires
        width > 0,
    ensures
        sixteenths(hex(n, width, upper).last()) == n % 16,
        hex(n, width, upper).drop_last() == hex(n / 16, (width - 1) as nat, upper),
{
    let d = n % 16;
    assert(hex_digit(d, upper) as int == if d < 10 {
        48 + d
    } else if upper {
        55 + d
    } else {
        87 + d
    });
}

/// Whether a character is a digit in base sixteen.
pub open spec fn is_sixteenth(c: char) -> bool {
    ||| '0' <= c && c <= '9'
    ||| 'A' <= c && c <= 'F'
    ||| 'a' <= c && c <= 'f'
}

/// What a run of digits in base sixteen counts.
pub open spec fn counted_in_sixteens(s: Seq<char>) -> int
    decreases s.len(),
{
    if s.len() == 0 {
        0
    } else {
        16 * counted_in_sixteens(s.drop_last()) + sixteenths(s.last())
    }
}

proof fn lemma_counted_in_sixteens(s: Seq<char>)
    ensures
        digits_value(s, 16) is Some == forall|i: int|
            0 <= i < s.len() ==> is_sixteenth(#[trigger] s[i]),
        digits_value(s, 16) matches Some(v) ==> counted_in_sixteens(s) == v,
    decreases s.len(),
{
    if s.len() > 0 {
        let head = s.drop_last();
        lemma_counted_in_sixteens(head);
        assert(digit_value(s.last(), 16) is Some == is_sixteenth(s.last()));
        if forall|i: int| 0 <= i < s.len() ==> is_sixteenth(#[trigger] s[i]) {
            assert forall|i: int| 0 <= i < head.len() implies is_sixteenth(#[trigger] head[i]) by {
                assert(head[i] == s[i]);
            }
            assert(is_sixteenth(s[s.len() - 1]));
        } else {
            let i = choose|i: int| 0 <= i < s.len() && !is_sixteenth(#[trigger] s[i]);
            if i < s.len() - 1 {
                assert(head[i] == s[i]);
            }
        }
    }
}

/// A text is a number in base sixteen just where it is a run of digits, small or
/// capital, perhaps behind a plus sign, that counts no more than 32 bits hold.
pub proof fn law_numbers_are_counted_in_sixteens(s: Seq<char>)
    requires
        s.len() > 0 ==> s[0] != '+',
    ensures
        number(s, 16) is Some == (s.len() > 0 && (forall|i: int|
            0 <= i < s.len() ==> is_sixteenth(#[trigger] s[i])) && counted_in_sixteens(s)
            <= 0xFFFF_FFFF),
        number(s, 16) matches Some(n) ==> n == counted_in_sixteens(s),
        number(seq!['+'] + s, 16) == number(s, 16),
{
    lemma_counted_in_sixteens(s);
    assert((seq!['+'] + s).skip(1) =~= s);
}

/// Bytes in hexadecimal are two small digits for each, in their order.
pub proof fn law_dump_has_two_digits_for_each_byte(bytes: Seq<u8>, i: int)
    ensures
        hex_dump(bytes).len() == 2 * bytes.len(),
        0 <= i < bytes.len() ==> hex_dump(bytes).subrange(2 * i, 2 * i + 2) == hex(
            bytes[i] as nat,
            2,
            false,
        ),
    decreases bytes.len(),
{
    if bytes.len() > 0 {
        let head = bytes.drop_last();
        let last = hex(bytes.last() as nat, 2, false);
        law_dump_has_two_digits_for_each_byte(head, i);
        law_hexadecimal_digits(bytes.last() as nat, 2, false, 0);
        if 0 <= i < head.len() {
            assert(hex_dump(bytes).subrange(2 * i, 2 * i + 2) =~= hex_dump(head).subrange(
                2 * i,
                2 * i + 2,
            ));
        } else if i == head.len() {
            assert(hex_dump(bytes).subrange(2 * i, 2 * i + 2) =~= last);
        }
    }
}

/// A padded text is the text behind as many zeros as it lacks.
pub proof fn law_padding_is_zeros_in_front(s: Seq<char>, width: nat)
    ensures
        s.len() >= width ==> zero_padded(s, width) == s,
        s.len() < width ==> zero_padded(s, width) == Seq::new(
            (width - s.len()) as nat,
            |i: int| '0',
        ) + s,
{
    if s.len() < width {
        lemma_zero_padded((width - s.len()) as nat, s, width);
    }
}

/// A clipped text is the start of the text, all of it or as long as is allowed.
pub proof fn law_clipped_is_the_start(s: Seq<char>, n: nat)
    ensures
        clipped(s, n).is_prefix_of(s),
        s.len() <= n ==> clipped(s, n).len() == s.len(),
        s.len() > n ==> clipped(s, n).len() == n,
{
}

/// Texts one behind the other are those of a first part and then those of the
/// rest; a single one is itself.
pub proof fn law_texts_follow_each_other(a: Seq<Seq<char>>, b: Seq<Seq<char>>, one: Seq<char>)
    ensures
        concat(a + b) == concat(a) + concat(b),
        concat(seq![one]) == one,
    decreases b.len(),
{
    assert(seq![one].drop_last() =~= Seq::<Seq<char>>::empty());
    assert(concat(seq![one].drop_last()) + one =~= one);
    if b.len() == 0 {
        assert(a + b =~= a);
        assert(concat(a) + concat(b) =~= concat(a));
    } else {
        law_texts_follow_each_other(a, b.drop_last(), one);
        assert((a + b).drop_last() =~= a + b.drop_last());
        assert((a + b).last() == b.last());
        assert(concat(a + b) =~= concat(a) + concat(b));
    }
}

/// A surrogate that is not one of a pair becomes the replacement character, and
/// what is behind it is read on.
pub proof fn law_unpaired_surrogates_are_replaced(unit: u16, rest: Seq<u16>)
    requires
        0xD800 <= unit <= 0xDFFF,
        unit >= 0xDC00 || rest.len() == 0 || rest[0] < 0xDC00 || rest[0] > 0xDFFF,
    ensures
        utf16_lossy(seq![unit] + rest) == seq!['\u{FFFD}'] + utf16_lossy(rest),
{
    let units = seq![unit] + rest;
    assert(units.skip(1) =~= rest);
    if units.len() > 1 {
        assert(units[1] == rest[0]);
    }
}

/// Two bytes make a unit, the first of them its low half. An odd byte at the end
/// makes none.
pub proof fn law_units_have_their_low_byte_first(bytes: Seq<u8>, i: int)
    requires
        0 <= i,
        2 * i + 1 < bytes.len(),
    ensures
        units_of(bytes).len() == bytes.len() / 2,
        units_of(bytes)[i] == bytes[2 * i] + 256 * bytes[2 * i + 1],
{
}

/// The code points of white space.
pub open spec fn white_space_points() -> Seq<int> {
    seq![
        9,
        10,
        11,
        12,
        13,
        32,
        133,
        160,
        5760,
        8192,
        8193,
        8194,
        8195,
        8196,
        8197,
        8198,
        8199,
        8200,
        8201,
        8202,
        8232,
        8233,
        8239,
        8287,
        12288,
    ]
}

/// White space are 25 characters.
pub proof fn law_white_space_are_25_characters(c: char)
    ensures
        is_white_space(c) <==> exists|i: int|
            0 <= i < 25 && #[trigger] white_space_points()[i] == c as int,
{
    let p = white_space_points();
    let u = c as int;
    if is_white_space(c) {
        if u <= 13 {
            assert(p[u - 9] == u);
        } else if 8192 <= u <= 8202 {
            assert(p[u - 8192 + 9] == u);
        } else {
            assert(p[5] == 32 && p[6] == 133 && p[7] == 160 && p[8] == 5760);
            assert(p[20] == 8232 && p[21] == 8233 && p[22] == 8239 && p[23] == 8287);
            assert(p[24] == 12288);
        }
    }
}

/// A text holds another one just where it is that one with something, or
/// nothing, in front of it and behind it.
pub proof fn law_infix_has_text_on_both_sides(a: Seq<char>, needle: Seq<char>, b: Seq<char>)
    ensures
        has_infix(a + needle + b, needle),
        has_infix(a, needle) ==> exists|i: int|
            0 <= i <= a.len() && #[trigger] a.take(i) + needle + a.skip(i + needle.len()) == a,
{
    let s = a + needle + b;
    let at = a.len() as int;
    assert(s.subrange(at, at + needle.len()) =~= needle);
    if has_infix(a, needle) {
        let i = choose|i: int|
            0 <= i <= a.len() - needle.len() && #[trigger] a.subrange(i, i + needle.len())
                == needle;
        assert(a.take(i) + a.subrange(i, i + needle.len()) + a.skip(i + needle.len()) =~= a);
    }
}

} // verus!
