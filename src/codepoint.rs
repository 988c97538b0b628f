//! Codepoints as the matcher sees them: the UTF-8 bytes of one character,
//! packed big-endian into a `u32` and padded with zero bytes on the right.
//! Byte-string order of UTF-8 is codepoint order, so ranges compare directly.
use vstd::prelude::*;
use vstd::string::StringSliceAdditionalSpecFns;

verus! {

/// Number of bytes announced by a UTF-8 leading byte; 0 for a byte that
/// cannot start a codepoint.
pub open spec fn lead_width(marker: u8) -> nat {
    if marker < 0x80 {
        1
    } else if 0xC0 <= marker && marker < 0xE0 {
        2
    } else if 0xE0 <= marker && marker < 0xF0 {
        3
    } else if 0xF0 <= marker && marker < 0xF8 {
        4
    } else {
        0
    }
}

/// Width of the codepoint that starts at `pos`. A malformed or truncated
/// sequence is read one byte at a time, so that decoding is total.
pub open spec fn step_width(bytes: Seq<u8>, pos: int) -> nat {
    let w = lead_width(bytes[pos]);
    if w == 0 || pos + w > bytes.len() {
        1
    } else {
        w
    }
}

/// The bytes `bytes[pos .. pos + w]`, packed big-endian into the high end of a `u32`.
pub open spec fn pack(bytes: Seq<u8>, pos: int, w: nat) -> u32 {
    let b0 = bytes[pos] as int;
    let b1 = if w >= 2 { bytes[pos + 1] as int } else { 0 };
    let b2 = if w >= 3 { bytes[pos + 2] as int } else { 0 };
    let b3 = if w >= 4 { bytes[pos + 3] as int } else { 0 };
    (b0 * 0x1000000 + b1 * 0x10000 + b2 * 0x100 + b3) as u32
}

/// The packed UTF-8 encoding of a character.
pub open spec fn packed_utf8(c: char) -> u32 {
    let v = c as u32 as int;
    if v < 0x80 {
        (v * 0x1000000) as u32
    } else if v < 0x800 {
        ((0xC0 + v / 64) * 0x1000000 + (0x80 + v % 64) * 0x10000) as u32
    } else if v < 0x10000 {
        ((0xE0 + v / 4096) * 0x1000000 + (0x80 + (v / 64) % 64) * 0x10000 + (0x80 + v % 64)
            * 0x100) as u32
    } else {
        ((0xF0 + v / 262144) * 0x1000000 + (0x80 + (v / 4096) % 64) * 0x10000 + (0x80 + (v / 64)
            % 64) * 0x100 + (0x80 + v % 64)) as u32
    }
}

/// The packed codes of a string's characters, in order.
pub open spec fn char_codes(cs: Seq<char>) -> Seq<u32> {
    cs.map_values(|c: char| packed_utf8(c))
}

/// The codepoints of a byte string, in order.
pub open spec fn codes_of(bytes: Seq<u8>) -> Seq<u32>
    decreases bytes.len(),
{
    if bytes.len() == 0 {
        seq![]
    } else {
        let w = step_width(bytes, 0);
        seq![pack(bytes, 0, w)] + codes_of(bytes.subrange(w as int, bytes.len() as int))
    }
}

/// Number of bytes in the UTF-8 encoding of `c`.
pub open spec fn char_width(c: char) -> nat {
    let v = c as u32;
    if v < 0x80 {
        1
    } else if v < 0x800 {
        2
    } else if v < 0x10000 {
        3
    } else {
        4
    }
}

/// Number of bytes in the UTF-8 encoding of `cs`.
pub open spec fn utf8_len(cs: Seq<char>) -> nat
    decreases cs.len(),
{
    if cs.len() == 0 {
        0
    } else {
        utf8_len(cs.drop_last()) + char_width(cs.last())
    }
}

/// The encoded length splits off the first character as well as the last.
proof fn lemma_utf8_len_first(cs: Seq<char>)
    requires
        cs.len() > 0,
    ensures
        utf8_len(cs) == char_width(cs[0]) + utf8_len(cs.drop_first()),
    decreases cs.len(),
{
    if cs.len() > 1 {
        lemma_utf8_len_first(cs.drop_last());
        assert(cs.drop_last().drop_first() =~= cs.drop_first().drop_last());
        assert(cs.drop_first().last() == cs.last());
        assert(cs.drop_last()[0] == cs[0]);
        assert(utf8_len(cs.drop_first()) == utf8_len(cs.drop_first().drop_last()) + char_width(cs.drop_first().last()));
    } else {
        assert(cs.drop_first().len() == 0);
        assert(cs.drop_last().len() == 0);
        assert(cs.last() == cs[0]);
        assert(utf8_len(cs.drop_last()) == 0);
        assert(utf8_len(cs.drop_first()) == 0);
    }
}

/// `utf8_len` is the length of the UTF-8 encoding.
pub proof fn lemma_utf8_len_encoding(cs: Seq<char>)
    ensures
        utf8_len(cs) == vstd::utf8::encode_utf8(cs).len(),
    decreases cs.len(),
{
    if cs.len() > 0 {
        lemma_utf8_len_first(cs);
        lemma_utf8_len_encoding(cs.drop_first());
        vstd::utf8::char_is_scalar(cs[0]);
        assert(vstd::utf8::encode_scalar(cs[0] as u32).len() == char_width(cs[0]));
    }
}

/// Byte offset, in the UTF-8 encoding of `cs`, of the character at index `i`
/// (the length of the encoding when `i` is the end).
pub fn byte_offset(cs: &Vec<char>, i: usize) -> (r: usize)
    requires
        i <= cs@.len(),
        utf8_len(cs@) <= usize::MAX,
    ensures
        r == utf8_len(cs@.subrange(0, i as int)),
{
    let mut k: usize = 0;
    let mut r: usize = 0;
    proof {
        assert(cs@.subrange(0, 0) =~= Seq::<char>::empty());
        lemma_utf8_len_prefix(cs@, i as int);
    }
    while k < i
        invariant
            k <= i <= cs@.len(),
            r == utf8_len(cs@.subrange(0, k as int)),
            utf8_len(cs@.subrange(0, i as int)) <= usize::MAX,
            forall|a: int| 0 <= a <= i ==> utf8_len(#[trigger] cs@.subrange(0, a)) <= utf8_len(cs@.subrange(0, i as int)),
        decreases i - k,
    {
        let v = cs[k] as u32;
        let w: usize = if v < 0x80 {
            1
        } else if v < 0x800 {
            2
        } else if v < 0x10000 {
            3
        } else {
            4
        };
        assert(cs@.subrange(0, k + 1).drop_last() =~= cs@.subrange(0, k as int));
        assert(cs@.subrange(0, k + 1).last() == cs@[k as int]);
        r = r + w;
        k = k + 1;
    }
    r
}

/// Encoded lengths grow with the prefix.
proof fn lemma_utf8_len_prefix(cs: Seq<char>, i: int)
    requires
        0 <= i <= cs.len(),
    ensures
        forall|a: int| 0 <= a <= i ==> utf8_len(#[trigger] cs.subrange(0, a)) <= utf8_len(cs.subrange(0, i)),
        utf8_len(cs.subrange(0, i)) <= utf8_len(cs),
{
    assert forall|a: int| 0 <= a <= i implies utf8_len(#[trigger] cs.subrange(0, a)) <= utf8_len(cs.subrange(0, i)) by {
        lemma_utf8_len_prefix_step(cs, a, i);
    }
    lemma_utf8_len_prefix_step(cs, i, cs.len() as int);
    assert(cs.subrange(0, cs.len() as int) =~= cs);
}

proof fn lemma_utf8_len_prefix_step(cs: Seq<char>, a: int, i: int)
    requires
        0 <= a <= i <= cs.len(),
    ensures
        utf8_len(cs.subrange(0, a)) <= utf8_len(cs.subrange(0, i)),
    decreases i - a,
{
    if a < i {
        lemma_utf8_len_prefix_step(cs, a, i - 1);
        assert(cs.subrange(0, i).drop_last() =~= cs.subrange(0, i - 1));
    }
}

/// Packs the UTF-8 encoding of `c` into a `u32`.
pub fn char_to_utf8(c: char) -> (r: u32)
    ensures
        r == packed_utf8(c),
{
    proof {
        vstd::utf8::char_is_scalar(c);
    }
    let v = c as u32;
    if v < 0x80 {
        v * 0x1000000
    } else if v < 0x800 {
        (0xC0 + v / 64) * 0x1000000 + (0x80 + v % 64) * 0x10000
    } else if v < 0x10000 {
        (0xE0 + v / 4096) * 0x1000000 + (0x80 + (v / 64) % 64) * 0x10000 + (0x80 + v % 64) * 0x100
    } else {
        (0xF0 + v / 262144) * 0x1000000 + (0x80 + (v / 4096) % 64) * 0x10000 + (0x80 + (v / 64)
            % 64) * 0x100 + (0x80 + v % 64)
    }
}

/// Whether `marker` can start a codepoint.
pub fn is_lead_byte(marker: u8) -> (r: bool)
    ensures
        r == (lead_width(marker) > 0),
{
    marker < 0x80 || (0xC0 <= marker && marker < 0xF8)
}

/// Number of bytes announced by a leading byte.
pub fn code_point_len(marker: u8) -> (r: usize)
    requires
        lead_width(marker) > 0,
    ensures
        r == lead_width(marker),
        1 <= r <= 4,
{
    if marker < 0x80 {
        1
    } else if 0xC0 <= marker && marker < 0xE0 {
        2
    } else if 0xE0 <= marker && marker < 0xF0 {
        3
    } else if 0xF0 <= marker && marker < 0xF8 {
        4
    } else {
        0
    }
}

fn step_width_at(bytes: &[u8], pos: usize) -> (r: usize)
    requires
        pos < bytes@.len(),
    ensures
        r == step_width(bytes@, pos as int),
        1 <= r <= 4,
        pos + r <= bytes@.len(),
        pos + r <= usize::MAX,
{
    let marker = bytes[pos];
    if !is_lead_byte(marker) {
        return 1;
    }
    let w = code_point_len(marker);
    if w > bytes.len() - pos {
        1
    } else {
        w
    }
}

fn pack_at(bytes: &[u8], pos: usize, w: usize) -> (r: u32)
    requires
        1 <= w <= 4,
        pos + w <= bytes@.len(),
    ensures
        r == pack(bytes@, pos as int, w as nat),
{
    let b0 = bytes[pos] as u32;
    let b1: u32 = if w >= 2 { bytes[pos + 1] as u32 } else { 0 };
    let b2: u32 = if w >= 3 { bytes[pos + 2] as u32 } else { 0 };
    let b3: u32 = if w >= 4 { bytes[pos + 3] as u32 } else { 0 };
    b0 * 0x1000000 + b1 * 0x10000 + b2 * 0x100 + b3
}

/// Byte offset just past the codepoint that starts at `start`.
pub fn find_next_code_point(s: &str, start: usize) -> (r: usize)
    requires
        start < s.spec_bytes().len(),
    ensures
        r == start + step_width(s.spec_bytes(), start as int),
        r <= s.spec_bytes().len(),
{
    let bytes = s.as_bytes();
    start + step_width_at(bytes, start)
}

/// Decodes the codepoint that starts at byte offset `pos`: its packed value
/// and the offset just past it.
pub fn next_char(s: &str, pos: usize) -> (r: (u32, usize))
    requires
        pos < s.spec_bytes().len(),
    ensures
        r.1 == pos + step_width(s.spec_bytes(), pos as int),
        r.1 <= s.spec_bytes().len(),
        r.0 == pack(s.spec_bytes(), pos as int, (r.1 - pos) as nat),
{
    let bytes = s.as_bytes();
    let w = step_width_at(bytes, pos);
    (pack_at(bytes, pos, w), pos + w)
}


/// A cursor over the codepoints of a string.
pub struct CharSlice<'a> {
    offset: usize,
    base: &'a str,
}

impl<'a> CharSlice<'a> {
    /// Byte offset of the cursor.
    pub closed spec fn position(&self) -> nat {
        self.offset as nat
    }

    /// The bytes of the string the cursor walks.
    pub closed spec fn text(&self) -> Seq<u8> {
        self.base.spec_bytes()
    }

    /// A cursor at the start of `s`.
    pub fn new(s: &'a str) -> (r: Self)
        ensures
            r.position() == 0,
            r.text() == s.spec_bytes(),
    {
        Self { offset: 0, base: s }
    }

    /// Whether the cursor is at the end of the string.
    pub fn is_empty(&self) -> (r: bool)
        requires
            self.position() <= self.text().len(),
        ensures
            r == (self.position() == self.text().len()),
    {
        self.offset == self.base.as_bytes().len()
    }

    /// The bytes of the codepoint under the cursor, padded with zeros, and
    /// the cursor moved past it.
    pub fn get_advance(&self) -> (r: ([u8; 4], CharSlice<'a>))
        requires
            self.position() < self.text().len(),
        ensures
            r.1.text() == self.text(),
            r.1.position() == self.position() + step_width(self.text(), self.position() as int),
            forall|k: int|
                0 <= k < 4 ==> #[trigger] r.0@[k] == if k < step_width(
                    self.text(),
                    self.position() as int,
                ) {
                    self.text()[self.position() + k]
                } else {
                    0u8
                },
    {
        let bytes = self.base.as_bytes();
        let next_offset = find_next_code_point(self.base, self.offset);
        let w = next_offset - self.offset;
        let b0 = bytes[self.offset];
        let b1 = if w >= 2 { bytes[self.offset + 1] } else { 0 };
        let b2 = if w >= 3 { bytes[self.offset + 2] } else { 0 };
        let b3 = if w >= 4 { bytes[self.offset + 3] } else { 0 };
        let first: [u8; 4] = [b0, b1, b2, b3];
        (first, CharSlice { offset: next_offset, base: self.base })
    }
}


proof fn lemma_width_2_bytes(v: u32)
    requires
        0x80 <= v < 0x800,
    ensures
        (0xC0u8 | ((v >> 6u32) & 0x1Fu32) as u8) as int == 0xC0 + v as int / 64,
        (0x80u8 | (v & 0x3Fu32) as u8) as int == 0x80 + v as int % 64,
{
    assert((0xC0u8 | ((v >> 6u32) & 0x1Fu32) as u8) == (0xC0u32 + v / 64) as u8 && 0xC0u32 + v / 64 < 256)
        by (bit_vector)
        requires
            0x80 <= v < 0x800,
    ;
    assert((0x80u8 | (v & 0x3Fu32) as u8) == (0x80u32 + v % 64) as u8) by (bit_vector);
}

proof fn lemma_width_3_bytes(v: u32)
    requires
        0x800 <= v < 0x10000,
    ensures
        (0xE0u8 | ((v >> 12u32) & 0x0Fu32) as u8) as int == 0xE0 + v as int / 4096,
        (0x80u8 | ((v >> 6u32) & 0x3Fu32) as u8) as int == 0x80 + (v as int / 64) % 64,
        (0x80u8 | (v & 0x3Fu32) as u8) as int == 0x80 + v as int % 64,
{
    assert((0xE0u8 | ((v >> 12u32) & 0x0Fu32) as u8) == (0xE0u32 + v / 4096) as u8 && 0xE0u32 + v / 4096
        < 256) by (bit_vector)
        requires
            0x800 <= v < 0x10000,
    ;
    assert((0x80u8 | ((v >> 6u32) & 0x3Fu32) as u8) == (0x80u32 + (v / 64) % 64) as u8) by (bit_vector);
    assert((0x80u8 | (v & 0x3Fu32) as u8) == (0x80u32 + v % 64) as u8) by (bit_vector);
}

proof fn lemma_width_4_bytes(v: u32)
    requires
        0x10000 <= v <= 0x10FFFF,
    ensures
        (0xF0u8 | ((v >> 18u32) & 0x7u32) as u8) as int == 0xF0 + v as int / 262144,
        (0x80u8 | ((v >> 12u32) & 0x3Fu32) as u8) as int == 0x80 + (v as int / 4096) % 64,
        (0x80u8 | ((v >> 6u32) & 0x3Fu32) as u8) as int == 0x80 + (v as int / 64) % 64,
        (0x80u8 | (v & 0x3Fu32) as u8) as int == 0x80 + v as int % 64,
{
    assert((0xF0u8 | ((v >> 18u32) & 0x7u32) as u8) == (0xF0u32 + v / 262144) as u8 && 0xF0u32 + v / 262144
        < 256) by (bit_vector)
        requires
            0x10000 <= v <= 0x10FFFF,
    ;
    assert((0x80u8 | ((v >> 12u32) & 0x3Fu32) as u8) == (0x80u32 + (v / 4096) % 64) as u8) by (bit_vector);
    assert((0x80u8 | ((v >> 6u32) & 0x3Fu32) as u8) == (0x80u32 + (v / 64) % 64) as u8) by (bit_vector);
    assert((0x80u8 | (v & 0x3Fu32) as u8) == (0x80u32 + v % 64) as u8) by (bit_vector);
}


/// Decoding the UTF-8 encoding of `c`, with any bytes after it, reads the
/// whole encoding as one codepoint, packed as `packed_utf8(c)`.
proof fn lemma_char_code(c: char, rest: Seq<u8>)
    ensures
        ({
            let e = vstd::utf8::encode_scalar(c as u32);
            let bytes = e + rest;
            &&& 1 <= e.len() <= 4
            &&& step_width(bytes, 0) == e.len()
            &&& pack(bytes, 0, e.len()) == packed_utf8(c)
        }),
{
    let v = c as u32;
    vstd::utf8::char_is_scalar(c);
    let e = vstd::utf8::encode_scalar(v);
    let bytes = e + rest;
    if v < 0x80 {
        assert((v & 0x7Fu32) as u8 as int == v as int) by (bit_vector)
            requires
                v < 0x80,
        ;
        assert(bytes[0] == e[0]);
    } else if v < 0x800 {
        lemma_width_2_bytes(v);
        assert(bytes[0] == e[0] && bytes[1] == e[1]);
    } else if v < 0x10000 {
        lemma_width_3_bytes(v);
        assert(bytes[0] == e[0] && bytes[1] == e[1] && bytes[2] == e[2]);
    } else {
        lemma_width_4_bytes(v);
        assert(bytes[0] == e[0] && bytes[1] == e[1] && bytes[2] == e[2] && bytes[3] == e[3]);
    }
}

/// Decoding the bytes of a string gives the packed codes of its characters.
pub proof fn lemma_codes_of_encoding(cs: Seq<char>)
    ensures
        codes_of(vstd::utf8::encode_utf8(cs)) == char_codes(cs),
    decreases cs.len(),
{
    if cs.len() == 0 {
        assert(codes_of(vstd::utf8::encode_utf8(cs)) =~= cs.map_values(|c: char| packed_utf8(c)));
    } else {
        let e = vstd::utf8::encode_scalar(cs[0] as u32);
        let rest = vstd::utf8::encode_utf8(cs.drop_first());
        let bytes = vstd::utf8::encode_utf8(cs);
        assert(bytes == e + rest);
        lemma_char_code(cs[0], rest);
        lemma_codes_of_encoding(cs.drop_first());
        assert(bytes.subrange(e.len() as int, bytes.len() as int) =~= rest);
        assert(codes_of(bytes) == seq![packed_utf8(cs[0])] + codes_of(rest));
        assert(codes_of(bytes) =~= cs.map_values(|c: char| packed_utf8(c)));
    }
}

} // verus!
